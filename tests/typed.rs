use state_extension::region::append_entry;
use state_extension::state::ExtensionState;
use state_extension::state_extension::{same_key, StateExtension};

const PROGRAM: [u8; 32] = [7; 32];
const STRANGER: [u8; 32] = [8; 32];

struct Vault;

impl StateExtension for Vault {
    const BASE_STATE_LEN: usize = 64;
    const OWNER_PROGRAM: [u8; 32] = PROGRAM;
    const MAX_EXTENSIONS: u8 = 4;
    const EXT_START_MARKER: [u8; 8] = *b"EXTSTART";
}

fn region(entries: &[(u8, usize)]) -> Vec<u8> {
    let mut data = vec![0u8; 64];
    for &(tag, len) in entries {
        append_entry(&mut data, 64, &Vault::EXT_START_MARKER, tag, &vec![3u8; len]).unwrap();
    }
    data
}

#[test]
fn typed_listing_keeps_recognized_tags_in_order() {
    // tags 0 and 1 name the two states; 5 names none and is skipped
    let data = region(&[(1, 2), (5, 4), (0, 0), (1, 1)]);
    assert_eq!(
        Vault::get_extension_variants::<ExtensionState>(&PROGRAM, &data),
        Some(vec![ExtensionState::Zerod, ExtensionState::Initialized, ExtensionState::Zerod])
    );
    assert_eq!(Vault::get_extension_variants::<ExtensionState>(&STRANGER, &data), None);
    assert_eq!(
        Vault::get_extension_variants_from_acc_data_uncheked::<ExtensionState>(&region(&[(9, 3)])),
        Some(vec![])
    );
}

#[test]
fn typed_listing_without_region() {
    let data = vec![0u8; 64];
    assert_eq!(Vault::get_extension_variants::<ExtensionState>(&PROGRAM, &data), None);
    assert_eq!(Vault::get_extension_variants_from_acc_data_uncheked::<ExtensionState>(&data), None);
    let mut short = vec![0u8; 70];
    short[64..70].copy_from_slice(b"EXTSTA");
    assert_eq!(Vault::get_extension_variants::<ExtensionState>(&PROGRAM, &short), None);
}

#[test]
fn typed_owner_checks() {
    assert!(same_key(&PROGRAM, &PROGRAM));
    assert!(!same_key(&PROGRAM, &STRANGER));
    assert_eq!(Vault::len(), 64);
    assert!(Vault::check_ext_marker(b"EXTSTART"));
}
