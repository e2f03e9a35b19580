use state_extension::error::{ExtensionError, StateExtensionError};
use state_extension::locator::{entry_tags, locate_entry, marker_equals, marker_present};
use state_extension::region::{
    append_entry, copy_into, encode_entry, space_to_reserve, update_entry, write_entry,
    zero_out_entry,
};
use state_extension::state::{ExtensionEnum, ExtensionState};

const BASE: usize = 64;
const MARKER: [u8; 8] = *b"EXTSTART";

fn base_record() -> Vec<u8> {
    vec![0xAB; BASE]
}

fn payload(len: usize, seed: u8) -> Vec<u8> {
    (0..len).map(|i| seed.wrapping_add(i as u8)).collect()
}

fn with_two_entries() -> Vec<u8> {
    let mut data = base_record();
    append_entry(&mut data, BASE, &MARKER, 5, &payload(16, 1)).unwrap();
    append_entry(&mut data, BASE, &MARKER, 7, &payload(32, 100)).unwrap();
    data
}

#[test]
fn first_add_writes_marker_and_entry() {
    let mut data = base_record();
    let p = payload(16, 1);
    assert_eq!(append_entry(&mut data, BASE, &MARKER, 5, &p), Ok(()));
    assert_eq!(data.len(), 92);
    assert_eq!(&data[0..64], &base_record()[..]);
    assert_eq!(&data[64..72], &MARKER[..]);
    assert_eq!(data[72], 5);
    assert_eq!(data[73], ExtensionState::Initialized.as_u8());
    assert_eq!(&data[74..76], &16u16.to_le_bytes()[..]);
    assert_eq!(&data[76..92], &p[..]);
}

#[test]
fn second_add_appends_after_first_entry() {
    let data = with_two_entries();
    assert_eq!(data.len(), 128);
    assert_eq!(&data[64..72], &MARKER[..]);
    assert_eq!(data[92], 7);
    assert_eq!(data[93], 0);
    assert_eq!(&data[94..96], &32u16.to_le_bytes()[..]);
    assert_eq!(&data[96..128], &payload(32, 100)[..]);
    assert_eq!(locate_entry(&data, BASE, &MARKER, 7, 32), Some((92, ExtensionState::Initialized)));
}

#[test]
fn adding_same_tag_twice_keeps_two_entries() {
    let mut data = base_record();
    append_entry(&mut data, BASE, &MARKER, 5, &payload(16, 1)).unwrap();
    let after_first = data.len();
    append_entry(&mut data, BASE, &MARKER, 5, &payload(16, 50)).unwrap();
    assert_eq!(data.len(), after_first + 20);
    append_entry(&mut data, BASE, &MARKER, 5, &payload(16, 90)).unwrap();
    assert_eq!(data.len(), after_first + 40);
    assert_eq!(entry_tags(&data, BASE, &MARKER), Some(vec![5, 5, 5]));
    // a lookup finds the earliest of them
    assert_eq!(locate_entry(&data, BASE, &MARKER, 5, 16), Some((72, ExtensionState::Initialized)));
}

#[test]
fn listing_follows_append_order() {
    let mut data = base_record();
    for (tag, len) in [(9u8, 3usize), (2, 0), (200, 8), (2, 1)] {
        append_entry(&mut data, BASE, &MARKER, tag, &payload(len, tag)).unwrap();
    }
    assert_eq!(entry_tags(&data, BASE, &MARKER), Some(vec![9, 2, 200, 2]));
}

#[test]
fn lookup_of_absent_tag_finds_nothing_and_changes_nothing() {
    let data = with_two_entries();
    let before = data.clone();
    assert_eq!(locate_entry(&data, BASE, &MARKER, 6, 16), None);
    // a present tag at another payload length does not decode
    assert_eq!(locate_entry(&data, BASE, &MARKER, 5, 32), None);
    assert_eq!(data, before);
}

#[test]
fn lookup_of_present_tag_finds_its_header() {
    let data = with_two_entries();
    let (pos, state) = locate_entry(&data, BASE, &MARKER, 5, 16).unwrap();
    assert_eq!(pos, 72);
    assert_eq!(state, ExtensionState::Initialized);
    assert_eq!(data[pos], 5);
}

#[test]
fn bare_base_record_has_no_extensions() {
    let data = base_record();
    assert_eq!(entry_tags(&data, BASE, &MARKER), None);
    assert_eq!(locate_entry(&data, BASE, &MARKER, 5, 16), None);
    assert!(!marker_present(&data, BASE, &MARKER));
}

#[test]
fn wrong_marker_means_no_region() {
    let mut data = with_two_entries();
    data[64] ^= 1;
    assert_eq!(entry_tags(&data, BASE, &MARKER), None);
    assert_eq!(locate_entry(&data, BASE, &MARKER, 5, 16), None);
}

#[test]
fn marker_only_region_is_empty() {
    let mut data = base_record();
    data.extend_from_slice(&MARKER);
    assert_eq!(entry_tags(&data, BASE, &MARKER), Some(vec![]));
}

#[test]
fn cut_payload_keeps_prior_entries() {
    let mut data = with_two_entries();
    data.truncate(127);
    assert_eq!(entry_tags(&data, BASE, &MARKER), Some(vec![5]));
    assert_eq!(locate_entry(&data, BASE, &MARKER, 7, 32), None);
    assert_eq!(locate_entry(&data, BASE, &MARKER, 5, 16), Some((72, ExtensionState::Initialized)));
}

#[test]
fn cut_header_keeps_prior_entries() {
    let mut data = with_two_entries();
    data.truncate(92 + 3);
    assert_eq!(entry_tags(&data, BASE, &MARKER), Some(vec![5]));
    data.truncate(92 + 1);
    assert_eq!(entry_tags(&data, BASE, &MARKER), Some(vec![5]));
    assert_eq!(locate_entry(&data, BASE, &MARKER, 7, 32), None);
}

#[test]
fn unknown_state_stops_lookup_but_not_listing() {
    let mut data = with_two_entries();
    data[73] = 9;
    assert_eq!(locate_entry(&data, BASE, &MARKER, 7, 32), None);
    assert_eq!(entry_tags(&data, BASE, &MARKER), Some(vec![5, 7]));
}

#[test]
fn add_refuses_short_or_empty_buffers() {
    let mut empty: Vec<u8> = Vec::new();
    assert_eq!(append_entry(&mut empty, BASE, &MARKER, 5, &payload(4, 0)), Err(ExtensionError::InvalidAccountData));
    assert!(empty.is_empty());
    let mut short = vec![0u8; BASE - 1];
    assert_eq!(append_entry(&mut short, BASE, &MARKER, 5, &payload(4, 0)), Err(ExtensionError::InvalidAccountData));
    assert_eq!(short.len(), BASE - 1);
    let mut empty_no_base: Vec<u8> = Vec::new();
    assert_eq!(append_entry(&mut empty_no_base, 0, &MARKER, 5, &payload(4, 0)), Err(ExtensionError::InvalidAccountData));
}

#[test]
fn reserved_space_counts_marker_once() {
    assert_eq!(space_to_reserve(64, 64, 16), Ok(28));
    assert_eq!(space_to_reserve(92, 64, 32), Ok(36));
    assert_eq!(space_to_reserve(0, 64, 16), Err(ExtensionError::InvalidAccountData));
    assert_eq!(space_to_reserve(63, 64, 16), Err(ExtensionError::InvalidAccountData));
}

#[test]
fn writing_into_grown_buffer_matches_append() {
    let mut appended = base_record();
    append_entry(&mut appended, BASE, &MARKER, 5, &payload(16, 1)).unwrap();
    let mut grown = base_record();
    let space = space_to_reserve(grown.len(), BASE, 16).unwrap();
    grown.resize(BASE + space, 0);
    write_entry(&mut grown, BASE, BASE, &MARKER, 5, &payload(16, 1));
    assert_eq!(grown, appended);
}

#[test]
fn encoded_entry_layout() {
    let bytes = encode_entry(false, &MARKER, 3, &[9, 8, 7]);
    assert_eq!(bytes, vec![3, 0, 3, 0, 9, 8, 7]);
    let long = encode_entry(true, &MARKER, 1, &payload(300, 0));
    assert_eq!(&long[0..8], &MARKER[..]);
    assert_eq!(&long[8..12], &[1, 0, 44, 1]);
    assert_eq!(long.len(), 8 + 4 + 300);
}

#[test]
fn copy_into_replaces_only_the_range() {
    let mut dst = vec![1u8; 6];
    copy_into(&mut dst, 2, &[7, 8]);
    assert_eq!(dst, vec![1, 1, 7, 8, 1, 1]);
}

#[test]
fn zero_out_clears_payload_and_flips_state() {
    let mut data = with_two_entries();
    assert_eq!(zero_out_entry(&mut data, BASE, &MARKER, 5, 16), Ok(()));
    assert_eq!(data[72], 5);
    assert_eq!(data[73], ExtensionState::Zerod.as_u8());
    assert_eq!(&data[74..76], &16u16.to_le_bytes()[..]);
    assert_eq!(&data[76..92], &[0u8; 16][..]);
    assert_eq!(&data[92..128], &with_two_entries()[92..128]);
    assert_eq!(locate_entry(&data, BASE, &MARKER, 5, 16), Some((72, ExtensionState::Zerod)));
}

#[test]
fn zero_out_twice_reports_already_zeroed() {
    let mut data = with_two_entries();
    zero_out_entry(&mut data, BASE, &MARKER, 7, 32).unwrap();
    let before = data.clone();
    assert_eq!(
        zero_out_entry(&mut data, BASE, &MARKER, 7, 32),
        Err(ExtensionError::State(StateExtensionError::ExtensionDataAleadyZerod))
    );
    assert_eq!(data, before);
}

#[test]
fn zero_out_of_absent_entry_is_a_no_op() {
    let mut data = with_two_entries();
    assert_eq!(zero_out_entry(&mut data, BASE, &MARKER, 42, 16), Ok(()));
    assert_eq!(data, with_two_entries());
}

#[test]
fn update_rewrites_payload_in_place() {
    let mut data = with_two_entries();
    let fresh = payload(32, 200);
    assert_eq!(update_entry(&mut data, BASE, &MARKER, 7, &fresh), Ok(()));
    assert_eq!(data.len(), 128);
    assert_eq!(&data[92..96], &[7, 0, 32, 0]);
    assert_eq!(&data[96..128], &fresh[..]);
    assert_eq!(&data[0..92], &with_two_entries()[0..92]);
}

#[test]
fn update_of_zeroed_entry_is_refused() {
    let mut data = with_two_entries();
    zero_out_entry(&mut data, BASE, &MARKER, 5, 16).unwrap();
    let before = data.clone();
    assert_eq!(
        update_entry(&mut data, BASE, &MARKER, 5, &payload(16, 3)),
        Err(ExtensionError::State(StateExtensionError::ExtensionDataIsNotInitialized))
    );
    assert_eq!(data, before);
}

#[test]
fn update_of_absent_entry_is_a_no_op() {
    let mut data = with_two_entries();
    assert_eq!(update_entry(&mut data, BASE, &MARKER, 8, &payload(16, 3)), Ok(()));
    assert_eq!(data, with_two_entries());
}

#[test]
fn state_bytes_round_trip() {
    assert_eq!(ExtensionState::Initialized.as_u8(), 0);
    assert_eq!(ExtensionState::Zerod.as_u8(), 1);
    assert_eq!(ExtensionState::from_u8(0), Some(ExtensionState::Initialized));
    assert_eq!(ExtensionState::from_u8(1), Some(ExtensionState::Zerod));
    assert_eq!(ExtensionState::from_u8(2), None);
}

#[test]
fn error_codes() {
    assert_eq!(StateExtensionError::ExtensionDataAleadyZerod.code(), 0);
    assert_eq!(StateExtensionError::ExtensionDataIsNotInitialized.code(), 1);
}

#[test]
fn marker_comparison() {
    assert!(marker_equals(b"EXTSTART", &MARKER));
    assert!(!marker_equals(b"EXTSTARX", &MARKER));
    assert!(!marker_equals(b"EXTSTAR", &MARKER));
}
