use vstd::prelude::*;
use pinocchio::pubkey::Pubkey;
use crate::error::ExtensionError;
use crate::extension::{Extension, ExtensionInfo};
use crate::locator::{
    entry_tags, locate_entry, marker_equals, region_locate, region_tags, EXT_MARKER_LEN,
    EXT_META_LEN,
};
use crate::region::{
    appended, appended_bytes, append_entry, lemma_located, reserve_for, space_to_reserve,
    splice, update_entry, update_result, zero_out_result, write_entry, zero_out_entry,
};
use crate::state::{ExtensionEnum, ExtensionState};

verus! {

/// The variants that a list of tags is read as, in order; tags that name no
/// variant are left out.
pub open spec fn recognized<V: ExtensionEnum>(tags: Seq<u8>) -> Seq<V>
    decreases tags.len(),
{
    if tags.len() == 0 {
        Seq::empty()
    } else {
        recognized::<V>(tags.drop_last()) + match V::spec_from_u8(tags.last()) {
            Some(v) => seq![v],
            None => Seq::empty(),
        }
    }
}

/// The entry a lookup found, decoded from its payload bytes.
pub open spec fn found_extension<E: Extension>(data: Seq<u8>, found: Option<(int, ExtensionState)>) -> Option<ExtensionInfo<E>> {
    match found {
        None => None,
        Some((p, s)) => Some(
            ExtensionInfo {
                ext: E::decoded(data.subrange(p + EXT_META_LEN, p + EXT_META_LEN + E::LEN)),
                position: p as usize,
                state: s,
            },
        ),
    }
}

/// Compares two program keys.
pub fn same_key(a: &Pubkey, b: &Pubkey) -> (r: bool)
    ensures
        r == (a@ == b@),
{
    let mut i: usize = 0;
    while i < 32
        invariant
            i <= 32,
            a@.len() == 32,
            b@.len() == 32,
            forall|j: int| 0 <= j < i ==> a@[j] == b@[j],
        decreases 32 - i,
    {
        if a[i] != b[i] {
            return false;
        }
        i = i + 1;
    }
    assert(a@ =~= b@);
    true
}

/// Reads each tag of the list as a variant of `V`, keeping the order and
/// leaving out tags that name no variant.
pub fn recognize_tags<V: ExtensionEnum>(tags: &Vec<u8>) -> (r: Vec<V>)
    ensures
        r@ == recognized::<V>(tags@),
{
    let mut out: Vec<V> = Vec::new();
    let mut i: usize = 0;
    while i < tags.len()
        invariant
            i <= tags@.len(),
            out@ == recognized::<V>(tags@.subrange(0, i as int)),
        decreases tags@.len() - i,
    {
        let ghost before = out@;
        let t = tags[i];
        assert(tags@.subrange(0, i + 1).drop_last() =~= tags@.subrange(0, i as int));
        match V::from_u8(t) {
            Some(v) => {
                out.push(v);
                assert(out@ =~= before + seq![v]);
            },
            None => {
                assert(out@ =~= before + Seq::<V>::empty());
            },
        }
        i = i + 1;
    }
    assert(tags@.subrange(0, tags@.len() as int) =~= tags@);
    out
}

/// A base record type that carries an extension region after its own bytes.
///
/// The buffer holds the base record, then, once the first extension has been
/// added, the marker and the entries in the order they were added.
pub trait StateExtension {
    /// Bytes of the base record.
    const BASE_STATE_LEN: usize;

    /// The program that must own a buffer for it to be read or changed.
    const OWNER_PROGRAM: Pubkey;

    /// The most extension kinds the record is meant to carry.
    const MAX_EXTENSIONS: u8;

    /// The marker that opens the region.
    const EXT_START_MARKER: [u8; 8];

    fn len() -> (r: usize)
        ensures
            r == Self::BASE_STATE_LEN,
    {
        Self::BASE_STATE_LEN
    }

    /// Whether `bytes` are the marker.
    fn check_ext_marker(bytes: &[u8]) -> (r: bool)
        ensures
            r == (bytes@ == Self::EXT_START_MARKER@),
    {
        marker_equals(bytes, &Self::EXT_START_MARKER)
    }

    /// The first step of adding an extension to a buffer that the host must
    /// grow: checks the owner and the buffer and returns how many bytes to add.
    fn reserve_extension_space<E: Extension>(owner: &Pubkey, data_len: usize) -> (r: Result<usize, ExtensionError>)
        ensures
            owner@ != Self::OWNER_PROGRAM@ ==> r == Err::<usize, ExtensionError>(ExtensionError::IllegalOwner),
            owner@ == Self::OWNER_PROGRAM@ ==> match reserve_for(data_len as int, Self::BASE_STATE_LEN as int, E::LEN as int) {
                Ok(n) => r == Ok::<usize, ExtensionError>(n as usize),
                Err(e) => r == Err::<usize, ExtensionError>(e),
            },
    {
        if !same_key(owner, &Self::OWNER_PROGRAM) {
            return Err(ExtensionError::IllegalOwner);
        }
        space_to_reserve(data_len, Self::BASE_STATE_LEN, E::LEN)
    }

    /// The second step of adding an extension: once the buffer has grown
    /// from `data_len` bytes by the reserved space, writes the marker (for the
    /// first extension) and the new initialized entry into the new bytes.
    fn write_extension<E: Extension>(data: &mut [u8], data_len: usize, extension: &E)
        requires
            data_len >= Self::BASE_STATE_LEN,
            data_len + appended_bytes(
                data_len == Self::BASE_STATE_LEN,
                Self::EXT_START_MARKER@,
                E::spec_ext_type(),
                extension.encoded(),
            ).len() <= old(data)@.len(),
        ensures
            final(data)@ == splice(
                old(data)@,
                data_len as int,
                appended_bytes(
                    data_len == Self::BASE_STATE_LEN,
                    Self::EXT_START_MARKER@,
                    E::spec_ext_type(),
                    extension.encoded(),
                ),
            ),
    {
        let payload = extension.pack();
        proof {
            extension.lemma_encoded_len();
        }
        write_entry(data, data_len, Self::BASE_STATE_LEN, &Self::EXT_START_MARKER, E::ext_type(), payload.as_slice());
    }

    /// Adds an extension to a buffer held in memory: checks the owner and
    /// the buffer, grows it by the reserved space and writes the marker (for
    /// the first extension) and the new initialized entry there.
    fn add_extension<E: Extension>(owner: &Pubkey, data: &mut Vec<u8>, extension: &E) -> (r: Result<(), ExtensionError>)
        requires
            old(data)@.len() + EXT_MARKER_LEN + EXT_META_LEN + E::LEN <= usize::MAX,
        ensures
            owner@ != Self::OWNER_PROGRAM@ ==> r == Err::<(), ExtensionError>(ExtensionError::IllegalOwner)
                && final(data)@ == old(data)@,
            owner@ == Self::OWNER_PROGRAM@ ==> match reserve_for(old(data)@.len() as int, Self::BASE_STATE_LEN as int, E::LEN as int) {
                Err(e) => r == Err::<(), ExtensionError>(e) && final(data)@ == old(data)@,
                Ok(_) => r is Ok && final(data)@ == appended(
                    old(data)@,
                    Self::BASE_STATE_LEN as int,
                    Self::EXT_START_MARKER@,
                    E::spec_ext_type(),
                    extension.encoded(),
                ),
            },
    {
        if !same_key(owner, &Self::OWNER_PROGRAM) {
            return Err(ExtensionError::IllegalOwner);
        }
        let payload = extension.pack();
        proof {
            extension.lemma_encoded_len();
        }
        append_entry(data, Self::BASE_STATE_LEN, &Self::EXT_START_MARKER, E::ext_type(), payload.as_slice())
    }

    /// Clears the entry of kind `ext_type`: its payload becomes zeros and its
    /// state zeroed. A buffer of another owner, or one without such an entry,
    /// is left as it is; an entry that is already zeroed is an error.
    fn zero_out_extension_data<E: Extension>(owner: &Pubkey, data: &mut [u8], ext_type: E::ExtensionEnum) -> (r: Result<(), ExtensionError>)
        ensures
            owner@ != Self::OWNER_PROGRAM@ ==> r is Ok && final(data)@ == old(data)@,
            owner@ == Self::OWNER_PROGRAM@ ==> (r, final(data)@) == zero_out_result(
                old(data)@,
                region_locate(
                    old(data)@,
                    Self::BASE_STATE_LEN as int,
                    Self::EXT_START_MARKER@,
                    ext_type.spec_as_u8(),
                    E::LEN as nat,
                ),
                ext_type.spec_as_u8(),
                E::LEN as nat,
            ),
    {
        if !same_key(owner, &Self::OWNER_PROGRAM) {
            return Ok(());
        }
        zero_out_entry(data, Self::BASE_STATE_LEN, &Self::EXT_START_MARKER, ext_type.as_u8(), E::LEN)
    }

    /// Rewrites the entry of kind `ext_type` in place with `extension`. A
    /// buffer of another owner, or one without such an entry, is left as it
    /// is; an entry that was zeroed cannot be rewritten.
    fn update_extension<E: Extension>(owner: &Pubkey, data: &mut [u8], ext_type: E::ExtensionEnum, extension: &E) -> (r: Result<(), ExtensionError>)
        ensures
            owner@ != Self::OWNER_PROGRAM@ ==> r is Ok && final(data)@ == old(data)@,
            owner@ == Self::OWNER_PROGRAM@ ==> (r, final(data)@) == update_result(
                old(data)@,
                region_locate(
                    old(data)@,
                    Self::BASE_STATE_LEN as int,
                    Self::EXT_START_MARKER@,
                    ext_type.spec_as_u8(),
                    E::LEN as nat,
                ),
                ext_type.spec_as_u8(),
                extension.encoded(),
            ),
    {
        if !same_key(owner, &Self::OWNER_PROGRAM) {
            return Ok(());
        }
        let payload = extension.pack();
        proof {
            extension.lemma_encoded_len();
        }
        update_entry(data, Self::BASE_STATE_LEN, &Self::EXT_START_MARKER, ext_type.as_u8(), payload.as_slice())
    }

    /// Lists the kinds of extension present, in the order they were added.
    /// A buffer of another owner, or one that holds no more than its base
    /// record, has none.
    fn get_extension_variants<V: ExtensionEnum>(owner: &Pubkey, data: &[u8]) -> (r: Option<Vec<V>>)
        ensures
            owner@ != Self::OWNER_PROGRAM@ || data@.len() <= Self::BASE_STATE_LEN ==> r is None,
            owner@ == Self::OWNER_PROGRAM@ && data@.len() > Self::BASE_STATE_LEN ==> match region_tags(
                data@,
                Self::BASE_STATE_LEN as int,
                Self::EXT_START_MARKER@,
            ) {
                None => r is None,
                Some(tags) => r matches Some(v) && v@ == recognized::<V>(tags),
            },
    {
        if !same_key(owner, &Self::OWNER_PROGRAM) {
            return None;
        }
        if data.len() <= Self::BASE_STATE_LEN {
            return None;
        }
        Self::get_extension_variants_from_acc_data_uncheked(data)
    }

    /// Lists the kinds of extension present, in the order they were added,
    /// without checking the owner. Tags that name no kind are skipped; the
    /// list stops at an entry that is cut off; without a marker it is `None`.
    fn get_extension_variants_from_acc_data_uncheked<V: ExtensionEnum>(data: &[u8]) -> (r: Option<Vec<V>>)
        ensures
            match region_tags(data@, Self::BASE_STATE_LEN as int, Self::EXT_START_MARKER@) {
                None => r is None,
                Some(tags) => r matches Some(v) && v@ == recognized::<V>(tags),
            },
    {
        match entry_tags(data, Self::BASE_STATE_LEN, &Self::EXT_START_MARKER) {
            None => None,
            Some(tags) => Some(recognize_tags(&tags)),
        }
    }

    /// Finds the entry of kind `ext_type` and decodes it. A buffer of another
    /// owner, or one too short to hold the marker, has none.
    fn get_extension<E: Extension>(owner: &Pubkey, data: &[u8], ext_type: E::ExtensionEnum) -> (r: Option<ExtensionInfo<E>>)
        ensures
            owner@ != Self::OWNER_PROGRAM@ ==> r is None,
            owner@ == Self::OWNER_PROGRAM@ ==> r == found_extension::<E>(
                data@,
                region_locate(
                    data@,
                    Self::BASE_STATE_LEN as int,
                    Self::EXT_START_MARKER@,
                    ext_type.spec_as_u8(),
                    E::LEN as nat,
                ),
            ),
    {
        if !same_key(owner, &Self::OWNER_PROGRAM) {
            return None;
        }
        if data.len() < Self::BASE_STATE_LEN || data.len() - Self::BASE_STATE_LEN < EXT_MARKER_LEN {
            return None;
        }
        Self::get_extension_from_acc_data_unchecked(data, ext_type)
    }

    /// Finds the first entry whose tag is `ext_type` and whose payload has the
    /// type's length, and decodes it, without checking the owner. An unknown
    /// state byte met on the way ends the search with `None`.
    fn get_extension_from_acc_data_unchecked<E: Extension>(data: &[u8], ext_type: E::ExtensionEnum) -> (r: Option<ExtensionInfo<E>>)
        ensures
            r == found_extension::<E>(
                data@,
                region_locate(
                    data@,
                    Self::BASE_STATE_LEN as int,
                    Self::EXT_START_MARKER@,
                    ext_type.spec_as_u8(),
                    E::LEN as nat,
                ),
            ),
    {
        match locate_entry(data, Self::BASE_STATE_LEN, &Self::EXT_START_MARKER, ext_type.as_u8(), E::LEN) {
            None => None,
            Some((position, state)) => {
                let data_len = data.len();
                proof {
                    lemma_located(
                        data@,
                        Self::BASE_STATE_LEN + EXT_MARKER_LEN,
                        ext_type.spec_as_u8(),
                        E::LEN as nat,
                    );
                }
                let start = position + EXT_META_LEN;
                let ext = E::decode(&data[start..start + E::LEN as usize]);
                Some(ExtensionInfo { ext, position, state })
            },
        }
    }
}

} // verus!
