use vstd::prelude::*;
use crate::state::{ExtensionState, state_of_byte, STATE_INITIALIZED, STATE_ZEROED};

verus! {

/// Bytes of an entry header: tag, state and a little-endian length.
pub const EXT_META_LEN: usize = 4;

/// Bytes of the marker that opens the extension region.
pub const EXT_MARKER_LEN: usize = 8;

/// The value of a little-endian 16-bit length.
pub open spec fn le_u16(lo: u8, hi: u8) -> nat {
    lo as nat + 256 * (hi as nat)
}

/// The payload length declared by the header that starts at `cursor`.
pub open spec fn declared_len(data: Seq<u8>, cursor: int) -> nat {
    le_u16(data[cursor + 2], data[cursor + 3])
}

/// Whether a whole entry, header and payload, starts at `cursor`.
pub open spec fn complete_at(data: Seq<u8>, cursor: int) -> bool {
    &&& 0 <= cursor
    &&& cursor + EXT_META_LEN <= data.len()
    &&& cursor + EXT_META_LEN + declared_len(data, cursor) <= data.len()
}

/// Where the entry after the one at `cursor` starts.
pub open spec fn next_entry(data: Seq<u8>, cursor: int) -> int {
    cursor + EXT_META_LEN + declared_len(data, cursor)
}

/// The tags of the whole entries from `cursor` on, in order; the scan stops at
/// the first entry that is cut off.
pub open spec fn tags_from(data: Seq<u8>, cursor: int) -> Seq<u8>
    decreases data.len() - cursor,
{
    if complete_at(data, cursor) {
        seq![data[cursor]] + tags_from(data, next_entry(data, cursor))
    } else {
        Seq::empty()
    }
}

/// Whether the marker stands right after a base record of `base` bytes.
pub open spec fn has_marker(data: Seq<u8>, base: int, marker: Seq<u8>) -> bool {
    &&& marker.len() == EXT_MARKER_LEN
    &&& 0 <= base
    &&& base + EXT_MARKER_LEN <= data.len()
    &&& data.subrange(base, base + EXT_MARKER_LEN as int) == marker
}

/// The tags of all whole entries of the region, or `None` without a marker.
pub open spec fn region_tags(data: Seq<u8>, base: int, marker: Seq<u8>) -> Option<Seq<u8>> {
    if has_marker(data, base, marker) {
        Some(tags_from(data, base + EXT_MARKER_LEN))
    } else {
        None
    }
}

/// The first entry from `cursor` on whose tag is `tag` and whose payload has
/// `len` bytes, with its position and state. An unknown state byte met on the
/// way ends the search with nothing found.
pub open spec fn locate_from(data: Seq<u8>, cursor: int, tag: u8, len: nat) -> Option<(int, ExtensionState)>
    decreases data.len() - cursor,
{
    if complete_at(data, cursor) {
        match state_of_byte(data[cursor + 1]) {
            None => None,
            Some(s) => if data[cursor] == tag && declared_len(data, cursor) == len {
                Some((cursor, s))
            } else {
                locate_from(data, next_entry(data, cursor), tag, len)
            },
        }
    } else {
        None
    }
}

/// The entry that a lookup of `tag` at payload length `len` finds in the region.
pub open spec fn region_locate(data: Seq<u8>, base: int, marker: Seq<u8>, tag: u8, len: nat) -> Option<(int, ExtensionState)> {
    if has_marker(data, base, marker) {
        locate_from(data, base + EXT_MARKER_LEN, tag, len)
    } else {
        None
    }
}

/// Compares `bytes` with the region marker.
pub fn marker_equals(bytes: &[u8], marker: &[u8; 8]) -> (r: bool)
    ensures
        r == (bytes@ == marker@),
{
    if bytes.len() != EXT_MARKER_LEN {
        return false;
    }
    let mut i: usize = 0;
    while i < EXT_MARKER_LEN
        invariant
            bytes@.len() == EXT_MARKER_LEN,
            marker@.len() == EXT_MARKER_LEN,
            i <= EXT_MARKER_LEN,
            forall|j: int| 0 <= j < i ==> bytes@[j] == marker@[j],
        decreases EXT_MARKER_LEN - i,
    {
        if bytes[i] != marker[i] {
            return false;
        }
        i = i + 1;
    }
    assert(bytes@ =~= marker@);
    true
}

/// Whether the marker stands right after the base record.
pub fn marker_present(data: &[u8], base_len: usize, marker: &[u8; 8]) -> (r: bool)
    ensures
        r == has_marker(data@, base_len as int, marker@),
{
    if data.len() < EXT_MARKER_LEN || data.len() - EXT_MARKER_LEN < base_len {
        return false;
    }
    let bytes = &data[base_len..base_len + EXT_MARKER_LEN];
    marker_equals(bytes, marker)
}

/// Reads the payload length of the header at `cursor`, if its four bytes are there.
fn read_len(data: &[u8], cursor: usize) -> (r: Option<usize>)
    ensures
        r is Some <==> cursor + EXT_META_LEN <= data@.len(),
        r matches Some(n) ==> n == declared_len(data@, cursor as int),
{
    if data.len() < EXT_META_LEN || data.len() - EXT_META_LEN < cursor {
        return None;
    }
    Some(data[cursor + 2] as usize + 256 * (data[cursor + 3] as usize))
}

/// Lists the tags of the whole entries of the region, in the order they were
/// appended. Without a marker there is no region and the result is `None`.
pub fn entry_tags(data: &[u8], base_len: usize, marker: &[u8; 8]) -> (r: Option<Vec<u8>>)
    ensures
        r matches Some(v) ==> region_tags(data@, base_len as int, marker@) == Some(v@),
        r is None ==> region_tags(data@, base_len as int, marker@) is None,
{
    if !marker_present(data, base_len, marker) {
        return None;
    }
    let data_len = data.len();
    assert(base_len + EXT_MARKER_LEN <= data_len);
    let ghost start: int = base_len + EXT_MARKER_LEN;
    let mut cursor: usize = base_len + EXT_MARKER_LEN;
    let mut tags: Vec<u8> = Vec::new();
    loop
        invariant
            cursor <= data@.len(),
            start == base_len + EXT_MARKER_LEN,
            has_marker(data@, base_len as int, marker@),
            tags_from(data@, start) == tags@ + tags_from(data@, cursor as int),
        decreases data@.len() - cursor,
    {
        let len = match read_len(data, cursor) {
            Some(n) => n,
            None => {
                assert(tags_from(data@, cursor as int) == Seq::<u8>::empty());
                assert(tags@ + Seq::<u8>::empty() =~= tags@);
                assert(region_tags(data@, base_len as int, marker@) == Some(tags@));
                return Some(tags);
            },
        };
        if data.len() - cursor - EXT_META_LEN < len {
            assert(!complete_at(data@, cursor as int));
            assert(tags_from(data@, cursor as int) == Seq::<u8>::empty());
            assert(tags@ + Seq::<u8>::empty() =~= tags@);
            assert(region_tags(data@, base_len as int, marker@) == Some(tags@));
            return Some(tags);
        }
        let ghost before = tags@;
        tags.push(data[cursor]);
        cursor = cursor + EXT_META_LEN + len;
        assert(tags_from(data@, start) == tags@ + tags_from(data@, cursor as int)) by {
            assert(before + (seq![data@[cursor - EXT_META_LEN - len]] + tags_from(data@, cursor as int))
                =~= tags@ + tags_from(data@, cursor as int));
        }
    }
}

/// Finds the first entry with tag `tag` whose payload has `len` bytes, and
/// returns where its header starts and its state. An unknown state byte met
/// before it ends the search with `None`; so do a missing marker and an entry
/// that is cut off.
pub fn locate_entry(data: &[u8], base_len: usize, marker: &[u8; 8], tag: u8, len: u16) -> (r: Option<(usize, ExtensionState)>)
    ensures
        r matches Some(f) ==> region_locate(data@, base_len as int, marker@, tag, len as nat) == Some((f.0 as int, f.1)),
        r is None ==> region_locate(data@, base_len as int, marker@, tag, len as nat) is None,
{
    if !marker_present(data, base_len, marker) {
        return None;
    }
    let data_len = data.len();
    assert(base_len + EXT_MARKER_LEN <= data_len);
    let mut cursor: usize = base_len + EXT_MARKER_LEN;
    loop
        invariant
            cursor <= data@.len(),
            has_marker(data@, base_len as int, marker@),
            region_locate(data@, base_len as int, marker@, tag, len as nat)
                == locate_from(data@, cursor as int, tag, len as nat),
        decreases data@.len() - cursor,
    {
        let n = match read_len(data, cursor) {
            Some(n) => n,
            None => return None,
        };
        if data.len() - cursor - EXT_META_LEN < n {
            return None;
        }
        let state = data[cursor + 1];
        let s = if state == STATE_INITIALIZED {
            ExtensionState::Initialized
        } else if state == STATE_ZEROED {
            ExtensionState::Zerod
        } else {
            return None;
        };
        if data[cursor] == tag && n == len as usize {
            return Some((cursor, s));
        }
        cursor = cursor + EXT_META_LEN + n;
    }
}

} // verus!
