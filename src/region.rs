use vstd::prelude::*;
use crate::error::{ExtensionError, StateExtensionError};
use crate::locator::{
    complete_at, declared_len, locate_entry, locate_from, next_entry, region_locate,
    EXT_MARKER_LEN, EXT_META_LEN,
};
use crate::state::{state_of_byte, ExtensionState, STATE_INITIALIZED, STATE_ZEROED};

verus! {

/// The largest payload an entry header can declare.
pub const MAX_PAYLOAD_LEN: usize = 65535;

/// The bytes of one entry: tag, state, little-endian payload length, payload.
pub open spec fn entry_bytes(tag: u8, state: u8, payload: Seq<u8>) -> Seq<u8> {
    seq![tag, state, (payload.len() % 256) as u8, (payload.len() / 256) as u8] + payload
}

/// What an append writes after the current end of data: the marker when it
/// opens the region, then a new initialized entry.
pub open spec fn appended_bytes(first: bool, marker: Seq<u8>, tag: u8, payload: Seq<u8>) -> Seq<u8> {
    if first {
        marker + entry_bytes(tag, STATE_INITIALIZED, payload)
    } else {
        entry_bytes(tag, STATE_INITIALIZED, payload)
    }
}

/// How many bytes an append must add to a buffer of `data_len` bytes, or why
/// it cannot append.
pub open spec fn reserve_for(data_len: int, base: int, payload_len: int) -> Result<int, ExtensionError> {
    if data_len == 0 || data_len < base {
        Err(ExtensionError::InvalidAccountData)
    } else if data_len == base {
        Ok(EXT_MARKER_LEN + EXT_META_LEN + payload_len)
    } else {
        Ok(EXT_META_LEN + payload_len)
    }
}

/// The buffer after an append of `payload` under `tag`.
pub open spec fn appended(data: Seq<u8>, base: int, marker: Seq<u8>, tag: u8, payload: Seq<u8>) -> Seq<u8> {
    data + appended_bytes(data.len() == base, marker, tag, payload)
}

/// `data` with the bytes from `at` on replaced by `bytes`.
pub open spec fn splice(data: Seq<u8>, at: int, bytes: Seq<u8>) -> Seq<u8> {
    data.subrange(0, at) + bytes + data.subrange(at + bytes.len(), data.len() as int)
}

/// `n` zero bytes.
pub open spec fn zeros(n: nat) -> Seq<u8> {
    Seq::new(n, |i: int| 0u8)
}

/// The outcome of clearing the entry that a lookup found, and the buffer
/// after it: nothing found changes nothing; an initialized entry gets a
/// zeroed state and a payload of zeros; a zeroed one is an error.
pub open spec fn zero_out_result(
    data: Seq<u8>,
    found: Option<(int, ExtensionState)>,
    tag: u8,
    len: nat,
) -> (Result<(), ExtensionError>, Seq<u8>) {
    match found {
        None => (Ok(()), data),
        Some((_, ExtensionState::Zerod)) => (
            Err(ExtensionError::State(StateExtensionError::ExtensionDataAleadyZerod)),
            data,
        ),
        Some((p, ExtensionState::Initialized)) => (
            Ok(()),
            splice(data, p, entry_bytes(tag, STATE_ZEROED, zeros(len))),
        ),
    }
}

/// The outcome of rewriting the entry that a lookup found with `payload`,
/// and the buffer after it: nothing found changes nothing; an initialized
/// entry gets the new payload; a zeroed one is an error.
pub open spec fn update_result(
    data: Seq<u8>,
    found: Option<(int, ExtensionState)>,
    tag: u8,
    payload: Seq<u8>,
) -> (Result<(), ExtensionError>, Seq<u8>) {
    match found {
        None => (Ok(()), data),
        Some((_, ExtensionState::Zerod)) => (
            Err(ExtensionError::State(StateExtensionError::ExtensionDataIsNotInitialized)),
            data,
        ),
        Some((p, ExtensionState::Initialized)) => (
            Ok(()),
            splice(data, p, entry_bytes(tag, STATE_INITIALIZED, payload)),
        ),
    }
}

/// What a found entry's position and state promise about the bytes there.
pub proof fn lemma_located(data: Seq<u8>, cursor: int, tag: u8, len: nat)
    requires
        locate_from(data, cursor, tag, len) is Some,
    ensures
        ({
            let (p, s) = locate_from(data, cursor, tag, len)->0;
            &&& complete_at(data, p)
            &&& cursor <= p
            &&& data[p] == tag
            &&& declared_len(data, p) == len
            &&& state_of_byte(data[p + 1]) == Some(s)
        }),
    decreases data.len() - cursor,
{
    if complete_at(data, cursor) {
        match state_of_byte(data[cursor + 1]) {
            None => {},
            Some(s) => {
                if !(data[cursor] == tag && declared_len(data, cursor) == len) {
                    lemma_located(data, next_entry(data, cursor), tag, len);
                }
            },
        }
    }
}

/// The bytes that `append_entry` writes after the current end of data.
pub fn encode_entry(first: bool, marker: &[u8; 8], tag: u8, payload: &[u8]) -> (r: Vec<u8>)
    requires
        payload@.len() <= MAX_PAYLOAD_LEN,
    ensures
        r@ == appended_bytes(first, marker@, tag, payload@),
{
    let mut out: Vec<u8> = Vec::new();
    if first {
        let mut i: usize = 0;
        while i < EXT_MARKER_LEN
            invariant
                i <= EXT_MARKER_LEN,
                marker@.len() == EXT_MARKER_LEN,
                out@ == marker@.subrange(0, i as int),
            decreases EXT_MARKER_LEN - i,
        {
            out.push(marker[i]);
            i = i + 1;
            assert(out@ =~= marker@.subrange(0, i as int));
        }
    }
    let ghost prefix = out@;
    let len = payload.len();
    out.push(tag);
    out.push(STATE_INITIALIZED);
    out.push((len % 256) as u8);
    out.push((len / 256) as u8);
    let ghost header = out@;
    let mut i: usize = 0;
    while i < len
        invariant
            i <= len,
            len == payload@.len(),
            out@ == header + payload@.subrange(0, i as int),
        decreases len - i,
    {
        out.push(payload[i]);
        i = i + 1;
        assert(out@ =~= header + payload@.subrange(0, i as int));
    }
    assert(payload@.subrange(0, len as int) =~= payload@);
    assert(out@ =~= appended_bytes(first, marker@, tag, payload@)) by {
        assert(header =~= prefix + seq![tag, STATE_INITIALIZED, (len % 256) as u8, (len / 256) as u8]);
        if first {
            assert(marker@.subrange(0, EXT_MARKER_LEN as int) =~= marker@);
        } else {
            assert(prefix =~= Seq::<u8>::empty());
        }
    }
    out
}

/// Copies `src` into `dst` from offset `at` on.
pub fn copy_into(dst: &mut [u8], at: usize, src: &[u8])
    requires
        at + src@.len() <= old(dst)@.len(),
    ensures
        final(dst)@ == splice(old(dst)@, at as int, src@),
{
    let dst_len = dst.len();
    let mut i: usize = 0;
    while i < src.len()
        invariant
            i <= src@.len(),
            dst@.len() == dst_len,
            at + src@.len() <= dst@.len(),
            dst@.len() == old(dst)@.len(),
            forall|j: int| 0 <= j < dst@.len() ==> #[trigger] dst@[j] == if at <= j < at + i {
                src@[j - at]
            } else {
                old(dst)@[j]
            },
        decreases src@.len() - i,
    {
        dst[at + i] = src[i];
        i = i + 1;
    }
    assert(dst@ =~= splice(old(dst)@, at as int, src@));
}

/// How many bytes an append must add to a buffer of `data_len` bytes whose base
/// record has `base_len` bytes: the marker, when the region does not exist yet,
/// and one entry. An empty buffer, or one shorter than its base record, is
/// refused.
pub fn space_to_reserve(data_len: usize, base_len: usize, payload_len: u16) -> (r: Result<usize, ExtensionError>)
    ensures
        r matches Ok(n) ==> reserve_for(data_len as int, base_len as int, payload_len as int) == Ok::<int, ExtensionError>(n as int),
        r matches Err(e) ==> reserve_for(data_len as int, base_len as int, payload_len as int) == Err::<int, ExtensionError>(e),
{
    if data_len == 0 || data_len < base_len {
        Err(ExtensionError::InvalidAccountData)
    } else if data_len == base_len {
        Ok(EXT_MARKER_LEN + EXT_META_LEN + payload_len as usize)
    } else {
        Ok(EXT_META_LEN + payload_len as usize)
    }
}

/// Writes, into a buffer that has already grown, the marker (when the data
/// used to end with the base record) and a new initialized entry, from
/// `data_len`, the length before growth, on.
pub fn write_entry(data: &mut [u8], data_len: usize, base_len: usize, marker: &[u8; 8], tag: u8, payload: &[u8])
    requires
        payload@.len() <= MAX_PAYLOAD_LEN,
        data_len + appended_bytes(data_len == base_len, marker@, tag, payload@).len() <= old(data)@.len(),
    ensures
        final(data)@ == splice(old(data)@, data_len as int, appended_bytes(data_len == base_len, marker@, tag, payload@)),
{
    let bytes = encode_entry(data_len == base_len, marker, tag, payload);
    copy_into(data, data_len, bytes.as_slice());
}

/// Appends a new initialized entry under `tag` holding `payload`, opening the
/// region with the marker first when the buffer holds only its base record.
/// The buffer grows by exactly the space that `space_to_reserve` names.
pub fn append_entry(data: &mut Vec<u8>, base_len: usize, marker: &[u8; 8], tag: u8, payload: &[u8]) -> (r: Result<(), ExtensionError>)
    requires
        payload@.len() <= MAX_PAYLOAD_LEN,
        old(data)@.len() + EXT_MARKER_LEN + EXT_META_LEN + payload@.len() <= usize::MAX,
    ensures
        reserve_for(old(data)@.len() as int, base_len as int, payload@.len() as int) matches Err(e)
            ==> r == Err::<(), ExtensionError>(e) && final(data)@ == old(data)@,
        reserve_for(old(data)@.len() as int, base_len as int, payload@.len() as int) is Ok
            ==> r is Ok && final(data)@ == appended(old(data)@, base_len as int, marker@, tag, payload@),
{
    let data_len = data.len();
    match space_to_reserve(data_len, base_len, payload.len() as u16) {
        Err(e) => Err(e),
        Ok(_) => {
            let mut bytes = encode_entry(data_len == base_len, marker, tag, payload);
            data.append(&mut bytes);
            Ok(())
        },
    }
}

/// Clears the first entry with tag `tag` and a payload of `len` bytes: its
/// payload becomes zeros and its state zeroed, while its tag and length stay.
/// Nothing found is no error; an entry that is already zeroed is.
pub fn zero_out_entry(data: &mut [u8], base_len: usize, marker: &[u8; 8], tag: u8, len: u16) -> (r: Result<(), ExtensionError>)
    ensures
        (r, final(data)@) == zero_out_result(
            old(data)@,
            region_locate(old(data)@, base_len as int, marker@, tag, len as nat),
            tag,
            len as nat,
        ),
{
    match locate_entry(data, base_len, marker, tag, len) {
        None => Ok(()),
        Some((_, ExtensionState::Zerod)) => Err(ExtensionError::State(StateExtensionError::ExtensionDataAleadyZerod)),
        Some((p, ExtensionState::Initialized)) => {
            proof {
                lemma_located(data@, base_len + EXT_MARKER_LEN, tag, len as nat);
            }
            let data_len = data.len();
            data[p + 1] = STATE_ZEROED;
            let ghost flipped = data@;
            let n = len as usize;
            let start = p + EXT_META_LEN;
            let mut i: usize = 0;
            while i < n
                invariant
                    i <= n,
                    start == p + EXT_META_LEN,
                    start + n <= data@.len(),
                    data@.len() == data_len,
                    data@.len() == flipped.len(),
                    forall|j: int| 0 <= j < data@.len() ==> #[trigger] data@[j] == if start <= j < start + i {
                        0u8
                    } else {
                        flipped[j]
                    },
                decreases n - i,
            {
                data[start + i] = 0;
                i = i + 1;
            }
            assert(data@ =~= splice(old(data)@, p as int, entry_bytes(tag, STATE_ZEROED, zeros(len as nat))));
            Ok(())
        },
    }
}

/// Rewrites the first entry with tag `tag` and a payload as long as `payload`,
/// in place: its payload becomes `payload` and its state initialized. Nothing
/// found is no error; an entry that was zeroed cannot be rewritten.
pub fn update_entry(data: &mut [u8], base_len: usize, marker: &[u8; 8], tag: u8, payload: &[u8]) -> (r: Result<(), ExtensionError>)
    requires
        payload@.len() <= MAX_PAYLOAD_LEN,
    ensures
        (r, final(data)@) == update_result(
            old(data)@,
            region_locate(old(data)@, base_len as int, marker@, tag, payload@.len()),
            tag,
            payload@,
        ),
{
    match locate_entry(data, base_len, marker, tag, payload.len() as u16) {
        None => Ok(()),
        Some((_, ExtensionState::Zerod)) => Err(ExtensionError::State(StateExtensionError::ExtensionDataIsNotInitialized)),
        Some((p, ExtensionState::Initialized)) => {
            proof {
                lemma_located(data@, base_len + EXT_MARKER_LEN, tag, payload@.len());
            }
            let bytes = encode_entry(false, marker, tag, payload);
            copy_into(data, p, bytes.as_slice());
            Ok(())
        },
    }
}

} // verus!
