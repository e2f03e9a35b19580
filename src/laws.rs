use vstd::prelude::*;
use crate::locator::{
    complete_at, declared_len, has_marker, le_u16, locate_from, next_entry, region_locate,
    region_tags, tags_from, EXT_MARKER_LEN, EXT_META_LEN,
};
use crate::region::{appended, entry_bytes, lemma_located, MAX_PAYLOAD_LEN};
use crate::state::{state_of_byte, ExtensionState, STATE_INITIALIZED};

verus! {

/// An entry as a value: its tag, its state byte and its payload.
pub type EntryValue = (u8, u8, Seq<u8>);

/// The bytes of a list of entries, one after the other with no gap.
pub open spec fn concat_entries(es: Seq<EntryValue>) -> Seq<u8>
    decreases es.len(),
{
    if es.len() == 0 {
        Seq::empty()
    } else {
        entry_bytes(es[0].0, es[0].1, es[0].2) + concat_entries(es.drop_first())
    }
}

/// The tags of a list of entries, in order.
pub open spec fn tags_of(es: Seq<EntryValue>) -> Seq<u8>
    decreases es.len(),
{
    if es.len() == 0 {
        Seq::empty()
    } else {
        seq![es[0].0] + tags_of(es.drop_first())
    }
}

/// Whether every payload fits the 16-bit length of a header.
pub open spec fn entries_fit(es: Seq<EntryValue>) -> bool {
    forall|i: int| 0 <= i < es.len() ==> (#[trigger] es[i]).2.len() <= MAX_PAYLOAD_LEN
}

/// Whether every state byte is a known state.
pub open spec fn states_known(es: Seq<EntryValue>) -> bool {
    forall|i: int| 0 <= i < es.len() ==> state_of_byte((#[trigger] es[i]).1) is Some
}

/// Whether no whole entry starts at the front of `rest`: too few bytes for a
/// header, or fewer payload bytes than the header declares.
pub open spec fn cut_off(rest: Seq<u8>) -> bool {
    rest.len() < EXT_META_LEN || rest.len() < EXT_META_LEN + le_u16(rest[2], rest[3])
}

/// Whether `data` is a base record of `base` bytes, the marker, the entries
/// `es`, and then `rest`.
pub open spec fn region_holds(data: Seq<u8>, base: int, marker: Seq<u8>, es: Seq<EntryValue>, rest: Seq<u8>) -> bool {
    &&& has_marker(data, base, marker)
    &&& entries_fit(es)
    &&& data.subrange(base + EXT_MARKER_LEN, data.len() as int) == concat_entries(es) + rest
}

/// Whether `data` is a buffer that adds have built: only the base record, or
/// the base record, the marker and the entries `es`.
pub open spec fn built_by_adds(data: Seq<u8>, base: int, marker: Seq<u8>, es: Seq<EntryValue>) -> bool {
    ||| (data.len() == base && es.len() == 0)
    ||| region_holds(data, base, marker, es, Seq::empty())
}

/// The first entry of the list, at byte `pos` on, with tag `tag` and a
/// payload of `len` bytes, where no unknown state comes before it.
pub open spec fn find_in(es: Seq<EntryValue>, pos: int, tag: u8, len: nat) -> Option<(int, ExtensionState)>
    decreases es.len(),
{
    if es.len() == 0 {
        None
    } else {
        match state_of_byte(es[0].1) {
            None => None,
            Some(s) => if es[0].0 == tag && es[0].2.len() == len {
                Some((pos, s))
            } else {
                find_in(es.drop_first(), pos + EXT_META_LEN + es[0].2.len(), tag, len)
            },
        }
    }
}

proof fn lemma_concat_push(es: Seq<EntryValue>, e: EntryValue)
    ensures
        concat_entries(es.push(e)) == concat_entries(es) + entry_bytes(e.0, e.1, e.2),
    decreases es.len(),
{
    if es.len() == 0 {
        assert(es.push(e).drop_first() =~= Seq::<EntryValue>::empty());
        assert(es.push(e)[0] == e);
        assert(concat_entries(es.push(e).drop_first()) == Seq::<u8>::empty());
        assert(concat_entries(es.push(e)) =~= concat_entries(es) + entry_bytes(e.0, e.1, e.2));
    } else {
        assert(es.push(e).drop_first() =~= es.drop_first().push(e));
        assert(es.push(e)[0] == es[0]);
        lemma_concat_push(es.drop_first(), e);
        let head = entry_bytes(es[0].0, es[0].1, es[0].2);
        assert(concat_entries(es.push(e)) == head + concat_entries(es.drop_first().push(e)));
        assert(concat_entries(es.push(e)) =~= concat_entries(es) + entry_bytes(e.0, e.1, e.2));
    }
}

proof fn lemma_tags_push(es: Seq<EntryValue>, e: EntryValue)
    ensures
        tags_of(es.push(e)) == tags_of(es).push(e.0),
    decreases es.len(),
{
    if es.len() == 0 {
        assert(es.push(e).drop_first() =~= Seq::<EntryValue>::empty());
        assert(es.push(e)[0] == e);
        assert(tags_of(es.push(e).drop_first()) == Seq::<u8>::empty());
        assert(tags_of(es.push(e)) =~= tags_of(es).push(e.0));
    } else {
        assert(es.push(e).drop_first() =~= es.drop_first().push(e));
        assert(es.push(e)[0] == es[0]);
        lemma_tags_push(es.drop_first(), e);
        assert(tags_of(es.push(e)) =~= tags_of(es).push(e.0));
    }
}

/// Scanning from `cursor` over the entries `es` followed by bytes that hold no
/// whole entry reads exactly those entries.
proof fn lemma_scan(data: Seq<u8>, cursor: int, es: Seq<EntryValue>, rest: Seq<u8>, tag: u8, len: nat)
    requires
        0 <= cursor <= data.len(),
        data.subrange(cursor, data.len() as int) == concat_entries(es) + rest,
        entries_fit(es),
        cut_off(rest),
    ensures
        tags_from(data, cursor) == tags_of(es),
        locate_from(data, cursor, tag, len) == find_in(es, cursor, tag, len),
    decreases es.len(),
{
    let tail = data.subrange(cursor, data.len() as int);
    assert forall|k: int| 0 <= k < tail.len() implies tail[k] == data[cursor + k] by {}
    if es.len() == 0 {
        assert(tail =~= rest);
        if rest.len() >= EXT_META_LEN {
            assert(data[cursor + 2] == rest[2]);
            assert(data[cursor + 3] == rest[3]);
        }
        assert(!complete_at(data, cursor));
    } else {
        let e = es[0];
        let n = e.2.len();
        assert(n <= MAX_PAYLOAD_LEN);
        let bytes = entry_bytes(e.0, e.1, e.2);
        assert(tail =~= bytes + (concat_entries(es.drop_first()) + rest));
        assert(tail[0] == data[cursor]);
        assert(tail[1] == data[cursor + 1]);
        assert(tail[2] == data[cursor + 2]);
        assert(tail[3] == data[cursor + 3]);
        assert(data[cursor] == e.0);
        assert(data[cursor + 1] == e.1);
        assert(data[cursor + 2] == (n % 256) as u8);
        assert(data[cursor + 3] == (n / 256) as u8);
        assert(declared_len(data, cursor) == n) by {
            assert((n % 256) as u8 as nat == n % 256);
            assert((n / 256) as u8 as nat == n / 256);
        }
        assert(complete_at(data, cursor));
        let next = next_entry(data, cursor);
        assert(next == cursor + EXT_META_LEN + n);
        assert(data.subrange(next, data.len() as int) =~= concat_entries(es.drop_first()) + rest) by {
            assert forall|k: int| 0 <= k < data.len() - next implies data.subrange(next, data.len() as int)[k]
                == (concat_entries(es.drop_first()) + rest)[k] by {
                assert(tail[EXT_META_LEN + n + k] == data[next + k]);
            }
        }
        assert(entries_fit(es.drop_first())) by {
            assert forall|i: int| 0 <= i < es.drop_first().len() implies (#[trigger] es.drop_first()[i]).2.len()
                <= MAX_PAYLOAD_LEN by {
                assert(es.drop_first()[i] == es[i + 1]);
            }
        }
        lemma_scan(data, next, es.drop_first(), rest, tag, len);
    }
}

/// A buffer of exactly its base record has no region: listing finds no
/// extensions and a lookup finds nothing, and neither is an error.
pub proof fn bare_record_has_no_region(data: Seq<u8>, base: int, marker: Seq<u8>, tag: u8, len: nat)
    requires
        data.len() == base,
    ensures
        region_tags(data, base, marker) is None,
        region_locate(data, base, marker, tag, len) is None,
{
}

/// A region cut off inside an entry, by a header shorter than four bytes or
/// a payload shorter than declared, lists only the whole entries before the
/// cut, and a lookup sees only those.
pub proof fn cut_off_region_keeps_whole_entries(
    data: Seq<u8>,
    base: int,
    marker: Seq<u8>,
    es: Seq<EntryValue>,
    rest: Seq<u8>,
    tag: u8,
    len: nat,
)
    requires
        region_holds(data, base, marker, es, rest),
        cut_off(rest),
    ensures
        region_tags(data, base, marker) == Some(tags_of(es)),
        region_locate(data, base, marker, tag, len) == find_in(es, base + EXT_MARKER_LEN, tag, len),
{
    lemma_scan(data, base + EXT_MARKER_LEN, es, rest, tag, len);
}

/// Listing a region of whole entries gives every entry's tag, in the order
/// the entries were added.
pub proof fn listing_keeps_append_order(data: Seq<u8>, base: int, marker: Seq<u8>, es: Seq<EntryValue>)
    requires
        region_holds(data, base, marker, es, Seq::empty()),
    ensures
        region_tags(data, base, marker) == Some(tags_of(es)),
{
    lemma_scan(data, base + EXT_MARKER_LEN, es, Seq::empty(), 0, 0);
}

proof fn lemma_find_in(es: Seq<EntryValue>, pos: int, tag: u8, len: nat)
    ensures
        (forall|i: int| 0 <= i < es.len() ==> (#[trigger] es[i]).0 != tag) ==> find_in(es, pos, tag, len) is None,
        states_known(es) && (exists|i: int| 0 <= i < es.len() && (#[trigger] es[i]).0 == tag && es[i].2.len() == len)
            ==> find_in(es, pos, tag, len) is Some,
    decreases es.len(),
{
    if es.len() > 0 {
        lemma_find_in(es.drop_first(), pos + EXT_META_LEN + es[0].2.len(), tag, len);
        if forall|i: int| 0 <= i < es.len() ==> (#[trigger] es[i]).0 != tag {
            assert forall|i: int| 0 <= i < es.drop_first().len() implies (#[trigger] es.drop_first()[i]).0 != tag by {
                assert(es.drop_first()[i] == es[i + 1]);
            }
        }
        if states_known(es) && (exists|i: int| 0 <= i < es.len() && (#[trigger] es[i]).0 == tag && es[i].2.len() == len) {
            let i = choose|i: int| 0 <= i < es.len() && (#[trigger] es[i]).0 == tag && es[i].2.len() == len;
            assert(state_of_byte(es[0].1) is Some);
            if i > 0 && !(es[0].0 == tag && es[0].2.len() == len) {
                assert(es.drop_first()[i - 1] == es[i]);
                assert(states_known(es.drop_first())) by {
                    assert forall|j: int| 0 <= j < es.drop_first().len() implies state_of_byte(
                        (#[trigger] es.drop_first()[j]).1,
                    ) is Some by {
                        assert(es.drop_first()[j] == es[j + 1]);
                    }
                }
            }
        }
    }
}

/// In a region of whole entries, a lookup of a tag that no entry has finds
/// nothing. Where every state byte is known and some entry has the tag and
/// the type's length, the lookup finds an entry, and what it finds has that
/// tag in its header and a payload of exactly that length.
pub proof fn lookup_finds_present_tags(data: Seq<u8>, base: int, marker: Seq<u8>, es: Seq<EntryValue>, tag: u8, len: nat)
    requires
        region_holds(data, base, marker, es, Seq::empty()),
    ensures
        (forall|i: int| 0 <= i < es.len() ==> (#[trigger] es[i]).0 != tag) ==> region_locate(data, base, marker, tag, len) is None,
        states_known(es) && (exists|i: int| 0 <= i < es.len() && (#[trigger] es[i]).0 == tag && es[i].2.len() == len)
            ==> region_locate(data, base, marker, tag, len) is Some,
        region_locate(data, base, marker, tag, len) matches Some(f) ==> {
            &&& data[f.0] == tag
            &&& declared_len(data, f.0) == len
            &&& f.0 + EXT_META_LEN + len <= data.len()
        },
{
    lemma_scan(data, base + EXT_MARKER_LEN, es, Seq::empty(), tag, len);
    lemma_find_in(es, base + EXT_MARKER_LEN, tag, len);
    if region_locate(data, base, marker, tag, len) is Some {
        lemma_located(data, base + EXT_MARKER_LEN, tag, len);
    }
}

/// Adding to a buffer that adds have built appends one more whole entry,
/// and grows the buffer by the entry's size, plus the marker's for the
/// first one.
pub proof fn add_appends_one_entry(data: Seq<u8>, base: int, marker: Seq<u8>, es: Seq<EntryValue>, tag: u8, payload: Seq<u8>)
    requires
        0 <= base,
        marker.len() == EXT_MARKER_LEN,
        built_by_adds(data, base, marker, es),
        payload.len() <= MAX_PAYLOAD_LEN,
    ensures
        region_holds(appended(data, base, marker, tag, payload), base, marker, es.push((tag, STATE_INITIALIZED, payload)), Seq::empty()),
        appended(data, base, marker, tag, payload).len() == data.len() + EXT_META_LEN + payload.len()
            + if data.len() == base { EXT_MARKER_LEN as int } else { 0 },
{
    let e: EntryValue = (tag, STATE_INITIALIZED, payload);
    let d = appended(data, base, marker, tag, payload);
    let bytes = entry_bytes(tag, STATE_INITIALIZED, payload);
    lemma_concat_push(es, e);
    if data.len() == base {
        assert(es.push(e).drop_first() =~= Seq::<EntryValue>::empty());
        assert(concat_entries(es.push(e)) =~= bytes);
        assert(d.subrange(base, base + EXT_MARKER_LEN) =~= marker);
        assert(d.subrange(base + EXT_MARKER_LEN, d.len() as int) =~= concat_entries(es.push(e)) + Seq::<u8>::empty());
    } else {
        assert(d.subrange(base, base + EXT_MARKER_LEN) =~= data.subrange(base, base + EXT_MARKER_LEN));
        assert(d.subrange(base + EXT_MARKER_LEN, d.len() as int) =~= data.subrange(base + EXT_MARKER_LEN, data.len() as int) + bytes);
        assert(concat_entries(es) + Seq::<u8>::empty() =~= concat_entries(es));
        assert(d.subrange(base + EXT_MARKER_LEN, d.len() as int) =~= concat_entries(es.push(e)) + Seq::<u8>::empty());
    }
    assert(entries_fit(es.push(e))) by {
        assert forall|i: int| 0 <= i < es.push(e).len() implies (#[trigger] es.push(e)[i]).2.len() <= MAX_PAYLOAD_LEN by {
            if i < es.len() {
                assert(es.push(e)[i] == es[i]);
            }
        }
    }
}

/// Adding twice under the same tag leaves two separate entries, listed one
/// after the other, and each add grows the buffer by the entry's size.
pub proof fn adding_twice_keeps_two_entries(
    data: Seq<u8>,
    base: int,
    marker: Seq<u8>,
    es: Seq<EntryValue>,
    tag: u8,
    first: Seq<u8>,
    second: Seq<u8>,
)
    requires
        0 <= base,
        marker.len() == EXT_MARKER_LEN,
        built_by_adds(data, base, marker, es),
        data.len() > base,
        first.len() == second.len(),
        first.len() <= MAX_PAYLOAD_LEN,
    ensures
        ({
            let once = appended(data, base, marker, tag, first);
            let twice = appended(once, base, marker, tag, second);
            &&& once.len() == data.len() + EXT_META_LEN + first.len()
            &&& twice.len() == once.len() + EXT_META_LEN + second.len()
            &&& region_holds(
                twice,
                base,
                marker,
                es.push((tag, STATE_INITIALIZED, first)).push((tag, STATE_INITIALIZED, second)),
                Seq::empty(),
            )
            &&& region_tags(twice, base, marker) == Some(tags_of(es).push(tag).push(tag))
        }),
{
    let once = appended(data, base, marker, tag, first);
    let es1 = es.push((tag, STATE_INITIALIZED, first));
    let es2 = es1.push((tag, STATE_INITIALIZED, second));
    add_appends_one_entry(data, base, marker, es, tag, first);
    add_appends_one_entry(once, base, marker, es1, tag, second);
    let twice = appended(once, base, marker, tag, second);
    listing_keeps_append_order(twice, base, marker, es2);
    lemma_tags_push(es, (tag, STATE_INITIALIZED, first));
    lemma_tags_push(es1, (tag, STATE_INITIALIZED, second));
}

} // verus!
