//! The sparse index: each data block's first key with the block's offset and
//! size, so that a reader can search for the one block that may hold a key. An
//! entry is `[key_len u16][first_key][offset u64][size u64]`, integers in
//! little-endian order; entries stand one after the other without a count.

use super::MAX_KEY_LEN;
use crate::error::{ErrorView, LsmError, Outcome, Result};
use crate::order::{key_order, lex_facts, lex_le, lex_lt, KeyOrder};
use crate::text::{append_decimal, decimal};
use crate::utils;
use vstd::prelude::*;

verus! {

/// Bytes of an index entry besides its key.
pub const INDEX_ENTRY_HEADER_LEN: usize = 18;

/// One data block: its first key and where it stands.
#[derive(Debug, PartialEq, Eq)]
pub struct IndexEntry {
    pub first_key: Vec<u8>,
    pub offset: u64,
    pub size: u64,
}

/// The mathematical content of an [`IndexEntry`].
pub struct IndexView {
    pub first_key: Seq<u8>,
    pub offset: nat,
    pub size: nat,
}

impl View for IndexEntry {
    type V = IndexView;

    open spec fn view(&self) -> IndexView {
        IndexView {
            first_key: self.first_key@,
            offset: self.offset as nat,
            size: self.size as nat,
        }
    }
}

pub open spec fn index_views(es: Seq<IndexEntry>) -> Seq<IndexView> {
    Seq::new(es.len(), |i: int| es[i]@)
}

/// An index entry as it is stored.
#[verifier::opaque]
pub open spec fn entry_bytes(e: IndexView) -> Seq<u8> {
    utils::le_bytes(e.first_key.len(), 2) + e.first_key + utils::le_bytes(e.offset, 8)
        + utils::le_bytes(e.size, 8)
}

/// An index as it is stored.
pub open spec fn index_bytes(es: Seq<IndexView>) -> Seq<u8>
    decreases es.len(),
{
    if es.len() == 0 {
        Seq::empty()
    } else {
        entry_bytes(es[0]) + index_bytes(es.skip(1))
    }
}

/// Why an index cannot be stored, if it cannot: its first key over the limit.
pub open spec fn index_fault(es: Seq<IndexView>) -> Option<ErrorView>
    decreases es.len(),
{
    if es.len() == 0 {
        None
    } else if es[0].first_key.len() > MAX_KEY_LEN {
        Some(ErrorView::KeyTooLarge(es[0].first_key.len(), MAX_KEY_LEN as nat))
    } else {
        index_fault(es.skip(1))
    }
}

pub open spec fn short_entry_text(offset: nat, remaining: nat) -> Seq<char> {
    "sstable index entry at offset "@ + decimal(offset) + " truncated: "@ + decimal(remaining)
        + " bytes left, need at least 18"@
}

pub open spec fn truncated_entry_text(offset: nat, total: nat, remaining: nat) -> Seq<char> {
    "sstable index entry at offset "@ + decimal(offset) + " truncated: header declares "@
        + decimal(total) + " bytes, only "@ + decimal(remaining) + " available"@
}

/// The index entry at `offset` and its length.
pub open spec fn entry_at(bytes: Seq<u8>, offset: nat) -> Outcome<(IndexView, nat)>
    recommends
        offset <= bytes.len(),
{
    let remaining = (bytes.len() - offset) as nat;
    if remaining < INDEX_ENTRY_HEADER_LEN {
        Err(ErrorView::Corruption(short_entry_text(offset, remaining)))
    } else {
        let start = offset as int;
        let key_len = utils::le_value(bytes.subrange(start, start + 2));
        let total = INDEX_ENTRY_HEADER_LEN as nat + key_len;
        if total > remaining {
            Err(ErrorView::Corruption(truncated_entry_text(offset, total, remaining)))
        } else {
            let key_end = start + 2 + key_len;
            Ok(
                (
                    (IndexView {
                        first_key: bytes.subrange(start + 2, key_end),
                        offset: utils::le_value(bytes.subrange(key_end, key_end + 8)),
                        size: utils::le_value(bytes.subrange(key_end + 8, key_end + 16)),
                    }),
                    total,
                ),
            )
        }
    }
}

/// The index entries from `offset` to the end of `bytes`.
pub open spec fn entries_from(bytes: Seq<u8>, offset: nat) -> Outcome<Seq<IndexView>>
    decreases bytes.len() - offset,
{
    if offset >= bytes.len() {
        Ok(Seq::empty())
    } else {
        match entry_at(bytes, offset) {
            Err(e) => Err(e),
            Ok((e, total)) => match entries_from(bytes, offset + total) {
                Err(e) => Err(e),
                Ok(rest) => Ok(seq![e] + rest),
            },
        }
    }
}

/// Whether the blocks of an index are in key order.
pub open spec fn index_sorted(es: Seq<IndexView>) -> bool {
    forall|i: int, j: int|
        #![trigger es[i], es[j]]
        0 <= i < j < es.len() ==> lex_le(es[i].first_key, es[j].first_key)
}

/// Whether `found` is the rightmost block that starts at `key` or before it;
/// `None` if every block starts after `key`.
pub open spec fn rightmost_block(es: Seq<IndexView>, key: Seq<u8>, found: Option<nat>) -> bool {
    match found {
        Some(at) => {
            &&& at < es.len()
            &&& lex_le(es[at as int].first_key, key)
            &&& forall|j: int|
                at < j < es.len() ==> lex_lt(key, (#[trigger] es[j]).first_key)
        },
        None => forall|j: int| 0 <= j < es.len() ==> lex_lt(key, (#[trigger] es[j]).first_key),
    }
}

/// Whether `found` is a block that a search of the index may choose for `key`:
/// the rightmost one that starts at `key` or before it. In an index that is not
/// in key order it is some block of the index, or none.
pub open spec fn chosen_block(es: Seq<IndexView>, key: Seq<u8>, found: Option<nat>) -> bool {
    &&& found matches Some(at) ==> at < es.len()
    &&& index_sorted(es) ==> rightmost_block(es, key, found)
}

/// Whether the offsets and sizes of an index fit in their fields.
pub open spec fn index_fits(es: Seq<IndexView>) -> bool {
    forall|i: int|
        0 <= i < es.len() ==> (#[trigger] es[i]).offset <= u64::MAX && es[i].size <= u64::MAX
}

/// An index can be stored exactly if none of its keys is longer than 65535 bytes.
pub proof fn index_limits(es: Seq<IndexView>)
    ensures
        index_fault(es) is None <==> forall|i: int|
            0 <= i < es.len() ==> (#[trigger] es[i]).first_key.len() <= 65535,
    decreases es.len(),
{
    if es.len() > 0 {
        let rest = es.skip(1);
        index_limits(rest);
        if index_fault(es) is None {
            assert forall|i: int| 0 <= i < es.len() implies (#[trigger] es[i]).first_key.len()
                <= 65535 by {
                if i > 0 {
                    assert(rest[i - 1] == es[i]);
                }
            }
        } else if es[0].first_key.len() <= 65535 {
            let i = choose|i: int|
                0 <= i < rest.len() && (#[trigger] rest[i]).first_key.len() > 65535;
            assert(es[i + 1] == rest[i]);
        }
    }
}

/// The bytes of a stored index entry, one by one: the key length, low byte first; the
/// key; the offset and the size of the block, low byte first.
pub proof fn index_entry_byte_by_byte(e: IndexView)
    requires
        e.first_key.len() <= 65535,
        e.offset <= u64::MAX,
        e.size <= u64::MAX,
    ensures
        ({
            let b = entry_bytes(e);
            let end = 2 + e.first_key.len() as int;
            &&& b.len() == 18 + e.first_key.len()
            &&& b[0] + 0x100 * b[1] == e.first_key.len()
            &&& b.subrange(2, end) == e.first_key
            &&& utils::le_value(b.subrange(end, end + 8)) == e.offset
            &&& utils::le_value(b.subrange(end + 8, end + 16)) == e.size
        }),
{
    reveal(entry_bytes);
    let b = entry_bytes(e);
    let end = 2 + e.first_key.len() as int;
    let klen = utils::le_bytes(e.first_key.len(), 2);
    utils::le_limits();
    utils::le_bytes_len(e.first_key.len(), 2);
    utils::le_bytes_len(e.offset, 8);
    utils::le_bytes_len(e.size, 8);
    utils::le_roundtrip(e.first_key.len(), 2);
    utils::le_roundtrip(e.offset, 8);
    utils::le_roundtrip(e.size, 8);
    utils::bytes_add_up(klen);
    assert(b.subrange(2, end) =~= e.first_key);
    assert(b.subrange(end, end + 8) =~= utils::le_bytes(e.offset, 8));
    assert(b.subrange(end + 8, end + 16) =~= utils::le_bytes(e.size, 8));
}

/// What is read of an index entry, byte by byte. It is read exactly if all that its key
/// length declares is there.
pub proof fn index_entry_is_read_bytewise(bytes: Seq<u8>, offset: nat)
    requires
        offset <= bytes.len(),
    ensures
        entry_at(bytes, offset) is Ok <==> bytes.len() - offset >= 18 + bytes[offset as int] + 0x100
            * bytes[offset as int + 1],
        entry_at(bytes, offset) matches Ok((e, total)) ==> {
            let at = offset as int;
            let end = at + 2 + e.first_key.len();
            &&& e.first_key.len() == bytes[at] + 0x100 * bytes[at + 1]
            &&& total == 18 + e.first_key.len()
            &&& e.first_key == bytes.subrange(at + 2, end)
            &&& e.offset == utils::le_value(bytes.subrange(end, end + 8))
            &&& e.size == utils::le_value(bytes.subrange(end + 8, end + 16))
        },
{
    if bytes.len() - offset >= 18 {
        utils::bytes_add_up(bytes.subrange(offset as int, offset as int + 2));
    }
}

/// What is said of an index entry that cannot be read: where it starts, how many bytes
/// there are, and how many it needs.
pub proof fn unread_index_entry_says_why(bytes: Seq<u8>, offset: nat)
    requires
        offset <= bytes.len(),
    ensures
        bytes.len() - offset < 18 ==> entry_at(bytes, offset) == Err::<(IndexView, nat), ErrorView>(
            ErrorView::Corruption(
                "sstable index entry at offset "@ + decimal(offset) + " truncated: "@ + decimal(
                    (bytes.len() - offset) as nat,
                ) + " bytes left, need at least 18"@,
            ),
        ),
        bytes.len() - offset >= 18 && entry_at(bytes, offset) is Err ==> entry_at(bytes, offset)
            == Err::<(IndexView, nat), ErrorView>(
            ErrorView::Corruption(
                "sstable index entry at offset "@ + decimal(offset)
                    + " truncated: header declares "@ + decimal(
                    (18 + bytes[offset as int] + 0x100 * bytes[offset as int + 1]) as nat,
                ) + " bytes, only "@ + decimal((bytes.len() - offset) as nat) + " available"@,
            ),
        ),
{
    if bytes.len() - offset >= 18 {
        utils::bytes_add_up(bytes.subrange(offset as int, offset as int + 2));
    }
}

/// The entries of an index are stored in their order, one right behind the other.
pub proof fn index_is_in_order(a: Seq<IndexView>, e: IndexView, b: Seq<IndexView>)
    ensures
        index_bytes(a + seq![e] + b) == index_bytes(a) + entry_bytes(e) + index_bytes(b),
    decreases a.len(),
{
    let all = a + seq![e] + b;
    if a.len() == 0 {
        assert(all.skip(1) =~= b);
        assert(all[0] == e);
        assert(index_bytes(all) =~= index_bytes(a) + entry_bytes(e) + index_bytes(b));
    } else {
        let rest = a.skip(1);
        index_is_in_order(rest, e, b);
        assert(all.skip(1) =~= rest + seq![e] + b);
        assert(all[0] == a[0]);
        assert(index_bytes(all) =~= index_bytes(a) + entry_bytes(e) + index_bytes(b));
    }
}

/// An index that was read is stored in just the bytes that it was read from.
pub proof fn read_index_is_stored(bytes: Seq<u8>, offset: nat)
    requires
        offset <= bytes.len(),
        entries_from(bytes, offset) is Ok,
    ensures
        index_bytes(entries_from(bytes, offset)->Ok_0) == bytes.skip(offset as int),
        index_fault(entries_from(bytes, offset)->Ok_0) is None,
        index_fits(entries_from(bytes, offset)->Ok_0),
    decreases bytes.len() - offset,
{
    let es = entries_from(bytes, offset)->Ok_0;
    if offset >= bytes.len() {
        assert(index_bytes(es) =~= bytes.skip(offset as int));
    } else {
        reveal(entry_bytes);
        let at = offset as int;
        let (e, total) = entry_at(bytes, offset)->Ok_0;
        let rest = entries_from(bytes, offset + total)->Ok_0;
        let end = at + 2 + e.first_key.len();
        read_index_is_stored(bytes, offset + total);
        assert(es == seq![e] + rest);
        assert(es.skip(1) =~= rest);
        assert(es[0] == e);
        utils::le_limits();
        utils::le_value_bound(bytes.subrange(at, at + 2));
        utils::le_value_bound(bytes.subrange(end, end + 8));
        utils::le_value_bound(bytes.subrange(end + 8, end + 16));
        utils::le_roundtrip_bytes(bytes.subrange(at, at + 2));
        utils::le_roundtrip_bytes(bytes.subrange(end, end + 8));
        utils::le_roundtrip_bytes(bytes.subrange(end + 8, end + 16));
        assert(bytes.subrange(at, at + 2).len() == 2);
        assert(bytes.subrange(end, end + 8).len() == 8);
        assert(bytes.subrange(end + 8, end + 16).len() == 8);
        assert(bytes.skip(at) =~= entry_bytes(e) + bytes.skip((offset + total) as int));
        assert forall|i: int| 0 <= i < es.len() implies (#[trigger] es[i]).offset <= u64::MAX
            && es[i].size <= u64::MAX by {
            if i > 0 {
                assert(es[i] == rest[i - 1]);
            }
        }
    }
}

/// A stored index entry is read back where it stands, whatever is around it.
pub proof fn entry_roundtrip(before: Seq<u8>, e: IndexView, after: Seq<u8>)
    requires
        e.first_key.len() <= MAX_KEY_LEN,
        e.offset <= u64::MAX,
        e.size <= u64::MAX,
    ensures
        entry_bytes(e).len() == INDEX_ENTRY_HEADER_LEN + e.first_key.len(),
        entry_at(before + entry_bytes(e) + after, before.len()) == Ok::<
            (IndexView, nat),
            ErrorView,
        >((e, entry_bytes(e).len())),
{
    reveal(entry_bytes);
    let bytes = before + entry_bytes(e) + after;
    let start = before.len() as int;
    let n = e.first_key.len();
    utils::le_limits();
    utils::le_bytes_len(n, 2);
    utils::le_bytes_len(e.offset, 8);
    utils::le_bytes_len(e.size, 8);
    utils::le_roundtrip(n, 2);
    utils::le_roundtrip(e.offset, 8);
    utils::le_roundtrip(e.size, 8);
    assert(bytes.subrange(start, start + 2) =~= utils::le_bytes(n, 2));
    assert(bytes.subrange(start + 2, start + 2 + n) =~= e.first_key);
    assert(bytes.subrange(start + 2 + n, start + 2 + n + 8) =~= utils::le_bytes(e.offset, 8));
    assert(bytes.subrange(start + 2 + n + 8, start + 2 + n + 16) =~= utils::le_bytes(e.size, 8));
}

proof fn entries_of_index(before: Seq<u8>, es: Seq<IndexView>)
    requires
        index_fault(es) is None,
        index_fits(es),
    ensures
        entries_from(before + index_bytes(es), before.len()) == Ok::<Seq<IndexView>, ErrorView>(
            es,
        ),
    decreases es.len(),
{
    let bytes = before + index_bytes(es);
    if es.len() == 0 {
        assert(es =~= Seq::empty());
    } else {
        let rest = es.skip(1);
        entry_roundtrip(before, es[0], index_bytes(rest));
        assert(before + entry_bytes(es[0]) + index_bytes(rest) =~= bytes);
        assert forall|i: int| 0 <= i < rest.len() implies (#[trigger] rest[i]).offset <= u64::MAX
            && rest[i].size <= u64::MAX by {
            assert(rest[i] == es[i + 1]);
        }
        entries_of_index(before + entry_bytes(es[0]), rest);
        assert(seq![es[0]] + rest =~= es);
    }
}

/// Parsing a stored index gives back its entries, in order.
pub proof fn index_roundtrip(es: Seq<IndexView>)
    requires
        index_fault(es) is None,
        index_fits(es),
    ensures
        entries_from(index_bytes(es), 0) == Ok::<Seq<IndexView>, ErrorView>(es),
{
    entries_of_index(Seq::empty(), es);
    assert(Seq::<u8>::empty() + index_bytes(es) =~= index_bytes(es));
}

/// In an index in key order one answer only is the rightmost block.
pub proof fn rightmost_unique(
    es: Seq<IndexView>,
    key: Seq<u8>,
    a: Option<nat>,
    b: Option<nat>,
)
    requires
        rightmost_block(es, key, a),
        rightmost_block(es, key, b),
    ensures
        a == b,
{
    lex_facts();
    if let Some(i) = a {
        assert(lex_le(es[i as int].first_key, key));
    }
    if let Some(j) = b {
        assert(lex_le(es[j as int].first_key, key));
    }
}

/// There always is a rightmost block that starts at `key` or before it, or none.
pub proof fn rightmost_exists(es: Seq<IndexView>, key: Seq<u8>) -> (found: Option<nat>)
    ensures
        rightmost_block(es, key, found),
    decreases es.len(),
{
    if es.len() == 0 {
        None
    } else if lex_le(es.last().first_key, key) {
        Some((es.len() - 1) as nat)
    } else {
        let rest = es.drop_last();
        lex_facts();
        let found = rightmost_exists(rest, key);
        assert forall|j: int|
            0 <= j < es.len() && (found matches Some(at) ==> at < j) implies lex_lt(
            key,
            (#[trigger] es[j]).first_key,
        ) by {
            if j < rest.len() {
                assert(rest[j] == es[j]);
            }
        }
        found
    }
}

/// Appends every entry to `buf`. If a key is over the limit, the first such
/// key's error comes back and `buf` stays as it was.
pub fn encode_index(buf: &mut Vec<u8>, entries: &[IndexEntry]) -> (r: Result<()>)
    ensures
        match r {
            Ok(()) => index_fault(index_views(entries@)) is None && final(buf)@ == old(buf)@
                + index_bytes(index_views(entries@)),
            Err(e) => index_fault(index_views(entries@)) == Some(e@) && final(buf)@ == old(buf)@,
        },
{
    let ghost es = index_views(entries@);
    let mut i: usize = 0;
    proof {
        assert(es.skip(0) =~= es);
    }
    while i < entries.len()
        invariant
            i <= entries.len(),
            es == index_views(entries@),
            index_fault(es) == index_fault(es.skip(i as int)),
            buf@ == old(buf)@,
        decreases entries.len() - i,
    {
        proof {
            assert(es.skip(i as int)[0] == entries[i as int]@);
            assert(es.skip(i as int).skip(1) =~= es.skip(i + 1));
        }
        if entries[i].first_key.len() > MAX_KEY_LEN {
            return Err(LsmError::KeyTooLarge(entries[i].first_key.len(), MAX_KEY_LEN));
        }
        i = i + 1;
    }
    let mut j: usize = 0;
    proof {
        assert(buf@ + index_bytes(es.skip(0)) == old(buf)@ + index_bytes(es));
    }
    while j < entries.len()
        invariant
            j <= entries.len(),
            es == index_views(entries@),
            index_fault(es) is None,
            index_fault(es.skip(j as int)) is None,
            buf@ + index_bytes(es.skip(j as int)) == old(buf)@ + index_bytes(es),
        decreases entries.len() - j,
    {
        let ghost before = buf@;
        let e = &entries[j];
        proof {
            assert(es.skip(j as int)[0] == entries[j as int]@);
            assert(es.skip(j as int).skip(1) =~= es.skip(j + 1));
        }
        utils::put_u16(buf, e.first_key.len() as u16);
        utils::put_bytes(buf, e.first_key.as_slice());
        utils::put_u64(buf, e.offset);
        utils::put_u64(buf, e.size);
        proof {
            assert(buf@ =~= before + entry_bytes(e@)) by {
                reveal(entry_bytes);
            }
            assert(buf@ + index_bytes(es.skip(j + 1)) =~= before + index_bytes(
                es.skip(j as int),
            ));
        }
        j = j + 1;
    }
    proof {
        assert(buf@ + index_bytes(es.skip(j as int)) =~= buf@);
    }
    Ok(())
}

/// Decodes an index: entries are read until the bytes are used up exactly.
/// `Corruption` if what is left is too short for an entry, or if a declared key
/// runs past the end.
pub fn parse_index(bytes: &[u8]) -> (r: Result<Vec<IndexEntry>>)
    ensures
        match r {
            Ok(es) => entries_from(bytes@, 0) == Ok::<Seq<IndexView>, ErrorView>(
                index_views(es@),
            ),
            Err(e) => entries_from(bytes@, 0) == Err::<Seq<IndexView>, ErrorView>(e@),
        },
{
    let mut entries: Vec<IndexEntry> = Vec::new();
    let mut offset: usize = 0;
    proof {
        if let Ok(all) = entries_from(bytes@, 0) {
            assert(index_views(entries@) + all =~= all);
        }
    }
    while offset < bytes.len()
        invariant
            offset <= bytes.len(),
            match entries_from(bytes@, offset as nat) {
                Ok(rest) => entries_from(bytes@, 0) == Ok::<Seq<IndexView>, ErrorView>(
                    index_views(entries@) + rest,
                ),
                Err(e) => entries_from(bytes@, 0) == Err::<Seq<IndexView>, ErrorView>(e),
            },
        decreases bytes.len() - offset,
    {
        let remaining: usize = bytes.len() - offset;
        if remaining < INDEX_ENTRY_HEADER_LEN {
            let mut s: String = String::from_str("sstable index entry at offset ");
            append_decimal(&mut s, offset as u64);
            s.append(" truncated: ");
            append_decimal(&mut s, remaining as u64);
            s.append(" bytes left, need at least 18");
            return Err(LsmError::Corruption(s));
        }
        let key_len: usize = utils::read_u16(bytes, offset)? as usize;
        let entry_len: usize = INDEX_ENTRY_HEADER_LEN + key_len;
        if entry_len > remaining {
            let mut s: String = String::from_str("sstable index entry at offset ");
            append_decimal(&mut s, offset as u64);
            s.append(" truncated: header declares ");
            append_decimal(&mut s, entry_len as u64);
            s.append(" bytes, only ");
            append_decimal(&mut s, remaining as u64);
            s.append(" available");
            return Err(LsmError::Corruption(s));
        }
        let key_end: usize = offset + 2 + key_len;
        let first_key: Vec<u8> = utils::copy_bytes(
            vstd::slice::slice_subrange(bytes, offset + 2, key_end),
        );
        let block_offset: u64 = utils::read_u64(bytes, key_end)?;
        let size: u64 = utils::read_u64(bytes, key_end + 8)?;
        let ghost before = entries@;
        let entry = IndexEntry { first_key, offset: block_offset, size };
        let ghost one = entry@;
        entries.push(entry);
        proof {
            assert(entry_at(bytes@, offset as nat) == Ok::<(IndexView, nat), ErrorView>(
                (one, entry_len as nat),
            ));
            assert(index_views(entries@) =~= index_views(before).push(one));
            if let Ok(rest) = entries_from(bytes@, (offset + entry_len) as nat) {
                assert(index_views(before) + (seq![one] + rest) =~= index_views(entries@) + rest);
            }
        }
        offset = offset + entry_len;
    }
    proof {
        assert(index_views(entries@) + Seq::<IndexView>::empty() =~= index_views(entries@));
    }
    Ok(entries)
}

/// The block that may hold `key`: the rightmost one that starts at `key` or
/// before it, or `None` if `key` sorts before every block. The entries are
/// meant to be in key order; of others only a valid position is promised.
pub fn locate_block(entries: &[IndexEntry], key: &[u8]) -> (found: Option<usize>)
    ensures
        chosen_block(
            index_views(entries@),
            key@,
            match found {
                Some(at) => Some(at as nat),
                None => None,
            },
        ),
{
    let ghost es = index_views(entries@);
    let mut low: usize = 0;
    let mut high: usize = entries.len();
    while low < high
        invariant
            low <= high <= entries.len(),
            es == index_views(entries@),
            index_sorted(es) ==> forall|j: int|
                0 <= j < low ==> lex_le((#[trigger] es[j]).first_key, key@),
            index_sorted(es) ==> forall|j: int|
                high <= j < es.len() ==> lex_lt(key@, (#[trigger] es[j]).first_key),
        decreases high - low,
    {
        let mid: usize = low + (high - low) / 2;
        let order = key_order(entries[mid].first_key.as_slice(), key);
        proof {
            lex_facts();
            assert(es[mid as int] == entries[mid as int]@);
        }
        match order {
            KeyOrder::Greater => {
                high = mid;
            },
            _ => {
                low = mid + 1;
            },
        }
    }
    if low == 0 {
        None
    } else {
        Some(low - 1)
    }
}

} // verus!
