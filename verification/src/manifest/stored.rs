//! What holds of stored manifests: byte by byte what they are, where a cut is noticed,
//! which tables they list, and what becomes of one that is read and written again.

use super::{
    all_metas, decode_past_metas, decoded, decoded_from, encoded, field_at, grown, level_bytes,
    levels_bytes, levels_bytes_is, listed, manifest_fits, manifest_ordered, meta_at, meta_bytes,
    meta_fits, meta_roundtrip, metas_bytes, metas_bytes_concat, metas_fit, ordered_rest, payload_at,
    place_in, place_in_fits, place_levels, placed, seqs_ascend, seqs_ordered, sorted_level,
    sorted_level_ordered, trimmed, MetaView, MAGIC_MANIFEST,
};
use crate::error::ErrorView;
use crate::text::decimal;
use crate::utils;
use vstd::prelude::*;
use vstd::utf8::{decode_utf8_encode_utf8, encode_utf8};

verus! {

/// Whether the sequence numbers of every level strictly ascend.
pub open spec fn levels_ascend(levels: Seq<Seq<MetaView>>) -> bool {
    forall|i: int| 0 <= i < levels.len() ==> seqs_ascend(#[trigger] levels[i])
}

/// The tables of a level under the number `level`.
pub open spec fn numbered(metas: Seq<MetaView>, level: u32) -> Seq<MetaView> {
    Seq::new(metas.len(), |j: int| MetaView { level, ..metas[j] })
}

/// Every level's tables under the level's own number, which is what is stored.
pub open spec fn all_numbered(levels: Seq<Seq<MetaView>>) -> Seq<Seq<MetaView>> {
    Seq::new(levels.len(), |i: int| numbered(levels[i], i as u32))
}

/// A stored manifest starts with "LSMMANIFEST01", and nothing that starts otherwise is
/// read as one.
pub proof fn manifest_is_known_by_magic(
    levels: Seq<Seq<MetaView>>,
    bytes: Seq<u8>,
    refused: Set<nat>,
)
    ensures
        ({
            let magic = seq![
                'L' as u8,
                'S' as u8,
                'M' as u8,
                'M' as u8,
                'A' as u8,
                'N' as u8,
                'I' as u8,
                'F' as u8,
                'E' as u8,
                'S' as u8,
                'T' as u8,
                '0' as u8,
                '1' as u8,
            ];
            &&& encoded(levels).take(13) == magic
            &&& bytes.len() < 13 || bytes.take(13) != magic ==> decoded(bytes, refused) == Err::<
                Seq<Seq<MetaView>>,
                ErrorView,
            >(ErrorView::Corruption("invalid manifest magic"@))
            &&& decoded(magic, refused) == Ok::<Seq<Seq<MetaView>>, ErrorView>(Seq::empty())
        }),
{
    let magic = seq![
        'L' as u8,
        'S' as u8,
        'M' as u8,
        'M' as u8,
        'A' as u8,
        'N' as u8,
        'I' as u8,
        'F' as u8,
        'E' as u8,
        'S' as u8,
        'T' as u8,
        '0' as u8,
        '1' as u8,
    ];
    assert(MAGIC_MANIFEST@ =~= magic);
    assert(encoded(levels).take(13) =~= magic);
    assert(magic.subrange(0, 13) =~= magic);
    if bytes.len() >= 13 {
        assert(bytes.take(13) =~= bytes.subrange(0, 13));
    }
}

/// The bytes of a manifest record, in order: the level, the sequence number, then the
/// name, the smallest and the largest key, each behind its length. The level takes four
/// bytes, the sequence number eight and each length four, low byte first.
pub proof fn manifest_record_byte_by_byte(level: u32, m: MetaView)
    requires
        meta_fits(m),
    ensures
        ({
            let b = meta_bytes(level, m);
            let name = encode_utf8(m.name);
            let min_at = 16 + name.len() as int;
            let max_at = min_at + 4 + m.min.len();
            &&& b.len() == 24 + name.len() + m.min.len() + m.max.len()
            &&& utils::le_value(b.subrange(0, 4)) == level
            &&& utils::le_value(b.subrange(4, 12)) == m.seq
            &&& utils::le_value(b.subrange(12, 16)) == name.len()
            &&& b.subrange(16, min_at) == name
            &&& utils::le_value(b.subrange(min_at, min_at + 4)) == m.min.len()
            &&& b.subrange(min_at + 4, max_at) == m.min
            &&& utils::le_value(b.subrange(max_at, max_at + 4)) == m.max.len()
            &&& b.subrange(max_at + 4, b.len() as int) == m.max
        }),
{
    reveal(meta_bytes);
    let b = meta_bytes(level, m);
    let name = encode_utf8(m.name);
    let min_at = 16 + name.len() as int;
    let max_at = min_at + 4 + m.min.len();
    utils::le_limits();
    utils::le_bytes_len(level as nat, 4);
    utils::le_bytes_len(m.seq as nat, 8);
    utils::le_bytes_len(name.len(), 4);
    utils::le_bytes_len(m.min.len(), 4);
    utils::le_bytes_len(m.max.len(), 4);
    utils::le_roundtrip(level as nat, 4);
    utils::le_roundtrip(m.seq as nat, 8);
    utils::le_roundtrip(name.len(), 4);
    utils::le_roundtrip(m.min.len(), 4);
    utils::le_roundtrip(m.max.len(), 4);
    assert(b.subrange(0, 4) =~= utils::le_bytes(level as nat, 4));
    assert(b.subrange(4, 12) =~= utils::le_bytes(m.seq as nat, 8));
    assert(b.subrange(12, 16) =~= utils::le_bytes(name.len(), 4));
    assert(b.subrange(16, min_at) =~= name);
    assert(b.subrange(min_at, min_at + 4) =~= utils::le_bytes(m.min.len(), 4));
    assert(b.subrange(min_at + 4, max_at) =~= m.min);
    assert(b.subrange(max_at, max_at + 4) =~= utils::le_bytes(m.max.len(), 4));
    assert(b.subrange(max_at + 4, b.len() as int) =~= m.max);
}

/// The records of a manifest are stored level by level, level 0 first, and within a level
/// in their order.
pub proof fn manifest_is_in_order(levels: Seq<Seq<MetaView>>, metas: Seq<MetaView>, m: MetaView)
    requires
        levels.len() < 0x1_0000_0000,
    ensures
        encoded(levels.push(metas.push(m))) == encoded(levels.push(metas)) + meta_bytes(
            levels.len() as u32,
            m,
        ),
        encoded(levels.push(Seq::empty())) == encoded(levels),
{
    let longer = metas.push(m);
    assert(longer.drop_last() =~= metas);
    assert(levels.push(longer).drop_last() =~= levels);
    assert(levels.push(metas).drop_last() =~= levels);
    assert(levels.push(Seq::empty()).drop_last() =~= levels);
    assert(encoded(levels.push(longer)) =~= encoded(levels.push(metas)) + meta_bytes(
        levels.len() as u32,
        m,
    ));
    assert(encoded(levels.push(Seq::empty())) =~= encoded(levels));
}

/// A record is taken into a manifest exactly if its level can be numbered, there is
/// memory for the levels up to it, and its sequence number is above that of the last
/// table of its level. It then stands at the end of its level, and the other levels stay.
pub proof fn record_is_placed_last(levels: Seq<Seq<MetaView>>, m: MetaView, room: bool)
    ensures
        placed(levels, m, room) is Ok <==> {
            &&& m.level >= levels.len() ==> room && m.level < usize::MAX
            &&& m.level < levels.len() && levels[m.level as int].len() > 0
                ==> levels[m.level as int].last().seq < m.seq
        },
        placed(levels, m, room) matches Ok(after) ==> {
            &&& after.len() == if m.level < levels.len() {
                levels.len() as int
            } else {
                m.level + 1
            }
            &&& after[m.level as int].last() == m
            &&& after[m.level as int].drop_last() == if m.level < levels.len() {
                levels[m.level as int]
            } else {
                Seq::empty()
            }
            &&& forall|i: int|
                0 <= i < levels.len() && i != m.level ==> #[trigger] after[i] == levels[i]
            &&& forall|i: int|
                levels.len() <= i < after.len() && i != m.level ==> (#[trigger] after[i]).len()
                    == 0
        },
        placed(levels, m, room) is Err ==> placed(levels, m, room) matches Err(
            ErrorView::Corruption(_),
        ),
        m.level < levels.len() && placed(levels, m, room) is Err ==> placed(levels, m, room)
            == Err::<Seq<Seq<MetaView>>, ErrorView>(
            ErrorView::Corruption(
                "manifest level "@ + decimal(m.level as nat) + " seq out of order: "@ + decimal(
                    m.seq as nat,
                ) + " after "@ + decimal(levels[m.level as int].last().seq as nat),
            ),
        ),
{
    if let Ok(after) = placed(levels, m, room) {
        let at = m.level as int;
        assert(after[at].drop_last() =~= grown(levels, m.level as nat + 1)[at]);
    }
}

/// Trimming drops empty levels at the end and nothing else.
pub proof fn trimming_drops_empty_levels(levels: Seq<Seq<MetaView>>)
    ensures
        trimmed(levels).len() <= levels.len(),
        forall|i: int|
            0 <= i < trimmed(levels).len() ==> #[trigger] trimmed(levels)[i] == levels[i],
        forall|i: int|
            trimmed(levels).len() <= i < levels.len() ==> (#[trigger] levels[i]).len() == 0,
        trimmed(levels).len() > 0 ==> trimmed(levels).last().len() > 0,
    decreases levels.len(),
{
    if levels.len() > 0 && levels.last().len() == 0 {
        trimming_drops_empty_levels(levels.drop_last());
        assert forall|i: int| trimmed(levels).len() <= i < levels.len() implies (
        #[trigger] levels[i]).len() == 0 by {
            if i < levels.len() - 1 {
                assert(levels.drop_last()[i] == levels[i]);
            }
        }
    }
}

/// The manifest of an engine lists the tables of every level, at that level: a level that
/// is left out has none.
pub proof fn every_level_is_listed(levels: Seq<Seq<MetaView>>, i: int)
    requires
        0 <= i < levels.len(),
    ensures
        listed(levels).len() <= levels.len(),
        i < listed(levels).len() ==> listed(levels)[i] == sorted_level(levels[i], i as u32),
        i >= listed(levels).len() ==> levels[i].len() == 0,
{
    let sorted = Seq::new(levels.len(), |i: int| sorted_level(levels[i], i as u32));
    trimming_drops_empty_levels(sorted);
    sorted_level_ordered(levels[i], i as u32);
    assert(sorted[i] == sorted_level(levels[i], i as u32));
}

/// Putting the tables of a level in order keeps them all, under the number of the level,
/// and adds none.
pub proof fn sorting_keeps_tables(metas: Seq<MetaView>, level: u32, m: MetaView)
    ensures
        sorted_level(metas, level).len() == metas.len(),
        seqs_ordered(sorted_level(metas, level)),
        sorted_level(metas, level).contains(m) <==> exists|i: int|
            0 <= i < metas.len() && m == (MetaView { level, ..#[trigger] metas[i] }),
    decreases metas.len(),
{
    sorted_level_ordered(metas, level);
    if metas.len() > 0 {
        let rest = metas.drop_last();
        let last = metas.len() - 1;
        let before = sorted_level(rest, level);
        let new = MetaView { level, ..metas.last() };
        let after = sorted_level(metas, level);
        let pos = place_in(before, new.seq);
        sorting_keeps_tables(rest, level, m);
        place_in_fits(before, new.seq);
        if after.contains(m) {
            let k = choose|k: int| 0 <= k < after.len() && after[k] == m;
            if k == pos {
                assert(m == (MetaView { level, ..metas[last] }));
            } else {
                assert(before.contains(m)) by {
                    if k < pos {
                        assert(before[k] == m);
                    } else {
                        assert(before[k - 1] == m);
                    }
                }
                let i = choose|i: int|
                    0 <= i < rest.len() && m == (MetaView { level, ..#[trigger] rest[i] });
                assert(metas[i] == rest[i]);
            }
        }
        if exists|i: int|
            0 <= i < metas.len() && m == (MetaView { level, ..#[trigger] metas[i] }) {
            let i = choose|i: int|
                0 <= i < metas.len() && m == (MetaView { level, ..#[trigger] metas[i] });
            if i == last {
                assert(after[pos] == m);
            } else {
                assert(rest[i] == metas[i]);
                let k = choose|k: int| 0 <= k < before.len() && before[k] == m;
                if k < pos {
                    assert(after[k] == m);
                } else {
                    assert(after[k + 1] == m);
                }
            }
        }
    } else if sorted_level(metas, level).contains(m) {
        let k = choose|k: int|
            0 <= k < sorted_level(metas, level).len() && sorted_level(metas, level)[k] == m;
    }
}

proof fn level_bytes_numbered(level: u32, metas: Seq<MetaView>)
    ensures
        level_bytes(level, numbered(metas, level)) == level_bytes(level, metas),
    decreases metas.len(),
{
    if metas.len() > 0 {
        reveal(meta_bytes);
        let rest = metas.drop_last();
        level_bytes_numbered(level, rest);
        assert(numbered(metas, level).drop_last() =~= numbered(rest, level));
    } else {
        assert(numbered(metas, level) =~= metas);
    }
}

proof fn levels_bytes_numbered(levels: Seq<Seq<MetaView>>)
    ensures
        levels_bytes(all_numbered(levels)) == levels_bytes(levels),
    decreases levels.len(),
{
    if levels.len() > 0 {
        let rest = levels.drop_last();
        levels_bytes_numbered(rest);
        assert(all_numbered(levels).drop_last() =~= all_numbered(rest));
        level_bytes_numbered((levels.len() - 1) as u32, levels.last());
    } else {
        assert(all_numbered(levels) =~= levels);
    }
}

proof fn numbered_form(levels: Seq<Seq<MetaView>>)
    requires
        levels_ascend(levels),
        manifest_fits(levels),
        levels.len() <= 0x1_0000_0000,
    ensures
        manifest_ordered(all_numbered(levels)),
        manifest_fits(all_numbered(levels)),
        encoded(all_numbered(levels)) == encoded(levels),
{
    let own = all_numbered(levels);
    levels_bytes_numbered(levels);
    assert forall|i: int, j: int| 0 <= i < own.len() && 0 <= j < own[i].len() implies (
    #[trigger] own[i][j]).level == i && meta_fits(own[i][j]) by {
        assert(meta_fits(levels[i][j]));
    }
    assert forall|i: int| 0 <= i < own.len() implies seqs_ascend(#[trigger] own[i]) by {
        assert(seqs_ascend(levels[i]));
        assert forall|a: int, b: int| 0 <= a < b < own[i].len() implies own[i][a].seq
            < own[i][b].seq by {
            assert(levels[i][a].seq < levels[i][b].seq);
        }
    }
}

/// The levels that hold just the first `k` tables.
pub open spec fn first_tables(levels: Seq<Seq<MetaView>>, k: int) -> Seq<Seq<MetaView>>
    decreases levels.len(),
{
    if levels.len() == 0 {
        levels
    } else {
        let before = all_metas(levels.drop_last()).len() as int;
        if k <= before {
            first_tables(levels.drop_last(), k)
        } else {
            levels.drop_last().push(levels.last().take(k - before))
        }
    }
}

proof fn first_tables_form(levels: Seq<Seq<MetaView>>, k: int)
    requires
        manifest_ordered(levels),
        0 <= k <= all_metas(levels).len(),
    ensures
        manifest_ordered(first_tables(levels, k)),
        all_metas(first_tables(levels, k)) == all_metas(levels).take(k),
        first_tables(levels, k).len() <= levels.len(),
    decreases levels.len(),
{
    if levels.len() == 0 {
        assert(all_metas(levels).take(k) =~= all_metas(levels));
    } else {
        let rest = levels.drop_last();
        let before = all_metas(rest).len() as int;
        ordered_rest(levels);
        if k <= before {
            first_tables_form(rest, k);
            assert(all_metas(levels).take(k) =~= all_metas(rest).take(k));
        } else {
            let last = levels.len() - 1;
            let part = levels.last().take(k - before);
            let cut = rest.push(part);
            assert(cut.drop_last() =~= rest);
            assert(all_metas(cut) =~= all_metas(levels).take(k));
            assert forall|i: int, j: int| 0 <= i < cut.len() && 0 <= j < cut[i].len() implies (
            #[trigger] cut[i][j]).level == i by {
                assert(cut[i][j] == levels[i][j]);
            }
            assert forall|i: int| 0 <= i < cut.len() implies seqs_ascend(#[trigger] cut[i]) by {
                assert(seqs_ascend(levels[i]));
                if i == last {
                    assert forall|a: int, b: int| 0 <= a < b < part.len() implies part[a].seq
                        < part[b].seq by {
                        assert(levels[i][a].seq < levels[i][b].seq);
                    }
                }
            }
        }
    }
}

/// A field that is there is also there when more bytes follow.
proof fn field_extends(bytes: Seq<u8>, more: Seq<u8>, offset: nat, what: Seq<char>)
    requires
        field_at(bytes, offset, what) is Ok,
    ensures
        field_at(bytes + more, offset, what) == field_at(bytes, offset, what),
        offset + 4 <= field_at(bytes, offset, what)->Ok_0.1 <= bytes.len(),
{
    let all = bytes + more;
    assert(all.subrange(offset as int, (offset + 4) as int) =~= bytes.subrange(
        offset as int,
        (offset + 4) as int,
    ));
    let len = utils::number_at(bytes, offset, 4)->Ok_0;
    assert(payload_at(bytes, offset + 4, len, what) is Ok);
    assert(all.subrange((offset + 4) as int, (offset + 4 + len) as int) =~= bytes.subrange(
        (offset + 4) as int,
        (offset + 4 + len) as int,
    ));
}

/// A record that is there is also there when more bytes follow.
proof fn meta_extends(bytes: Seq<u8>, more: Seq<u8>, offset: nat)
    requires
        offset <= bytes.len(),
        meta_at(bytes, offset) is Ok,
    ensures
        meta_at(bytes + more, offset) == meta_at(bytes, offset),
        offset < meta_at(bytes, offset)->Ok_0.1 <= bytes.len(),
{
    let all = bytes + more;
    let start = offset as int;
    assert(all.subrange(start, start + 4) =~= bytes.subrange(start, start + 4));
    assert(all.subrange(start + 4, start + 12) =~= bytes.subrange(start + 4, start + 12));
    field_extends(bytes, more, offset + 12, "sst name"@);
    let name_end = field_at(bytes, offset + 12, "sst name"@)->Ok_0.1;
    field_extends(bytes, more, name_end, "min key"@);
    let min_end = field_at(bytes, name_end, "min key"@)->Ok_0.1;
    field_extends(bytes, more, min_end, "max key"@);
}

/// A record that is cut short anywhere is `Corruption`.
pub proof fn cut_record_is_rejected(before: Seq<u8>, m: MetaView, n: int)
    requires
        meta_fits(m),
        0 <= n < meta_bytes(m.level, m).len(),
    ensures
        meta_at(before + meta_bytes(m.level, m).take(n), before.len()) matches Err(
            ErrorView::Corruption(_),
        ),
{
    let whole = meta_bytes(m.level, m);
    let bytes = before + whole.take(n);
    if meta_at(bytes, before.len()) is Ok {
        meta_extends(bytes, whole.skip(n), before.len());
        meta_roundtrip(before, m, Seq::empty());
        assert(bytes + whole.skip(n) =~= before + whole + Seq::<u8>::empty());
    }
}

/// Where the record number `k` of a stored manifest starts; the end of the manifest
/// if it has just `k` records.
pub open spec fn record_start(levels: Seq<Seq<MetaView>>, k: int) -> int {
    13 + metas_bytes(all_metas(levels).take(k)).len() as int
}

proof fn metas_bytes_split(ms: Seq<MetaView>, k: int)
    requires
        0 <= k <= ms.len(),
    ensures
        metas_bytes(ms) == metas_bytes(ms.take(k)) + metas_bytes(ms.skip(k)),
{
    assert(ms.take(k) + ms.skip(k) =~= ms);
    metas_bytes_concat(ms.take(k), ms.skip(k));
}

/// The record in which a position lies, if it lies behind the magic.
proof fn record_around(ms: Seq<MetaView>, at: int) -> (k: int)
    requires
        0 <= at < metas_bytes(ms).len(),
    ensures
        0 <= k < ms.len(),
        metas_bytes(ms.take(k)).len() <= at < metas_bytes(ms.take(k + 1)).len(),
    decreases ms.len(),
{
    let last = ms.len() - 1;
    if metas_bytes(ms.drop_last()).len() <= at {
        assert(ms.take(last) =~= ms.drop_last());
        assert(ms.take(last + 1) =~= ms);
        last
    } else {
        let k = record_around(ms.drop_last(), at);
        assert(ms.drop_last().take(k) =~= ms.take(k));
        assert(ms.drop_last().take(k + 1) =~= ms.take(k + 1));
        k
    }
}

proof fn trimmed_metas(levels: Seq<Seq<MetaView>>)
    ensures
        all_metas(trimmed(levels)) == all_metas(levels),
    decreases levels.len(),
{
    if levels.len() > 0 && levels.last().len() == 0 {
        trimmed_metas(levels.drop_last());
        assert(all_metas(levels) =~= all_metas(levels.drop_last()));
    }
}

proof fn decode_at_record(own: Seq<Seq<MetaView>>, k: int, tail: Seq<u8>)
    requires
        manifest_ordered(own),
        manifest_fits(own),
        own.len() <= usize::MAX,
        0 <= k <= all_metas(own).len(),
    ensures
        ({
            let start = MAGIC_MANIFEST@ + metas_bytes(all_metas(own).take(k));
            decoded(start + tail, Set::empty()) == decoded_from(
                start + tail,
                start.len(),
                trimmed(first_tables(own, k)),
                Set::empty(),
            )
        }),
{
    let ms = all_metas(own).take(k);
    let bytes = MAGIC_MANIFEST@ + metas_bytes(ms) + tail;
    assert(bytes.subrange(0, 13) =~= MAGIC_MANIFEST@);
    metas_fit(own);
    assert forall|i: int| 0 <= i < ms.len() implies meta_fits(#[trigger] ms[i]) by {
        assert(ms[i] == all_metas(own)[i]);
    }
    decode_past_metas(MAGIC_MANIFEST@, Seq::empty(), ms, tail);
    first_tables_form(own, k);
    place_levels(first_tables(own, k));
}

/// A stored manifest that is cut at the end of a record holds just the records
/// before the cut; uncut, it holds them all.
pub proof fn manifest_cut_at_record(levels: Seq<Seq<MetaView>>, k: int)
    requires
        levels_ascend(levels),
        manifest_fits(levels),
        levels.len() <= 0x1_0000_0000,
        levels.len() <= usize::MAX,
        0 <= k <= all_metas(levels).len(),
    ensures
        0 <= record_start(levels, k) <= encoded(levels).len(),
        decoded(encoded(levels).take(record_start(levels, k)), Set::empty()) == Ok::<
            Seq<Seq<MetaView>>,
            ErrorView,
        >(trimmed(first_tables(all_numbered(levels), k))),
        all_metas(trimmed(first_tables(all_numbered(levels), k))) == all_metas(
            all_numbered(levels),
        ).take(k),
{
    let own = all_numbered(levels);
    numbered_form(levels);
    levels_bytes_is(own);
    let ms = all_metas(own);
    numbered_starts(levels, k);
    metas_bytes_split(ms, k);
    let start = MAGIC_MANIFEST@ + metas_bytes(ms.take(k));
    assert(encoded(levels).take(record_start(levels, k)) =~= start);
    decode_at_record(own, k, Seq::empty());
    assert(start + Seq::<u8>::empty() =~= start);
    first_tables_form(own, k);
    trimmed_metas(first_tables(own, k));
}

proof fn same_lengths(a: Seq<MetaView>, b: Seq<MetaView>, k: int)
    requires
        a.len() == b.len(),
        0 <= k <= a.len(),
        forall|i: int|
            0 <= i < a.len() ==> (#[trigger] a[i]) == (MetaView { level: a[i].level, ..b[i] }),
    ensures
        metas_bytes(a.take(k)).len() == metas_bytes(b.take(k)).len(),
    decreases k,
{
    reveal(meta_bytes);
    if k > 0 {
        same_lengths(a, b, k - 1);
        assert(a.take(k).drop_last() =~= a.take(k - 1));
        assert(b.take(k).drop_last() =~= b.take(k - 1));
        assert(a[k - 1] == (MetaView { level: a[k - 1].level, ..b[k - 1] }));
        utils::le_bytes_len(a[k - 1].level as nat, 4);
        utils::le_bytes_len(b[k - 1].level as nat, 4);
    } else {
        assert(a.take(k) =~= b.take(k));
    }
}

proof fn numbered_tables(levels: Seq<Seq<MetaView>>)
    ensures
        all_metas(all_numbered(levels)).len() == all_metas(levels).len(),
        forall|i: int|
            0 <= i < all_metas(levels).len() ==> (#[trigger] all_metas(all_numbered(levels))[i])
                == (MetaView {
                level: all_metas(all_numbered(levels))[i].level,
                ..all_metas(levels)[i]
            }),
    decreases levels.len(),
{
    if levels.len() > 0 {
        let rest = levels.drop_last();
        numbered_tables(rest);
        let own = all_numbered(levels);
        assert(own.drop_last() =~= all_numbered(rest));
        let n = all_metas(rest).len() as int;
        let a = all_metas(own);
        assert forall|i: int| 0 <= i < all_metas(levels).len() implies (#[trigger] a[i]) == (
        MetaView { level: a[i].level, ..all_metas(levels)[i] }) by {
            if i < n {
                assert(a[i] == all_metas(all_numbered(rest))[i]);
            } else {
                assert(a[i] == own.last()[i - n]);
            }
        }
    }
}

proof fn numbered_starts(levels: Seq<Seq<MetaView>>, k: int)
    requires
        0 <= k <= all_metas(levels).len(),
    ensures
        all_metas(all_numbered(levels)).len() == all_metas(levels).len(),
        metas_bytes(all_metas(all_numbered(levels)).take(k)).len() == metas_bytes(
            all_metas(levels).take(k),
        ).len(),
{
    numbered_tables(levels);
    same_lengths(all_metas(all_numbered(levels)), all_metas(levels), k);
}

/// A stored manifest that is cut anywhere but at the end of a record is
/// `Corruption`: within the magic, or within a record.
pub proof fn manifest_cut_in_record(levels: Seq<Seq<MetaView>>, n: int)
    requires
        levels_ascend(levels),
        manifest_fits(levels),
        levels.len() <= 0x1_0000_0000,
        levels.len() <= usize::MAX,
        0 <= n < encoded(levels).len(),
        forall|k: int|
            0 <= k <= all_metas(levels).len() ==> n != #[trigger] record_start(levels, k),
    ensures
        decoded(encoded(levels).take(n), Set::empty()) matches Err(ErrorView::Corruption(_)),
{
    let own = all_numbered(levels);
    let ms = all_metas(own);
    let bytes = encoded(levels).take(n);
    numbered_form(levels);
    levels_bytes_is(own);
    if n >= 13 {
        let k = record_around(ms, n - 13);
        numbered_tables(levels);
        numbered_starts(levels, k);
        assert(n != record_start(levels, k));
        metas_bytes_split(ms, k);
        assert(ms.take(k + 1).drop_last() =~= ms.take(k));
        let one = meta_bytes(ms[k].level, ms[k]);
        let cut = n - 13 - metas_bytes(ms.take(k)).len();
        let start = MAGIC_MANIFEST@ + metas_bytes(ms.take(k));
        assert(metas_bytes(ms.take(k + 1)) == metas_bytes(ms.take(k)) + one);
        metas_bytes_split(ms, k + 1);
        assert(bytes =~= start + one.take(cut));
        metas_fit(own);
        cut_record_is_rejected(start, ms[k], cut);
        decode_at_record(own, k, one.take(cut));
    }
}

/// The records of a stored manifest from `offset` on, in the order in which they
/// are stored.
pub open spec fn records_in(bytes: Seq<u8>, offset: nat) -> Seq<MetaView>
    decreases bytes.len() - offset,
{
    if offset >= bytes.len() {
        Seq::empty()
    } else {
        match meta_at(bytes, offset) {
            Err(_) => Seq::empty(),
            Ok((m, end)) => seq![m] + records_in(bytes, end),
        }
    }
}

/// Whether records come grouped by level, levels ascending.
pub open spec fn grouped(ms: Seq<MetaView>) -> bool {
    forall|i: int, j: int|
        #![trigger ms[i], ms[j]]
        0 <= i < j < ms.len() ==> ms[i].level <= ms[j].level
}

/// A record that was read is stored in the bytes that it was read from.
pub proof fn read_record_is_stored(bytes: Seq<u8>, offset: nat)
    requires
        offset <= bytes.len(),
        meta_at(bytes, offset) is Ok,
    ensures
        ({
            let (m, end) = meta_at(bytes, offset)->Ok_0;
            &&& offset < end <= bytes.len()
            &&& bytes.subrange(offset as int, end as int) == meta_bytes(m.level, m)
        }),
{
    reveal(meta_bytes);
    meta_extends(bytes, Seq::empty(), offset);
    let (m, end) = meta_at(bytes, offset)->Ok_0;
    let start = offset as int;
    let (name, name_end) = field_at(bytes, offset + 12, "sst name"@)->Ok_0;
    let (min, min_end) = field_at(bytes, name_end, "min key"@)->Ok_0;
    field_extends(bytes, Seq::empty(), offset + 12, "sst name"@);
    field_extends(bytes, Seq::empty(), name_end, "min key"@);
    field_extends(bytes, Seq::empty(), min_end, "max key"@);
    decode_utf8_encode_utf8(name);
    utils::le_limits();
    let level_part = bytes.subrange(start, start + 4);
    let seq_part = bytes.subrange(start + 4, start + 12);
    let name_part = bytes.subrange(start + 12, start + 16);
    let min_part = bytes.subrange(name_end as int, name_end as int + 4);
    let max_part = bytes.subrange(min_end as int, min_end as int + 4);
    utils::le_value_bound(level_part);
    utils::le_value_bound(seq_part);
    utils::le_roundtrip_bytes(level_part);
    utils::le_roundtrip_bytes(seq_part);
    utils::le_roundtrip_bytes(name_part);
    utils::le_roundtrip_bytes(min_part);
    utils::le_roundtrip_bytes(max_part);
    assert(bytes.subrange(start, end as int) =~= level_part + seq_part + name_part + name
        + min_part + min + max_part + m.max);
}

proof fn grown_bytes(levels: Seq<Seq<MetaView>>, count: nat)
    ensures
        levels_bytes(grown(levels, count)) == levels_bytes(levels),
    decreases count,
{
    if count > levels.len() {
        let wide = grown(levels, count);
        grown_bytes(levels, (count - 1) as nat);
        assert(wide.drop_last() =~= grown(levels, (count - 1) as nat));
        assert(level_bytes((wide.len() - 1) as u32, wide.last()) =~= Seq::empty());
        assert(levels_bytes(wide) =~= levels_bytes(levels));
    }
}

proof fn longer_level(wide: Seq<Seq<MetaView>>, m: MetaView)
    requires
        m.level < wide.len(),
    ensures
        ({
            let at = m.level as int;
            let next = wide.update(at, wide[at].push(m));
            &&& levels_bytes(next).len() == levels_bytes(wide).len() + meta_bytes(m.level, m).len()
            &&& at == wide.len() - 1 ==> levels_bytes(next) == levels_bytes(wide) + meta_bytes(
                m.level,
                m,
            )
        }),
    decreases wide.len(),
{
    let at = m.level as int;
    let next = wide.update(at, wide[at].push(m));
    if at == wide.len() - 1 {
        assert(next.drop_last() =~= wide.drop_last());
        assert(wide[at].push(m).drop_last() =~= wide[at]);
        assert(levels_bytes(next) =~= levels_bytes(wide) + meta_bytes(m.level, m));
    } else {
        let rest = wide.drop_last();
        longer_level(rest, m);
        assert(next.drop_last() =~= rest.update(at, rest[at].push(m)));
        assert(next.last() == wide.last());
    }
}

proof fn decoded_bytes(
    bytes: Seq<u8>,
    offset: nat,
    levels: Seq<Seq<MetaView>>,
    refused: Set<nat>,
)
    requires
        offset <= bytes.len(),
        decoded_from(bytes, offset, levels, refused) is Ok,
    ensures
        ({
            let after = decoded_from(bytes, offset, levels, refused)->Ok_0;
            let ms = records_in(bytes, offset);
            &&& levels_bytes(after).len() == levels_bytes(levels).len() + bytes.len() - offset
            &&& grouped(ms) && (ms.len() > 0 ==> levels.len() <= ms[0].level + 1) ==> levels_bytes(
                after,
            ) == levels_bytes(levels) + bytes.skip(offset as int)
        }),
    decreases bytes.len() - offset,
{
    if offset >= bytes.len() {
        assert(bytes.skip(offset as int) =~= Seq::empty());
        assert(levels_bytes(levels) + bytes.skip(offset as int) =~= levels_bytes(levels));
    } else {
        let (m, end) = meta_at(bytes, offset)->Ok_0;
        let wide = grown(levels, m.level as nat + 1);
        let next = placed(levels, m, !refused.contains(m.level as nat + 1))->Ok_0;
        read_record_is_stored(bytes, offset);
        grown_bytes(levels, m.level as nat + 1);
        longer_level(wide, m);
        decoded_bytes(bytes, end, next, refused);
        let ms = records_in(bytes, offset);
        let rest = records_in(bytes, end);
        if grouped(ms) && levels.len() <= ms[0].level + 1 {
            assert(grouped(rest)) by {
                assert forall|i: int, j: int| 0 <= i < j < rest.len() implies rest[i].level
                    <= rest[j].level by {
                    assert(ms[i + 1] == rest[i] && ms[j + 1] == rest[j]);
                }
            }
            if rest.len() > 0 {
                assert(ms[1] == rest[0]);
                assert(ms[0].level <= ms[1].level);
            }
            assert(bytes.skip(offset as int) =~= meta_bytes(m.level, m) + bytes.skip(end as int));
            assert(levels_bytes(levels) + bytes.skip(offset as int) =~= levels_bytes(levels)
                + meta_bytes(m.level, m) + bytes.skip(end as int));
        }
    }
}

/// A manifest that was read is stored again in as many bytes, and in the same
/// bytes if its records came grouped by level.
pub proof fn read_manifest_is_stored(bytes: Seq<u8>, refused: Set<nat>)
    requires
        decoded(bytes, refused) is Ok,
    ensures
        encoded(decoded(bytes, refused)->Ok_0).len() == bytes.len(),
        grouped(records_in(bytes, 13)) ==> encoded(decoded(bytes, refused)->Ok_0) == bytes,
{
    decoded_bytes(bytes, 13, Seq::empty(), refused);
    let after = decoded(bytes, refused)->Ok_0;
    if grouped(records_in(bytes, 13)) {
        assert(encoded(after) =~= bytes.subrange(0, 13) + bytes.skip(13));
        assert(encoded(after) =~= bytes);
    }
}

} // verus!
