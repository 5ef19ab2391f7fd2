//! How a table is laid out: which records share a block, what the index says
//! of the blocks, and where each section stands.

use super::bloom::{
    bits_of_keys, bloom_bits, bloom_bytes, bloom_hashes, bloom_keys, bloom_sound, bloom_words,
    filled_bloom_reports, set_bits, Bloom,
};
use super::index::{index_bytes, index_fault, IndexView};
use super::record::{record_bytes, record_fault, run_bytes, run_bytes_one, storable};
use super::{MAGIC, TARGET_BLOCK_SIZE};
use crate::model::{ascending, RecordView};
use crate::order::{lex_facts, lex_lt};
use crate::utils;
use vstd::prelude::*;

verus! {

/// How records fall into blocks: the closed blocks, and the block being filled.
/// A record opens a new block when it would take the one being filled past
/// [`TARGET_BLOCK_SIZE`]; a block is never empty, so an oversized record has a
/// block to itself.
pub open spec fn layout(rs: Seq<RecordView>) -> (Seq<Seq<RecordView>>, Seq<RecordView>)
    decreases rs.len(),
{
    if rs.len() == 0 {
        (Seq::empty(), Seq::empty())
    } else {
        let (closed_blocks, current) = layout(rs.drop_last());
        if current.len() > 0 && run_bytes(current).len() + record_bytes(rs.last()).len()
            > TARGET_BLOCK_SIZE {
            (closed_blocks.push(current), seq![rs.last()])
        } else {
            (closed_blocks, current.push(rs.last()))
        }
    }
}

/// The blocks of a finished table.
pub open spec fn table_blocks(rs: Seq<RecordView>) -> Seq<Seq<RecordView>> {
    let (closed_blocks, current) = layout(rs);
    if current.len() > 0 {
        closed_blocks.push(current)
    } else {
        closed_blocks
    }
}

/// The data section that blocks make up.
pub open spec fn blocks_bytes(blocks: Seq<Seq<RecordView>>) -> Seq<u8>
    decreases blocks.len(),
{
    if blocks.len() == 0 {
        Seq::empty()
    } else {
        blocks_bytes(blocks.drop_last()) + run_bytes(blocks.last())
    }
}

/// The index of blocks: each block's first key, offset and size.
pub open spec fn block_index(blocks: Seq<Seq<RecordView>>) -> Seq<IndexView>
    decreases blocks.len(),
{
    if blocks.len() == 0 {
        Seq::empty()
    } else {
        block_index(blocks.drop_last()).push(
            IndexView {
                first_key: blocks.last()[0].0,
                offset: blocks_bytes(blocks.drop_last()).len(),
                size: run_bytes(blocks.last()).len(),
            },
        )
    }
}

/// The last bytes of a table.
pub open spec fn footer_bytes(index_offset: nat, bloom_offset: nat) -> Seq<u8> {
    utils::le_bytes(index_offset, 8) + utils::le_bytes(bloom_offset, 8) + MAGIC@
}

/// The bloom block of a table, empty if it has none.
pub open spec fn filter_bytes(bloom: Option<Bloom>) -> Seq<u8> {
    match bloom {
        Some(b) => bloom_bytes(bloom_words(b), bloom_hashes(b)),
        None => Seq::empty(),
    }
}

/// A whole table: data, index, bloom block if any, footer.
pub open spec fn table_image(rs: Seq<RecordView>, bloom: Option<Bloom>) -> Seq<u8> {
    let data = blocks_bytes(table_blocks(rs));
    let index = index_bytes(block_index(table_blocks(rs)));
    let bloom_offset = if bloom is Some {
        data.len() + index.len()
    } else {
        0
    };
    data + index + filter_bytes(bloom) + footer_bytes(data.len(), bloom_offset)
}

/// Whether a table's filter, if it has one, is sound and reports every key of
/// the table, tombstones included.
pub open spec fn bloom_covers(bloom: Option<Bloom>, rs: Seq<RecordView>) -> bool {
    bloom matches Some(b) ==> bloom_sound(b) && forall|i: int|
        0 <= i < rs.len() ==> bloom_keys(b).contains((#[trigger] rs[i]).0)
}

/// The keys of records.
pub open spec fn record_keys(rs: Seq<RecordView>) -> Seq<Seq<u8>> {
    Seq::new(rs.len(), |i: int| rs[i].0)
}

/// Whether a table's filter, if it has one, is sound and has just the bits set
/// that the keys of the table set, tombstones included.
pub open spec fn bloom_filled(bloom: Option<Bloom>, rs: Seq<RecordView>) -> bool {
    bloom matches Some(b) ==> bloom_sound(b) && set_bits(bloom_words(b)) == bits_of_keys(
        bloom_bits(b),
        record_keys(rs),
    )
}

/// A filter that is filled with the keys of a table reports every one of them.
pub proof fn filled_covers(bloom: Option<Bloom>, rs: Seq<RecordView>)
    requires
        bloom_filled(bloom, rs),
    ensures
        bloom_covers(bloom, rs),
{
    if let Some(b) = bloom {
        assert forall|i: int| 0 <= i < rs.len() implies bloom_keys(b).contains(
            (#[trigger] rs[i]).0,
        ) by {
            filled_bloom_reports(b, record_keys(rs), i);
        }
    }
}

/// Closed blocks and the one being filled hold the records in order, and the
/// blocks together are the records' stored form.
pub proof fn layout_bytes(rs: Seq<RecordView>)
    ensures
        blocks_bytes(layout(rs).0) + run_bytes(layout(rs).1) == run_bytes(rs),
        rs.len() > 0 ==> layout(rs).1.len() > 0,
    decreases rs.len(),
{
    if rs.len() == 0 {
        assert(blocks_bytes(layout(rs).0) + run_bytes(layout(rs).1) =~= run_bytes(rs));
    } else {
        layout_bytes(rs.drop_last());
        let (closed_blocks, filling) = layout(rs.drop_last());
        let r = rs.last();
        assert(closed_blocks.push(filling).drop_last() =~= closed_blocks);
        assert(filling.push(r).drop_last() =~= filling);
        run_bytes_one(r);
        assert(blocks_bytes(layout(rs).0) + run_bytes(layout(rs).1) =~= run_bytes(rs));
    }
}

proof fn layout_is_filled(rs: Seq<RecordView>)
    ensures
        ({
            let (closed_blocks, filling) = layout(rs);
            &&& closed_blocks.flatten_alt() + filling == rs
            &&& rs.len() > 0 ==> filling.len() > 0
            &&& filling.len() > 1 ==> run_bytes(filling).len() <= 4096
            &&& closed_blocks.len() > 0 ==> filling.len() > 0
            &&& forall|i: int|
                0 <= i < closed_blocks.len() ==> (#[trigger] closed_blocks[i]).len() > 0 && (
                closed_blocks[i].len() > 1 ==> run_bytes(closed_blocks[i]).len() <= 4096)
            &&& forall|i: int, j: int|
                0 <= i < closed_blocks.len() && j == i + 1 && j < closed_blocks.len() ==> run_bytes(
                    #[trigger] closed_blocks[i],
                ).len() + record_bytes((#[trigger] closed_blocks[j])[0]).len() > 4096
            &&& closed_blocks.len() > 0 ==> run_bytes(closed_blocks.last()).len() + record_bytes(
                filling[0],
            ).len() > 4096
        }),
    decreases rs.len(),
{
    if rs.len() == 0 {
        assert(layout(rs).0.flatten_alt() + layout(rs).1 =~= rs);
    } else {
        let rest = rs.drop_last();
        let r = rs.last();
        layout_is_filled(rest);
        let (closed_blocks, filling) = layout(rest);
        let more = closed_blocks.push(filling);
        assert(more.drop_last() =~= closed_blocks);
        assert(filling.push(r).drop_last() =~= filling);
        let (next_blocks, next_filling) = layout(rs);
        assert(next_blocks.flatten_alt() + next_filling =~= rs) by {
            assert((closed_blocks.flatten_alt() + filling).push(r) =~= rs);
        }
        if next_blocks.len() > closed_blocks.len() {
            assert(next_blocks == more);
            assert forall|i: int, j: int|
                0 <= i < more.len() && j == i + 1 && j < more.len() implies run_bytes(
                #[trigger] more[i],
            ).len() + record_bytes((#[trigger] more[j])[0]).len() > 4096 by {
                if j < closed_blocks.len() {
                    assert(run_bytes(closed_blocks[i]).len() + record_bytes(
                        closed_blocks[j][0],
                    ).len() > 4096);
                } else {
                    assert(more[i] == closed_blocks.last());
                }
            }
        }
    }
}

/// The blocks of a table are its records in order. A block that has more than one
/// record is no longer than 4096 bytes, and a block ends only where the next record
/// would make it longer than that.
pub proof fn blocks_are_filled(rs: Seq<RecordView>)
    ensures
        table_blocks(rs).flatten() == rs,
        forall|i: int|
            0 <= i < table_blocks(rs).len() ==> {
                &&& (#[trigger] table_blocks(rs)[i]).len() > 0
                &&& table_blocks(rs)[i].len() > 1 ==> run_bytes(table_blocks(rs)[i]).len() <= 4096
            },
        forall|i: int, j: int|
            0 <= i < table_blocks(rs).len() && j == i + 1 && j < table_blocks(rs).len()
                ==> run_bytes(#[trigger] table_blocks(rs)[i]).len() + record_bytes(
                (#[trigger] table_blocks(rs)[j])[0],
            ).len() > 4096,
{
    layout_is_filled(rs);
    let (closed_blocks, filling) = layout(rs);
    let blocks = table_blocks(rs);
    blocks.lemma_flatten_and_flatten_alt_are_equivalent();
    if filling.len() > 0 {
        assert(blocks.drop_last() =~= closed_blocks);
        assert forall|i: int, j: int|
            0 <= i < blocks.len() && j == i + 1 && j < blocks.len() implies run_bytes(
            #[trigger] blocks[i],
        ).len() + record_bytes((#[trigger] blocks[j])[0]).len() > 4096 by {
            if j < closed_blocks.len() {
                assert(run_bytes(closed_blocks[i]).len() + record_bytes(closed_blocks[j][0]).len()
                    > 4096);
            } else {
                assert(blocks[i] == closed_blocks.last());
            }
        }
    } else {
        assert(blocks.flatten_alt() =~= rs);
    }
}

/// The bytes of a footer, one by one: the offset of the index and that of the bloom
/// block, low byte first, and "LSMTREE1".
pub proof fn footer_byte_by_byte(index_offset: u64, bloom_offset: u64)
    ensures
        ({
            let b = footer_bytes(index_offset as nat, bloom_offset as nat);
            &&& b.len() == 24
            &&& utils::le_value(b.subrange(0, 8)) == index_offset
            &&& utils::le_value(b.subrange(8, 16)) == bloom_offset
            &&& b.subrange(16, 24) == seq![
                'L' as u8,
                'S' as u8,
                'M' as u8,
                'T' as u8,
                'R' as u8,
                'E' as u8,
                'E' as u8,
                '1' as u8,
            ]
        }),
{
    let b = footer_bytes(index_offset as nat, bloom_offset as nat);
    utils::le_limits();
    utils::le_bytes_len(index_offset as nat, 8);
    utils::le_bytes_len(bloom_offset as nat, 8);
    utils::le_roundtrip(index_offset as nat, 8);
    utils::le_roundtrip(bloom_offset as nat, 8);
    assert(b.subrange(0, 8) =~= utils::le_bytes(index_offset as nat, 8));
    assert(b.subrange(8, 16) =~= utils::le_bytes(bloom_offset as nat, 8));
    assert(b.subrange(16, 24) =~= MAGIC@);
    assert(MAGIC@ =~= seq![
        'L' as u8,
        'S' as u8,
        'M' as u8,
        'T' as u8,
        'R' as u8,
        'E' as u8,
        'E' as u8,
        '1' as u8,
    ]);
}

/// The sections of a table, in order: the stored records, the index of its blocks, the
/// bloom block if it has a filter, and the footer, which says where index and bloom
/// block start, with zero for no bloom block.
pub proof fn table_is_its_sections(rs: Seq<RecordView>, bloom: Option<Bloom>)
    ensures
        ({
            let image = table_image(rs, bloom);
            let data = run_bytes(rs);
            let index = index_bytes(block_index(table_blocks(rs)));
            &&& image.take(data.len() as int) == data
            &&& image.subrange(data.len() as int, (data.len() + index.len()) as int) == index
            &&& bloom is None ==> image.skip((data.len() + index.len()) as int) == footer_bytes(
                data.len(),
                0,
            )
            &&& bloom matches Some(b) ==> image.skip((data.len() + index.len()) as int)
                == bloom_bytes(bloom_words(b), bloom_hashes(b)) + footer_bytes(
                data.len(),
                data.len() + index.len(),
            )
        }),
{
    layout_bytes(rs);
    let (closed_blocks, filling) = layout(rs);
    let blocks = table_blocks(rs);
    let data = blocks_bytes(blocks);
    assert(data =~= run_bytes(rs)) by {
        if filling.len() > 0 {
            assert(blocks.drop_last() =~= closed_blocks);
        }
    }
    let index = index_bytes(block_index(blocks));
    let image = table_image(rs, bloom);
    assert(image.take(data.len() as int) =~= data);
    assert(image.subrange(data.len() as int, (data.len() + index.len()) as int) =~= index);
    if let Some(b) = bloom {
        assert(image.skip((data.len() + index.len()) as int) =~= bloom_bytes(
            bloom_words(b),
            bloom_hashes(b),
        ) + footer_bytes(data.len(), data.len() + index.len()));
    } else {
        assert(image.skip((data.len() + index.len()) as int) =~= footer_bytes(data.len(), 0));
    }
}

/// Whether blocks are in key order: each has at least one record, its keys
/// ascend, and they come before those of every later block.
pub open spec fn blocks_ordered(blocks: Seq<Seq<RecordView>>) -> bool {
    &&& forall|i: int|
        0 <= i < blocks.len() ==> (#[trigger] blocks[i]).len() > 0 && ascending(blocks[i])
    &&& forall|i: int, j: int, p: int, q: int|
        #![trigger blocks[i][p], blocks[j][q]]
        0 <= i < j < blocks.len() && 0 <= p < blocks[i].len() && 0 <= q < blocks[j].len()
            ==> lex_lt(blocks[i][p].0, blocks[j][q].0)
}

/// Whether blocks hold exactly the records `rs`.
pub open spec fn blocks_hold(blocks: Seq<Seq<RecordView>>, rs: Seq<RecordView>) -> bool {
    &&& forall|i: int, p: int|
        0 <= i < blocks.len() && 0 <= p < blocks[i].len() ==> rs.contains(
            #[trigger] blocks[i][p],
        )
    &&& forall|k: int|
        0 <= k < rs.len() ==> exists|i: int, p: int|
            0 <= i < blocks.len() && 0 <= p < blocks[i].len() && #[trigger] blocks[i][p]
                == #[trigger] rs[k]
}

/// The blocks of ascending records hold exactly those records, in key order.
pub proof fn blocks_shape(rs: Seq<RecordView>)
    requires
        ascending(rs),
    ensures
        blocks_ordered(table_blocks(rs)),
        blocks_hold(table_blocks(rs), rs),
    decreases rs.len(),
{
    let bs = table_blocks(rs);
    if rs.len() > 0 {
        let rest = rs.drop_last();
        let r = rs.last();
        assert forall|i: int, j: int| 0 <= i < j < rest.len() implies lex_lt(
            rest[i].0,
            rest[j].0,
        ) by {
            assert(rs[i] == rest[i] && rs[j] == rest[j]);
        }
        blocks_shape(rest);
        layout_bytes(rest);
        let before = table_blocks(rest);
        let (closed_blocks, filling) = layout(rest);
        let last = bs.len() - 1;
        lex_facts();
        assert forall|i: int, p: int|
            0 <= i < before.len() && 0 <= p < before[i].len() implies lex_lt(
            (#[trigger] before[i][p]).0,
            r.0,
        ) by {
            let k = choose|k: int| 0 <= k < rest.len() && rest[k] == before[i][p];
            assert(rs[k] == rest[k]);
            assert(rs[rs.len() - 1] == r);
        }
        if rest.len() == 0 {
            assert(bs =~= seq![seq![r]]);
            assert(bs[0][0] == rs[0]);
        } else if run_bytes(filling).len() + record_bytes(r).len() > TARGET_BLOCK_SIZE {
            assert(bs =~= before.push(seq![r]));
            assert forall|i: int| 0 <= i < last implies #[trigger] bs[i] == before[i] by {}
        } else {
            assert(before =~= closed_blocks.push(filling));
            assert(bs =~= closed_blocks.push(filling.push(r)));
            assert forall|i: int| 0 <= i < last implies #[trigger] bs[i] == before[i] by {}
            assert forall|p: int| 0 <= p < filling.len() implies #[trigger] bs[last][p]
                == before[last][p] by {}
        }
        assert forall|i: int, p: int|
            0 <= i < bs.len() && 0 <= p < bs[i].len() implies rs.contains(
            #[trigger] bs[i][p],
        ) by {
            if bs[i][p] == r {
                assert(rs[rs.len() - 1] == r);
            } else {
                assert(rest.contains(before[i][p]));
                let k = choose|k: int| 0 <= k < rest.len() && rest[k] == before[i][p];
                assert(rs[k] == rest[k]);
            }
        }
        assert forall|k: int| 0 <= k < rs.len() implies exists|i: int, p: int|
            0 <= i < bs.len() && 0 <= p < bs[i].len() && #[trigger] bs[i][p]
                == #[trigger] rs[k] by {
            if k == rs.len() - 1 {
                assert(bs[last][bs[last].len() - 1] == r);
            } else {
                assert(rest[k] == rs[k]);
                let (i, p) = choose|i: int, p: int|
                    0 <= i < before.len() && 0 <= p < before[i].len() && #[trigger] before[i][p]
                        == rest[k];
                assert(bs[i][p] == rs[k]);
            }
        }
        assert(blocks_ordered(bs));
    }
}

/// The index of a table's blocks, entry by entry.
pub proof fn block_index_at(blocks: Seq<Seq<RecordView>>)
    ensures
        block_index(blocks).len() == blocks.len(),
        forall|i: int|
            0 <= i < blocks.len() ==> {
                let e = #[trigger] block_index(blocks)[i];
                &&& e.first_key == blocks[i][0].0
                &&& e.size == run_bytes(blocks[i]).len()
                &&& e.offset + e.size <= blocks_bytes(blocks).len()
                &&& blocks_bytes(blocks).subrange(e.offset as int, (e.offset + e.size) as int)
                    == run_bytes(blocks[i])
            },
    decreases blocks.len(),
{
    if blocks.len() > 0 {
        let rest = blocks.drop_last();
        block_index_at(rest);
        let data = blocks_bytes(blocks);
        let before = blocks_bytes(rest);
        assert forall|i: int| 0 <= i < blocks.len() implies {
            let e = #[trigger] block_index(blocks)[i];
            &&& e.first_key == blocks[i][0].0
            &&& e.size == run_bytes(blocks[i]).len()
            &&& e.offset + e.size <= data.len()
            &&& data.subrange(e.offset as int, (e.offset + e.size) as int) == run_bytes(blocks[i])
        } by {
            let e = block_index(blocks)[i];
            if i < rest.len() {
                assert(e == block_index(rest)[i]);
                assert(rest[i] == blocks[i]);
                assert(data.subrange(e.offset as int, (e.offset + e.size) as int)
                    =~= before.subrange(e.offset as int, (e.offset + e.size) as int));
            } else {
                assert(data.subrange(e.offset as int, (e.offset + e.size) as int) =~= run_bytes(
                    blocks[i],
                ));
            }
        }
    }
}

proof fn keys_storable(es: Seq<IndexView>)
    requires
        forall|i: int| 0 <= i < es.len() ==> (#[trigger] es[i]).first_key.len() <= 65535,
    ensures
        index_fault(es) is None,
    decreases es.len(),
{
    if es.len() > 0 {
        let rest = es.skip(1);
        assert forall|i: int| 0 <= i < rest.len() implies (#[trigger] rest[i]).first_key.len()
            <= 65535 by {
            assert(rest[i] == es[i + 1]);
        }
        assert(es[0].first_key.len() <= 65535);
        keys_storable(rest);
    }
}

/// The index of a table of storable records can be stored.
pub proof fn index_storable(rs: Seq<RecordView>)
    requires
        ascending(rs),
        storable(rs),
    ensures
        index_fault(block_index(table_blocks(rs))) is None,
{
    let bs = table_blocks(rs);
    let es = block_index(bs);
    blocks_shape(rs);
    block_index_at(bs);
    assert forall|i: int| 0 <= i < es.len() implies (#[trigger] es[i]).first_key.len()
        <= 65535 by {
        assert(bs[i].len() > 0);
        assert(rs.contains(bs[i][0]));
        let k = choose|k: int| 0 <= k < rs.len() && rs[k] == bs[i][0];
        assert(record_fault(rs[k].0, rs[k].1) is None);
    }
    keys_storable(es);
}

/// A finished table's data section is its records' stored form.
pub proof fn table_data(rs: Seq<RecordView>)
    ensures
        blocks_bytes(table_blocks(rs)) == run_bytes(rs),
{
    layout_bytes(rs);
    let (closed_blocks, filling) = layout(rs);
    assert(closed_blocks.push(filling).drop_last() =~= closed_blocks);
    assert(blocks_bytes(table_blocks(rs)) =~= run_bytes(rs));
}

} // verus!
