//! What holds of a table from the builder to the reader: it opens, it answers
//! every lookup by the records that were added, and it lists them.

use super::bloom::{
    bloom_hashes, bloom_keys, bloom_roundtrip, bloom_words, stored_bloom_keeps_keys, Bloom,
};
use super::index::{
    chosen_block, index_bytes, index_fits, index_roundtrip, index_sorted, rightmost_unique,
};
use super::layout::{
    block_index, block_index_at, blocks_bytes, blocks_ordered, blocks_shape, bloom_covers,
    filter_bytes, footer_bytes, index_storable, table_blocks, table_data, table_image,
};
use super::lookup;
use super::reader::{
    bloom_part, file_layout, index_part, looked_up, open_fault, search_from, table_opened,
    ReaderView, TableLayout,
};
use super::record::{
    record_bytes, record_fault, record_roundtrip, records_from, run_bytes, run_bytes_first,
    run_roundtrip, storable, storable_rest,
};
use super::{reported, LookupView, FOOTER_LEN, MAGIC};
use crate::error::ErrorView;
use crate::model::{ascending, contents_facts, contents_of, RecordView};
use crate::order::{lex_facts, lex_lt};
use crate::utils;
use vstd::prelude::*;

verus! {

/// Whether `found` is what the records `rs` say of `key`.
spec fn says(rs: Seq<RecordView>, key: Seq<u8>, found: Option<LookupView>) -> bool {
    match found {
        Some(l) => exists|i: int|
            0 <= i < rs.len() && (#[trigger] rs[i]).0 == key && l == reported((rs[i].1, rs[i].2)),
        None => forall|i: int| 0 <= i < rs.len() ==> (#[trigger] rs[i]).0 != key,
    }
}

proof fn search_of_run(before: Seq<u8>, rs: Seq<RecordView>, key: Seq<u8>) -> (found: Option<
    LookupView,
>)
    requires
        ascending(rs),
        storable(rs),
    ensures
        search_from(before + run_bytes(rs), before.len(), key) == Ok::<
            Option<LookupView>,
            ErrorView,
        >(found),
        says(rs, key, found),
    decreases rs.len(),
{
    let block = before + run_bytes(rs);
    if rs.len() == 0 {
        None
    } else {
        let rest = rs.skip(1);
        run_bytes_first(rs);
        storable_rest(rs);
        record_roundtrip(before, rs[0], run_bytes(rest));
        assert(before + record_bytes(rs[0]) + run_bytes(rest) =~= block);
        lex_facts();
        if rs[0].0 == key {
            Some(reported((rs[0].1, rs[0].2)))
        } else if lex_lt(key, rs[0].0) {
            assert forall|i: int| 0 <= i < rs.len() implies (#[trigger] rs[i]).0 != key by {
                if i > 0 {
                    assert(lex_lt(rs[0].0, rs[i].0));
                }
            }
            None
        } else {
            assert forall|i: int, j: int| 0 <= i < j < rest.len() implies lex_lt(
                rest[i].0,
                rest[j].0,
            ) by {
                assert(rest[i] == rs[i + 1] && rest[j] == rs[j + 1]);
            }
            let found = search_of_run(before + record_bytes(rs[0]), rest, key);
            match found {
                Some(l) => {
                    let i = choose|i: int|
                        0 <= i < rest.len() && (#[trigger] rest[i]).0 == key && l == reported(
                            (rest[i].1, rest[i].2),
                        );
                    assert(rs[i + 1] == rest[i]);
                },
                None => {
                    assert forall|i: int| 0 <= i < rs.len() implies (#[trigger] rs[i]).0
                        != key by {
                        if i > 0 {
                            assert(rest[i - 1] == rs[i]);
                        }
                    }
                },
            }
            found
        }
    }
}

proof fn says_is_lookup(rs: Seq<RecordView>, key: Seq<u8>, found: Option<LookupView>)
    requires
        ascending(rs),
        says(rs, key, found),
    ensures
        found == lookup(contents_of(rs), key),
{
    contents_facts(rs);
}

/// Scanning a block finds exactly what its records say of the key.
pub proof fn block_answers(rs: Seq<RecordView>, key: Seq<u8>)
    requires
        ascending(rs),
        storable(rs),
    ensures
        search_from(run_bytes(rs), 0, key) == Ok::<Option<LookupView>, ErrorView>(
            lookup(contents_of(rs), key),
        ),
{
    let found = search_of_run(Seq::empty(), rs, key);
    assert(Seq::<u8>::empty() + run_bytes(rs) =~= run_bytes(rs));
    says_is_lookup(rs, key, found);
}

proof fn table_index(rs: Seq<RecordView>)
    requires
        ascending(rs),
    ensures
        index_sorted(block_index(table_blocks(rs))),
{
    let bs = table_blocks(rs);
    let es = block_index(bs);
    blocks_shape(rs);
    block_index_at(bs);
    assert forall|i: int, j: int| 0 <= i < j < es.len() implies lex_lt(
        es[i].first_key,
        es[j].first_key,
    ) by {
        assert(bs[i].len() > 0 && bs[j].len() > 0);
        assert(lex_lt(bs[i][0].0, bs[j][0].0));
    }
}

/// Whether a table of these records can be made: they ascend and can be stored,
/// the filter covers them, and the table is no longer than its offsets can say.
pub open spec fn table_valid(rs: Seq<RecordView>, bloom: Option<Bloom>) -> bool {
    &&& ascending(rs)
    &&& storable(rs)
    &&& bloom_covers(bloom, rs)
    &&& bloom is Some ==> rs.len() > 0
    &&& table_image(rs, bloom).len() <= u64::MAX
}

spec fn true_layout(rs: Seq<RecordView>, bloom: Option<Bloom>) -> TableLayout {
    let data = blocks_bytes(table_blocks(rs));
    let index = index_bytes(block_index(table_blocks(rs)));
    TableLayout {
        file_len: table_image(rs, bloom).len() as u64,
        index_offset: data.len() as u64,
        bloom_offset: if bloom is Some {
            (data.len() + index.len()) as u64
        } else {
            0
        },
    }
}

proof fn table_sections(path: Seq<char>, rs: Seq<RecordView>, bloom: Option<Bloom>)
    requires
        table_valid(rs, bloom),
    ensures
        file_layout(path, table_image(rs, bloom)) == Ok::<TableLayout, ErrorView>(
            true_layout(rs, bloom),
        ),
        true_layout(rs, bloom).index_offset == run_bytes(rs).len(),
        bloom is Some <==> true_layout(rs, bloom).bloom_offset != 0,
        index_part(table_image(rs, bloom), true_layout(rs, bloom)) == index_bytes(
            block_index(table_blocks(rs)),
        ),
        bloom_part(table_image(rs, bloom), true_layout(rs, bloom)) == filter_bytes(bloom),
        table_image(rs, bloom).subrange(0, run_bytes(rs).len() as int) == run_bytes(rs),
{
    let data = blocks_bytes(table_blocks(rs));
    let index = index_bytes(block_index(table_blocks(rs)));
    let filter = filter_bytes(bloom);
    let file = table_image(rs, bloom);
    let found = true_layout(rs, bloom);
    let bloom_offset = if bloom is Some {
        data.len() + index.len()
    } else {
        0
    };
    let footer = footer_bytes(data.len(), bloom_offset);
    table_data(rs);
    utils::le_limits();
    utils::le_bytes_len(data.len(), 8);
    utils::le_bytes_len(bloom_offset, 8);
    assert(footer.len() == FOOTER_LEN);
    assert(file =~= data + index + filter + footer);
    assert(data.len() + index.len() <= u64::MAX);
    assert(file.subrange(file.len() - FOOTER_LEN, file.len() as int) =~= footer);
    assert(footer.subrange(0, 8) =~= utils::le_bytes(data.len(), 8));
    assert(footer.subrange(8, 16) =~= utils::le_bytes(bloom_offset, 8));
    assert(footer.subrange(16, 24) =~= MAGIC@);
    utils::le_roundtrip(data.len(), 8);
    utils::le_roundtrip(bloom_offset, 8);
    if bloom is Some {
        run_bytes_first(rs);
        super::record::record_bytes_len(rs[0]);
    }
    assert(found.index_end_spec() == data.len() + index.len());
    assert(index_part(file, found) =~= index);
    assert(bloom_part(file, found) =~= filter);
    assert(file.subrange(0, data.len() as int) =~= data);
}

/// A table that was laid out opens: nothing in it is found wrong, and the
/// reader has the index of its blocks, the length of its data, and a filter that
/// reports the same keys.
pub proof fn table_opens(path: Seq<char>, rs: Seq<RecordView>, bloom: Option<Bloom>)
    requires
        table_valid(rs, bloom),
    ensures
        open_fault(path, table_image(rs, bloom)) is None,
        forall|v: ReaderView| #[trigger]
            table_opened(path, table_image(rs, bloom), v) ==> {
                &&& v.file_len == table_image(rs, bloom).len()
                &&& v.index_offset == run_bytes(rs).len()
                &&& v.index == block_index(table_blocks(rs))
                &&& v.bloom is Some <==> bloom is Some
                &&& v.bloom is Some ==> bloom_keys(v.bloom.unwrap()) == bloom_keys(bloom.unwrap())
            },
{
    let es = block_index(table_blocks(rs));
    let file = table_image(rs, bloom);
    table_sections(path, rs, bloom);
    index_storable(rs);
    block_index_at(table_blocks(rs));
    table_data(rs);
    assert(index_fits(es)) by {
        assert forall|i: int| 0 <= i < es.len() implies (#[trigger] es[i]).offset <= u64::MAX
            && es[i].size <= u64::MAX by {
            assert(es[i].offset + es[i].size <= run_bytes(rs).len());
        }
    }
    index_roundtrip(es);
    if let Some(b) = bloom {
        bloom_roundtrip(bloom_words(b), bloom_hashes(b));
        assert forall|v: ReaderView| #[trigger] table_opened(path, file, v) implies bloom_keys(
            v.bloom.unwrap(),
        ) == bloom_keys(b) by {
            stored_bloom_keeps_keys(b, v.bloom.unwrap());
        }
    }
}

/// A table answers a lookup by the records that were added to it: a live value,
/// a tombstone, or nothing. The filter never hides a key.
#[verifier::rlimit(30)]
pub proof fn table_answers(
    path: Seq<char>,
    rs: Seq<RecordView>,
    bloom: Option<Bloom>,
    v: ReaderView,
    key: Seq<u8>,
    block: Option<nat>,
)
    requires
        table_valid(rs, bloom),
        table_opened(path, table_image(rs, bloom), v),
        chosen_block(v.index, key, block),
    ensures
        looked_up(v, table_image(rs, bloom), key, block) == Ok::<Option<LookupView>, ErrorView>(
            lookup(contents_of(rs), key),
        ),
{
    let bs = table_blocks(rs);
    let file = table_image(rs, bloom);
    table_opens(path, rs, bloom);
    table_sections(path, rs, bloom);
    table_index(rs);
    blocks_shape(rs);
    block_index_at(bs);
    table_data(rs);
    contents_facts(rs);
    lex_facts();
    if contents_of(rs).contains_key(key) {
        let k = choose|k: int| 0 <= k < rs.len() && #[trigger] rs[k].0 == key;
        let (i, p) = choose|i: int, p: int|
            0 <= i < bs.len() && 0 <= p < bs[i].len() && #[trigger] bs[i][p] == rs[k];
        if let Some(b) = bloom {
            assert(bloom_keys(b).contains(rs[k].0));
        }
        block_of_key(bs, i, p, key);
        assert(block_starts(bs, i, key));
        assert(block == Some(i as nat)) by {
            assert(super::index::rightmost_block(v.index, key, Some(i as nat)));
            rightmost_unique(v.index, key, block, Some(i as nat));
        }
        let e = v.index[i];
        assert(e.offset + e.size <= run_bytes(rs).len());
        assert(file.subrange(e.offset as int, (e.offset + e.size) as int) =~= run_bytes(
            rs,
        ).subrange(e.offset as int, (e.offset + e.size) as int)) by {
            assert(run_bytes(rs) == file.subrange(0, run_bytes(rs).len() as int));
        }
        block_storable(rs, bs, i);
        block_answers(bs[i], key);
        contents_facts(bs[i]);
        assert(contents_of(bs[i])[bs[i][p].0] == (bs[i][p].1, bs[i][p].2));
        assert(contents_of(rs)[rs[k].0] == (rs[k].1, rs[k].2));
    } else if let Some(at) = block {
        let i = at as int;
        let e = v.index[i];
        assert(e.offset + e.size <= run_bytes(rs).len());
        assert(file.subrange(e.offset as int, (e.offset + e.size) as int) =~= run_bytes(
            rs,
        ).subrange(e.offset as int, (e.offset + e.size) as int)) by {
            assert(run_bytes(rs) == file.subrange(0, run_bytes(rs).len() as int));
        }
        block_storable(rs, bs, i);
        block_answers(bs[i], key);
        contents_facts(bs[i]);
        if contents_of(bs[i]).contains_key(key) {
            let p = choose|p: int| 0 <= p < bs[i].len() && #[trigger] bs[i][p].0 == key;
            assert(rs.contains(bs[i][p]));
            let k = choose|k: int| 0 <= k < rs.len() && rs[k] == bs[i][p];
            assert(contents_of(rs).contains_key(rs[k].0));
        }
    }
}

/// Whether block `i` starts at `key` or before it and every later one after it.
spec fn block_starts(bs: Seq<Seq<RecordView>>, i: int, key: Seq<u8>) -> bool {
    &&& bs[i][0].0 == key || lex_lt(bs[i][0].0, key)
    &&& forall|j: int| i < j < bs.len() ==> lex_lt(key, (#[trigger] bs[j])[0].0)
}

proof fn block_of_key(bs: Seq<Seq<RecordView>>, i: int, p: int, key: Seq<u8>)
    requires
        blocks_ordered(bs),
        0 <= i < bs.len(),
        0 <= p < bs[i].len(),
        bs[i][p].0 == key,
    ensures
        block_starts(bs, i, key),
{
    assert(ascending(bs[i]));
    if p > 0 {
        assert(lex_lt(bs[i][0].0, bs[i][p].0));
    }
    assert forall|j: int| i < j < bs.len() implies lex_lt(key, (#[trigger] bs[j])[0].0) by {
        assert(bs[j].len() > 0);
        assert(lex_lt(bs[i][p].0, bs[j][0].0));
    }
}

proof fn block_storable(rs: Seq<RecordView>, bs: Seq<Seq<RecordView>>, i: int)
    requires
        storable(rs),
        super::layout::blocks_hold(bs, rs),
        0 <= i < bs.len(),
    ensures
        storable(bs[i]),
{
    assert forall|p: int| 0 <= p < bs[i].len() implies record_fault(
        (#[trigger] bs[i][p]).0,
        bs[i][p].1,
    ) is None by {
        assert(rs.contains(bs[i][p]));
        let k = choose|k: int| 0 <= k < rs.len() && rs[k] == bs[i][p];
        assert(record_fault(rs[k].0, rs[k].1) is None);
    }
}

/// A table lists the records that were added to it, in order.
pub proof fn table_lists(
    path: Seq<char>,
    rs: Seq<RecordView>,
    bloom: Option<Bloom>,
    v: ReaderView,
)
    requires
        table_valid(rs, bloom),
        table_opened(path, table_image(rs, bloom), v),
    ensures
        records_from(table_image(rs, bloom).subrange(0, v.index_offset as int), 0) == Ok::<
            Seq<RecordView>,
            ErrorView,
        >(rs),
{
    table_opens(path, rs, bloom);
    table_sections(path, rs, bloom);
    run_roundtrip(rs);
}

} // verus!
