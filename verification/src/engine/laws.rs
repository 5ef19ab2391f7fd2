//! What holds of the engine as a whole. A write is read back, and freezing,
//! flushing, compacting and reopening change nothing that a reader sees.
//!
//! The tables on disk are modelled by what each file holds, by its name.

use super::names::{table_name_text, table_names_differ};
use super::{
    after_compaction, after_flush, after_freeze, after_persist, after_reserve, after_write,
    build_fault, candidates, cell_value, compacted, engine_wf, frozen_cell, in_range,
    level_candidates, memory_cell, merge_inputs, table_built, table_meta, without_log, EngineView,
    ImmView,
};
use crate::compaction::leveled::{
    holders, merge_newest_wins, merged, newest_cell, newest_live, newest_of, newest_of_facts,
    run_contents,
};
use crate::error::ErrorView;
use crate::manifest::{grown, meta_fits, place_in, seqs_ascend, seqs_ordered, MetaView};
use crate::model::{ascending, contents_facts, contents_of, lists, live, Cell, Contents, RecordView};
use crate::order::{lex_facts, lex_lt};
use crate::sstable::bloom::{Bloom, BloomSizing};
use crate::sstable::index::chosen_block;
use crate::sstable::layout::{bloom_filled, filled_covers, table_image};
use crate::sstable::reader::{looked_up, table_opened, ReaderView};
use crate::sstable::record::storable;
use crate::sstable::table::table_answers;
use crate::sstable::{lookup, LookupView};
use crate::text::decimal;
use vstd::prelude::*;

verus! {

/// What the table files hold, by name.
pub type Tables = Map<Seq<char>, Contents>;

/// The state of `key` in the first of the tables that has it.
pub open spec fn first_hit(tables: Seq<MetaView>, files: Tables, key: Seq<u8>) -> Option<Cell>
    decreases tables.len(),
{
    if tables.len() == 0 {
        None
    } else if files[tables[0].name].contains_key(key) {
        Some(files[tables[0].name][key])
    } else {
        first_hit(tables.skip(1), files, key)
    }
}

/// The state of `key` on disk: what the tables that may hold it say, in their
/// order.
pub open spec fn disk_cell(levels: Seq<Seq<MetaView>>, files: Tables, key: Seq<u8>) -> Option<
    Cell,
> {
    first_hit(candidates(levels, key), files, key)
}

/// What a reader sees of `key`: the state in memory decides, else the state on
/// disk, and a key that is nowhere is absent.
pub open spec fn read(v: EngineView, files: Tables, key: Seq<u8>) -> Option<Seq<u8>> {
    match memory_cell(v, key) {
        Some(c) => cell_value(c),
        None => match disk_cell(v.levels, files, key) {
            Some(c) => cell_value(c),
            None => None,
        },
    }
}

/// Asking the next table decides by a value or a tombstone, and leaves the rest
/// of the search otherwise: so the walk of a
/// [`TableSearch`](super::TableSearch) ends in what the disk says of the key.
pub proof fn search_step(tables: Seq<MetaView>, files: Tables, key: Seq<u8>)
    requires
        tables.len() > 0,
    ensures
        match lookup(files[tables[0].name], key) {
            Some(LookupView::Present(value)) => first_hit(tables, files, key) matches Some(c)
                && cell_value(c) == Some(value),
            Some(LookupView::Deleted) => first_hit(tables, files, key) matches Some(c)
                && cell_value(c) is None,
            None => first_hit(tables, files, key) == first_hit(tables.skip(1), files, key),
        },
{
}

/// What memory says of a key: the active memtable decides if it has the key, else the
/// newest frozen one that has it, which no newer one has.
pub proof fn memory_is_newest_first(v: EngineView, key: Seq<u8>)
    ensures
        v.active.contains_key(key) ==> memory_cell(v, key) == Some(v.active[key]),
        memory_cell(v, key) is None <==> !v.active.contains_key(key) && forall|i: int|
            0 <= i < v.immutables.len() ==> !(#[trigger] v.immutables[i]).contents.contains_key(
                key,
            ),
        forall|i: int|
            {
                &&& !v.active.contains_key(key)
                &&& 0 <= i < v.immutables.len()
                &&& (#[trigger] v.immutables[i]).contents.contains_key(key)
                &&& forall|j: int|
                    i < j < v.immutables.len() ==> !(
                    #[trigger] v.immutables[j]).contents.contains_key(key)
            } ==> memory_cell(v, key) == Some(v.immutables[i].contents[key]),
{
    frozen_is_newest_first(v.immutables, key);
}

proof fn frozen_is_newest_first(imms: Seq<ImmView>, key: Seq<u8>)
    ensures
        frozen_cell(imms, key) is None <==> forall|i: int|
            0 <= i < imms.len() ==> !(#[trigger] imms[i]).contents.contains_key(key),
        forall|i: int|
            {
                &&& 0 <= i < imms.len()
                &&& (#[trigger] imms[i]).contents.contains_key(key)
                &&& forall|j: int|
                    i < j < imms.len() ==> !(#[trigger] imms[j]).contents.contains_key(key)
            } ==> frozen_cell(imms, key) == Some(imms[i].contents[key]),
    decreases imms.len(),
{
    if imms.len() > 0 {
        let rest = imms.drop_last();
        let last = imms.len() - 1;
        frozen_is_newest_first(rest, key);
        assert(imms[last] == imms.last());
        if !imms.last().contents.contains_key(key) {
            if frozen_cell(imms, key) is None {
                assert forall|i: int| 0 <= i < imms.len() implies !(
                #[trigger] imms[i]).contents.contains_key(key) by {
                    if i < last {
                        assert(rest[i] == imms[i]);
                    }
                }
            } else {
                let i = choose|i: int|
                    0 <= i < rest.len() && (#[trigger] rest[i]).contents.contains_key(key);
                assert(imms[i] == rest[i]);
            }
            assert forall|i: int|
                {
                    &&& 0 <= i < imms.len()
                    &&& (#[trigger] imms[i]).contents.contains_key(key)
                    &&& forall|j: int|
                        i < j < imms.len() ==> !(#[trigger] imms[j]).contents.contains_key(key)
                } implies frozen_cell(imms, key) == Some(imms[i].contents[key]) by {
                assert(rest[i] == imms[i]);
                assert forall|j: int| i < j < rest.len() implies !(
                #[trigger] rest[j]).contents.contains_key(key) by {
                    assert(rest[j] == imms[j]);
                }
            }
        }
    }
}

proof fn level_candidates_in_range(metas: Seq<MetaView>, key: Seq<u8>, m: MetaView)
    ensures
        level_candidates(metas, key).contains(m) <==> metas.contains(m) && !lex_lt(key, m.min)
            && !lex_lt(m.max, key),
    decreases metas.len(),
{
    let found = level_candidates(metas, key);
    if metas.len() > 0 {
        let rest = metas.drop_last();
        let older = level_candidates(rest, key);
        let last = metas.len() - 1;
        level_candidates_in_range(rest, key, m);
        if found.contains(m) {
            let k = choose|k: int| 0 <= k < found.len() && found[k] == m;
            if m == metas.last() && in_range(metas.last(), key) {
                assert(metas[last] == m);
            } else {
                assert(older.contains(m)) by {
                    if in_range(metas.last(), key) {
                        assert(older[k - 1] == m);
                    } else {
                        assert(older[k] == m);
                    }
                }
                let i = choose|i: int| 0 <= i < rest.len() && rest[i] == m;
                assert(metas[i] == m);
            }
        }
        if metas.contains(m) && in_range(m, key) {
            if m == metas.last() {
                assert(found[0] == m);
            } else {
                let i = choose|i: int| 0 <= i < metas.len() && metas[i] == m;
                assert(rest[i] == m);
                let k = choose|k: int| 0 <= k < older.len() && older[k] == m;
                if in_range(metas.last(), key) {
                    assert(found[k + 1] == m);
                } else {
                    assert(found[k] == m);
                }
            }
        }
    }
}

/// The tables of a level that are asked for a key are those whose range has it, each
/// once, from the last of the level to the first.
pub proof fn level_is_asked_backwards(metas: Seq<MetaView>, key: Seq<u8>)
    ensures
        level_candidates(metas, key) == metas.filter(
            |m: MetaView| !lex_lt(key, m.min) && !lex_lt(m.max, key),
        ).reverse(),
    decreases metas.len(),
{
    reveal(Seq::filter);
    let asked = |m: MetaView| !lex_lt(key, m.min) && !lex_lt(m.max, key);
    if metas.len() > 0 {
        let rest = metas.drop_last();
        level_is_asked_backwards(rest, key);
        assert(level_candidates(metas, key) =~= metas.filter(asked).reverse());
    } else {
        assert(level_candidates(metas, key) =~= metas.filter(asked).reverse());
    }
}

/// The levels are asked in order, level 0 first.
pub proof fn levels_are_asked_in_order(
    levels: Seq<Seq<MetaView>>,
    metas: Seq<MetaView>,
    key: Seq<u8>,
)
    ensures
        candidates(levels.push(metas), key) == candidates(levels, key) + level_candidates(
            metas,
            key,
        ),
        candidates(Seq::empty(), key) == Seq::<MetaView>::empty(),
{
    assert(levels.push(metas).drop_last() =~= levels);
}

/// The tables that are asked for a key are those of all levels whose key range has it:
/// neither end of the range is left out, and no other table is asked.
pub proof fn tables_asked_are_in_range(levels: Seq<Seq<MetaView>>, key: Seq<u8>, m: MetaView)
    ensures
        candidates(levels, key).contains(m) <==> {
            &&& !lex_lt(key, m.min)
            &&& !lex_lt(m.max, key)
            &&& exists|i: int| 0 <= i < levels.len() && (#[trigger] levels[i]).contains(m)
        },
    decreases levels.len(),
{
    let found = candidates(levels, key);
    if levels.len() > 0 {
        let rest = levels.drop_last();
        let before = candidates(rest, key);
        let last = levels.len() - 1;
        let here = level_candidates(levels.last(), key);
        tables_asked_are_in_range(rest, key, m);
        level_candidates_in_range(levels.last(), key, m);
        if found.contains(m) {
            let k = choose|k: int| 0 <= k < found.len() && found[k] == m;
            if k < before.len() {
                assert(before[k] == m);
                let i = choose|i: int| 0 <= i < rest.len() && (#[trigger] rest[i]).contains(m);
                assert(levels[i].contains(m));
            } else {
                assert(here[k - before.len()] == m);
                assert(levels[last].contains(m));
            }
        }
        if in_range(m, key) && exists|i: int|
            0 <= i < levels.len() && (#[trigger] levels[i]).contains(m) {
            let i = choose|i: int| 0 <= i < levels.len() && (#[trigger] levels[i]).contains(m);
            if i < last {
                assert(rest[i].contains(m));
                let k = choose|k: int| 0 <= k < before.len() && before[k] == m;
                assert(found[k] == m);
            } else {
                let k = choose|k: int| 0 <= k < here.len() && here[k] == m;
                assert(found[before.len() + k] == m);
            }
        }
    }
}

/// A put is read back, a deleted key is absent, and what is read of other keys
/// stays.
pub proof fn write_then_read(
    v: EngineView,
    files: Tables,
    key: Seq<u8>,
    value: Seq<u8>,
    other: Seq<u8>,
)
    ensures
        read(after_write(v, key, value, false), files, key) == Some(value),
        read(after_write(v, key, value, true), files, key) is None,
        other != key ==> read(after_write(v, key, value, false), files, other) == read(
            v,
            files,
            other,
        ),
        other != key ==> read(after_write(v, key, value, true), files, other) == read(
            v,
            files,
            other,
        ),
{
}

/// Freezing, handing out a sequence number and writing the manifest change nothing
/// that is read.
pub proof fn freeze_keeps_reads(v: EngineView, files: Tables, new_seq: u64, key: Seq<u8>)
    ensures
        read(after_freeze(v, new_seq), files, key) == read(v, files, key),
        read(after_reserve(v), files, key) == read(v, files, key),
        read(after_persist(v), files, key) == read(v, files, key),
{
    let after = after_freeze(v, new_seq);
    assert(after.immutables.drop_last() =~= v.immutables);
}

/// Whether every table that the levels name has a file, and holds no key outside
/// the range that its entry gives.
pub open spec fn files_match(levels: Seq<Seq<MetaView>>, files: Tables) -> bool {
    forall|i: int, j: int|
        0 <= i < levels.len() && 0 <= j < levels[i].len() ==> file_matches(
            #[trigger] levels[i][j],
            files,
        )
}

pub open spec fn file_matches(m: MetaView, files: Tables) -> bool {
    &&& files.contains_key(m.name)
    &&& forall|key: Seq<u8>| #[trigger] files[m.name].contains_key(key) ==> in_range(m, key)
}

/// The state of `key` in the newest table of a level that has it.
pub open spec fn level_cell(metas: Seq<MetaView>, files: Tables, key: Seq<u8>) -> Option<Cell>
    decreases metas.len(),
{
    if metas.len() == 0 {
        None
    } else if files[metas.last().name].contains_key(key) {
        Some(files[metas.last().name][key])
    } else {
        level_cell(metas.drop_last(), files, key)
    }
}

/// The state of `key` in the first level that has it.
pub open spec fn levels_cell(levels: Seq<Seq<MetaView>>, files: Tables, key: Seq<u8>) -> Option<
    Cell,
>
    decreases levels.len(),
{
    if levels.len() == 0 {
        None
    } else {
        match level_cell(levels[0], files, key) {
            Some(c) => Some(c),
            None => levels_cell(levels.skip(1), files, key),
        }
    }
}

proof fn first_hit_concat(a: Seq<MetaView>, b: Seq<MetaView>, files: Tables, key: Seq<u8>)
    ensures
        first_hit(a + b, files, key) == match first_hit(a, files, key) {
            Some(c) => Some(c),
            None => first_hit(b, files, key),
        },
    decreases a.len(),
{
    if a.len() == 0 {
        assert(a + b =~= b);
    } else {
        assert((a + b)[0] == a[0]);
        assert((a + b).skip(1) =~= a.skip(1) + b);
        first_hit_concat(a.skip(1), b, files, key);
    }
}

proof fn candidates_front(levels: Seq<Seq<MetaView>>, key: Seq<u8>)
    requires
        levels.len() > 0,
    ensures
        candidates(levels, key) == level_candidates(levels[0], key) + candidates(
            levels.skip(1),
            key,
        ),
    decreases levels.len(),
{
    reveal_with_fuel(candidates, 2);
    if levels.len() == 1 {
        assert(levels.skip(1) =~= Seq::empty());
        assert(levels.drop_last() =~= Seq::empty());
        assert(candidates(levels, key) =~= level_candidates(levels[0], key) + candidates(
            levels.skip(1),
            key,
        ));
    } else {
        let rest = levels.drop_last();
        candidates_front(rest, key);
        assert(rest.skip(1) =~= levels.skip(1).drop_last());
        assert(rest[0] == levels[0]);
        assert(levels.skip(1).last() == levels.last());
        assert(candidates(levels, key) =~= level_candidates(levels[0], key) + candidates(
            levels.skip(1),
            key,
        ));
    }
}

proof fn level_hit(metas: Seq<MetaView>, files: Tables, key: Seq<u8>)
    requires
        forall|j: int| 0 <= j < metas.len() ==> file_matches(#[trigger] metas[j], files),
    ensures
        first_hit(level_candidates(metas, key), files, key) == level_cell(metas, files, key),
    decreases metas.len(),
{
    if metas.len() > 0 {
        let rest = metas.drop_last();
        let last = metas.last();
        assert forall|j: int| 0 <= j < rest.len() implies file_matches(
            #[trigger] rest[j],
            files,
        ) by {
            assert(rest[j] == metas[j]);
        }
        level_hit(rest, files, key);
        assert(file_matches(metas[metas.len() - 1], files));
        if in_range(last, key) {
            let older = level_candidates(rest, key);
            assert((seq![last] + older)[0] == last);
            assert((seq![last] + older).skip(1) =~= older);
        }
    }
}

/// A table's key range never hides a key: what the disk says of a key is what
/// the newest table of the first level that has it says.
pub proof fn ranges_hide_nothing(levels: Seq<Seq<MetaView>>, files: Tables, key: Seq<u8>)
    requires
        files_match(levels, files),
    ensures
        disk_cell(levels, files, key) == levels_cell(levels, files, key),
    decreases levels.len(),
{
    if levels.len() > 0 {
        let rest = levels.skip(1);
        assert forall|i: int, j: int|
            0 <= i < rest.len() && 0 <= j < rest[i].len() implies file_matches(
            #[trigger] rest[i][j],
            files,
        ) by {
            assert(rest[i][j] == levels[i + 1][j]);
        }
        ranges_hide_nothing(rest, files, key);
        candidates_front(levels, key);
        first_hit_concat(
            level_candidates(levels[0], key),
            candidates(rest, key),
            files,
            key,
        );
        assert forall|j: int| 0 <= j < levels[0].len() implies file_matches(
            #[trigger] levels[0][j],
            files,
        ) by {}
        level_hit(levels[0], files, key);
    }
}

proof fn level_cell_same(metas: Seq<MetaView>, a: Tables, b: Tables, key: Seq<u8>)
    requires
        forall|j: int| 0 <= j < metas.len() ==> a[(#[trigger] metas[j]).name] == b[metas[j].name],
    ensures
        level_cell(metas, a, key) == level_cell(metas, b, key),
    decreases metas.len(),
{
    if metas.len() > 0 {
        let rest = metas.drop_last();
        assert(a[metas[metas.len() - 1].name] == b[metas[metas.len() - 1].name]);
        assert forall|j: int| 0 <= j < rest.len() implies a[(#[trigger] rest[j]).name]
            == b[rest[j].name] by {
            assert(rest[j] == metas[j]);
        }
        level_cell_same(rest, a, b, key);
    }
}

/// Only the files that the levels name decide what the disk says of a key.
pub proof fn levels_cell_same(levels: Seq<Seq<MetaView>>, a: Tables, b: Tables, key: Seq<u8>)
    requires
        forall|i: int, j: int|
            0 <= i < levels.len() && 0 <= j < levels[i].len() ==> a[(
            #[trigger] levels[i][j]).name] == b[levels[i][j].name],
    ensures
        levels_cell(levels, a, key) == levels_cell(levels, b, key),
    decreases levels.len(),
{
    if levels.len() > 0 {
        let rest = levels.skip(1);
        assert forall|j: int| 0 <= j < levels[0].len() implies a[(#[trigger] levels[0][j]).name]
            == b[levels[0][j].name] by {}
        level_cell_same(levels[0], a, b, key);
        assert forall|i: int, j: int| 0 <= i < rest.len() && 0 <= j < rest[i].len() implies a[(
        #[trigger] rest[i][j]).name] == b[rest[i][j].name] by {
            assert(rest[i][j] == levels[i + 1][j]);
        }
        levels_cell_same(rest, a, b, key);
    }
}

/// Whether no table of the levels has this name.
pub open spec fn name_unused(levels: Seq<Seq<MetaView>>, name: Seq<char>) -> bool {
    forall|i: int, j: int|
        0 <= i < levels.len() && 0 <= j < levels[i].len() ==> (#[trigger] levels[i][j]).name
            != name
}

/// Whether the log generations of the frozen memtables ascend, up to that of the
/// active one.
pub open spec fn logs_ascend(v: EngineView) -> bool {
    &&& forall|i: int, j: int|
        #![trigger v.immutables[i], v.immutables[j]]
        0 <= i < j < v.immutables.len() ==> v.immutables[i].wal_seq < v.immutables[j].wal_seq
    &&& forall|i: int|
        0 <= i < v.immutables.len() ==> (#[trigger] v.immutables[i]).wal_seq < v.wal_seq
}

/// Dropping the oldest frozen memtable leaves the others.
pub proof fn without_first(imms: Seq<ImmView>)
    requires
        imms.len() > 0,
        forall|i: int, j: int|
            #![trigger imms[i], imms[j]]
            0 <= i < j < imms.len() ==> imms[i].wal_seq < imms[j].wal_seq,
    ensures
        without_log(imms, imms[0].wal_seq) == imms.skip(1),
    decreases imms.len(),
{
    reveal_with_fuel(without_log, 2);
    if imms.len() == 1 {
        assert(imms.drop_last() =~= Seq::empty());
        assert(imms.skip(1) =~= Seq::empty());
    } else {
        let rest = imms.drop_last();
        assert forall|i: int, j: int| 0 <= i < j < rest.len() implies rest[i].wal_seq
            < rest[j].wal_seq by {
            assert(rest[i] == imms[i] && rest[j] == imms[j]);
        }
        without_first(rest);
        assert(imms[0].wal_seq < imms[imms.len() - 1].wal_seq);
        assert(rest.skip(1).push(imms.last()) =~= imms.skip(1));
    }
}

proof fn frozen_first(imms: Seq<ImmView>, key: Seq<u8>)
    requires
        imms.len() > 0,
    ensures
        frozen_cell(imms, key) == match frozen_cell(imms.skip(1), key) {
            Some(c) => Some(c),
            None => if imms[0].contents.contains_key(key) {
                Some(imms[0].contents[key])
            } else {
                None
            },
        },
    decreases imms.len(),
{
    reveal_with_fuel(frozen_cell, 2);
    if imms.len() == 1 {
        assert(imms.skip(1) =~= Seq::empty());
        assert(imms.drop_last() =~= Seq::empty());
    } else {
        frozen_first(imms.drop_last(), key);
        assert(imms.drop_last().skip(1) =~= imms.skip(1).drop_last());
        assert(imms.skip(1).last() == imms.last());
    }
}

/// A table of ascending records holds no key outside its range.
pub proof fn table_range(level: u32, seq: u64, rs: Seq<RecordView>, key: Seq<u8>)
    requires
        ascending(rs),
        contents_of(rs).contains_key(key),
    ensures
        in_range(table_meta(level, seq, rs), key),
{
    lex_facts();
    contents_facts(rs);
    let i = choose|i: int| 0 <= i < rs.len() && #[trigger] rs[i].0 == key;
    if i > 0 {
        assert(lex_lt(rs[0].0, rs[i].0));
    }
    if i < rs.len() - 1 {
        assert(lex_lt(rs[i].0, rs[rs.len() - 1].0));
    }
}

/// Flushing changes nothing that is read: when the oldest frozen memtable has
/// become the newest table of level 0, a reader finds there what was in memory.
pub proof fn flush_keeps_reads(
    v: EngineView,
    files: Tables,
    seq: u64,
    rs: Seq<RecordView>,
    key: Seq<u8>,
)
    requires
        engine_wf(v),
        logs_ascend(v),
        v.immutables.len() > 0,
        lists(rs, v.immutables[0].contents),
        files_match(v.levels, files),
        name_unused(v.levels, table_name_text(0, seq)),
        v.levels.len() > 0 ==> forall|j: int|
            0 <= j < v.levels[0].len() ==> (#[trigger] v.levels[0][j]).seq < seq,
    ensures
        ({
            let meta = table_meta(0, seq, rs);
            let after = after_flush(v, meta, v.immutables[0].wal_seq);
            let more = files.insert(meta.name, v.immutables[0].contents);
            &&& read(after, more, key) == read(v, files, key)
            &&& files_match(after.levels, more)
            &&& after.immutables == v.immutables.skip(1)
        }),
{
    let meta = table_meta(0, seq, rs);
    let oldest = v.immutables[0].contents;
    let after = after_flush(v, meta, v.immutables[0].wal_seq);
    let more = files.insert(meta.name, oldest);
    let wide = grown(v.levels, 1);
    assert(seqs_ordered(wide[0])) by {
        if v.levels.len() > 0 {
            assert(seqs_ordered(v.levels[0]));
        }
    }
    assert(place_in(wide[0], seq) == wide[0].len()) by {
        if wide[0].len() > 0 {
            assert(v.levels[0][wide[0].len() - 1].seq < seq);
        }
    }
    let first = wide[0].push(meta);
    assert(wide[0].insert(wide[0].len() as int, meta) =~= first);
    assert(after.levels =~= wide.update(0, first));
    assert forall|i: int, j: int| 0 <= i < after.levels.len() && 0 <= j < after.levels[i].len()
        implies file_matches(#[trigger] after.levels[i][j], more) by {
        if i == 0 && j == wide[0].len() {
            assert forall|k: Seq<u8>| #[trigger] more[meta.name].contains_key(k) implies in_range(
                meta,
                k,
            ) by {
                table_range(0, seq, rs, k);
            }
        } else {
            assert(after.levels[i][j] == v.levels[i][j]);
            assert(file_matches(v.levels[i][j], files));
            assert(v.levels[i][j].name != meta.name);
        }
    }
    ranges_hide_nothing(v.levels, files, key);
    ranges_hide_nothing(after.levels, more, key);
    without_first(v.immutables);
    frozen_first(v.immutables, key);
    assert(first.drop_last() =~= wide[0]);
    assert forall|j: int| 0 <= j < wide[0].len() implies files[(#[trigger] wide[0][j]).name]
        == more[wide[0][j].name] by {
        assert(wide[0][j] == v.levels[0][j]);
    }
    level_cell_same(wide[0], files, more, key);
    assert(after.levels.skip(1) =~= wide.skip(1));
    assert forall|i: int, j: int|
        0 <= i < wide.skip(1).len() && 0 <= j < wide.skip(1)[i].len() implies files[(
    #[trigger] wide.skip(1)[i][j]).name] == more[wide.skip(1)[i][j].name] by {
        assert(wide.skip(1)[i][j] == v.levels[i + 1][j]);
    }
    levels_cell_same(wide.skip(1), files, more, key);
    if v.levels.len() == 0 {
        assert(wide.skip(1) =~= Seq::empty());
    } else {
        assert(wide == v.levels);
    }
}

/// Whether the tables are as the engine leaves them: level 0 and level 1 by
/// ascending sequence number, every table of level 1 older than every table of
/// level 0, nothing below, and each table under its own level, with its file
/// named after level and number.
pub open spec fn tables_ranked(levels: Seq<Seq<MetaView>>) -> bool {
    &&& forall|i: int| 2 <= i < levels.len() ==> (#[trigger] levels[i]).len() == 0
    &&& forall|i: int| 0 <= i < levels.len() ==> seqs_ascend(#[trigger] levels[i])
    &&& levels.len() > 1 ==> forall|a: int, b: int|
        #![trigger levels[1][a], levels[0][b]]
        0 <= a < levels[1].len() && 0 <= b < levels[0].len() ==> levels[1][a].seq
            < levels[0][b].seq
    &&& forall|i: int, j: int|
        0 <= i < levels.len() && 0 <= j < levels[i].len() ==> (#[trigger] levels[i][j]).level == i
            && levels[i][j].name == table_name_text(i as u32, levels[i][j].seq)
}

/// Whether every table's sequence number is below `bound`.
pub open spec fn seqs_below(levels: Seq<Seq<MetaView>>, bound: u64) -> bool {
    forall|i: int, j: int|
        0 <= i < levels.len() && 0 <= j < levels[i].len() ==> (#[trigger] levels[i][j]).seq
            < bound
}

/// The state that every request keeps: the engine's own invariant, tables as the
/// engine leaves them, and sequence numbers that were all handed out before.
pub open spec fn steady(v: EngineView) -> bool {
    &&& engine_wf(v)
    &&& tables_ranked(v.levels)
    &&& seqs_below(v.levels, v.next_seq)
    &&& logs_ascend(v)
    &&& v.wal_seq < v.next_seq
}

proof fn level_cell_facts(metas: Seq<MetaView>, files: Tables, key: Seq<u8>)
    ensures
        match level_cell(metas, files, key) {
            None => forall|j: int|
                0 <= j < metas.len() ==> !files[(#[trigger] metas[j]).name].contains_key(key),
            Some(c) => exists|j: int|
                {
                    &&& 0 <= j < metas.len()
                    &&& files[(#[trigger] metas[j]).name].contains_key(key)
                    &&& c == files[metas[j].name][key]
                    &&& forall|k: int|
                        j < k < metas.len() ==> !files[(#[trigger] metas[k]).name].contains_key(
                            key,
                        )
                },
        },
    decreases metas.len(),
{
    if metas.len() > 0 {
        let rest = metas.drop_last();
        let last = metas.len() - 1;
        level_cell_facts(rest, files, key);
        assert forall|j: int| 0 <= j < last implies #[trigger] metas[j] == rest[j] by {}
        if !files[metas[last].name].contains_key(key) {
            if let Some(c) = level_cell(rest, files, key) {
                let j = choose|j: int|
                    {
                        &&& 0 <= j < rest.len()
                        &&& files[(#[trigger] rest[j]).name].contains_key(key)
                        &&& c == files[rest[j].name][key]
                        &&& forall|k: int|
                            j < k < rest.len() ==> !files[(
                            #[trigger] rest[k]).name].contains_key(key)
                    };
                assert(metas[j] == rest[j]);
                assert forall|k: int| j < k < metas.len() implies !files[(
                #[trigger] metas[k]).name].contains_key(key) by {
                    if k < last {
                        assert(metas[k] == rest[k]);
                    }
                }
            }
        }
    }
}

proof fn no_tables_no_cell(levels: Seq<Seq<MetaView>>, files: Tables, key: Seq<u8>)
    requires
        forall|i: int| 0 <= i < levels.len() ==> (#[trigger] levels[i]).len() == 0,
    ensures
        levels_cell(levels, files, key) is None,
    decreases levels.len(),
{
    if levels.len() > 0 {
        let rest = levels.skip(1);
        assert forall|i: int| 0 <= i < rest.len() implies (#[trigger] rest[i]).len() == 0 by {
            assert(rest[i] == levels[i + 1]);
        }
        assert(levels[0].len() == 0);
        no_tables_no_cell(rest, files, key);
    }
}

/// The sequence numbers of tables.
pub open spec fn meta_seqs(metas: Seq<MetaView>) -> Seq<u64> {
    Seq::new(metas.len(), |i: int| metas[i].seq)
}

/// What the files of tables hold.
pub open spec fn meta_contents(metas: Seq<MetaView>, files: Tables) -> Seq<Contents> {
    Seq::new(metas.len(), |i: int| files[metas[i].name])
}

/// The order in which levels and tables decide is the order of the sequence
/// numbers: what the disk says of a key is what the newest of the tables that
/// have it says.
pub proof fn newest_table_decides(levels: Seq<Seq<MetaView>>, files: Tables, key: Seq<u8>)
    requires
        levels.len() > 0,
        tables_ranked(levels),
    ensures
        levels_cell(levels, files, key) == newest_cell(
            meta_seqs(merge_inputs(levels)),
            meta_contents(merge_inputs(levels), files),
            key,
        ),
{
    let inputs = merge_inputs(levels);
    let seqs = meta_seqs(inputs);
    let tables = meta_contents(inputs, files);
    let marked = holders(tables, key);
    let n = levels[0].len() as int;
    reveal_with_fuel(levels_cell, 3);
    newest_of_facts(seqs, marked);
    level_cell_facts(levels[0], files, key);
    let rest = levels.skip(1);
    assert forall|j: int| 0 <= j < n implies #[trigger] inputs[j] == levels[0][j] by {}
    assert(seqs_ascend(levels[0]));
    if levels.len() > 1 {
        level_cell_facts(levels[1], files, key);
        assert(seqs_ascend(levels[1]));
        assert forall|j: int| n <= j < inputs.len() implies #[trigger] inputs[j] == levels[1][j
            - n] by {}
        assert(rest[0] == levels[1]);
        assert forall|i: int| 0 <= i < rest.skip(1).len() implies (
        #[trigger] rest.skip(1)[i]).len() == 0 by {
            assert(rest.skip(1)[i] == levels[i + 2]);
        }
        no_tables_no_cell(rest.skip(1), files, key);
    }
    if let Some(c) = level_cell(levels[0], files, key) {
        let j = choose|j: int|
            {
                &&& 0 <= j < n
                &&& files[(#[trigger] levels[0][j]).name].contains_key(key)
                &&& c == files[levels[0][j].name][key]
                &&& forall|k: int|
                    j < k < n ==> !files[(#[trigger] levels[0][k]).name].contains_key(key)
            };
        assert(marked[j]);
        let w = newest_of(seqs, marked).unwrap();
        if w < n {
            assert(files[levels[0][w].name].contains_key(key));
            if w < j {
                assert(levels[0][w].seq < levels[0][j].seq);
            }
        } else {
            assert(levels[1][w - n].seq < levels[0][j].seq);
        }
        assert(w == j);
    } else if levels.len() > 1 {
        assert forall|j: int| 0 <= j < n implies !#[trigger] marked[j] by {
            assert(inputs[j] == levels[0][j]);
        }
        if let Some(c) = level_cell(levels[1], files, key) {
            let j = choose|j: int|
                {
                    &&& 0 <= j < levels[1].len()
                    &&& files[(#[trigger] levels[1][j]).name].contains_key(key)
                    &&& c == files[levels[1][j].name][key]
                    &&& forall|k: int|
                        j < k < levels[1].len() ==> !files[(
                        #[trigger] levels[1][k]).name].contains_key(key)
                };
            assert(inputs[n + j] == levels[1][j]);
            assert(marked[n + j]);
            let w = newest_of(seqs, marked).unwrap();
            assert(w >= n);
            assert(files[levels[1][w - n].name].contains_key(key));
            if w - n < j {
                assert(levels[1][w - n].seq < levels[1][j].seq);
            }
            assert(w == n + j);
        } else {
            assert forall|j: int| 0 <= j < marked.len() implies !#[trigger] marked[j] by {
                if j >= n {
                    assert(inputs[j] == levels[1][j - n]);
                }
            }
        }
    } else {
        assert(rest =~= Seq::empty());
        assert forall|j: int| 0 <= j < marked.len() implies !#[trigger] marked[j] by {
            assert(inputs[j] == levels[0][j]);
        }
    }
}

/// The entry of the table that a compaction writes, if anything survived the
/// merge.
pub open spec fn merged_meta(seq: u64, out: Seq<RecordView>) -> Option<MetaView> {
    if out.len() > 0 {
        Some(table_meta(1, seq, out))
    } else {
        None
    }
}

/// Compacting changes nothing that is read: the one merged table answers as all
/// the tables of levels 0 and 1 did. `left` is any state of the files in which
/// the merged table, if there is one, is there; the others no longer matter and
/// can go.
pub proof fn compaction_keeps_reads(
    v: EngineView,
    files: Tables,
    runs: Seq<Seq<RecordView>>,
    seq: u64,
    left: Tables,
    key: Seq<u8>,
)
    requires
        v.levels.len() > 0,
        tables_ranked(v.levels),
        files_match(v.levels, files),
        runs.len() == merge_inputs(v.levels).len(),
        forall|i: int|
            0 <= i < runs.len() ==> lists(
                #[trigger] runs[i],
                files[merge_inputs(v.levels)[i].name],
            ),
        ({
            let out = merged(meta_seqs(merge_inputs(v.levels)), runs);
            out.len() > 0 ==> left.contains_key(table_name_text(1, seq)) && left[table_name_text(
                1,
                seq,
            )] == contents_of(out)
        }),
    ensures
        ({
            let out = merged(meta_seqs(merge_inputs(v.levels)), runs);
            let after = after_compaction(v, merged_meta(seq, out));
            &&& read(after, left, key) == read(v, files, key)
            &&& files_match(after.levels, left)
        }),
{
    let inputs = merge_inputs(v.levels);
    let seqs = meta_seqs(inputs);
    let out = merged(seqs, runs);
    let levels = compacted(v.levels, merged_meta(seq, out));
    ranges_hide_nothing(v.levels, files, key);
    newest_table_decides(v.levels, files, key);
    assert forall|i: int| 0 <= i < runs.len() implies ascending(#[trigger] runs[i]) by {
        assert(lists(runs[i], files[inputs[i].name]));
    }
    merge_newest_wins(seqs, runs);
    assert(run_contents(runs) =~= meta_contents(inputs, files)) by {
        assert forall|i: int| 0 <= i < runs.len() implies run_contents(runs)[i] == meta_contents(
            inputs,
            files,
        )[i] by {
            assert(lists(runs[i], files[inputs[i].name]));
        }
    }
    contents_facts(out);
    assert(live(contents_of(out), key) == newest_live(seqs, run_contents(runs), key));
    if out.len() > 0 {
        let meta = table_meta(1, seq, out);
        assert(levels[1] =~= seq![meta]);
        assert(file_matches(meta, left)) by {
            assert forall|k: Seq<u8>| #[trigger] left[meta.name].contains_key(k) implies in_range(
                meta,
                k,
            ) by {
                table_range(1, seq, out, k);
            }
        }
        assert forall|i: int, j: int|
            0 <= i < levels.len() && 0 <= j < levels[i].len() implies file_matches(
            #[trigger] levels[i][j],
            left,
        ) by {
            if i > 1 {
                assert(levels[i] == v.levels[i]);
            }
        }
        ranges_hide_nothing(levels, left, key);
        let below = levels.skip(1).skip(1);
        assert forall|i: int| 0 <= i < below.len() implies (#[trigger] below[i]).len() == 0 by {
            assert(below[i] == v.levels[i + 2]);
        }
        no_tables_no_cell(below, left, key);
        assert(levels.skip(1)[0] == levels[1]);
        reveal_with_fuel(level_cell, 2);
        reveal_with_fuel(levels_cell, 3);
        assert(levels[1].drop_last() =~= Seq::empty());
        if contents_of(out).contains_key(key) {
            let i = choose|i: int| 0 <= i < out.len() && #[trigger] out[i].0 == key;
            assert(!out[i].2);
            assert(contents_of(out)[out[i].0] == (out[i].1, out[i].2));
        }
    } else {
        assert(levels.len() == 1);
        ranges_hide_nothing(levels, left, key);
        no_tables_no_cell(levels, left, key);
    }
}

/// A table of level 0 and one of level 1 never have the same name.
pub proof fn level_names_differ(a: u64, b: u64)
    ensures
        table_name_text(0, a) != table_name_text(1, b),
{
    reveal_strlit("L");
    assert(decimal(0)[0] == '0');
    assert(decimal(1)[0] == '1');
    assert(table_name_text(0, a)[1] == '0');
    assert(table_name_text(1, b)[1] == '1');
}

/// In a steady engine a sequence number that no table has yet names no table.
pub proof fn fresh_name_unused(v: EngineView, level: u32, seq: u64)
    requires
        steady(v),
        level == 0 || level == 1,
        seqs_below(v.levels, seq),
    ensures
        name_unused(v.levels, table_name_text(level, seq)),
{
    assert forall|i: int, j: int| 0 <= i < v.levels.len() && 0 <= j < v.levels[i].len() implies (
    #[trigger] v.levels[i][j]).name != table_name_text(level, seq) by {
        let m = v.levels[i][j];
        assert(m.seq < seq);
        assert(i < 2) by {
            if i >= 2 {
                assert(v.levels[i].len() == 0);
            }
        }
        if i == level {
            table_names_differ(level, m.seq, seq);
        } else if i == 0 {
            level_names_differ(m.seq, seq);
        } else {
            level_names_differ(seq, m.seq);
        }
    }
}

/// Writing, reserving a sequence number, freezing and writing the manifest keep the
/// engine steady, as long as sequence numbers do not run out.
pub proof fn requests_keep_steady(
    v: EngineView,
    key: Seq<u8>,
    value: Seq<u8>,
    deleted: bool,
    new_seq: u64,
)
    requires
        steady(v),
    ensures
        steady(after_write(v, key, value, deleted)),
        steady(after_persist(v)),
        v.next_seq < u64::MAX ==> steady(after_reserve(v)),
        v.wal_seq < new_seq < v.next_seq ==> steady(after_freeze(v, new_seq)),
{
    if v.next_seq < u64::MAX {
        let after = after_reserve(v);
        assert forall|i: int, j: int|
            0 <= i < after.levels.len() && 0 <= j < after.levels[i].len() implies (
        #[trigger] after.levels[i][j]).seq < after.next_seq by {
            assert(v.levels[i][j].seq < v.next_seq);
        }
    }
    if v.wal_seq < new_seq < v.next_seq {
        let after = after_freeze(v, new_seq);
        let n = v.immutables.len() as int;
        assert forall|i: int| 0 <= i < n implies #[trigger] after.immutables[i]
            == v.immutables[i] by {}
        assert forall|i: int, j: int| 0 <= i < j < after.immutables.len() implies after.immutables[
        i].wal_seq < after.immutables[j].wal_seq by {
            assert(after.immutables[i] == v.immutables[i]);
            if j < n {
                assert(after.immutables[j] == v.immutables[j]);
            }
        }
        assert forall|i: int| 0 <= i < after.immutables.len() implies (
        #[trigger] after.immutables[i]).wal_seq < after.wal_seq by {
            if i < n {
                assert(v.immutables[i].wal_seq < v.wal_seq);
            }
        }
    }
}

/// A flush keeps the engine steady, as long as its table has a sequence number
/// above those of all tables.
pub proof fn flush_keeps_steady(v: EngineView, seq: u64, rs: Seq<RecordView>)
    requires
        steady(v),
        v.immutables.len() > 0,
        seqs_below(v.levels, seq),
        seq < v.next_seq,
        meta_fits(table_meta(0, seq, rs)),
    ensures
        steady(after_flush(v, table_meta(0, seq, rs), v.immutables[0].wal_seq)),
{
    let meta = table_meta(0, seq, rs);
    let after = after_flush(v, meta, v.immutables[0].wal_seq);
    let wide = grown(v.levels, 1);
    let n = wide[0].len() as int;
    assert(seqs_ascend(wide[0])) by {
        if v.levels.len() > 0 {
            assert(seqs_ascend(v.levels[0]));
        }
    }
    assert(place_in(wide[0], seq) == n) by {
        if n > 0 {
            assert(v.levels[0][n - 1].seq < seq);
        }
    }
    let first = wide[0].push(meta);
    assert(wide[0].insert(n, meta) =~= first);
    assert(after.levels =~= wide.update(0, first));
    assert forall|i: int| 1 <= i < after.levels.len() implies #[trigger] after.levels[i]
        == v.levels[i] by {}
    assert forall|j: int| 0 <= j < n implies #[trigger] after.levels[0][j] == v.levels[0][j] by {}
    assert(seqs_ascend(first)) by {
        assert forall|a: int, b: int| 0 <= a < b < first.len() implies first[a].seq
            < first[b].seq by {
            assert(first[a] == v.levels[0][a]);
            if b < n {
                assert(first[b] == v.levels[0][b]);
            }
        }
    }
    assert forall|i: int| 0 <= i < after.levels.len() implies seqs_ascend(
        #[trigger] after.levels[i],
    ) by {
        if i > 0 {
            assert(seqs_ascend(v.levels[i]));
        }
    }
    assert forall|i: int| 0 <= i < after.levels.len() implies seqs_ordered(
        #[trigger] after.levels[i],
    ) by {
        assert(seqs_ascend(after.levels[i]));
    }
    assert forall|i: int| 2 <= i < after.levels.len() implies (#[trigger] after.levels[i]).len()
        == 0 by {
        assert(v.levels[i].len() == 0);
    }
    if after.levels.len() > 1 {
        assert forall|a: int, b: int|
            0 <= a < after.levels[1].len() && 0 <= b < after.levels[0].len() implies (
        #[trigger] after.levels[1][a]).seq < (#[trigger] after.levels[0][b]).seq by {
            assert(after.levels[1][a] == v.levels[1][a]);
            if b < n {
                assert(after.levels[0][b] == v.levels[0][b]);
            }
        }
    }
    assert forall|i: int, j: int| 0 <= i < after.levels.len() && 0 <= j < after.levels[i].len()
        implies (#[trigger] after.levels[i][j]).level == i && after.levels[i][j].name
        == table_name_text(i as u32, after.levels[i][j].seq) && after.levels[i][j].seq
        < after.next_seq && meta_fits(after.levels[i][j]) by {
        if i > 0 || j < n {
            assert(after.levels[i][j] == v.levels[i][j]);
        }
    }
    without_first(v.immutables);
    let imms = after.immutables;
    assert(imms == v.immutables.skip(1));
    assert forall|i: int, j: int| 0 <= i < j < imms.len() implies imms[i].wal_seq
        < imms[j].wal_seq by {
        assert(imms[i] == v.immutables[i + 1] && imms[j] == v.immutables[j + 1]);
    }
    assert forall|i: int| 0 <= i < imms.len() implies (#[trigger] imms[i]).wal_seq
        < after.wal_seq by {
        assert(imms[i] == v.immutables[i + 1]);
    }
}

/// A compaction keeps the engine steady, as long as its table, if anything survived
/// the merge, has a sequence number that was handed out.
pub proof fn compaction_keeps_steady(v: EngineView, seq: u64, out: Seq<RecordView>)
    requires
        steady(v),
        out.len() > 0 ==> seq < v.next_seq && meta_fits(table_meta(1, seq, out)),
    ensures
        steady(after_compaction(v, merged_meta(seq, out))),
{
    let levels = compacted(v.levels, merged_meta(seq, out));
    assert forall|i: int| 2 <= i < levels.len() implies #[trigger] levels[i] == v.levels[i] by {}
    assert forall|i: int| 0 <= i < levels.len() implies seqs_ascend(#[trigger] levels[i])
        && seqs_ordered(levels[i]) by {
        if i >= 2 {
            assert(v.levels[i].len() == 0);
        }
    }
    assert forall|i: int, j: int| 0 <= i < levels.len() && 0 <= j < levels[i].len() implies (
    #[trigger] levels[i][j]).level == i && levels[i][j].name == table_name_text(
        i as u32,
        levels[i][j].seq,
    ) && levels[i][j].seq < v.next_seq && meta_fits(levels[i][j]) by {
        if i >= 2 {
            assert(v.levels[i].len() == 0);
        }
    }
}

/// A table that was written from a memtable or a merge answers every lookup by
/// what the memtable or the merge held.
pub proof fn written_table_answers(
    path: Seq<char>,
    rs: Seq<RecordView>,
    sizing: BloomSizing,
    image: Seq<u8>,
    v: ReaderView,
    key: Seq<u8>,
    block: Option<nat>,
)
    requires
        build_fault(rs) is None,
        table_built(rs, sizing, image),
        image.len() <= u64::MAX,
        table_opened(path, image, v),
        chosen_block(v.index, key, block),
    ensures
        looked_up(v, image, key, block) == Ok::<Option<LookupView>, ErrorView>(
            lookup(contents_of(rs), key),
        ),
{
    let bloom = choose|bloom: Option<Bloom>|
        {
            &&& image == #[trigger] table_image(rs, bloom)
            &&& bloom_filled(bloom, rs)
            &&& bloom is Some <==> rs.len() > 0
        };
    built_records(rs);
    filled_covers(bloom, rs);
    table_answers(path, rs, bloom, v, key, block);
}

/// Records that can become a table ascend and can be stored.
pub proof fn built_records(rs: Seq<RecordView>)
    requires
        build_fault(rs) is None,
    ensures
        ascending(rs),
        storable(rs),
    decreases rs.len(),
{
    if rs.len() > 0 {
        let rest = rs.drop_last();
        let last = rs.len() - 1;
        built_records(rest);
        lex_facts();
        assert forall|i: int| 0 <= i < last implies #[trigger] rs[i] == rest[i] by {}
        assert forall|i: int, j: int| 0 <= i < j < rs.len() implies lex_lt(rs[i].0, rs[j].0) by {
            assert(rs[i] == rest[i]);
            if j < last {
                assert(rs[j] == rest[j]);
            } else if i < last - 1 {
                assert(lex_lt(rest[i].0, rest[last - 1].0));
            }
        }
    }
}

} // verus!
