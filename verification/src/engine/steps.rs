//! What each step of an engine changes, and what it leaves alone: the options stay as
//! they were given, a sequence number is handed out once, and a log is given up only
//! when its own memtable has become a table.

use super::laws::{logs_ascend, without_first};
use super::names::{wal_name_roundtrip, wal_name_text};
use super::opening::{engine_of, opening_of, OpeningView};
use super::recovery::cells_fit;
use super::{
    after_compaction, after_flush, after_freeze, after_persist, after_reserve, after_write,
    build_fault, freeze_due, merge_inputs, sorted_records_within_limits_build, wal_names,
    without_log, EngineView, ImmView, LsmOptions,
};
use crate::compaction::leveled::{merge_takes_newest_records, merged, newest_record};
use crate::manifest::{
    add_keeps_order, grown, place_in, place_in_fits, seqs_ordered, MetaView,
};
use crate::model::{ascending, contents_facts, lists, Contents, RecordView};
use vstd::prelude::*;

verus! {

/// The options of an engine are those it was opened with, whatever it goes through.
pub proof fn options_stay(
    v: EngineView,
    o: OpeningView,
    levels: Seq<Seq<MetaView>>,
    options: LsmOptions,
    key: Seq<u8>,
    value: Seq<u8>,
    deleted: bool,
    seq: u64,
    meta: MetaView,
    output: Option<MetaView>,
)
    ensures
        opening_of(levels, options).options == options,
        engine_of(o).options == o.options,
        after_write(v, key, value, deleted).options == v.options,
        after_reserve(v).options == v.options,
        after_freeze(v, seq).options == v.options,
        after_flush(v, meta, seq).options == v.options,
        after_compaction(v, output).options == v.options,
        after_persist(v).options == v.options,
{
}

/// A write changes the state of its key in the active memtable, and nothing else of
/// what is held. A put of any value, an empty one too, is no deletion.
pub proof fn write_changes_one_key(
    v: EngineView,
    key: Seq<u8>,
    value: Seq<u8>,
    deleted: bool,
    other: Seq<u8>,
)
    ensures
        ({
            let after = after_write(v, key, value, deleted);
            &&& after.active.contains_key(key)
            &&& after.active[key].1 == deleted
            &&& after.active[key].0 == if deleted {
                Seq::empty()
            } else {
                value
            }
            &&& other != key ==> (after.active.contains_key(other) <==> v.active.contains_key(
                other,
            ))
            &&& other != key && v.active.contains_key(other) ==> after.active[other]
                == v.active[other]
            &&& after.wal_seq == v.wal_seq
            &&& after.immutables == v.immutables
            &&& after.levels == v.levels
            &&& after.next_seq == v.next_seq
            &&& after.manifest_behind == v.manifest_behind
            &&& after.retired == v.retired
        }),
{
}

/// A write raises the size of the active memtable by the bytes of the key, those of
/// the value if it is not a delete, and 64 for the entry, as long as the sum fits in a
/// machine word.
pub proof fn write_adds_to_size(v: EngineView, key: Seq<u8>, value: Seq<u8>)
    ensures
        v.active_size + key.len() + value.len() + 64 <= usize::MAX ==> after_write(
            v,
            key,
            value,
            false,
        ).active_size == v.active_size + key.len() + value.len() + 64,
        v.active_size + key.len() + 64 <= usize::MAX ==> after_write(
            v,
            key,
            value,
            true,
        ).active_size == v.active_size + key.len() + 64,
{
    if v.active_size + key.len() + value.len() + 64 <= usize::MAX {
        vstd::arithmetic::div_mod::lemma_small_mod(
            (v.active_size + key.len() + value.len() + 64) as nat,
            (usize::MAX + 1) as nat,
        );
    }
    if v.active_size + key.len() + 64 <= usize::MAX {
        vstd::arithmetic::div_mod::lemma_small_mod(
            (v.active_size + key.len() + 64) as nat,
            (usize::MAX + 1) as nat,
        );
    }
}

/// The active memtable is due to be frozen exactly if there is a threshold and its size
/// has reached it, whatever the threshold is and whatever else the engine holds; and a
/// larger memtable, or a smaller threshold that is not zero, is due too.
pub proof fn freeze_is_due_at_threshold(v: EngineView, w: EngineView)
    ensures
        freeze_due(v) <==> v.options.flush_threshold_bytes != 0
            && v.options.flush_threshold_bytes <= v.active_size,
        v.options.flush_threshold_bytes == 0 ==> !freeze_due(v),
        freeze_due(v) && v.active_size <= w.active_size && 0 < w.options.flush_threshold_bytes
            <= v.options.flush_threshold_bytes ==> freeze_due(w),
{
}

/// After a write the active memtable is due exactly if the threshold is not zero and
/// what was written so far reaches it.
pub proof fn write_makes_freeze_due(v: EngineView, key: Seq<u8>, value: Seq<u8>)
    requires
        v.active_size + key.len() + value.len() + 64 <= usize::MAX,
    ensures
        freeze_due(after_write(v, key, value, false)) <==> v.options.flush_threshold_bytes != 0
            && v.options.flush_threshold_bytes <= v.active_size + key.len() + value.len() + 64,
        freeze_due(after_write(v, key, value, true)) <==> v.options.flush_threshold_bytes != 0
            && v.options.flush_threshold_bytes <= v.active_size + key.len() + 64,
{
    write_adds_to_size(v, key, value);
}

/// A sequence number is handed out once: the next one is higher by one, as long as
/// there is one, and nothing else changes.
pub proof fn numbers_are_handed_out_once(v: EngineView)
    ensures
        v.next_seq < u64::MAX ==> after_reserve(v).next_seq == v.next_seq + 1,
        after_reserve(v) == (EngineView { next_seq: after_reserve(v).next_seq, ..v }),
        after_reserve(v).next_seq != v.next_seq,
{
}

/// A freeze moves the active memtable, with its log, behind the frozen ones, which stay
/// as they are, and leaves an empty one with the new log.
pub proof fn freeze_moves_active(v: EngineView, new_seq: u64)
    ensures
        ({
            let after = after_freeze(v, new_seq);
            &&& after.immutables.len() == v.immutables.len() + 1
            &&& after.immutables.last().contents == v.active
            &&& after.immutables.last().wal_seq == v.wal_seq
            &&& forall|i: int|
                0 <= i < v.immutables.len() ==> #[trigger] after.immutables[i] == v.immutables[i]
            &&& after.active == Contents::empty()
            &&& after.active_size == 0
            &&& after.wal_seq == new_seq
            &&& after.levels == v.levels
            &&& after.next_seq == v.next_seq
            &&& after.manifest_behind == v.manifest_behind
            &&& after.retired == v.retired
        }),
{
}

proof fn without_log_facts(imms: Seq<ImmView>, wal_seq: u64)
    ensures
        forall|i: int|
            0 <= i < without_log(imms, wal_seq).len() ==> imms.contains(
                #[trigger] without_log(imms, wal_seq)[i],
            ) && without_log(imms, wal_seq)[i].wal_seq != wal_seq,
        forall|i: int|
            0 <= i < imms.len() && (#[trigger] imms[i]).wal_seq != wal_seq ==> without_log(
                imms,
                wal_seq,
            ).contains(imms[i]),
    decreases imms.len(),
{
    let kept = without_log(imms, wal_seq);
    if imms.len() > 0 {
        let rest = imms.drop_last();
        let before = without_log(rest, wal_seq);
        without_log_facts(rest, wal_seq);
        assert forall|i: int| 0 <= i < kept.len() implies imms.contains(#[trigger] kept[i])
            && kept[i].wal_seq != wal_seq by {
            if i < before.len() {
                assert(kept[i] == before[i]);
                assert(rest.contains(before[i]));
                let j = choose|j: int| 0 <= j < rest.len() && rest[j] == before[i];
                assert(imms[j] == kept[i]);
            } else {
                assert(imms[imms.len() - 1] == kept[i]);
            }
        }
        assert forall|i: int|
            0 <= i < imms.len() && (#[trigger] imms[i]).wal_seq != wal_seq implies kept.contains(
            imms[i],
        ) by {
            if i < imms.len() - 1 {
                assert(rest[i] == imms[i]);
                assert(before.contains(rest[i]));
                let j = choose|j: int| 0 <= j < before.len() && before[j] == rest[i];
                assert(kept[j] == imms[i]);
            } else {
                assert(kept[kept.len() - 1] == imms[i]);
            }
        }
    }
}

/// A flush drops the memtables of the one log, and keeps the others in their order.
pub proof fn flush_filters_memtables(v: EngineView, meta: MetaView, wal_seq: u64)
    ensures
        after_flush(v, meta, wal_seq).immutables == v.immutables.filter(
            |m: ImmView| m.wal_seq != wal_seq,
        ),
{
    without_log_filters(v.immutables, wal_seq);
}

proof fn without_log_filters(imms: Seq<ImmView>, wal_seq: u64)
    ensures
        without_log(imms, wal_seq) == imms.filter(|m: ImmView| m.wal_seq != wal_seq),
    decreases imms.len(),
{
    reveal(Seq::filter);
    if imms.len() > 0 {
        without_log_filters(imms.drop_last(), wal_seq);
    }
}

/// A flush gives up the one log whose memtable became a table, behind those that were
/// given up before, and no other log. The memtables of other logs stay, the writes that
/// are in memory stay in the active memtable and its log, and no level but the first
/// changes.
pub proof fn flush_gives_up_one_log(v: EngineView, meta: MetaView, wal_seq: u64)
    ensures
        ({
            let after = after_flush(v, meta, wal_seq);
            &&& after.retired.len() == v.retired.len() + 1
            &&& after.retired.last() == wal_seq
            &&& forall|i: int|
                0 <= i < v.retired.len() ==> #[trigger] after.retired[i] == v.retired[i]
            &&& after.active == v.active
            &&& after.active_size == v.active_size
            &&& after.wal_seq == v.wal_seq
            &&& after.next_seq == v.next_seq
            &&& after.manifest_behind
            &&& forall|i: int|
                0 <= i < v.immutables.len() && (#[trigger] v.immutables[i]).wal_seq != wal_seq
                    ==> after.immutables.contains(v.immutables[i])
            &&& forall|i: int|
                0 <= i < after.immutables.len() ==> v.immutables.contains(
                    #[trigger] after.immutables[i],
                ) && after.immutables[i].wal_seq != wal_seq
            &&& after.levels.len() == if v.levels.len() > 1 {
                v.levels.len()
            } else {
                1
            }
            &&& forall|i: int|
                1 <= i < v.levels.len() ==> #[trigger] after.levels[i] == v.levels[i]
        }),
{
    without_log_facts(v.immutables, wal_seq);
}

/// The tables of level 0.
pub open spec fn newest_level(v: EngineView) -> Seq<MetaView> {
    if v.levels.len() > 0 {
        v.levels[0]
    } else {
        Seq::empty()
    }
}

/// Whether `after` is `before` with `meta` put in at `pos`.
pub open spec fn put_in_at(
    before: Seq<MetaView>,
    meta: MetaView,
    pos: int,
    after: Seq<MetaView>,
) -> bool {
    &&& 0 <= pos <= before.len()
    &&& after.len() == before.len() + 1
    &&& after[pos] == meta
    &&& forall|i: int| 0 <= i < pos ==> #[trigger] after[i] == before[i]
    &&& forall|i: int| pos <= i < before.len() ==> after[i + 1] == #[trigger] before[i]
}

/// A flushed table goes to level 0, behind the older tables and before the newer ones,
/// and the tables that were there stay in their order.
pub proof fn flush_adds_table_in_order(v: EngineView, meta: MetaView, wal_seq: u64)
    requires
        seqs_ordered(newest_level(v)),
    ensures
        seqs_ordered(newest_level(after_flush(v, meta, wal_seq))),
        exists|pos: int| #[trigger]
            put_in_at(
                newest_level(v),
                meta,
                pos,
                newest_level(after_flush(v, meta, wal_seq)),
            ),
{
    let before = newest_level(v);
    let wide = grown(v.levels, 1);
    assert(wide[0] =~= before);
    let pos = place_in(before, meta.seq);
    place_in_fits(before, meta.seq);
    add_keeps_order(before, meta, pos);
    assert(put_in_at(before, meta, pos, newest_level(after_flush(v, meta, wal_seq))));
}

/// Whether no log in `retired` is that of the active memtable or of a frozen one.
pub open spec fn retired_is_done(v: EngineView) -> bool {
    forall|i: int|
        0 <= i < v.retired.len() ==> #[trigger] v.retired[i] != v.wal_seq && forall|j: int|
            0 <= j < v.immutables.len() ==> v.retired[i] != (#[trigger] v.immutables[j]).wal_seq
}

/// No log that is given up is still needed: where it is so before a flush of the oldest
/// frozen memtable, it is so after it, and so are the names of the logs that a flush has
/// removed in the end.
pub proof fn flush_retires_no_log_in_use(v: EngineView, meta: MetaView)
    requires
        v.immutables.len() > 0,
        logs_ascend(v),
        retired_is_done(v),
    ensures
        ({
            let after = after_flush(v, meta, v.immutables[0].wal_seq);
            &&& retired_is_done(after)
            &&& after.immutables == v.immutables.skip(1)
            &&& forall|i: int|
                0 <= i < after.retired.len() ==> {
                    &&& #[trigger] wal_names(after.retired)[i] != wal_name_text(after.wal_seq)
                    &&& forall|j: int|
                        0 <= j < after.immutables.len() ==> wal_names(after.retired)[i]
                            != wal_name_text((#[trigger] after.immutables[j]).wal_seq)
                }
        }),
{
    let after = after_flush(v, meta, v.immutables[0].wal_seq);
    without_first(v.immutables);
    assert(after.immutables == v.immutables.skip(1));
    assert forall|i: int| 0 <= i < after.retired.len() implies #[trigger] after.retired[i]
        != after.wal_seq && forall|j: int|
        0 <= j < after.immutables.len() ==> after.retired[i] != (
        #[trigger] after.immutables[j]).wal_seq by {
        assert forall|j: int| 0 <= j < after.immutables.len() implies after.retired[i] != (
        #[trigger] after.immutables[j]).wal_seq by {
            assert(after.immutables[j] == v.immutables[j + 1]);
            if i < v.retired.len() {
                assert(after.retired[i] == v.retired[i]);
            }
        }
        if i < v.retired.len() {
            assert(after.retired[i] == v.retired[i]);
        }
    }
    retired_names_are_done(after);
}

/// The names of the logs that can go are not those of logs in use.
pub proof fn retired_names_are_done(v: EngineView)
    requires
        retired_is_done(v),
    ensures
        wal_names(v.retired).len() == v.retired.len(),
        forall|i: int|
            0 <= i < v.retired.len() ==> {
                &&& #[trigger] wal_names(v.retired)[i] != wal_name_text(v.wal_seq)
                &&& forall|j: int|
                    0 <= j < v.immutables.len() ==> wal_names(v.retired)[i] != wal_name_text(
                        (#[trigger] v.immutables[j]).wal_seq,
                    )
            },
{
    assert forall|i: int| 0 <= i < v.retired.len() implies {
        &&& #[trigger] wal_names(v.retired)[i] != wal_name_text(v.wal_seq)
        &&& forall|j: int|
            0 <= j < v.immutables.len() ==> wal_names(v.retired)[i] != wal_name_text(
                (#[trigger] v.immutables[j]).wal_seq,
            )
    } by {
        assert(v.retired[i] != v.wal_seq);
        wal_name_roundtrip(v.retired[i]);
        wal_name_roundtrip(v.wal_seq);
        assert forall|j: int| 0 <= j < v.immutables.len() implies wal_names(v.retired)[i]
            != wal_name_text((#[trigger] v.immutables[j]).wal_seq) by {
            wal_name_roundtrip(v.immutables[j].wal_seq);
        }
    }
}

/// A compaction changes the tables and nothing else, and gives up no log.
pub proof fn compaction_touches_tables_alone(v: EngineView, output: Option<MetaView>)
    ensures
        ({
            let after = after_compaction(v, output);
            &&& after == (EngineView { levels: after.levels, manifest_behind: true, ..v })
            &&& after.levels.len() > 0
            &&& after.levels[0].len() == 0
            &&& output matches Some(m) ==> after.levels.len() == (if v.levels.len() > 2 {
                v.levels.len()
            } else {
                2
            }) && after.levels[1].len() == 1 && after.levels[1][0] == m
            &&& output is None ==> after.levels.len() == 1
            &&& output is Some ==> forall|i: int|
                2 <= i < v.levels.len() ==> #[trigger] after.levels[i] == v.levels[i]
        }),
{
}

/// A compaction takes every table of levels 0 and 1, and no other.
pub proof fn compaction_takes_both_levels(levels: Seq<Seq<MetaView>>, m: MetaView)
    requires
        levels.len() > 0,
    ensures
        merge_inputs(levels).contains(m) <==> levels[0].contains(m) || (levels.len() > 1
            && levels[1].contains(m)),
        merge_inputs(levels).len() == levels[0].len() + if levels.len() > 1 {
            levels[1].len()
        } else {
            0
        },
{
    if levels.len() > 1 {
        let both = levels[0] + levels[1];
        if levels[0].contains(m) {
            let i = choose|i: int| 0 <= i < levels[0].len() && levels[0][i] == m;
            assert(both[i] == m);
        }
        if levels[1].contains(m) {
            let i = choose|i: int| 0 <= i < levels[1].len() && levels[1][i] == m;
            assert(both[levels[0].len() + i] == m);
        }
    }
}

/// Writing the manifest changes nothing that is held: it is no longer behind, and no log
/// is left to go.
pub proof fn persist_settles(v: EngineView)
    ensures
        !after_persist(v).manifest_behind,
        after_persist(v).retired.len() == 0,
        after_persist(v) == (EngineView {
            manifest_behind: false,
            retired: after_persist(v).retired,
            ..v
        }),
{
}

/// A flush of what was written never fails: a memtable whose keys and values could be
/// logged can become a table.
pub proof fn memtable_can_be_flushed(rs: Seq<RecordView>, contents: Contents)
    requires
        lists(rs, contents),
        forall|key: Seq<u8>| #[trigger]
            contents.contains_key(key) ==> key.len() <= 65535 && contents[key].0.len()
                <= 4294967295,
    ensures
        build_fault(rs) is None,
{
    contents_facts(rs);
    assert forall|i: int| 0 <= i < rs.len() implies (#[trigger] rs[i]).0.len() <= 65535
        && rs[i].1.len() <= 4294967295 by {
        assert(contents.contains_key(rs[i].0));
    }
    sorted_records_within_limits_build(rs);
}

/// A flush of a memtable whose cells fit the log never fails.
pub proof fn fitting_memtable_can_be_flushed(rs: Seq<RecordView>, contents: Contents)
    requires
        lists(rs, contents),
        cells_fit(contents),
    ensures
        build_fault(rs) is None,
{
    memtable_can_be_flushed(rs, contents);
}

/// A compaction of what was flushed never fails: the merge of tables that could be
/// built can become a table.
pub proof fn merge_can_be_built(seqs: Seq<u64>, runs: Seq<Seq<RecordView>>)
    requires
        forall|i: int| 0 <= i < runs.len() ==> build_fault(#[trigger] runs[i]) is None,
    ensures
        build_fault(merged(seqs, runs)) is None,
{
    let out = merged(seqs, runs);
    assert forall|i: int| 0 <= i < runs.len() implies ascending(#[trigger] runs[i]) by {
        sorted_records_within_limits_build(runs[i]);
    }
    merge_takes_newest_records(seqs, runs);
    assert forall|j: int| 0 <= j < out.len() implies (#[trigger] out[j]).0.len() <= 65535
        && out[j].1.len() <= 4294967295 by {
        assert(out.contains(out[j]));
        let (i, p) = choose|i: int, p: int|
            #[trigger] newest_record(seqs, runs, i, p) && runs[i][p] == out[j];
        sorted_records_within_limits_build(runs[i]);
        assert(runs[i][p] == out[j]);
    }
    sorted_records_within_limits_build(out);
}

} // verus!
