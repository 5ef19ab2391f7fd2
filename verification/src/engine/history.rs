//! What holds over a whole history: whatever an engine has gone through since its
//! directory was empty, a read gives the last write.
//!
//! A history is made of the steps between which files are written, so that it also
//! covers steps of a background worker in between. A put or a delete is a
//! [`Event::Write`], and with it may go an [`Event::Reserve`] and an
//! [`Event::Freeze`]. A flush is a freeze, then for every frozen memtable an
//! [`Event::Reserve`] and an [`Event::Flush`], then [`Event::Persist`] and
//! [`Event::Retire`]. A compaction is [`Event::Reserve`], [`Event::Compact`],
//! [`Event::Persist`] and [`Event::Clean`]. An engine may go down and be opened
//! again between any two steps.

use super::laws::{
    compaction_keeps_reads, compaction_keeps_steady, file_matches, files_match, flush_keeps_reads,
    flush_keeps_steady, freeze_keeps_reads, fresh_name_unused, merged_meta, meta_seqs, name_unused,
    read, requests_keep_steady, seqs_below, steady, tables_ranked, without_first, write_then_read,
    Tables,
};
use super::names::{table_name_text, wal_name_roundtrip, wal_name_text};
use super::opening::{engine_of, levels_max, opening_of, record_entries, OpeningView};
use super::recovery::{
    cells_fit, crash_in_flush_loses_nothing, deletions_bare, entries_fit, freeze_starts_log, logged,
    manifest_keeps_tables, opened_engine_is_logged, opened_engine_is_steady, opened_engine_reads,
    reopen_from_manifest, reopen_keeps_reads, replay_all, replay_keeps_form, rewritten_log_replays,
    unlisted_files_ignored, write_entry, write_is_logged,
};
use super::steps::{
    fitting_memtable_can_be_flushed, merge_can_be_built, retired_is_done, retired_names_are_done,
};
use super::{
    after_compaction, after_flush, after_freeze, after_persist, after_reserve, after_write,
    build_fault, freeze_due, merge_inputs, sorted_records_within_limits_build, table_meta,
    wal_names, EngineView, LsmOptions,
};
use crate::compaction::leveled::merged;
use crate::manifest::{
    grown, listed, manifest_fits, meta_fits, place_in, place_in_fits, seqs_ascend, seqs_ordered,
    trimmed, MetaView,
};
use crate::model::{contents_facts, contents_of, lists, Contents, RecordView};
use crate::wal::reader::{loggable, replayed};
use crate::wal::{entry_fault, EntryView, MAX_KEY_LEN, MAX_VALUE_LEN};
use vstd::prelude::*;

verus! {

/// An engine and its directory.
pub struct System {
    pub engine: EngineView,
    /// The engine as the directory knows it: the tables that the manifest lists,
    /// and the memtables whose logs are there.
    pub known: EngineView,
    /// What the table files hold.
    pub files: Tables,
    /// The log generations that are there, oldest first.
    pub logs: Seq<Seq<EntryView>>,
}

/// One step in the life of a [`System`].
pub enum Event {
    /// A put or a delete is logged and applied.
    Write { key: Seq<u8>, value: Seq<u8>, deleted: bool },
    /// A sequence number is handed out.
    Reserve,
    /// A log is created, and the active memtable is frozen.
    Freeze { new_seq: u64 },
    /// The oldest frozen memtable, which has the records `rs`, becomes a table.
    Flush { seq: u64, rs: Seq<RecordView> },
    /// The manifest is written.
    Persist,
    /// The oldest `count` logs are removed.
    Retire { count: int },
    /// The tables of levels 0 and 1, which have the records `runs`, are merged into
    /// a table under `seq`, if anything survives.
    Compact { seq: u64, runs: Seq<Seq<RecordView>> },
    /// Table files that nothing lists are removed; `files` are left.
    Clean { files: Tables },
    /// The engine goes down and is opened again on what is in the directory; `rs`
    /// are the records of the memtable that the logs make.
    Reopen { options: LsmOptions, active_size: usize, max_seq: u64, rs: Seq<RecordView> },
}

/// The empty directory in which an engine was just opened.
pub open spec fn begun(s: System, options: LsmOptions) -> bool {
    &&& s.engine == engine_of(opening_of(Seq::empty(), options))
    &&& s.known == s.engine
    &&& s.files == Tables::empty()
    &&& s.logs == seq![Seq::<EntryView>::empty()]
}

/// What the merge of a compaction gives.
pub open spec fn merge_of(v: EngineView, runs: Seq<Seq<RecordView>>) -> Seq<RecordView> {
    merged(meta_seqs(merge_inputs(v.levels)), runs)
}

/// The files with the table that a compaction writes, if anything survived.
pub open spec fn with_merged(files: Tables, seq: u64, out: Seq<RecordView>) -> Tables {
    if out.len() > 0 {
        files.insert(table_name_text(1, seq), contents_of(out))
    } else {
        files
    }
}

/// Whether a sequence number was handed out and is above those of all tables.
pub open spec fn seq_is_new(s: System, seq: u64) -> bool {
    seq < s.engine.next_seq && seqs_below(s.engine.levels, seq) && seqs_below(s.known.levels, seq)
}

/// Whether the tables of the levels have the same files in `a` and `b`.
pub open spec fn files_kept(levels: Seq<Seq<MetaView>>, a: Tables, b: Tables) -> bool {
    forall|i: int, j: int|
        0 <= i < levels.len() && 0 <= j < levels[i].len() ==> b.contains_key(
            (#[trigger] levels[i][j]).name,
        ) && a[levels[i][j].name] == b[levels[i][j].name]
}

/// What an opening finds in the directory.
pub open spec fn opening_on(
    s: System,
    options: LsmOptions,
    active_size: usize,
    max_seq: u64,
) -> OpeningView {
    OpeningView {
        options,
        levels: listed(s.known.levels),
        active: replay_all(s.logs),
        active_size,
        max_seq,
    }
}

/// How many memtables have become tables while their logs are still there.
pub open spec fn gone(s: System) -> int {
    s.known.immutables.len() - s.engine.immutables.len()
}

/// Whether the log `wal_seq` is still there and its memtable became a table.
pub open spec fn became_table(s: System, wal_seq: u64) -> bool {
    exists|j: int| 0 <= j < gone(s) && (#[trigger] s.known.immutables[j]).wal_seq == wal_seq
}

/// Whether the log `wal_seq` is older than those of the active memtable and of the frozen
/// ones.
pub open spec fn older_than_memory(s: System, wal_seq: u64) -> bool {
    &&& wal_seq < s.known.wal_seq
    &&& forall|j: int|
        gone(s) <= j < s.known.immutables.len() ==> wal_seq < (
        #[trigger] s.known.immutables[j]).wal_seq
}

/// Whether the log `wal_seq` is older than every log that is there.
pub open spec fn removed(s: System, wal_seq: u64) -> bool {
    &&& wal_seq < s.known.wal_seq
    &&& forall|j: int|
        0 <= j < s.known.immutables.len() ==> wal_seq < (
        #[trigger] s.known.immutables[j]).wal_seq
}

/// Whether the logs that can go once the manifest is written are those of memtables that
/// became tables, where they are still there.
pub open spec fn retired_became_tables(s: System) -> bool {
    forall|i: int|
        0 <= i < s.engine.retired.len() ==> {
            let log = #[trigger] s.engine.retired[i];
            older_than_memory(s, log) && (became_table(s, log) || removed(s, log))
        }
}

/// Whether the tables of the levels hold only keys and values within the limits of the
/// log.
pub open spec fn tables_fit(levels: Seq<Seq<MetaView>>, files: Tables) -> bool {
    forall|i: int, j: int|
        0 <= i < levels.len() && 0 <= j < levels[i].len() ==> cells_fit(
            files[(#[trigger] levels[i][j]).name],
        )
}

/// Whether the step `e` leads from `a` to `b`.
pub open spec fn happens(a: System, e: Event, b: System) -> bool {
    match e {
        Event::Write { key, value, deleted } => {
            let entry = write_entry(key, value, deleted);
            &&& entry_fault(entry.op, entry.key, entry.value) is None
            &&& b == (System {
                engine: after_write(a.engine, key, value, deleted),
                known: after_write(a.known, key, value, deleted),
                logs: a.logs.update(a.logs.len() - 1, a.logs.last().push(entry)),
                ..a
            })
        },
        Event::Reserve => {
            &&& a.engine.next_seq < u64::MAX
            &&& b == (System {
                engine: after_reserve(a.engine),
                known: after_reserve(a.known),
                ..a
            })
        },
        Event::Freeze { new_seq } => {
            &&& a.engine.wal_seq < new_seq < a.engine.next_seq
            &&& b == (System {
                engine: after_freeze(a.engine, new_seq),
                known: after_freeze(a.known, new_seq),
                logs: a.logs.push(Seq::empty()),
                ..a
            })
        },
        Event::Flush { seq, rs } => {
            let meta = table_meta(0, seq, rs);
            &&& a.engine.immutables.len() > 0
            &&& lists(rs, a.engine.immutables[0].contents)
            &&& meta_fits(meta)
            &&& seq_is_new(a, seq)
            &&& b == (System {
                engine: after_flush(a.engine, meta, a.engine.immutables[0].wal_seq),
                files: a.files.insert(meta.name, a.engine.immutables[0].contents),
                ..a
            })
        },
        Event::Persist => b == (System {
            engine: after_persist(a.engine),
            known: EngineView { levels: a.engine.levels, ..a.known },
            ..a
        }),
        Event::Retire { count } => {
            &&& a.known.levels == a.engine.levels
            &&& 0 <= count <= gone(a)
            &&& b == (System {
                known: EngineView { immutables: a.known.immutables.skip(count), ..a.known },
                logs: a.logs.skip(count),
                ..a
            })
        },
        Event::Compact { seq, runs } => {
            let out = merge_of(a.engine, runs);
            &&& a.engine.levels.len() > 0
            &&& runs.len() == merge_inputs(a.engine.levels).len()
            &&& forall|i: int|
                0 <= i < runs.len() ==> lists(
                    #[trigger] runs[i],
                    a.files[merge_inputs(a.engine.levels)[i].name],
                )
            &&& out.len() > 0 ==> meta_fits(table_meta(1, seq, out)) && seq_is_new(a, seq)
            &&& b == (System {
                engine: after_compaction(a.engine, merged_meta(seq, out)),
                files: with_merged(a.files, seq, out),
                ..a
            })
        },
        Event::Clean { files } => {
            &&& files_kept(a.engine.levels, a.files, files)
            &&& files_kept(a.known.levels, a.files, files)
            &&& b == (System { files, ..a })
        },
        Event::Reopen { options, active_size, max_seq, rs } => {
            let o = opening_on(a, options, active_size, max_seq);
            &&& levels_max(o.levels) <= max_seq
            &&& max_seq + 1 < u64::MAX
            &&& lists(rs, o.active)
            &&& b == (System {
                engine: engine_of(o),
                known: engine_of(o),
                files: a.files,
                logs: seq![record_entries(rs)],
            })
        },
    }
}

/// Whether a reader sees the same in the engine and in what the directory knows.
pub open spec fn same_reads(s: System) -> bool {
    forall|key: Seq<u8>| #[trigger]
        read(s.engine, s.files, key) == read(s.known, s.files, key)
}

/// Whether all logs could be written.
pub open spec fn logs_loggable(logs: Seq<Seq<EntryView>>) -> bool {
    forall|i: int| 0 <= i < logs.len() ==> loggable(#[trigger] logs[i])
}

/// The state that every step keeps: engine and directory are each in order, the
/// directory holds all that a reader sees, the manifest lists the tables of the
/// engine unless the engine knows that it is behind, the logs that can go are those of
/// memtables that became tables, and the tables hold what could be logged.
pub open spec fn sound(s: System) -> bool {
    &&& steady(s.engine)
    &&& steady(s.known)
    &&& s.engine.levels.len() <= 2
    &&& s.known.levels.len() <= 2
    &&& files_match(s.engine.levels, s.files)
    &&& files_match(s.known.levels, s.files)
    &&& s.known.active == s.engine.active
    &&& s.known.wal_seq == s.engine.wal_seq
    &&& s.known.next_seq == s.engine.next_seq
    &&& s.engine.immutables.len() <= s.known.immutables.len()
    &&& s.engine.immutables == s.known.immutables.skip(
        s.known.immutables.len() - s.engine.immutables.len(),
    )
    &&& logged(s.known, s.logs)
    &&& logs_loggable(s.logs)
    &&& same_reads(s)
    &&& !s.engine.manifest_behind ==> s.known.levels == s.engine.levels
    &&& retired_became_tables(s)
    &&& tables_fit(s.engine.levels, s.files)
    &&& tables_fit(s.known.levels, s.files)
}

/// What is read of `key` after the step `e`, given what was read before.
pub open spec fn seen(e: Event, key: Seq<u8>, before: Option<Seq<u8>>) -> Option<Seq<u8>> {
    match e {
        Event::Write { key: written, value, deleted } => if written != key {
            before
        } else if deleted {
            None
        } else {
            Some(value)
        },
        _ => before,
    }
}

/// The last write to `key`: the value that was put; `None` if the key was deleted
/// or never written.
pub open spec fn last_write(events: Seq<Event>, key: Seq<u8>) -> Option<Seq<u8>>
    decreases events.len(),
{
    if events.len() == 0 {
        None
    } else {
        seen(events.last(), key, last_write(events.drop_last(), key))
    }
}

proof fn begun_is_sound(s: System, options: LsmOptions)
    requires
        begun(s, options),
    ensures
        sound(s),
        forall|key: Seq<u8>| #[trigger] read(s.engine, s.files, key) is None,
{
    let o = opening_of(Seq::empty(), options);
    opened_engine_is_steady(o);
    assert(s.logs.last() =~= Seq::empty());
    assert(s.known.immutables.skip(0) =~= s.engine.immutables);
}

proof fn write_step(a: System, key: Seq<u8>, value: Seq<u8>, deleted: bool, b: System)
    requires
        sound(a),
        happens(a, (Event::Write { key, value, deleted }), b),
    ensures
        sound(b),
        forall|k: Seq<u8>| #[trigger]
            read(b.engine, b.files, k) == seen(
                (Event::Write { key, value, deleted }),
                k,
                read(a.engine, a.files, k),
            ),
{
    let entry = write_entry(key, value, deleted);
    requests_keep_steady(a.engine, key, value, deleted, 0);
    requests_keep_steady(a.known, key, value, deleted, 0);
    write_is_logged(a.known, a.logs, key, value, deleted);
    let last = a.logs.len() - 1;
    assert forall|i: int| 0 <= i < b.logs.len() implies loggable(#[trigger] b.logs[i]) by {
        assert(loggable(a.logs[i]));
        if i == last {
            let more = b.logs[i];
            assert forall|j: int| 0 <= j < more.len() implies entry_fault(
                (#[trigger] more[j]).op,
                more[j].key,
                more[j].value,
            ) is None by {
                if j < more.len() - 1 {
                    assert(more[j] == a.logs[i][j]);
                }
            }
        }
    }
    assert forall|k: Seq<u8>|
        {
            &&& #[trigger] read(b.engine, b.files, k) == read(b.known, b.files, k)
            &&& read(b.engine, b.files, k) == seen(
                (Event::Write { key, value, deleted }),
                k,
                read(a.engine, a.files, k),
            )
        } by {
        write_then_read(a.engine, a.files, key, value, k);
        write_then_read(a.known, a.files, key, value, k);
        assert(read(a.engine, a.files, k) == read(a.known, a.files, k));
    }
}

proof fn reserve_step(a: System, b: System)
    requires
        sound(a),
        happens(a, Event::Reserve, b),
    ensures
        sound(b),
        forall|k: Seq<u8>| #[trigger]
            read(b.engine, b.files, k) == read(a.engine, a.files, k),
{
    requests_keep_steady(a.engine, Seq::empty(), Seq::empty(), false, 0);
    requests_keep_steady(a.known, Seq::empty(), Seq::empty(), false, 0);
    assert(logged(b.known, b.logs));
    assert forall|k: Seq<u8>|
        {
            &&& #[trigger] read(b.engine, b.files, k) == read(a.engine, a.files, k)
            &&& read(b.known, b.files, k) == read(b.engine, b.files, k)
        } by {
        freeze_keeps_reads(a.engine, a.files, 0, k);
        freeze_keeps_reads(a.known, a.files, 0, k);
        assert(read(a.engine, a.files, k) == read(a.known, a.files, k));
    }
}

proof fn freeze_keeps_retired(a: System, new_seq: u64, b: System)
    requires
        sound(a),
        happens(a, (Event::Freeze { new_seq }), b),
    ensures
        retired_became_tables(b),
{
    let n = a.known.immutables.len();
    assert forall|i: int| 0 <= i < b.engine.retired.len() implies {
        let log = #[trigger] b.engine.retired[i];
        older_than_memory(b, log) && (became_table(b, log) || removed(b, log))
    } by {
        let log = a.engine.retired[i];
        assert(b.engine.retired[i] == log);
        assert forall|j: int| 0 <= j < n implies #[trigger] b.known.immutables[j]
            == a.known.immutables[j] by {}
        assert(b.known.immutables[n as int].wal_seq == a.known.wal_seq);
        assert(older_than_memory(b, log));
        if became_table(a, log) {
            let j = choose|j: int|
                0 <= j < gone(a) && (#[trigger] a.known.immutables[j]).wal_seq == log;
            assert(b.known.immutables[j].wal_seq == log);
            assert(became_table(b, log));
        } else {
            assert(removed(b, log));
        }
    }
}

proof fn freeze_step(a: System, new_seq: u64, b: System)
    requires
        sound(a),
        happens(a, (Event::Freeze { new_seq }), b),
    ensures
        sound(b),
        forall|k: Seq<u8>| #[trigger]
            read(b.engine, b.files, k) == read(a.engine, a.files, k),
{
    requests_keep_steady(a.engine, Seq::empty(), Seq::empty(), false, new_seq);
    requests_keep_steady(a.known, Seq::empty(), Seq::empty(), false, new_seq);
    freeze_starts_log(a.known, a.logs, new_seq);
    freeze_keeps_retired(a, new_seq, b);
    let gone = a.known.immutables.len() - a.engine.immutables.len();
    assert(b.known.immutables.skip(gone) =~= a.known.immutables.skip(gone).push(
        b.known.immutables.last(),
    ));
    assert(b.engine.immutables.last().contents == b.known.immutables.last().contents);
    assert(b.engine.immutables =~= b.known.immutables.skip(gone));
    assert forall|i: int| 0 <= i < b.logs.len() implies loggable(#[trigger] b.logs[i]) by {
        if i < a.logs.len() {
            assert(b.logs[i] == a.logs[i]);
        }
    }
    assert forall|k: Seq<u8>|
        {
            &&& #[trigger] read(b.engine, b.files, k) == read(a.engine, a.files, k)
            &&& read(b.known, b.files, k) == read(b.engine, b.files, k)
        } by {
        freeze_keeps_reads(a.engine, a.files, new_seq, k);
        freeze_keeps_reads(a.known, a.files, new_seq, k);
        assert(read(a.engine, a.files, k) == read(a.known, a.files, k));
    }
}

/// A file under a name that no table of `v` has makes no difference to `v`.
proof fn new_file_ignored(v: EngineView, files: Tables, name: Seq<char>, contents: Contents)
    requires
        files_match(v.levels, files),
        name_unused(v.levels, name),
    ensures
        files_match(v.levels, files.insert(name, contents)),
        forall|k: Seq<u8>| #[trigger]
            read(v, files.insert(name, contents), k) == read(v, files, k),
{
    let more = files.insert(name, contents);
    assert forall|i: int, j: int|
        0 <= i < v.levels.len() && 0 <= j < v.levels[i].len() implies file_matches(
        #[trigger] v.levels[i][j],
        more,
    ) && files[v.levels[i][j].name] == more[v.levels[i][j].name] by {
        assert(v.levels[i][j].name != name);
        assert(file_matches(v.levels[i][j], files));
    }
    assert forall|k: Seq<u8>| #[trigger] read(v, more, k) == read(v, files, k) by {
        unlisted_files_ignored(v, files, more, k);
    }
}

/// What a log that could be written makes of an empty memtable is within its limits.
proof fn log_makes_fitting(log: Seq<EntryView>)
    requires
        loggable(log),
    ensures
        cells_fit(replayed(Contents::empty(), log)),
{
    assert(entries_fit(log)) by {
        assert forall|i: int| 0 <= i < log.len() implies (#[trigger] log[i]).key.len()
            <= MAX_KEY_LEN && log[i].value.len() <= MAX_VALUE_LEN by {
            assert(entry_fault(log[i].op, log[i].key, log[i].value) is None);
        }
    }
    replay_keeps_form(Contents::empty(), log);
}

/// The memtables of a sound engine hold only what could be logged.
proof fn memtables_fit(s: System)
    requires
        sound(s),
    ensures
        cells_fit(s.engine.active),
        forall|i: int|
            0 <= i < s.engine.immutables.len() ==> cells_fit(
                (#[trigger] s.engine.immutables[i]).contents,
            ),
{
    assert(loggable(s.logs[s.logs.len() - 1]));
    log_makes_fitting(s.logs.last());
    assert forall|i: int| 0 <= i < s.engine.immutables.len() implies cells_fit(
        (#[trigger] s.engine.immutables[i]).contents,
    ) by {
        let at = gone(s) + i;
        assert(s.engine.immutables[i] == s.known.immutables[at]);
        assert(loggable(s.logs[at]));
        log_makes_fitting(s.logs[at]);
    }
}

/// A table under a new name at level 0 leaves the others as they are.
proof fn flushed_tables_fit(
    v: EngineView,
    files: Tables,
    meta: MetaView,
    wal_seq: u64,
    contents: Contents,
)
    requires
        steady(v),
        tables_fit(v.levels, files),
        name_unused(v.levels, meta.name),
        cells_fit(contents),
    ensures
        tables_fit(v.levels, files.insert(meta.name, contents)),
        tables_fit(after_flush(v, meta, wal_seq).levels, files.insert(meta.name, contents)),
{
    let more = files.insert(meta.name, contents);
    let after = after_flush(v, meta, wal_seq).levels;
    let wide = grown(v.levels, 1);
    let pos = place_in(wide[0], meta.seq);
    if v.levels.len() > 0 {
        assert(seqs_ordered(v.levels[0]));
    }
    place_in_fits(wide[0], meta.seq);
    assert forall|i: int, j: int|
        0 <= i < v.levels.len() && 0 <= j < v.levels[i].len() implies cells_fit(
        more[(#[trigger] v.levels[i][j]).name],
    ) by {
        assert(v.levels[i][j].name != meta.name);
    }
    assert forall|i: int, j: int|
        0 <= i < after.len() && 0 <= j < after[i].len() implies cells_fit(
        more[(#[trigger] after[i][j]).name],
    ) by {
        if i > 0 {
            assert(after[i][j] == v.levels[i][j]);
        } else if j < pos {
            assert(after[0][j] == v.levels[0][j]);
        } else if j > pos {
            assert(after[0][j] == v.levels[0][j - 1]);
        }
    }
}

proof fn flush_step(a: System, seq: u64, rs: Seq<RecordView>, b: System)
    requires
        sound(a),
        happens(a, (Event::Flush { seq, rs }), b),
    ensures
        sound(b),
        forall|k: Seq<u8>| #[trigger]
            read(b.engine, b.files, k) == read(a.engine, a.files, k),
{
    let meta = table_meta(0, seq, rs);
    let gone = a.known.immutables.len() - a.engine.immutables.len();
    fresh_name_unused(a.engine, 0, seq);
    fresh_name_unused(a.known, 0, seq);
    flush_keeps_steady(a.engine, seq, rs);
    if a.engine.levels.len() > 0 {
        assert forall|j: int| 0 <= j < a.engine.levels[0].len() implies (
        #[trigger] a.engine.levels[0][j]).seq < seq by {}
    }
    flush_keeps_reads(a.engine, a.files, seq, rs, Seq::empty());
    new_file_ignored(a.known, a.files, meta.name, a.engine.immutables[0].contents);
    memtables_fit(a);
    flushed_tables_fit(
        a.engine,
        a.files,
        meta,
        a.engine.immutables[0].wal_seq,
        a.engine.immutables[0].contents,
    );
    flushed_tables_fit(
        a.known,
        a.files,
        meta,
        a.engine.immutables[0].wal_seq,
        a.engine.immutables[0].contents,
    );
    without_first(a.engine.immutables);
    assert(a.engine.immutables[0] == a.known.immutables[gone]);
    assert(a.known.immutables.skip(gone).skip(1) =~= a.known.immutables.skip(gone + 1));
    assert forall|k: Seq<u8>|
        {
            &&& #[trigger] read(b.engine, b.files, k) == read(a.engine, a.files, k)
            &&& read(b.engine, b.files, k) == read(b.known, b.files, k)
        } by {
        flush_keeps_reads(a.engine, a.files, seq, rs, k);
        assert(read(a.engine, a.files, k) == read(a.known, a.files, k));
        assert(read(a.known, b.files, k) == read(a.known, a.files, k));
    }
}

proof fn persist_step(a: System, b: System)
    requires
        sound(a),
        happens(a, Event::Persist, b),
    ensures
        sound(b),
        forall|k: Seq<u8>| #[trigger]
            read(b.engine, b.files, k) == read(a.engine, a.files, k),
{
    let gone = a.known.immutables.len() - a.engine.immutables.len();
    requests_keep_steady(a.engine, Seq::empty(), Seq::empty(), false, 0);
    assert(logged(b.known, b.logs));
    assert(a.logs.skip(0) =~= a.logs);
    assert forall|k: Seq<u8>|
        {
            &&& #[trigger] read(b.engine, b.files, k) == read(a.engine, a.files, k)
            &&& read(b.engine, b.files, k) == read(b.known, b.files, k)
        } by {
        freeze_keeps_reads(a.engine, a.files, 0, k);
        assert(read(a.engine, a.files, k) == read(a.known, a.files, k));
        crash_in_flush_loses_nothing(a.known, a.files, a.logs, a.engine, a.files, gone, 0, k);
        reopen_keeps_reads(b.known, b.files, b.logs, k);
    }
}

proof fn retire_keeps_retired(a: System, count: int, b: System)
    requires
        sound(a),
        happens(a, (Event::Retire { count }), b),
    ensures
        retired_became_tables(b),
{
    let kept = b.known.immutables;
    assert forall|i: int| 0 <= i < b.engine.retired.len() implies {
        let log = #[trigger] b.engine.retired[i];
        older_than_memory(b, log) && (became_table(b, log) || removed(b, log))
    } by {
        let log = a.engine.retired[i];
        assert(b.engine.retired[i] == log);
        assert forall|j: int| 0 <= j < kept.len() implies #[trigger] kept[j]
            == a.known.immutables[j + count] by {}
        assert(older_than_memory(b, log));
        if became_table(a, log) {
            let j = choose|j: int|
                0 <= j < gone(a) && (#[trigger] a.known.immutables[j]).wal_seq == log;
            if j >= count {
                assert(kept[j - count].wal_seq == log);
                assert(became_table(b, log));
            } else {
                assert forall|k: int| 0 <= k < kept.len() implies log < (
                #[trigger] kept[k]).wal_seq by {
                    assert(a.known.immutables[j].wal_seq
                        < a.known.immutables[k + count].wal_seq);
                }
                assert(removed(b, log));
            }
        } else {
            assert(removed(b, log));
        }
    }
}

proof fn retire_step(a: System, count: int, b: System)
    requires
        sound(a),
        happens(a, (Event::Retire { count }), b),
    ensures
        sound(b),
        forall|k: Seq<u8>| #[trigger]
            read(b.engine, b.files, k) == read(a.engine, a.files, k),
{
    let gone = gone(a);
    let kept = b.known.immutables;
    retire_keeps_retired(a, count, b);
    assert forall|i: int| 0 <= i < kept.len() implies #[trigger] kept[i] == a.known.immutables[i
        + count] by {}
    assert forall|i: int, j: int| 0 <= i < j < kept.len() implies kept[i].wal_seq
        < kept[j].wal_seq by {
        assert(a.known.immutables[i + count].wal_seq < a.known.immutables[j + count].wal_seq);
    }
    assert forall|i: int| 0 <= i < kept.len() implies (#[trigger] kept[i]).wal_seq
        < b.known.wal_seq by {
        assert(a.known.immutables[i + count].wal_seq < a.known.wal_seq);
    }
    assert(logged(b.known, b.logs)) by {
        assert forall|i: int| 0 <= i < kept.len() implies replayed(
            Contents::empty(),
            #[trigger] b.logs[i],
        ) == kept[i].contents by {
            assert(b.logs[i] == a.logs[i + count]);
        }
        assert(b.logs.last() == a.logs.last());
    }
    assert forall|i: int| 0 <= i < b.logs.len() implies loggable(#[trigger] b.logs[i]) by {
        assert(b.logs[i] == a.logs[i + count]);
    }
    assert(a.known.immutables.skip(count).skip(gone - count) =~= a.known.immutables.skip(gone));
    assert forall|k: Seq<u8>|
        {
            &&& #[trigger] read(b.engine, b.files, k) == read(a.engine, a.files, k)
            &&& read(b.engine, b.files, k) == read(b.known, b.files, k)
        } by {
        assert(read(a.engine, a.files, k) == read(a.known, a.files, k));
        crash_in_flush_loses_nothing(a.known, a.files, a.logs, a.engine, a.files, gone, count, k);
        reopen_keeps_reads(b.known, b.files, b.logs, k);
    }
}

/// What a merge of tables holds is within the limits if the tables are.
proof fn merge_fits(v: EngineView, files: Tables, runs: Seq<Seq<RecordView>>)
    requires
        v.levels.len() > 0,
        tables_fit(v.levels, files),
        runs.len() == merge_inputs(v.levels).len(),
        forall|i: int|
            0 <= i < runs.len() ==> lists(#[trigger] runs[i], files[merge_inputs(
                v.levels,
            )[i].name]),
    ensures
        forall|i: int| 0 <= i < runs.len() ==> build_fault(#[trigger] runs[i]) is None,
        build_fault(merge_of(v, runs)) is None,
        cells_fit(contents_of(merge_of(v, runs))),
{
    let inputs = merge_inputs(v.levels);
    let out = merge_of(v, runs);
    assert forall|i: int| 0 <= i < runs.len() implies build_fault(#[trigger] runs[i]) is None by {
        if i < v.levels[0].len() {
            assert(inputs[i] == v.levels[0][i]);
        } else {
            assert(inputs[i] == v.levels[1][i - v.levels[0].len()]);
        }
        fitting_memtable_can_be_flushed(runs[i], files[inputs[i].name]);
    }
    merge_can_be_built(meta_seqs(inputs), runs);
    sorted_records_within_limits_build(out);
    contents_facts(out);
    assert forall|key: Seq<u8>| #[trigger] contents_of(out).contains_key(key) implies key.len()
        <= MAX_KEY_LEN && contents_of(out)[key].0.len() <= MAX_VALUE_LEN by {
        let i = choose|i: int| 0 <= i < out.len() && #[trigger] out[i].0 == key;
        assert(contents_of(out)[out[i].0] == (out[i].1, out[i].2));
    }
}

proof fn compact_step(a: System, seq: u64, runs: Seq<Seq<RecordView>>, b: System)
    requires
        sound(a),
        happens(a, (Event::Compact { seq, runs }), b),
    ensures
        sound(b),
        forall|k: Seq<u8>| #[trigger]
            read(b.engine, b.files, k) == read(a.engine, a.files, k),
{
    let out = merge_of(a.engine, runs);
    let name = table_name_text(1, seq);
    if out.len() > 0 {
        fresh_name_unused(a.known, 1, seq);
        new_file_ignored(a.known, a.files, name, contents_of(out));
    }
    merge_fits(a.engine, a.files, runs);
    assert(tables_fit(a.known.levels, b.files)) by {
        assert forall|i: int, j: int|
            0 <= i < a.known.levels.len() && 0 <= j < a.known.levels[i].len() implies cells_fit(
            b.files[(#[trigger] a.known.levels[i][j]).name],
        ) by {
            if out.len() > 0 {
                assert(a.known.levels[i][j].name != name);
            }
        }
    }
    compaction_keeps_steady(a.engine, seq, out);
    compaction_keeps_reads(a.engine, a.files, runs, seq, b.files, Seq::empty());
    assert(b.known.immutables == a.known.immutables);
    assert forall|k: Seq<u8>|
        {
            &&& #[trigger] read(b.engine, b.files, k) == read(a.engine, a.files, k)
            &&& read(b.engine, b.files, k) == read(b.known, b.files, k)
        } by {
        compaction_keeps_reads(a.engine, a.files, runs, seq, b.files, k);
        assert(read(a.engine, a.files, k) == read(a.known, a.files, k));
        assert(read(a.known, b.files, k) == read(a.known, a.files, k));
    }
}

proof fn kept_files_match(levels: Seq<Seq<MetaView>>, a: Tables, b: Tables)
    requires
        files_match(levels, a),
        files_kept(levels, a, b),
    ensures
        files_match(levels, b),
{
    assert forall|i: int, j: int|
        0 <= i < levels.len() && 0 <= j < levels[i].len() implies file_matches(
        #[trigger] levels[i][j],
        b,
    ) by {
        assert(file_matches(levels[i][j], a));
    }
}

proof fn clean_step(a: System, files: Tables, b: System)
    requires
        sound(a),
        happens(a, (Event::Clean { files }), b),
    ensures
        sound(b),
        forall|k: Seq<u8>| #[trigger]
            read(b.engine, b.files, k) == read(a.engine, a.files, k),
{
    kept_files_match(a.engine.levels, a.files, files);
    kept_files_match(a.known.levels, a.files, files);
    assert forall|k: Seq<u8>|
        {
            &&& #[trigger] read(b.engine, b.files, k) == read(a.engine, a.files, k)
            &&& read(b.engine, b.files, k) == read(b.known, b.files, k)
        } by {
        unlisted_files_ignored(a.engine, a.files, files, k);
        unlisted_files_ignored(a.known, a.files, files, k);
        assert(read(a.engine, a.files, k) == read(a.known, a.files, k));
    }
}

/// What logs make of an empty memtable can be logged again.
proof fn replay_all_form(logs: Seq<Seq<EntryView>>)
    requires
        logs_loggable(logs),
    ensures
        deletions_bare(replay_all(logs)),
        cells_fit(replay_all(logs)),
    decreases logs.len(),
{
    if logs.len() > 0 {
        let rest = logs.drop_last();
        assert forall|i: int| 0 <= i < rest.len() implies loggable(#[trigger] rest[i]) by {
            assert(rest[i] == logs[i]);
        }
        replay_all_form(rest);
        let last = logs.last();
        assert(loggable(logs[logs.len() - 1]));
        assert(entries_fit(last)) by {
            assert forall|i: int| 0 <= i < last.len() implies (#[trigger] last[i]).key.len()
                <= MAX_KEY_LEN && last[i].value.len()
                <= MAX_VALUE_LEN by {
                assert(entry_fault(last[i].op, last[i].key, last[i].value) is None);
            }
        }
        replay_keeps_form(replay_all(rest), last);
    }
}

proof fn trimmed_ranked(levels: Seq<Seq<MetaView>>, files: Tables)
    requires
        tables_ranked(levels),
        manifest_fits(levels),
        files_match(levels, files),
        tables_fit(levels, files),
    ensures
        tables_fit(trimmed(levels), files),
        tables_ranked(trimmed(levels)),
        manifest_fits(trimmed(levels)),
        files_match(trimmed(levels), files),
        trimmed(levels).len() <= levels.len(),
    decreases levels.len(),
{
    if levels.len() > 0 && levels.last().len() == 0 {
        let rest = levels.drop_last();
        assert forall|i: int| 0 <= i < rest.len() implies #[trigger] rest[i] == levels[i] by {}
        assert forall|i: int| 2 <= i < rest.len() implies (#[trigger] rest[i]).len() == 0 by {
            assert(levels[i].len() == 0);
        }
        assert forall|i: int| 0 <= i < rest.len() implies seqs_ascend(#[trigger] rest[i]) by {
            assert(seqs_ascend(levels[i]));
        }
        assert forall|i: int, j: int| 0 <= i < rest.len() && 0 <= j < rest[i].len() implies (
        #[trigger] rest[i][j]).level == i && rest[i][j].name == table_name_text(
            i as u32,
            rest[i][j].seq,
        ) && meta_fits(rest[i][j]) && file_matches(rest[i][j], files) && cells_fit(
            files[rest[i][j].name],
        ) by {
            assert(rest[i][j] == levels[i][j]);
        }
        if rest.len() > 1 {
            assert forall|x: int, y: int|
                0 <= x < rest[1].len() && 0 <= y < rest[0].len() implies (
            #[trigger] rest[1][x]).seq < (#[trigger] rest[0][y]).seq by {
                assert(levels[1][x].seq < levels[0][y].seq);
            }
        }
        trimmed_ranked(rest, files);
    }
}

proof fn reopen_step(
    a: System,
    options: LsmOptions,
    active_size: usize,
    max_seq: u64,
    rs: Seq<RecordView>,
    b: System,
)
    requires
        sound(a),
        happens(a, (Event::Reopen { options, active_size, max_seq, rs }), b),
    ensures
        sound(b),
        forall|k: Seq<u8>| #[trigger]
            read(b.engine, b.files, k) == read(a.engine, a.files, k),
{
    let o = opening_on(a, options, active_size, max_seq);
    manifest_keeps_tables(a.known, a.files, Seq::empty());
    trimmed_ranked(a.known.levels, a.files);
    opened_engine_is_steady(o);
    replay_all_form(a.logs);
    opened_engine_is_logged(o, rs);
    rewritten_log_replays(o.active, rs);
    assert(b.known.immutables.skip(0) =~= b.engine.immutables);
    assert forall|i: int| 0 <= i < b.logs.len() implies loggable(#[trigger] b.logs[i]) by {}
    assert forall|k: Seq<u8>| #[trigger] read(b.engine, b.files, k) == read(
        a.engine,
        a.files,
        k,
    ) by {
        reopen_from_manifest(a.known, a.files, a.logs, k);
        opened_engine_reads(o, a.files, a.logs, k);
        assert(read(a.engine, a.files, k) == read(a.known, a.files, k));
    }
}

/// Every step keeps engine and directory sound, and changes what is read of a key
/// only if it is a write to that key.
pub proof fn step_keeps_sound(a: System, e: Event, b: System)
    requires
        sound(a),
        happens(a, e, b),
    ensures
        sound(b),
        forall|key: Seq<u8>| #[trigger]
            read(b.engine, b.files, key) == seen(e, key, read(a.engine, a.files, key)),
{
    match e {
        Event::Write { key, value, deleted } => write_step(a, key, value, deleted, b),
        Event::Reserve => reserve_step(a, b),
        Event::Freeze { new_seq } => freeze_step(a, new_seq, b),
        Event::Flush { seq, rs } => flush_step(a, seq, rs, b),
        Event::Persist => persist_step(a, b),
        Event::Retire { count } => retire_step(a, count, b),
        Event::Compact { seq, runs } => compact_step(a, seq, runs, b),
        Event::Clean { files } => clean_step(a, files, b),
        Event::Reopen { options, active_size, max_seq, rs } => reopen_step(
            a,
            options,
            active_size,
            max_seq,
            rs,
            b,
        ),
    }
}

/// No log that can go once the manifest is written is still needed: none is that of the
/// active memtable or of a frozen one, under its number or under its name; each that is
/// there is one of the oldest logs, that of a memtable that became a table.
pub proof fn retired_logs_are_done(s: System)
    requires
        sound(s),
    ensures
        retired_is_done(s.engine),
        forall|i: int|
            0 <= i < s.engine.retired.len() ==> #[trigger] wal_names(s.engine.retired)[i]
                != wal_name_text(s.engine.wal_seq),
        forall|i: int, j: int|
            0 <= i < s.engine.retired.len() && 0 <= j < s.engine.immutables.len()
                ==> #[trigger] wal_names(s.engine.retired)[i] != wal_name_text(
                (#[trigger] s.engine.immutables[j]).wal_seq,
            ),
        forall|i: int|
            0 <= i < s.engine.retired.len() ==> became_table(s, #[trigger] s.engine.retired[i])
                || removed(s, s.engine.retired[i]),
{
    let v = s.engine;
    assert forall|i: int| 0 <= i < v.retired.len() implies #[trigger] v.retired[i] != v.wal_seq
        && forall|j: int|
        0 <= j < v.immutables.len() ==> v.retired[i] != (#[trigger] v.immutables[j]).wal_seq by {
        assert(older_than_memory(s, v.retired[i]));
        assert forall|j: int| 0 <= j < v.immutables.len() implies v.retired[i] != (
        #[trigger] v.immutables[j]).wal_seq by {
            assert(v.immutables[j] == s.known.immutables[gone(s) + j]);
        }
    }
    retired_names_are_done(v);
}

/// A number that is handed out is new: it is above those of all tables and of all logs
/// that are there, so that the file that is created under it takes the place of none, and
/// it is not handed out again.
pub proof fn handed_out_number_is_new(a: System, b: System)
    requires
        sound(a),
        happens(a, Event::Reserve, b),
    ensures
        seq_is_new(b, a.engine.next_seq),
        a.engine.next_seq < b.engine.next_seq,
        a.engine.wal_seq < a.engine.next_seq,
        wal_name_text(a.engine.next_seq) != wal_name_text(b.engine.wal_seq),
        forall|i: int|
            0 <= i < b.known.immutables.len() ==> wal_name_text(a.engine.next_seq)
                != wal_name_text((#[trigger] b.known.immutables[i]).wal_seq),
        name_unused(b.engine.levels, table_name_text(0, a.engine.next_seq)),
        name_unused(b.engine.levels, table_name_text(1, a.engine.next_seq)),
{
    wal_name_roundtrip(a.engine.next_seq);
    wal_name_roundtrip(a.engine.wal_seq);
    assert forall|i: int| 0 <= i < b.known.immutables.len() implies wal_name_text(
        a.engine.next_seq,
    ) != wal_name_text((#[trigger] b.known.immutables[i]).wal_seq) by {
        assert(a.known.immutables[i].wal_seq < a.known.wal_seq);
        wal_name_roundtrip(a.known.immutables[i].wal_seq);
    }
    fresh_name_unused(a.engine, 0, a.engine.next_seq);
    fresh_name_unused(a.engine, 1, a.engine.next_seq);
}

/// A flush never fails: the records of a frozen memtable can always become a table,
/// whatever was written.
pub proof fn flush_never_fails(s: System, i: int, rs: Seq<RecordView>)
    requires
        sound(s),
        0 <= i < s.engine.immutables.len(),
        lists(rs, s.engine.immutables[i].contents),
    ensures
        build_fault(rs) is None,
{
    memtables_fit(s);
    fitting_memtable_can_be_flushed(rs, s.engine.immutables[i].contents);
}

/// A compaction never fails: what survives the merge of the tables of levels 0 and 1
/// can always become a table.
pub proof fn compaction_never_fails(s: System, runs: Seq<Seq<RecordView>>)
    requires
        sound(s),
        s.engine.levels.len() > 0,
        runs.len() == merge_inputs(s.engine.levels).len(),
        forall|i: int|
            0 <= i < runs.len() ==> lists(
                #[trigger] runs[i],
                s.files[merge_inputs(s.engine.levels)[i].name],
            ),
    ensures
        build_fault(merge_of(s.engine, runs)) is None,
{
    merge_fits(s.engine, s.files, runs);
}

/// The options of the last opening in a history that began with `options`.
pub open spec fn last_options(events: Seq<Event>, options: LsmOptions) -> LsmOptions
    decreases events.len(),
{
    if events.len() == 0 {
        options
    } else {
        match events.last() {
            Event::Reopen { options: given, .. } => given,
            _ => last_options(events.drop_last(), options),
        }
    }
}

/// The options of an engine are those of its last opening, over any history: so every
/// write is synced exactly if those options say so, and a memtable is due to be frozen
/// by the threshold that they give.
pub proof fn history_keeps_options(
    states: Seq<System>,
    events: Seq<Event>,
    options: LsmOptions,
)
    requires
        states.len() == events.len() + 1,
        begun(states[0], options),
        forall|i: int|
            0 <= i < events.len() ==> happens(states[i], #[trigger] events[i], states[i + 1]),
    ensures
        states.last().engine.options == last_options(events, options),
        states.last().engine.options.sync_per_write == last_options(events, options).sync_per_write,
        freeze_due(states.last().engine) <==> last_options(events, options).flush_threshold_bytes
            != 0 && last_options(events, options).flush_threshold_bytes
            <= states.last().engine.active_size,
    decreases events.len(),
{
    if events.len() > 0 {
        let n = events.len() - 1;
        let rest = events.drop_last();
        let held = states.drop_last();
        assert forall|i: int| 0 <= i < rest.len() implies happens(
            held[i],
            #[trigger] rest[i],
            held[i + 1],
        ) by {
            assert(rest[i] == events[i]);
        }
        history_keeps_options(held, rest, options);
        assert(happens(states[n], events[n], states[n + 1]));
        assert(held.last() == states[n]);
    }
}

/// After any history that began in an empty directory a read gives the last write:
/// the value if that was a put, and nothing if it was a delete or if the key was
/// never written. An older value never comes back. And the manifest lists the
/// tables of the engine, unless the engine knows that it is behind.
pub proof fn history_gives_last_write(
    states: Seq<System>,
    events: Seq<Event>,
    options: LsmOptions,
    key: Seq<u8>,
)
    requires
        states.len() == events.len() + 1,
        begun(states[0], options),
        forall|i: int|
            0 <= i < events.len() ==> happens(states[i], #[trigger] events[i], states[i + 1]),
    ensures
        sound(states.last()),
        read(states.last().engine, states.last().files, key) == last_write(events, key),
        !states.last().engine.manifest_behind ==> states.last().known.levels
            == states.last().engine.levels,
    decreases events.len(),
{
    if events.len() == 0 {
        begun_is_sound(states[0], options);
    } else {
        let n = events.len() - 1;
        let rest = events.drop_last();
        let held = states.drop_last();
        assert forall|i: int| 0 <= i < rest.len() implies happens(
            held[i],
            #[trigger] rest[i],
            held[i + 1],
        ) by {
            assert(rest[i] == events[i]);
        }
        history_gives_last_write(held, rest, options, key);
        assert(happens(states[n], events[n], states[n + 1]));
        assert(held.last() == states[n]);
        step_keeps_sound(states[n], events[n], states[n + 1]);
    }
}

/// Over any history that began in an empty directory, the logs that can go once the
/// manifest is written are, where they are still there, of the oldest ones, those of
/// memtables that became tables; none is that of the active memtable or of a frozen
/// one. And whatever was written, every frozen memtable can become a table.
pub proof fn history_gives_up_done_logs(
    states: Seq<System>,
    events: Seq<Event>,
    options: LsmOptions,
    i: int,
    rs: Seq<RecordView>,
)
    requires
        states.len() == events.len() + 1,
        begun(states[0], options),
        forall|i: int|
            0 <= i < events.len() ==> happens(states[i], #[trigger] events[i], states[i + 1]),
    ensures
        ({
            let s = states.last();
            &&& retired_is_done(s.engine)
            &&& forall|j: int|
                0 <= j < s.engine.retired.len() ==> became_table(s, #[trigger] s.engine.retired[j])
                    || removed(s, s.engine.retired[j])
            &&& 0 <= i < s.engine.immutables.len() && lists(rs, s.engine.immutables[i].contents)
                ==> build_fault(rs) is None
        }),
{
    let s = states.last();
    history_gives_last_write(states, events, options, Seq::empty());
    retired_logs_are_done(s);
    if 0 <= i < s.engine.immutables.len() && lists(rs, s.engine.immutables[i].contents) {
        flush_never_fails(s, i, rs);
    }
}

} // verus!
