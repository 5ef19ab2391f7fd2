//! What holds across a crash: the logs and the manifest on disk give back what a
//! reader saw, at every point of a write, a freeze or a flush.
//!
//! A log is modelled by the entries that were appended to it. Entries that a
//! crash tears off at the end are not among them.

use super::laws::{
    compaction_keeps_reads, disk_cell, file_matches, files_match, levels_cell_same, logs_ascend,
    merged_meta, meta_seqs, name_unused, ranges_hide_nothing, read, steady, tables_ranked,
    without_first, Tables,
};
use super::names::table_name_text;
use super::opening::{engine_of, level_max, levels_max, log_fault, record_entries, OpeningView};
use super::{
    after_compaction, after_flush, after_freeze, after_write, candidates, cell_value, compacted,
    frozen_cell, level_candidates, memory_cell, merge_inputs, EngineView, ImmView,
};
use crate::compaction::leveled::merged;
use crate::error::ErrorView;
use crate::manifest::{
    decoded, encoded, listed, manifest_fits, manifest_ordered, manifest_roundtrip, meta_fits,
    seqs_ascend, seqs_ordered, sorted_level, sorted_level_same, trimmed, MetaView,
};
use crate::model::{ascending, contents_facts, contents_of, lists, Contents, RecordView};
use crate::order::lex_lt;
use crate::utils;
use crate::wal::reader::{
    frame_at, log_bytes, log_roundtrip, loggable, replayed, scan_from, scan_log, torn_at, torn_tail,
};
use crate::wal::{
    declared_frame_len, decode_frame, entry_fault, EntryView, WalOp, MAX_KEY_LEN, MAX_VALUE_LEN,
};
use vstd::prelude::*;

verus! {

/// What log generations make of an empty memtable, oldest first.
pub open spec fn replay_all(logs: Seq<Seq<EntryView>>) -> Contents
    decreases logs.len(),
{
    if logs.len() == 0 {
        Contents::empty()
    } else {
        replayed(replay_all(logs.drop_last()), logs.last())
    }
}

/// What is read of `key` after an engine was opened on this manifest, these table
/// files and these log generations.
pub open spec fn recovered_read(
    levels: Seq<Seq<MetaView>>,
    files: Tables,
    logs: Seq<Seq<EntryView>>,
    key: Seq<u8>,
) -> Option<Seq<u8>> {
    if replay_all(logs).contains_key(key) {
        cell_value(replay_all(logs)[key])
    } else {
        match disk_cell(levels, files, key) {
            Some(c) => cell_value(c),
            None => None,
        }
    }
}

/// An opening that has replayed the generations in order ends in an engine that
/// reads what the disk holds.
pub proof fn opened_engine_reads(
    o: OpeningView,
    files: Tables,
    logs: Seq<Seq<EntryView>>,
    key: Seq<u8>,
)
    requires
        o.active == replay_all(logs),
    ensures
        read(engine_of(o), files, key) == recovered_read(o.levels, files, logs, key),
{
}

/// Whether the logs are those of the engine's memtables, oldest first: each
/// memtable is what its log makes of an empty one.
pub open spec fn logged(v: EngineView, logs: Seq<Seq<EntryView>>) -> bool {
    &&& logs.len() == v.immutables.len() + 1
    &&& forall|i: int|
        0 <= i < v.immutables.len() ==> replayed(Contents::empty(), #[trigger] logs[i])
            == v.immutables[i].contents
    &&& replayed(Contents::empty(), logs.last()) == v.active
}

/// The log entry of a write.
pub open spec fn write_entry(key: Seq<u8>, value: Seq<u8>, deleted: bool) -> EntryView {
    if deleted {
        EntryView { op: WalOp::Delete, key, value: Seq::empty() }
    } else {
        EntryView { op: WalOp::Put, key, value }
    }
}

/// A write that was appended to the log before it was applied leaves memtable and
/// log in step.
pub proof fn write_is_logged(
    v: EngineView,
    logs: Seq<Seq<EntryView>>,
    key: Seq<u8>,
    value: Seq<u8>,
    deleted: bool,
)
    requires
        logged(v, logs),
    ensures
        logged(
            after_write(v, key, value, deleted),
            logs.update(
                logs.len() - 1,
                logs.last().push(write_entry(key, value, deleted)),
            ),
        ),
{
    let e = write_entry(key, value, deleted);
    let last = logs.last().push(e);
    assert(last.drop_last() =~= logs.last());
    assert(last.last() == e);
    let more = logs.update(logs.len() - 1, last);
    assert(more.last() == last);
    assert forall|i: int| 0 <= i < v.immutables.len() implies replayed(
        Contents::empty(),
        #[trigger] more[i],
    ) == v.immutables[i].contents by {
        assert(more[i] == logs[i]);
    }
}

/// A freeze starts a new, empty log.
pub proof fn freeze_starts_log(v: EngineView, logs: Seq<Seq<EntryView>>, new_seq: u64)
    requires
        logged(v, logs),
    ensures
        logged(after_freeze(v, new_seq), logs.push(Seq::empty())),
{
    let after = after_freeze(v, new_seq);
    let more = logs.push(Seq::empty());
    assert forall|i: int| 0 <= i < after.immutables.len() implies replayed(
        Contents::empty(),
        #[trigger] more[i],
    ) == after.immutables[i].contents by {
        assert(more[i] == logs[i]);
        if i == v.immutables.len() {
            assert(logs[i] == logs.last());
        } else {
            assert(after.immutables[i] == v.immutables[i]);
        }
    }
}

/// When the oldest frozen memtable has become a table, its log, the oldest one,
/// can go.
pub proof fn flush_retires_log(v: EngineView, logs: Seq<Seq<EntryView>>, meta: MetaView)
    requires
        logged(v, logs),
        logs_ascend(v),
        v.immutables.len() > 0,
    ensures
        logged(after_flush(v, meta, v.immutables[0].wal_seq), logs.skip(1)),
{
    without_first(v.immutables);
    let after = after_flush(v, meta, v.immutables[0].wal_seq);
    let rest = logs.skip(1);
    assert forall|i: int| 0 <= i < after.immutables.len() implies replayed(
        Contents::empty(),
        #[trigger] rest[i],
    ) == after.immutables[i].contents by {
        assert(rest[i] == logs[i + 1]);
        assert(after.immutables[i] == v.immutables[i + 1]);
    }
}

/// Replaying onto a memtable overrides what it held by what the log makes of an
/// empty one.
proof fn replayed_over(contents: Contents, entries: Seq<EntryView>)
    ensures
        replayed(contents, entries) == contents.union_prefer_right(
            replayed(Contents::empty(), entries),
        ),
    decreases entries.len(),
{
    let made = replayed(Contents::empty(), entries);
    if entries.len() == 0 {
        assert(contents =~= contents.union_prefer_right(made));
    } else {
        let rest = entries.drop_last();
        replayed_over(contents, rest);
        assert(replayed(contents, entries) =~= contents.union_prefer_right(made));
    }
}

/// Replaying the logs of memtables, oldest first, gives of every key what a
/// search of the memtables, newest first, finds.
proof fn replay_layers(imms: Seq<ImmView>, logs: Seq<Seq<EntryView>>, key: Seq<u8>)
    requires
        logs.len() == imms.len(),
        forall|i: int|
            0 <= i < imms.len() ==> replayed(Contents::empty(), #[trigger] logs[i])
                == imms[i].contents,
    ensures
        match frozen_cell(imms, key) {
            Some(c) => replay_all(logs).contains_key(key) && replay_all(logs)[key] == c,
            None => !replay_all(logs).contains_key(key),
        },
    decreases imms.len(),
{
    if imms.len() > 0 {
        let rest = logs.drop_last();
        assert forall|i: int| 0 <= i < rest.len() implies replayed(
            Contents::empty(),
            #[trigger] rest[i],
        ) == imms.drop_last()[i].contents by {
            assert(rest[i] == logs[i]);
        }
        replay_layers(imms.drop_last(), rest, key);
        replayed_over(replay_all(rest), logs.last());
        assert(replayed(Contents::empty(), logs[logs.len() - 1]) == imms.last().contents);
    }
}

proof fn logged_memory(v: EngineView, logs: Seq<Seq<EntryView>>, key: Seq<u8>)
    requires
        logged(v, logs),
    ensures
        match memory_cell(v, key) {
            Some(c) => replay_all(logs).contains_key(key) && replay_all(logs)[key] == c,
            None => !replay_all(logs).contains_key(key),
        },
{
    let older = logs.drop_last();
    assert forall|i: int| 0 <= i < older.len() implies replayed(
        Contents::empty(),
        #[trigger] older[i],
    ) == v.immutables[i].contents by {
        assert(older[i] == logs[i]);
    }
    replay_layers(v.immutables, older, key);
    replayed_over(replay_all(older), logs.last());
}

/// Reopening changes nothing that is read: an engine that goes down and is
/// opened again on its manifest, its tables and its logs reads the same.
pub proof fn reopen_keeps_reads(
    v: EngineView,
    files: Tables,
    logs: Seq<Seq<EntryView>>,
    key: Seq<u8>,
)
    requires
        logged(v, logs),
    ensures
        recovered_read(v.levels, files, logs, key) == read(v, files, key),
{
    logged_memory(v, logs, key);
}

/// Files that the manifest does not list are not read: a table that was written
/// but is not in the manifest yet makes no difference.
pub proof fn unlisted_files_ignored(v: EngineView, a: Tables, b: Tables, key: Seq<u8>)
    requires
        files_match(v.levels, a),
        files_match(v.levels, b),
        forall|i: int, j: int|
            0 <= i < v.levels.len() && 0 <= j < v.levels[i].len() ==> a[(
            #[trigger] v.levels[i][j]).name] == b[v.levels[i][j].name],
    ensures
        read(v, a, key) == read(v, b, key),
{
    ranges_hide_nothing(v.levels, a, key);
    ranges_hide_nothing(v.levels, b, key);
    levels_cell_same(v.levels, a, b, key);
}

/// A crash in a freeze loses nothing: a log that was created but has no entries
/// yet makes no difference.
pub proof fn crash_in_freeze_loses_nothing(
    v: EngineView,
    files: Tables,
    logs: Seq<Seq<EntryView>>,
    key: Seq<u8>,
)
    requires
        logged(v, logs),
    ensures
        recovered_read(v.levels, files, logs.push(Seq::empty()), key) == read(v, files, key),
{
    reopen_keeps_reads(v, files, logs, key);
    assert(logs.push(Seq::empty()).drop_last() =~= logs);
}

/// A crash in a compaction loses nothing. Until the manifest is replaced, the
/// merged table makes no difference; from then on the merged tables make none,
/// and `left` is what remains of the files.
pub proof fn crash_in_compaction_loses_nothing(
    v: EngineView,
    files: Tables,
    logs: Seq<Seq<EntryView>>,
    runs: Seq<Seq<RecordView>>,
    seq: u64,
    left: Tables,
    key: Seq<u8>,
)
    requires
        logged(v, logs),
        v.levels.len() > 0,
        tables_ranked(v.levels),
        files_match(v.levels, files),
        name_unused(v.levels, table_name_text(1, seq)),
        runs.len() == merge_inputs(v.levels).len(),
        forall|i: int|
            0 <= i < runs.len() ==> lists(
                #[trigger] runs[i],
                files[merge_inputs(v.levels)[i].name],
            ),
        ({
            let out = merged(meta_seqs(merge_inputs(v.levels)), runs);
            out.len() > 0 ==> left.contains_key(table_name_text(1, seq)) && left[table_name_text(
                1,
                seq,
            )] == contents_of(out)
        }),
    ensures
        ({
            let out = merged(meta_seqs(merge_inputs(v.levels)), runs);
            let levels = compacted(v.levels, merged_meta(seq, out));
            let more = files.insert(table_name_text(1, seq), contents_of(out));
            &&& recovered_read(v.levels, more, logs, key) == read(v, files, key)
            &&& recovered_read(levels, left, logs, key) == read(v, files, key)
        }),
{
    let out = merged(meta_seqs(merge_inputs(v.levels)), runs);
    let after = after_compaction(v, merged_meta(seq, out));
    let more = files.insert(table_name_text(1, seq), contents_of(out));
    compaction_keeps_reads(v, files, runs, seq, left, key);
    assert(logged(after, logs));
    reopen_keeps_reads(after, left, logs, key);
    assert forall|i: int, j: int|
        0 <= i < v.levels.len() && 0 <= j < v.levels[i].len() implies file_matches(
        #[trigger] v.levels[i][j],
        more,
    ) && files[v.levels[i][j].name] == more[v.levels[i][j].name] by {
        assert(v.levels[i][j].name != table_name_text(1, seq));
        assert(file_matches(v.levels[i][j], files));
    }
    unlisted_files_ignored(v, files, more, key);
    reopen_keeps_reads(v, more, logs, key);
}

proof fn frozen_suffix(imms: Seq<ImmView>, m: int, key: Seq<u8>)
    requires
        0 <= m <= imms.len(),
    ensures
        frozen_cell(imms.skip(m), key) is Some ==> frozen_cell(imms, key) == frozen_cell(
            imms.skip(m),
            key,
        ),
    decreases imms.len(),
{
    if m < imms.len() {
        let rest = imms.drop_last();
        frozen_suffix(rest, m, key);
        assert(imms.skip(m).drop_last() =~= rest.skip(m));
        assert(imms.skip(m).last() == imms.last());
    }
}

/// A crash in the middle of a flush loses nothing. `before` is the engine when
/// the flush began, with its logs; `after` is the engine when its `written`
/// oldest frozen memtables have become tables, and the manifest lists those. The
/// logs are removed oldest first; whichever `removed` of them are gone by then,
/// reopening reads what was read before the flush.
pub proof fn crash_in_flush_loses_nothing(
    before: EngineView,
    files: Tables,
    logs: Seq<Seq<EntryView>>,
    after: EngineView,
    more: Tables,
    written: int,
    removed: int,
    key: Seq<u8>,
)
    requires
        logged(before, logs),
        0 <= removed <= written <= before.immutables.len(),
        after.active == before.active,
        after.immutables == before.immutables.skip(written),
        read(after, more, key) == read(before, files, key),
    ensures
        recovered_read(after.levels, more, logs.skip(removed), key) == read(before, files, key),
{
    let left = EngineView { immutables: before.immutables.skip(removed), ..after };
    let rest = logs.skip(removed);
    assert(logged(left, rest)) by {
        assert forall|i: int| 0 <= i < left.immutables.len() implies replayed(
            Contents::empty(),
            #[trigger] rest[i],
        ) == left.immutables[i].contents by {
            assert(rest[i] == logs[i + removed]);
            assert(left.immutables[i] == before.immutables[i + removed]);
        }
        assert(rest.last() == logs.last());
    }
    reopen_keeps_reads(left, more, rest, key);
    frozen_suffix(before.immutables, removed, key);
    frozen_suffix(left.immutables, written - removed, key);
    assert(left.immutables.skip(written - removed) =~= after.immutables);
}

/// Whether every deletion carries no value, as writes and replays leave it.
pub open spec fn deletions_bare(contents: Contents) -> bool {
    forall|key: Seq<u8>| #[trigger]
        contents.contains_key(key) && contents[key].1 ==> contents[key].0 == Seq::<u8>::empty()
}

/// Whether every key and value is within the limits of the log.
pub open spec fn cells_fit(contents: Contents) -> bool {
    forall|key: Seq<u8>| #[trigger]
        contents.contains_key(key) ==> key.len() <= MAX_KEY_LEN && contents[key].0.len()
            <= MAX_VALUE_LEN
}

/// Whether the keys and values of entries are within the limits of the log.
pub open spec fn entries_fit(entries: Seq<EntryView>) -> bool {
    forall|i: int|
        0 <= i < entries.len() ==> (#[trigger] entries[i]).key.len() <= MAX_KEY_LEN
            && entries[i].value.len() <= MAX_VALUE_LEN
}

/// Replaying keeps deletions bare and everything within the limits.
pub proof fn replay_keeps_form(contents: Contents, entries: Seq<EntryView>)
    requires
        deletions_bare(contents),
        cells_fit(contents),
        entries_fit(entries),
    ensures
        deletions_bare(replayed(contents, entries)),
        cells_fit(replayed(contents, entries)),
    decreases entries.len(),
{
    if entries.len() > 0 {
        let rest = entries.drop_last();
        assert forall|i: int| 0 <= i < rest.len() implies (#[trigger] rest[i]).key.len()
            <= MAX_KEY_LEN && rest[i].value.len() <= MAX_VALUE_LEN by {
            assert(rest[i] == entries[i]);
        }
        assert(entries[entries.len() - 1].key.len() <= MAX_KEY_LEN);
        replay_keeps_form(contents, rest);
    }
}

proof fn scanned_fit_from(bytes: Seq<u8>, offset: nat)
    ensures
        scan_from(bytes, offset) matches Ok(entries) ==> entries_fit(entries),
    decreases bytes.len() - offset,
{
    if offset <= bytes.len() && !torn_at(bytes, offset) {
        let chunk = frame_at(bytes, offset);
        if let Ok(e) = decode_frame(chunk) {
            utils::le_limits();
            utils::le_value_bound(chunk.subrange(5, 7));
            utils::le_value_bound(chunk.subrange(7, 11));
            let next = offset + declared_frame_len(bytes.skip(offset as int));
            scanned_fit_from(bytes, next);
            if let Ok(rest) = scan_from(bytes, next) {
                let all = seq![e] + rest;
                assert forall|i: int| 0 <= i < all.len() implies (#[trigger] all[i]).key.len()
                    <= MAX_KEY_LEN && all[i].value.len() <= MAX_VALUE_LEN by {
                    if i > 0 {
                        assert(all[i] == rest[i - 1]);
                    }
                }
            }
        }
    }
}

/// The entries that are read from a log are within its limits.
pub proof fn scanned_entries_fit(bytes: Seq<u8>)
    ensures
        scan_log(bytes) matches Ok(entries) ==> entries_fit(entries),
{
    scanned_fit_from(bytes, 0);
}

/// The log that an opening writes gives the memtable back, and writing it never
/// fails: nothing that was replayed is lost when the old logs go.
pub proof fn rewritten_log_replays(contents: Contents, rs: Seq<RecordView>)
    requires
        lists(rs, contents),
        deletions_bare(contents),
        cells_fit(contents),
    ensures
        log_fault(record_entries(rs)) is None,
        loggable(record_entries(rs)),
        replayed(Contents::empty(), record_entries(rs)) == contents,
    decreases rs.len(),
{
    let entries = record_entries(rs);
    contents_facts(rs);
    assert forall|i: int| 0 <= i < rs.len() implies entry_fault(
        (#[trigger] entries[i]).op,
        entries[i].key,
        entries[i].value,
    ) is None && (rs[i].2 ==> rs[i].1 == Seq::<u8>::empty()) by {
        assert(contents.contains_key(rs[i].0));
        assert(contents[rs[i].0] == (rs[i].1, rs[i].2));
    }
    rewritten_prefix(rs, rs.len() as int);
    assert(rs.take(rs.len() as int) =~= rs);
}

proof fn rewritten_prefix(rs: Seq<RecordView>, n: int)
    requires
        0 <= n <= rs.len(),
        forall|i: int|
            0 <= i < rs.len() ==> entry_fault(
                (#[trigger] record_entries(rs)[i]).op,
                record_entries(rs)[i].key,
                record_entries(rs)[i].value,
            ) is None && (rs[i].2 ==> rs[i].1 == Seq::<u8>::empty()),
    ensures
        log_fault(record_entries(rs.take(n))) is None,
        replayed(Contents::empty(), record_entries(rs.take(n))) == contents_of(rs.take(n)),
    decreases n,
{
    let part = rs.take(n);
    let entries = record_entries(part);
    if n > 0 {
        rewritten_prefix(rs, n - 1);
        assert(part.drop_last() =~= rs.take(n - 1));
        assert(entries.drop_last() =~= record_entries(rs.take(n - 1)));
        assert(entries.last() == record_entries(rs)[n - 1]);
        assert(part.last() == rs[n - 1]);
    }
}

/// An engine that was just opened is in step with the log that the opening
/// wrote.
pub proof fn opened_engine_is_logged(o: OpeningView, rs: Seq<RecordView>)
    requires
        lists(rs, o.active),
        deletions_bare(o.active),
        cells_fit(o.active),
    ensures
        logged(engine_of(o), seq![record_entries(rs)]),
{
    rewritten_log_replays(o.active, rs);
}

/// The keys of a replay are those of its logs.
proof fn replay_all_keys(logs: Seq<Seq<EntryView>>, key: Seq<u8>)
    ensures
        replay_all(logs).contains_key(key) <==> exists|i: int|
            0 <= i < logs.len() && replayed(
                Contents::empty(),
                #[trigger] logs[i],
            ).contains_key(key),
    decreases logs.len(),
{
    if logs.len() > 0 {
        let rest = logs.drop_last();
        let last = logs.len() - 1;
        replay_all_keys(rest, key);
        replayed_over(replay_all(rest), logs[last]);
        if replay_all(rest).contains_key(key) {
            let i = choose|i: int|
                0 <= i < rest.len() && replayed(
                    Contents::empty(),
                    #[trigger] rest[i],
                ).contains_key(key);
            assert(logs[i] == rest[i]);
        }
        if exists|i: int|
            0 <= i < logs.len() && replayed(
                Contents::empty(),
                #[trigger] logs[i],
            ).contains_key(key) {
            let i = choose|i: int|
                0 <= i < logs.len() && replayed(
                    Contents::empty(),
                    #[trigger] logs[i],
                ).contains_key(key);
            if i < last {
                assert(logs[i] == rest[i]);
            }
        }
    }
}

/// A crash in an opening loses nothing. While the new log is being written, all
/// old logs are there, and replaying any beginning of the new one after them
/// changes nothing; once it is complete, it gives everything back, whichever of
/// the old logs are `kept`.
pub proof fn crash_in_opening_loses_nothing(
    logs: Seq<Seq<EntryView>>,
    rs: Seq<RecordView>,
    n: int,
    kept: Seq<Seq<EntryView>>,
)
    requires
        lists(rs, replay_all(logs)),
        deletions_bare(replay_all(logs)),
        cells_fit(replay_all(logs)),
        0 <= n <= rs.len(),
        forall|i: int| 0 <= i < kept.len() ==> logs.contains(#[trigger] kept[i]),
    ensures
        replay_all(logs.push(record_entries(rs).take(n))) == replay_all(logs),
        replay_all(kept.push(record_entries(rs))) == replay_all(logs),
{
    let all = replay_all(logs);
    let entries = record_entries(rs);
    rewritten_log_replays(all, rs);
    contents_facts(rs);
    // A beginning of the new log.
    let part = rs.take(n);
    assert(entries.take(n) =~= record_entries(part));
    assert forall|i: int| 0 <= i < rs.len() implies entry_fault(
        (#[trigger] entries[i]).op,
        entries[i].key,
        entries[i].value,
    ) is None && (rs[i].2 ==> rs[i].1 == Seq::<u8>::empty()) by {
        assert(all.contains_key(rs[i].0));
        assert(all[rs[i].0] == (rs[i].1, rs[i].2));
    }
    rewritten_prefix(rs, n);
    replayed_over(all, entries.take(n));
    assert(ascending(part)) by {
        assert forall|i: int, j: int| 0 <= i < j < part.len() implies lex_lt(
            part[i].0,
            part[j].0,
        ) by {
            assert(part[i] == rs[i] && part[j] == rs[j]);
        }
    }
    contents_facts(part);
    assert forall|key: Seq<u8>| #[trigger] contents_of(part).contains_key(key) implies contents_of(
        part,
    )[key] == all[key] && all.contains_key(key) by {
        let i = choose|i: int| 0 <= i < part.len() && #[trigger] part[i].0 == key;
        assert(part[i] == rs[i]);
    }
    assert(logs.push(entries.take(n)).drop_last() =~= logs);
    assert(replay_all(logs.push(entries.take(n))) =~= all);
    // The whole of it.
    replayed_over(replay_all(kept), entries);
    assert(kept.push(entries).drop_last() =~= kept);
    assert forall|key: Seq<u8>| replay_all(kept).contains_key(key) implies (
    #[trigger] all.contains_key(key)) by {
        replay_all_keys(kept, key);
        let i = choose|i: int|
            0 <= i < kept.len() && replayed(
                Contents::empty(),
                #[trigger] kept[i],
            ).contains_key(key);
        assert(logs.contains(kept[i]));
        let j = choose|j: int| 0 <= j < logs.len() && logs[j] == kept[i];
        assert(replayed(Contents::empty(), logs[j]).contains_key(key));
        replay_all_keys(logs, key);
    }
    assert(replay_all(kept.push(entries)) =~= all);
}

/// The logs that an opening replays are read back from their files whatever a
/// crash left torn at the end, within the limits of the log, and without
/// complaint.
pub proof fn torn_log_replays(entries: Seq<EntryView>, tail: Seq<u8>)
    requires
        loggable(entries),
        torn_tail(tail),
    ensures
        scan_log(log_bytes(entries) + tail) == Ok::<Seq<EntryView>, ErrorView>(entries),
        entries_fit(entries),
{
    log_roundtrip(entries, tail);
    scanned_entries_fit(log_bytes(entries) + tail);
}

proof fn level_max_covers(metas: Seq<MetaView>, floor: u64)
    ensures
        level_max(metas, floor) >= floor,
        forall|j: int|
            0 <= j < metas.len() ==> (#[trigger] metas[j]).seq <= level_max(metas, floor),
    decreases metas.len(),
{
    if metas.len() > 0 {
        let rest = metas.drop_last();
        level_max_covers(rest, floor);
        assert forall|j: int| 0 <= j < metas.len() implies (#[trigger] metas[j]).seq <= level_max(
            metas,
            floor,
        ) by {
            if j < rest.len() {
                assert(metas[j] == rest[j]);
            }
        }
    }
}

/// The highest sequence number of the levels is at least that of every table.
pub proof fn levels_max_covers(levels: Seq<Seq<MetaView>>)
    ensures
        forall|i: int, j: int|
            0 <= i < levels.len() && 0 <= j < levels[i].len() ==> (#[trigger] levels[i][j]).seq
                <= levels_max(levels),
    decreases levels.len(),
{
    if levels.len() > 0 {
        let rest = levels.drop_last();
        levels_max_covers(rest);
        level_max_covers(levels.last(), levels_max(rest));
        assert forall|i: int, j: int| 0 <= i < levels.len() && 0 <= j < levels[i].len() implies (
        #[trigger] levels[i][j]).seq <= levels_max(levels) by {
            if i < rest.len() {
                assert(levels[i][j] == rest[i][j]);
            } else {
                assert(levels[i][j] == levels.last()[j]);
            }
        }
    }
}

/// An engine that is opened on tables as the engine leaves them is steady, as
/// long as sequence numbers do not run out: every number it hands out is new.
pub proof fn opened_engine_is_steady(o: OpeningView)
    requires
        tables_ranked(o.levels),
        manifest_fits(o.levels),
        o.levels.len() <= 0x1_0000_0000,
        o.max_seq >= levels_max(o.levels),
        o.max_seq + 1 < u64::MAX,
    ensures
        steady(engine_of(o)),
{
    let v = engine_of(o);
    levels_max_covers(o.levels);
    assert forall|i: int| 0 <= i < v.levels.len() implies seqs_ordered(
        #[trigger] v.levels[i],
    ) by {
        assert(seqs_ascend(v.levels[i]));
    }
    assert forall|i: int, j: int| 0 <= i < v.levels.len() && 0 <= j < v.levels[i].len() implies (
    #[trigger] v.levels[i][j]).seq < v.next_seq by {
        assert(o.levels[i][j].seq <= levels_max(o.levels));
    }
}

proof fn trimmed_candidates(levels: Seq<Seq<MetaView>>, key: Seq<u8>)
    ensures
        candidates(trimmed(levels), key) == candidates(levels, key),
    decreases levels.len(),
{
    if levels.len() > 0 && levels.last().len() == 0 {
        trimmed_candidates(levels.drop_last(), key);
        assert(level_candidates(levels.last(), key) =~= Seq::empty());
        assert(candidates(levels, key) =~= candidates(levels.drop_last(), key));
    }
}

/// The manifest of a steady engine lists its tables, is read back as it was
/// written, and leads a reader to the same tables.
pub proof fn manifest_keeps_tables(v: EngineView, files: Tables, key: Seq<u8>)
    requires
        steady(v),
        v.levels.len() <= usize::MAX,
    ensures
        listed(v.levels) == trimmed(v.levels),
        decoded(encoded(listed(v.levels)), Set::empty()) == Ok::<
            Seq<Seq<MetaView>>,
            ErrorView,
        >(listed(v.levels)),
        disk_cell(listed(v.levels), files, key) == disk_cell(v.levels, files, key),
{
    let levels = v.levels;
    let sorted = Seq::new(levels.len(), |i: int| sorted_level(levels[i], i as u32));
    assert forall|i: int| 0 <= i < levels.len() implies #[trigger] sorted[i] == levels[i] by {
        assert(seqs_ascend(levels[i]));
        assert forall|j: int| 0 <= j < levels[i].len() implies (#[trigger] levels[i][j]).level
            == i as u32 by {
            assert(levels[i][j].level == i);
        }
        sorted_level_same(levels[i], i as u32);
    }
    assert(sorted =~= levels);
    assert(manifest_ordered(levels));
    trimmed_candidates(levels, key);
    trimmed_form(levels);
    manifest_roundtrip(trimmed(levels));
}

/// Reopening a steady engine from the manifest that it writes, with its tables and
/// its logs, changes nothing that is read.
pub proof fn reopen_from_manifest(
    v: EngineView,
    files: Tables,
    logs: Seq<Seq<EntryView>>,
    key: Seq<u8>,
)
    requires
        steady(v),
        v.levels.len() <= usize::MAX,
        logged(v, logs),
    ensures
        decoded(encoded(listed(v.levels)), Set::empty()) == Ok::<
            Seq<Seq<MetaView>>,
            ErrorView,
        >(listed(v.levels)),
        recovered_read(listed(v.levels), files, logs, key) == read(v, files, key),
{
    manifest_keeps_tables(v, files, key);
    reopen_keeps_reads(v, files, logs, key);
}

proof fn trimmed_form(levels: Seq<Seq<MetaView>>)
    requires
        manifest_ordered(levels),
        manifest_fits(levels),
    ensures
        manifest_ordered(trimmed(levels)),
        manifest_fits(trimmed(levels)),
        trimmed(levels).len() <= levels.len(),
        trimmed(trimmed(levels)) == trimmed(levels),
    decreases levels.len(),
{
    if levels.len() > 0 && levels.last().len() == 0 {
        let rest = levels.drop_last();
        assert forall|i: int, j: int| 0 <= i < rest.len() && 0 <= j < rest[i].len() implies (
        #[trigger] rest[i][j]).level == i && meta_fits(rest[i][j]) by {
            assert(rest[i][j] == levels[i][j]);
        }
        assert forall|i: int| 0 <= i < rest.len() implies seqs_ascend(#[trigger] rest[i]) by {
            assert(rest[i] == levels[i]);
        }
        trimmed_form(rest);
    }
}

} // verus!
