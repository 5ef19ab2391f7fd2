//! Opening an engine: the manifest says which tables there are, the logs are
//! replayed oldest first into a fresh memtable, and that memtable is written to a
//! new log before the old ones go.

use super::names::{wal_name_roundtrip, wal_name_text};
use super::{engine_wf, EngineView, LsmEngine, LsmOptions};
use crate::error::{ErrorView, LsmError, Result};
use crate::manifest::{
    decoded, decoded_form, level_views, load, manifest_fits, manifest_ordered, meta_views,
    seqs_ascend, seqs_ordered, Manifest, MetaView, SstMeta,
};
use crate::memtable::MemTable;
use crate::model::{lists, record_view, record_views, Contents, Record, RecordView};
use crate::wal::reader::{
    log_bytes, loggable, replayed, replayed_size, scan_log, WalReader,
};
use crate::wal::writer::append_extends_log;
use crate::wal::{encode_entry, entry_fault, EntryView, WalOp};
use vstd::prelude::*;

verus! {

/// An engine that is being opened.
pub struct Opening {
    options: LsmOptions,
    levels: Vec<Vec<SstMeta>>,
    active: MemTable,
    max_seq: u64,
}

/// The state of an [`Opening`]: what the manifest says, what the logs replayed so
/// far make of an empty memtable, and the highest sequence number seen.
pub struct OpeningView {
    pub options: LsmOptions,
    pub levels: Seq<Seq<MetaView>>,
    pub active: Contents,
    pub active_size: usize,
    pub max_seq: u64,
}

impl View for Opening {
    type V = OpeningView;

    closed spec fn view(&self) -> OpeningView {
        OpeningView {
            options: self.options,
            levels: level_views(self.levels@),
            active: self.active@,
            active_size: self.active.size(),
            max_seq: self.max_seq,
        }
    }
}

/// The larger of two sequence numbers.
pub open spec fn larger(a: u64, b: u64) -> u64 {
    if a >= b {
        a
    } else {
        b
    }
}

/// The highest sequence number of a level, at least `floor`.
pub open spec fn level_max(metas: Seq<MetaView>, floor: u64) -> u64
    decreases metas.len(),
{
    if metas.len() == 0 {
        floor
    } else {
        larger(level_max(metas.drop_last(), floor), metas.last().seq)
    }
}

/// The highest sequence number of all levels, zero if there are no tables.
pub open spec fn levels_max(levels: Seq<Seq<MetaView>>) -> u64
    decreases levels.len(),
{
    if levels.len() == 0 {
        0
    } else {
        level_max(levels.last(), levels_max(levels.drop_last()))
    }
}

/// The tables of all levels, level by level.
pub open spec fn all_tables(levels: Seq<Seq<MetaView>>) -> Seq<MetaView>
    decreases levels.len(),
{
    if levels.len() == 0 {
        Seq::empty()
    } else {
        all_tables(levels.drop_last()) + levels.last()
    }
}

/// The state at the start of an opening.
pub open spec fn opening_of(levels: Seq<Seq<MetaView>>, options: LsmOptions) -> OpeningView {
    OpeningView {
        options,
        levels,
        active: Contents::empty(),
        active_size: 0,
        max_seq: levels_max(levels),
    }
}

/// The log entries that make a memtable of these records again.
pub open spec fn record_entry(r: RecordView) -> EntryView {
    if r.2 {
        EntryView { op: WalOp::Delete, key: r.0, value: Seq::empty() }
    } else {
        EntryView { op: WalOp::Put, key: r.0, value: r.1 }
    }
}

pub open spec fn record_entries(rs: Seq<RecordView>) -> Seq<EntryView> {
    Seq::new(rs.len(), |i: int| record_entry(rs[i]))
}

/// Why entries cannot be logged, if they cannot: the first of them that cannot
/// says why.
pub open spec fn log_fault(entries: Seq<EntryView>) -> Option<ErrorView>
    decreases entries.len(),
{
    if entries.len() == 0 {
        None
    } else {
        match log_fault(entries.drop_last()) {
            Some(e) => Some(e),
            None => entry_fault(entries.last().op, entries.last().key, entries.last().value),
        }
    }
}

/// Records can be logged again exactly if no key is longer than 65535 bytes and no value
/// longer than 4294967295; a deletion is logged without its value.
pub proof fn records_within_limits_are_logged(rs: Seq<RecordView>)
    ensures
        log_fault(record_entries(rs)) is None <==> forall|i: int|
            0 <= i < rs.len() ==> (#[trigger] rs[i]).0.len() <= 65535 && (!rs[i].2 ==> rs[i].1.len()
                <= 4294967295),
    decreases rs.len(),
{
    if rs.len() > 0 {
        let rest = rs.drop_last();
        let last = rs.len() - 1;
        let entries = record_entries(rs);
        records_within_limits_are_logged(rest);
        assert(entries.drop_last() =~= record_entries(rest));
        assert(entries.last() == record_entry(rs[last]));
        if log_fault(entries) is None {
            assert forall|i: int| 0 <= i < rs.len() implies (#[trigger] rs[i]).0.len() <= 65535
                && (!rs[i].2 ==> rs[i].1.len() <= 4294967295) by {
                if i < last {
                    assert(rest[i] == rs[i]);
                }
            }
        } else if forall|i: int|
            0 <= i < rs.len() ==> (#[trigger] rs[i]).0.len() <= 65535 && (!rs[i].2 ==> rs[i].1.len()
                <= 4294967295) {
            assert forall|i: int| 0 <= i < rest.len() implies (#[trigger] rest[i]).0.len()
                <= 65535 && (!rest[i].2 ==> rest[i].1.len() <= 4294967295) by {
                assert(rs[i] == rest[i]);
            }
            assert(rs[last].0.len() <= 65535);
        }
    }
}

/// The state of the engine that an opening ends in. It takes the next sequence
/// number for its log.
pub open spec fn engine_of(o: OpeningView) -> EngineView {
    EngineView {
        options: o.options,
        active: o.active,
        active_size: o.active_size,
        wal_seq: (o.max_seq + 1) as u64,
        immutables: Seq::empty(),
        levels: o.levels,
        next_seq: if o.max_seq + 1 == u64::MAX {
            0
        } else {
            (o.max_seq + 2) as u64
        },
        manifest_behind: false,
        retired: Seq::empty(),
    }
}

proof fn level_max_is_highest(metas: Seq<MetaView>, floor: u64)
    ensures
        level_max(metas, floor) >= floor,
        forall|j: int|
            0 <= j < metas.len() ==> (#[trigger] metas[j]).seq <= level_max(metas, floor),
        level_max(metas, floor) == floor || exists|j: int|
            0 <= j < metas.len() && (#[trigger] metas[j]).seq == level_max(metas, floor),
    decreases metas.len(),
{
    if metas.len() > 0 {
        let rest = metas.drop_last();
        let last = metas.len() - 1;
        level_max_is_highest(rest, floor);
        assert forall|j: int| 0 <= j < metas.len() implies (#[trigger] metas[j]).seq <= level_max(
            metas,
            floor,
        ) by {
            if j < last {
                assert(rest[j] == metas[j]);
            }
        }
        if level_max(metas, floor) != floor {
            if level_max(metas, floor) == metas.last().seq {
                assert(metas[last].seq == level_max(metas, floor));
            } else {
                let j = choose|j: int|
                    0 <= j < rest.len() && (#[trigger] rest[j]).seq == level_max(rest, floor);
                assert(metas[j] == rest[j]);
            }
        }
    }
}

/// Whether some table has this sequence number.
pub open spec fn seq_in_use(levels: Seq<Seq<MetaView>>, seq: u64) -> bool {
    exists|i: int, j: int|
        0 <= i < levels.len() && 0 <= j < levels[i].len() && (#[trigger] levels[i][j]).seq == seq
}

/// An opening starts from the highest sequence number of the tables: none is above it,
/// and it is that of a table, or zero if there are no tables.
pub proof fn levels_max_is_highest(levels: Seq<Seq<MetaView>>)
    ensures
        forall|i: int, j: int|
            0 <= i < levels.len() && 0 <= j < levels[i].len() ==> (#[trigger] levels[i][j]).seq
                <= levels_max(levels),
        levels_max(levels) == 0 || seq_in_use(levels, levels_max(levels)),
    decreases levels.len(),
{
    if levels.len() > 0 {
        let rest = levels.drop_last();
        let last = levels.len() - 1;
        levels_max_is_highest(rest);
        level_max_is_highest(levels.last(), levels_max(rest));
        assert forall|i: int, j: int|
            0 <= i < levels.len() && 0 <= j < levels[i].len() implies (
        #[trigger] levels[i][j]).seq <= levels_max(levels) by {
            if i < last {
                assert(rest[i][j] == levels[i][j]);
            } else {
                assert(levels.last()[j] == levels[i][j]);
            }
        }
        if levels_max(levels) != 0 {
            if levels_max(levels) == levels_max(rest) {
                let (i, j) = choose|i: int, j: int|
                    0 <= i < rest.len() && 0 <= j < rest[i].len() && (#[trigger] rest[i][j]).seq
                        == levels_max(rest);
                assert(levels[i][j] == rest[i][j]);
            } else {
                let j = choose|j: int|
                    0 <= j < levels.last().len() && (#[trigger] levels.last()[j]).seq == levels_max(
                        levels,
                    );
                assert(levels[last][j].seq == levels_max(levels));
            }
        }
    }
}

/// The tables that are checked at an opening are those of all levels.
pub proof fn all_tables_are_there(levels: Seq<Seq<MetaView>>, m: MetaView)
    ensures
        all_tables(levels).contains(m) <==> exists|i: int, j: int|
            0 <= i < levels.len() && 0 <= j < levels[i].len() && #[trigger] levels[i][j] == m,
    decreases levels.len(),
{
    if levels.len() > 0 {
        let rest = levels.drop_last();
        let n = all_tables(rest).len() as int;
        let all = all_tables(levels);
        all_tables_are_there(rest, m);
        if all.contains(m) {
            let k = choose|k: int| 0 <= k < all.len() && all[k] == m;
            if k < n {
                assert(all_tables(rest)[k] == m);
                let (i, j) = choose|i: int, j: int|
                    0 <= i < rest.len() && 0 <= j < rest[i].len() && #[trigger] rest[i][j] == m;
                assert(levels[i][j] == m);
            } else {
                assert(levels[levels.len() - 1][k - n] == m);
            }
        }
        if exists|i: int, j: int|
            0 <= i < levels.len() && 0 <= j < levels[i].len() && #[trigger] levels[i][j] == m {
            let (i, j) = choose|i: int, j: int|
                0 <= i < levels.len() && 0 <= j < levels[i].len() && #[trigger] levels[i][j] == m;
            if i < levels.len() - 1 {
                assert(rest[i][j] == m);
                let k = choose|k: int| 0 <= k < n && all_tables(rest)[k] == m;
                assert(all[k] == m);
            } else {
                assert(all[n + j] == m);
            }
        }
    }
}

/// The tables that are checked at an opening come level by level, each level in order.
pub proof fn all_tables_in_order(levels: Seq<Seq<MetaView>>)
    ensures
        all_tables(levels) == levels.flatten(),
    decreases levels.len(),
{
    levels.lemma_flatten_and_flatten_alt_are_equivalent();
    if levels.len() > 0 {
        let rest = levels.drop_last();
        all_tables_in_order(rest);
        rest.lemma_flatten_and_flatten_alt_are_equivalent();
    }
}

/// An opened engine holds what was replayed, in an active memtable alone, and the tables
/// of the manifest. Its log has a number above every one seen, and the next number to be
/// handed out is above that, as long as there is one.
pub proof fn opening_starts_anew(o: OpeningView)
    requires
        o.max_seq < u64::MAX,
    ensures
        engine_of(o).options == o.options,
        engine_of(o).active == o.active,
        engine_of(o).active_size == o.active_size,
        engine_of(o).immutables.len() == 0,
        engine_of(o).levels == o.levels,
        engine_of(o).retired.len() == 0,
        !engine_of(o).manifest_behind,
        engine_of(o).wal_seq == o.max_seq + 1,
        o.max_seq + 2 <= u64::MAX ==> engine_of(o).next_seq == o.max_seq + 2,
{
}

/// The log of an opened engine takes the place of none of the logs that were replayed,
/// whose numbers are at most the highest one seen.
pub proof fn new_log_replaces_none(o: OpeningView, seq: u64)
    requires
        o.max_seq < u64::MAX,
        seq <= o.max_seq,
    ensures
        engine_of(o).wal_seq > seq,
        wal_name_text(engine_of(o).wal_seq) != wal_name_text(seq),
{
    wal_name_roundtrip(engine_of(o).wal_seq);
    wal_name_roundtrip(seq);
}

/// An opened engine, and what its new log is to hold. The logs that were
/// replayed go only once that is durable.
pub struct Opened {
    pub engine: LsmEngine,
    pub log: Vec<u8>,
}

fn highest_seq(levels: &Vec<Vec<SstMeta>>) -> (max: u64)
    ensures
        max == levels_max(level_views(levels@)),
{
    let ghost all = level_views(levels@);
    let mut max: u64 = 0;
    let mut i: usize = 0;
    proof {
        assert(all.take(0) =~= Seq::empty());
    }
    while i < levels.len()
        invariant
            i <= levels@.len(),
            all == level_views(levels@),
            max == levels_max(all.take(i as int)),
        decreases levels.len() - i,
    {
        let metas = &levels[i];
        let ghost ms = all[i as int];
        let ghost floor = max;
        let mut j: usize = 0;
        proof {
            assert(ms == meta_views(metas@));
            assert(ms.take(0) =~= Seq::empty());
        }
        while j < metas.len()
            invariant
                j <= metas@.len(),
                ms == meta_views(metas@),
                max == level_max(ms.take(j as int), floor),
            decreases metas.len() - j,
        {
            proof {
                assert(ms.take(j + 1).drop_last() =~= ms.take(j as int));
                assert(ms.take(j + 1).last() == metas@[j as int]@);
            }
            if metas[j].seq > max {
                max = metas[j].seq;
            }
            j = j + 1;
        }
        proof {
            assert(ms.take(j as int) =~= ms);
            assert(all.take(i + 1).drop_last() =~= all.take(i as int));
        }
        i = i + 1;
    }
    proof {
        assert(all.take(i as int) =~= all);
    }
    max
}

/// The text of a manifest entry whose table file is missing.
pub open spec fn missing_table_text(path: Seq<char>) -> Seq<char> {
    "manifest references missing sstable "@ + path
}

/// Rejects a table of the manifest whose file, shown as `path`, is not there.
pub fn check_table(path: &str, exists: bool) -> (r: Result<()>)
    ensures
        match r {
            Ok(()) => exists,
            Err(e) => !exists && e@ == ErrorView::Corruption(missing_table_text(path@)),
        },
{
    if exists {
        Ok(())
    } else {
        let mut s: String = String::from_str("manifest references missing sstable ");
        s.append(path);
        Err(LsmError::Corruption(s))
    }
}

/// The text of a table that cannot be opened for a lookup.
pub open spec fn open_failure_text(path: Seq<char>, detail: Seq<char>) -> Seq<char> {
    "failed to open sstable "@ + path + ": "@ + detail
}

/// The error of a lookup in a table, shown as `path`, that could not be opened.
pub fn open_failure(path: &str, detail: &str) -> (e: LsmError)
    ensures
        e@ == ErrorView::Corruption(open_failure_text(path@, detail@)),
{
    let mut s: String = String::from_str("failed to open sstable ");
    s.append(path);
    s.append(": ");
    s.append(detail);
    LsmError::Corruption(s)
}

impl LsmEngine {
    /// Starts opening an engine with the default options. `manifest_file` is the
    /// manifest's bytes, or `None` in a fresh directory.
    pub fn open(manifest_file: Option<&[u8]>) -> (r: Result<Opening>)
        ensures
            ({
                let options = LsmOptions {
                    flush_threshold_bytes: super::DEFAULT_FLUSH_THRESHOLD_BYTES,
                    sync_per_write: false,
                    compaction_l0_file_threshold: 4,
                };
                match manifest_file {
                    None => r matches Ok(o) && o@ == opening_of(Seq::empty(), options) && o.wf(),
                    Some(bytes) => exists|refused: Set<nat>|
                        match #[trigger] decoded(bytes@, refused) {
                            Ok(levels) => r matches Ok(o) && o@ == opening_of(levels, options)
                                && o.wf(),
                            Err(e) => r matches Err(err) && err@ == e,
                        },
                }
            }),
            r matches Ok(o) ==> o@.options.flush_threshold_bytes == 64 * 1024 * 1024
                && !o@.options.sync_per_write && o@.options.compaction_l0_file_threshold == 4,
    {
        let options: LsmOptions = LsmOptions::default();
        LsmEngine::open_with_options(manifest_file, options)
    }

    /// Starts opening an engine. `manifest_file` is the manifest's bytes, or
    /// `None` in a fresh directory.
    pub fn open_with_options(manifest_file: Option<&[u8]>, options: LsmOptions) -> (r: Result<
        Opening,
    >)
        ensures
            match manifest_file {
                None => r matches Ok(o) && o@ == opening_of(Seq::empty(), options) && o.wf(),
                Some(bytes) => exists|refused: Set<nat>|
                    match #[trigger] decoded(bytes@, refused) {
                        Ok(levels) => r matches Ok(o) && o@ == opening_of(levels, options)
                            && o.wf(),
                        Err(e) => r matches Err(err) && err@ == e,
                    },
            },
            r matches Ok(o) ==> {
                &&& o@.options == options
                &&& o@.active == Contents::empty()
                &&& o@.active_size == 0
                &&& forall|i: int, j: int|
                    0 <= i < o@.levels.len() && 0 <= j < o@.levels[i].len() ==> (
                    #[trigger] o@.levels[i][j]).seq <= o@.max_seq
                &&& o@.max_seq == 0 || seq_in_use(o@.levels, o@.max_seq)
            },
    {
        let manifest: Manifest = match load(manifest_file) {
            Ok(m) => m,
            Err(e) => {
                return Err(e);
            },
        };
        proof {
            if let Some(bytes) = manifest_file {
                let refused = choose|refused: Set<nat>| #[trigger]
                    decoded(bytes@, refused) == Ok::<Seq<Seq<MetaView>>, ErrorView>(manifest@);
                decoded_form(bytes@, refused);
            }
        }
        let max_seq: u64 = highest_seq(&manifest.levels);
        proof {
            levels_max_is_highest(manifest@);
        }
        let levels: Vec<Vec<SstMeta>> = manifest.levels;
        Ok(Opening { options, levels, active: MemTable::new(), max_seq })
    }
}

impl Opening {
    /// The invariant of an opening: the manifest has each table at its own level
    /// and ascending sequence numbers, and can be stored again.
    pub open spec fn wf(&self) -> bool {
        &&& manifest_ordered(self@.levels)
        &&& manifest_fits(self@.levels)
        &&& self@.levels.len() <= 0x1_0000_0000
    }

    /// The tables of the manifest, level by level. Each is to be checked with
    /// [`check_table`].
    pub fn tables(&self) -> (tables: Vec<SstMeta>)
        ensures
            meta_views(tables@) == all_tables(self@.levels),
    {
        let ghost all = level_views(self.levels@);
        let mut out: Vec<SstMeta> = Vec::new();
        let mut i: usize = 0;
        proof {
            assert(all.take(0) =~= Seq::empty());
            assert(meta_views(out@) =~= Seq::empty());
        }
        while i < self.levels.len()
            invariant
                i <= self.levels@.len(),
                all == level_views(self.levels@),
                meta_views(out@) == all_tables(all.take(i as int)),
            decreases self.levels.len() - i,
        {
            super::copy_metas(&mut out, &self.levels[i]);
            proof {
                assert(all.take(i + 1).drop_last() =~= all.take(i as int));
                assert(all[i as int] == meta_views(self.levels@[i as int]@));
            }
            i = i + 1;
        }
        proof {
            assert(all.take(i as int) =~= all);
        }
        out
    }

    /// The highest sequence number seen so far, of a table or a log.
    pub fn max_seq(&self) -> (seq: u64)
        ensures
            seq == self@.max_seq,
    {
        self.max_seq
    }

    /// Replays a log generation, whose file is `path` with these `bytes`, and
    /// says how many entries it had. Generations are to be replayed oldest first,
    /// since a later one overrides an earlier one. A corrupt log is reported and
    /// changes nothing.
    pub fn replay(&mut self, path: &str, seq: u64, bytes: Vec<u8>) -> (r: Result<u64>)
        ensures
            match r {
                Ok(applied) => {
                    &&& scan_log(bytes@) matches Ok(entries)
                    &&& applied == entries.len()
                    &&& final(self)@ == (OpeningView {
                        active: replayed(old(self)@.active, entries),
                        active_size: replayed_size(old(self)@.active_size, entries),
                        max_seq: larger(old(self)@.max_seq, seq),
                        ..old(self)@
                    })
                },
                Err(e) => scan_log(bytes@) == Err::<Seq<EntryView>, ErrorView>(e@) && final(self)@
                    == old(self)@,
            },
            r is Ok ==> {
                &&& final(self)@.max_seq >= seq
                &&& final(self)@.max_seq >= old(self)@.max_seq
                &&& final(self)@.max_seq == seq || final(self)@.max_seq == old(self)@.max_seq
            },
            final(self)@.options == old(self)@.options,
            final(self)@.levels == old(self)@.levels,
    {
        let reader: WalReader = WalReader::open(path, bytes);
        let applied: u64 = match reader.replay_into(&mut self.active) {
            Ok(n) => n,
            Err(e) => {
                return Err(e);
            },
        };
        if seq > self.max_seq {
            self.max_seq = seq;
        }
        Ok(applied)
    }

    /// Ends the opening: the engine, and the log that holds its memtable again.
    /// The engine's log takes the sequence number after the highest one seen,
    /// which must not be the last one there is.
    pub fn finish(self) -> (r: Result<Opened>)
        requires
            self.wf(),
            self@.max_seq < u64::MAX,
        ensures
            exists|rs: Seq<RecordView>| #[trigger]
                lists(rs, self@.active) && match r {
                    Ok(opened) => {
                        &&& log_fault(record_entries(rs)) is None
                        &&& opened.engine@ == engine_of(self@)
                        &&& engine_wf(opened.engine@)
                        &&& opened.log@ == log_bytes(record_entries(rs))
                    },
                    Err(e) => log_fault(record_entries(rs)) == Some(e@),
                },
            r matches Ok(opened) ==> {
                &&& opened.engine@.options == self@.options
                &&& opened.engine@.active == self@.active
                &&& opened.engine@.active_size == self@.active_size
                &&& opened.engine@.wal_seq == self@.max_seq + 1
                &&& opened.engine@.immutables.len() == 0
                &&& opened.engine@.levels == self@.levels
                &&& opened.engine@.next_seq == (self@.max_seq + 2) % (u64::MAX + 1)
                &&& !opened.engine@.manifest_behind
                &&& opened.engine@.retired.len() == 0
            },
    {
        let records: Vec<Record> = self.active.records();
        let ghost rs = record_views(records@);
        assert(lists(rs, self@.active));
        let log: Vec<u8> = match log_records(records.as_slice()) {
            Ok(log) => log,
            Err(e) => {
                return Err(e);
            },
        };
        let wal_seq: u64 = self.max_seq + 1;
        let next_seq: u64 = wal_seq.wrapping_add(1);
        let engine = LsmEngine {
            options: self.options,
            active: self.active,
            wal_seq,
            immutables: Vec::new(),
            levels: self.levels,
            next_seq,
            manifest_behind: false,
            retired: Vec::new(),
        };
        proof {
            assert(engine.retired@ =~= Seq::empty());
            assert(super::imm_views(engine.immutables@) =~= Seq::empty());
            let levels = self@.levels;
            assert forall|i: int| 0 <= i < levels.len() implies seqs_ordered(
                #[trigger] levels[i],
            ) by {
                assert(seqs_ascend(levels[i]));
            }
        }
        Ok(Opened { engine, log })
    }
}

/// The log that makes a memtable of these records again. The error of the first
/// record that cannot be logged comes back if there is one.
pub fn log_records(records: &[Record]) -> (r: Result<Vec<u8>>)
    ensures
        match r {
            Ok(log) => {
                &&& log_fault(record_entries(record_views(records@))) is None
                &&& log@ == log_bytes(record_entries(record_views(records@)))
            },
            Err(e) => log_fault(record_entries(record_views(records@))) == Some(e@),
        },
{
    let ghost all = record_entries(record_views(records@));
    let mut log: Vec<u8> = Vec::new();
    let none: Vec<u8> = Vec::new();
    let mut i: usize = 0;
    proof {
        assert(all.take(0) =~= Seq::empty());
        assert(none@ =~= Seq::empty());
    }
    while i < records.len()
        invariant
            i <= records@.len(),
            none@ == Seq::<u8>::empty(),
            all == record_entries(record_views(records@)),
            log_fault(all.take(i as int)) is None,
            loggable(all.take(i as int)),
            log@ == log_bytes(all.take(i as int)),
        decreases records.len() - i,
    {
        let record = &records[i];
        let ghost e = all[i as int];
        proof {
            assert(e == record_entry(record_view(*record)));
            assert(all.take(i + 1).drop_last() =~= all.take(i as int));
            assert(all.take(i as int).push(e) =~= all.take(i + 1));
        }
        let appended = if record.2 {
            encode_entry(WalOp::Delete, record.0.as_slice(), none.as_slice(), &mut log)
        } else {
            encode_entry(WalOp::Put, record.0.as_slice(), record.1.as_slice(), &mut log)
        };
        match appended {
            Ok(()) => {},
            Err(e) => {
                proof {
                    log_fault_stays(all, i + 1);
                }
                return Err(e);
            },
        }
        proof {
            append_extends_log(all.take(i as int), e);
        }
        i = i + 1;
    }
    proof {
        assert(all.take(i as int) =~= all);
    }
    Ok(log)
}

proof fn log_fault_stays(entries: Seq<EntryView>, n: int)
    requires
        0 <= n <= entries.len(),
        log_fault(entries.take(n)) is Some,
    ensures
        log_fault(entries) == log_fault(entries.take(n)),
    decreases entries.len() - n,
{
    if n == entries.len() {
        assert(entries.take(n) =~= entries);
    } else {
        assert(entries.take(n + 1).drop_last() =~= entries.take(n));
        log_fault_stays(entries, n + 1);
    }
}

} // verus!
