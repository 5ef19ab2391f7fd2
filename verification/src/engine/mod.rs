//! The engine: what is in memory, what is on disk, and how each request moves
//! between the two. An active [`MemTable`] takes the writes, each of which goes
//! to the log first; a memtable that has grown past the threshold is frozen and
//! becomes a table at level 0; compaction merges the tables of levels 0 and 1
//! into one at level 1; a manifest says which tables there are, so that an
//! engine can be opened again.
//!
//! The engine decides and computes; whoever runs it performs the file
//! operations in between and reports back. A write is [`LsmEngine::put`] (what to
//! append to the log), then [`LsmEngine::apply_and_maybe_freeze`]. A freeze is
//! [`LsmEngine::begin_freeze`] (which log to create), then
//! [`LsmEngine::freeze_active`]. A read is [`LsmEngine::get`], then the table
//! lookups that a [`TableSearch`] asks for. A flush is [`LsmEngine::flush`] (which
//! log to sync, and which to create for a freeze), then
//! [`LsmEngine::flush_all_pending`] until it has nothing more to do, with
//! [`LsmEngine::flush_pending`] and [`LsmEngine::commit_flush`] for each table, and
//! [`LsmEngine::manifest_written`] once the manifest is durable. A compaction is
//! [`LsmEngine::compact`] (what to merge),
//! [`merge_runs`](crate::compaction::leveled::merge_runs), then
//! [`LsmEngine::reserve_output`] and [`compaction_table`] on what survived, then
//! [`LsmEngine::commit_compaction`] and again the manifest. Opening is in
//! [`opening`]. What holds across all of these is in [`laws`], across a crash in
//! [`recovery`], and over a whole history in [`history`]; what each step leaves alone is
//! in [`steps`].

use crate::error::{ErrorView, Result};
use crate::manifest::{
    add_keeps_order, encode, encoded, find_place, grow, grown, insert_meta, level_views, listed,
    manifest_fits, manifest_of, meta_fits, meta_views, place_in, place_in_fits, place_is,
    seqs_ordered, sorted_level, sorted_level_ordered, trimmed, Manifest, MetaView, SstMeta,
};
use crate::memtable::{bumped_size, MemTable};
use crate::model::{
    ascending, lists, opt_bytes, record_view, record_views, Cell, Contents, Record, RecordView,
};
use crate::order::{key_order, lex_facts, lex_lt, KeyOrder};
use crate::sstable::bloom::{bloom_hashes, bloom_keys, bloom_words, Bloom, BloomSizing};
use crate::sstable::builder::{add_fault, SsTableBuilder};
use crate::sstable::layout::{bloom_filled, filled_covers, table_image};
use crate::sstable::record::{record_fault, storable};
use crate::sstable::LookupValue;
use crate::utils;
use crate::wal::{encode_entry, entry_fault, frame, WalOp};
use names::{table_name, table_name_text, wal_name, wal_name_text};
use vstd::prelude::*;

pub mod history;
pub mod laws;
pub mod names;
pub mod opening;
pub mod recovery;
pub mod steps;

verus! {

/// The flush threshold of [`LsmOptions::default`]: 64 MiB.
pub const DEFAULT_FLUSH_THRESHOLD_BYTES: usize = 67108864;

/// The engine's settings.
#[derive(Clone, Copy, Debug, PartialEq, Eq, Structural)]
pub struct LsmOptions {
    /// The active memtable is frozen once its approximate size reaches this many
    /// bytes. Zero turns that off.
    pub flush_threshold_bytes: usize,
    /// Whether every write is synced to the log before it is acknowledged. If
    /// not, writes are durable at a flush and when the engine is closed.
    pub sync_per_write: bool,
    /// Compaction is due after a flush once there are this many tables at level
    /// 0. Zero turns that off.
    pub compaction_l0_file_threshold: usize,
}

impl Default for LsmOptions {
    fn default() -> (o: LsmOptions)
        ensures
            o.flush_threshold_bytes == DEFAULT_FLUSH_THRESHOLD_BYTES,
            o.flush_threshold_bytes == 64 * 1024 * 1024,
            !o.sync_per_write,
            o.compaction_l0_file_threshold == 4,
    {
        LsmOptions {
            flush_threshold_bytes: DEFAULT_FLUSH_THRESHOLD_BYTES,
            sync_per_write: false,
            compaction_l0_file_threshold: 4,
        }
    }
}

/// A memtable that no longer takes writes and waits to become a table. Its log
/// generation can go once the table is in the manifest.
pub struct PendingImm {
    mem: MemTable,
    wal_seq: u64,
}

/// A frozen memtable by its content.
pub struct ImmView {
    pub contents: Contents,
    pub wal_seq: u64,
}

impl View for PendingImm {
    type V = ImmView;

    closed spec fn view(&self) -> ImmView {
        ImmView { contents: self.mem@, wal_seq: self.wal_seq }
    }
}

pub open spec fn imm_views(imms: Seq<PendingImm>) -> Seq<ImmView> {
    Seq::new(imms.len(), |i: int| imms[i]@)
}

/// A key-value store: its memtables, the tables it knows of, and the sequence
/// numbers it hands out.
pub struct LsmEngine {
    options: LsmOptions,
    active: MemTable,
    wal_seq: u64,
    immutables: Vec<PendingImm>,
    levels: Vec<Vec<SstMeta>>,
    next_seq: u64,
    manifest_behind: bool,
    retired: Vec<u64>,
}

/// The state of an engine. `immutables` are in the order of their freezing,
/// oldest first; `levels[l]` holds the tables of level `l`, by ascending sequence
/// number. `manifest_behind` says whether the tables have changed since the
/// manifest was last written, and `retired` are the log generations that can go
/// once it is written again.
pub struct EngineView {
    pub options: LsmOptions,
    pub active: Contents,
    pub active_size: usize,
    pub wal_seq: u64,
    pub immutables: Seq<ImmView>,
    pub levels: Seq<Seq<MetaView>>,
    pub next_seq: u64,
    pub manifest_behind: bool,
    pub retired: Seq<u64>,
}

impl View for LsmEngine {
    type V = EngineView;

    closed spec fn view(&self) -> EngineView {
        EngineView {
            options: self.options,
            active: self.active@,
            active_size: self.active.size(),
            wal_seq: self.wal_seq,
            immutables: imm_views(self.immutables@),
            levels: level_views(self.levels@),
            next_seq: self.next_seq,
            manifest_behind: self.manifest_behind,
            retired: self.retired@,
        }
    }
}

/// Whether every level is in the order of its sequence numbers.
pub open spec fn levels_ordered(levels: Seq<Seq<MetaView>>) -> bool {
    forall|i: int| 0 <= i < levels.len() ==> seqs_ordered(#[trigger] levels[i])
}

/// The invariant of an engine: its levels are in order, no more than the
/// manifest can number, and their entries can be stored; and there are logs to
/// remove only as long as the manifest is behind.
pub open spec fn engine_wf(v: EngineView) -> bool {
    &&& levels_ordered(v.levels)
    &&& manifest_fits(v.levels)
    &&& v.levels.len() <= 0x1_0000_0000
    &&& v.retired.len() > 0 ==> v.manifest_behind
}

/// What a reader sees of a key's state.
pub open spec fn cell_value(c: Cell) -> Option<Seq<u8>> {
    if c.1 {
        None
    } else {
        Some(c.0)
    }
}

/// The state of `key` in the newest frozen memtable that has it.
pub open spec fn frozen_cell(imms: Seq<ImmView>, key: Seq<u8>) -> Option<Cell>
    decreases imms.len(),
{
    if imms.len() == 0 {
        None
    } else if imms.last().contents.contains_key(key) {
        Some(imms.last().contents[key])
    } else {
        frozen_cell(imms.drop_last(), key)
    }
}

/// The state of `key` in memory: in the active memtable, else in the newest
/// frozen one that has it.
pub open spec fn memory_cell(v: EngineView, key: Seq<u8>) -> Option<Cell> {
    if v.active.contains_key(key) {
        Some(v.active[key])
    } else {
        frozen_cell(v.immutables, key)
    }
}

/// Whether `key` lies in a table's key range.
pub open spec fn in_range(m: MetaView, key: Seq<u8>) -> bool {
    !lex_lt(key, m.min) && !lex_lt(m.max, key)
}

/// The tables of a level that may hold `key`, newest first.
pub open spec fn level_candidates(metas: Seq<MetaView>, key: Seq<u8>) -> Seq<MetaView>
    decreases metas.len(),
{
    if metas.len() == 0 {
        Seq::empty()
    } else {
        let older = level_candidates(metas.drop_last(), key);
        if in_range(metas.last(), key) {
            seq![metas.last()] + older
        } else {
            older
        }
    }
}

/// The tables that may hold `key`: level by level, newest first within a level.
pub open spec fn candidates(levels: Seq<Seq<MetaView>>, key: Seq<u8>) -> Seq<MetaView>
    decreases levels.len(),
{
    if levels.len() == 0 {
        Seq::empty()
    } else {
        candidates(levels.drop_last(), key) + level_candidates(levels.last(), key)
    }
}

/// A write that is ready for the log.
pub struct LogRecord {
    /// The bytes to append to the log.
    pub frame: Vec<u8>,
    /// Whether the log is to be synced before the write is applied.
    pub sync: bool,
    pub key: Vec<u8>,
    pub value: Vec<u8>,
    pub deleted: bool,
}

/// What memory says of a key: an answer, or the tables to look in.
pub enum Lookup {
    Answer(Option<Vec<u8>>),
    Search(TableSearch),
}

/// A walk through the tables that may hold a key, in the order in which they
/// decide.
pub struct TableSearch {
    tables: Vec<SstMeta>,
    at: usize,
}

impl View for TableSearch {
    type V = Seq<MetaView>;

    /// The tables that are still to be asked.
    closed spec fn view(&self) -> Seq<MetaView> {
        meta_views(self.tables@).skip(self.at as int)
    }
}

impl TableSearch {
    pub closed spec fn wf(&self) -> bool {
        self.at <= self.tables@.len()
    }

    /// The table to ask next; `None` if no table is left, and the key is absent.
    pub fn table(&self) -> (table: Option<&SstMeta>)
        requires
            self.wf(),
        ensures
            match table {
                Some(m) => self@.len() > 0 && m@ == self@[0],
                None => self@.len() == 0,
            },
    {
        if self.at < self.tables.len() {
            Some(&self.tables[self.at])
        } else {
            None
        }
    }

    /// Takes what the table said of the key. A value or a tombstone decides;
    /// otherwise the next table is to be asked.
    pub fn reply(&mut self, found: Option<LookupValue>) -> (answer: Option<Option<Vec<u8>>>)
        requires
            old(self).wf(),
            old(self)@.len() > 0,
        ensures
            final(self).wf(),
            match found {
                Some(LookupValue::Present(v)) => answer == Some(Some(v)),
                Some(LookupValue::Deleted) => answer == Some(None::<Vec<u8>>),
                None => answer is None,
            },
            final(self)@ == old(self)@.skip(1),
    {
        let ghost all = meta_views(self.tables@);
        let ghost at = self.at as int;
        assert(self.at < self.tables.len());
        self.at = self.at + 1;
        proof {
            assert(all.skip(at).skip(1) =~= all.skip(at + 1));
        }
        match found {
            Some(LookupValue::Present(v)) => Some(Some(v)),
            Some(LookupValue::Deleted) => Some(None),
            None => None,
        }
    }
}

/// A table that is ready to be written.
pub struct TableWrite {
    /// What the manifest is to say of the table.
    pub meta: SstMeta,
    /// The table file.
    pub image: Vec<u8>,
}

/// How a flush starts.
pub struct FlushStart {
    /// The log to sync first.
    pub sync_log: u64,
    /// The log to create for the next memtable, if the active one is to be
    /// frozen.
    pub new_log: Option<u64>,
}

/// What a flush does next.
pub enum FlushStep {
    /// Write the oldest frozen memtable as a table: its log generation, and how
    /// many keys it has.
    Table { wal_seq: u64, len: usize },
    /// Replace the manifest by these bytes; once that is durable, tell the engine
    /// with [`LsmEngine::manifest_written`] and remove these logs.
    Commit { manifest: Vec<u8>, logs: Vec<String> },
    /// There is nothing to flush, and the manifest is up to date.
    Nothing,
}

/// Why records cannot become a table, if they cannot: the first of them that
/// cannot be added says why.
pub open spec fn build_fault(rs: Seq<RecordView>) -> Option<ErrorView>
    decreases rs.len(),
{
    if rs.len() == 0 {
        None
    } else {
        match build_fault(rs.drop_last()) {
            Some(e) => Some(e),
            None => add_fault(rs.drop_last(), rs.last().0, rs.last().1),
        }
    }
}

/// What the manifest says of a table of these records.
pub open spec fn table_meta(level: u32, seq: u64, rs: Seq<RecordView>) -> MetaView {
    MetaView {
        level,
        seq,
        name: table_name_text(level, seq),
        min: if rs.len() > 0 {
            rs[0].0
        } else {
            Seq::empty()
        },
        max: if rs.len() > 0 {
            rs.last().0
        } else {
            Seq::empty()
        },
    }
}

/// Whether `image` is a table of these records, with a filter of this size that
/// has just the bits of their keys set, if there are any.
pub open spec fn table_built(rs: Seq<RecordView>, sizing: BloomSizing, image: Seq<u8>) -> bool {
    exists|bloom: Option<Bloom>|
        {
            &&& image == #[trigger] table_image(rs, bloom)
            &&& bloom_filled(bloom, rs)
            &&& bloom is Some <==> rs.len() > 0
            &&& bloom matches Some(b) ==> bloom_words(b).len() == sizing.words() && bloom_hashes(b)
                == sizing.hashes()
        }
}

/// What the manifest says of a table is tight: its first key and its last one.
pub proof fn table_range_is_tight(level: u32, seq: u64, rs: Seq<RecordView>)
    requires
        rs.len() > 0,
    ensures
        table_meta(level, seq, rs).level == level,
        table_meta(level, seq, rs).seq == seq,
        table_meta(level, seq, rs).name == table_name_text(level, seq),
        table_meta(level, seq, rs).min == rs[0].0,
        table_meta(level, seq, rs).max == rs[rs.len() - 1].0,
{
}

/// Every table that has records has a filter, of the size that was asked for, which
/// reports all its keys, deleted ones too.
pub proof fn built_table_has_filter(rs: Seq<RecordView>, sizing: BloomSizing, image: Seq<u8>)
    requires
        table_built(rs, sizing, image),
        rs.len() > 0,
    ensures
        exists|b: Bloom|
            {
                &&& image == #[trigger] table_image(rs, Some(b))
                &&& bloom_words(b).len() == sizing.words()
                &&& bloom_hashes(b) == sizing.hashes()
                &&& forall|i: int|
                    0 <= i < rs.len() ==> bloom_keys(b).contains((#[trigger] rs[i]).0)
            },
{
    let bloom = choose|bloom: Option<Bloom>|
        {
            &&& image == #[trigger] table_image(rs, bloom)
            &&& bloom_filled(bloom, rs)
            &&& bloom is Some <==> rs.len() > 0
            &&& bloom matches Some(b) ==> bloom_words(b).len() == sizing.words() && bloom_hashes(b)
                == sizing.hashes()
        };
    filled_covers(bloom, rs);
    let b = bloom.unwrap();
    assert(image == table_image(rs, Some(b)));
}

/// Makes a table of ascending records at `level` under the sequence number
/// `seq`. `sizing` is the size of its filter. The error of the first record that
/// cannot be added comes back if there is one.
pub fn build_table(level: u32, seq: u64, records: &[Record], sizing: BloomSizing) -> (r: Result<
    TableWrite,
>)
    requires
        sizing.valid(),
    ensures
        match r {
            Ok(w) => {
                &&& build_fault(record_views(records@)) is None
                &&& ascending(record_views(records@))
                &&& storable(record_views(records@))
                &&& w.meta@ == table_meta(level, seq, record_views(records@))
                &&& meta_fits(w.meta@)
                &&& table_built(record_views(records@), sizing, w.image@)
                &&& w.meta.level == level
                &&& w.meta.seq == seq
                &&& w.meta.name@ == table_name_text(level, seq)
                &&& records@.len() > 0 ==> w.meta.min@ == records@[0].0@ && w.meta.max@
                    == records@.last().0@
                &&& records@.len() == 0 ==> w.meta.min@.len() == 0 && w.meta.max@.len() == 0
            },
            Err(e) => build_fault(record_views(records@)) == Some(e@),
        },
        r is Ok <==> (ascending(record_views(records@)) && forall|i: int|
            0 <= i < records@.len() ==> (#[trigger] record_views(records@)[i]).0.len() <= 65535
                && record_views(records@)[i].1.len() <= 4294967295),
{
    let ghost rs = record_views(records@);
    proof {
        sorted_records_within_limits_build(rs);
    }
    let mut builder: SsTableBuilder = SsTableBuilder::with_expected_items(records.len(), sizing);
    let mut i: usize = 0;
    proof {
        assert(rs.take(0) =~= Seq::empty());
    }
    while i < records.len()
        invariant
            i <= records@.len(),
            rs == record_views(records@),
            builder.wf(),
            builder.records() == rs.take(i as int),
            builder.sizing() == if records@.len() > 0 {
                Some(sizing)
            } else {
                None
            },
            build_fault(rs.take(i as int)) is None,
        decreases records.len() - i,
    {
        let record = &records[i];
        proof {
            assert(rs.take(i + 1).drop_last() =~= rs.take(i as int));
            assert(rs.take(i + 1).last() == record_view(*record));
            assert(rs.take(i as int).push(rs[i as int]) =~= rs.take(i + 1));
        }
        match builder.add(record.0.as_slice(), record.1.as_slice(), record.2) {
            Ok(()) => {},
            Err(e) => {
                proof {
                    build_fault_stays(rs, i + 1);
                }
                return Err(e);
            },
        }
        i = i + 1;
    }
    proof {
        assert(rs.take(i as int) =~= rs);
        builder.wf_facts();
    }
    let min: Vec<u8> = match builder.min_key() {
        Some(k) => k,
        None => Vec::new(),
    };
    let max: Vec<u8> = match builder.max_key() {
        Some(k) => k,
        None => Vec::new(),
    };
    let ghost bloom = builder.bloom();
    let image: Vec<u8> = match builder.build() {
        Ok(image) => image,
        Err(e) => {
            return Err(e);
        },
    };
    let meta = SstMeta { level, seq, name: table_name(level, seq), min, max };
    proof {
        assert(image@ == table_image(rs, bloom));
        names::table_name_short(level, seq);
        if rs.len() > 0 {
            assert(record_fault(rs[0].0, rs[0].1) is None);
            assert(record_fault(rs[rs.len() - 1].0, rs[rs.len() - 1].1) is None);
        }
        assert(meta@.min =~= table_meta(level, seq, rs).min);
        assert(meta@.max =~= table_meta(level, seq, rs).max);
    }
    Ok(TableWrite { meta, image })
}

/// Makes the table that a compaction writes, at level 1 under the sequence number
/// `seq`, of what survived the merge. `sizing` is the size of its filter.
pub fn compaction_table(seq: u64, merged: &[Record], sizing: BloomSizing) -> (r: Result<
    TableWrite,
>)
    requires
        sizing.valid(),
    ensures
        match r {
            Ok(w) => {
                &&& build_fault(record_views(merged@)) is None
                &&& w.meta@ == table_meta(1, seq, record_views(merged@))
                &&& meta_fits(w.meta@)
                &&& table_built(record_views(merged@), sizing, w.image@)
            },
            Err(e) => build_fault(record_views(merged@)) == Some(e@),
        },
        r is Ok <==> (ascending(record_views(merged@)) && forall|i: int|
            0 <= i < merged@.len() ==> (#[trigger] record_views(merged@)[i]).0.len() <= 65535
                && record_views(merged@)[i].1.len() <= 4294967295),
{
    build_table(1, seq, merged, sizing)
}

/// Records can become a table exactly if their keys strictly ascend, no key is
/// longer than a two-byte length can say, and no value longer than a four-byte length
/// can say.
pub proof fn sorted_records_within_limits_build(rs: Seq<RecordView>)
    ensures
        build_fault(rs) is None <==> (ascending(rs) && forall|i: int|
            0 <= i < rs.len() ==> (#[trigger] rs[i]).0.len() <= 65535 && rs[i].1.len()
                <= 4294967295),
    decreases rs.len(),
{
    if rs.len() > 0 {
        let rest = rs.drop_last();
        let n = rs.len() - 1;
        sorted_records_within_limits_build(rest);
        lex_facts();
        if build_fault(rs) is None {
            assert forall|i: int, j: int|
                #![trigger rs[i], rs[j]]
                0 <= i < j < rs.len() implies lex_lt(rs[i].0, rs[j].0) by {
                assert(rs[i] == rest[i]);
                assert(rest[n - 1] == rest.last());
                if j < n {
                    assert(rs[j] == rest[j]);
                } else if i < n - 1 {
                    assert(lex_lt(rest[i].0, rest[n - 1].0));
                }
            }
            assert forall|i: int| 0 <= i < rs.len() implies (#[trigger] rs[i]).0.len() <= 65535
                && rs[i].1.len() <= 4294967295 by {
                if i < n {
                    assert(rs[i] == rest[i]);
                }
            }
        }
        if ascending(rs) && forall|i: int|
            0 <= i < rs.len() ==> (#[trigger] rs[i]).0.len() <= 65535 && rs[i].1.len()
                <= 4294967295 {
            assert forall|i: int, j: int|
                #![trigger rest[i], rest[j]]
                0 <= i < j < rest.len() implies lex_lt(rest[i].0, rest[j].0) by {
                assert(rs[i] == rest[i] && rs[j] == rest[j]);
            }
            assert forall|i: int| 0 <= i < rest.len() implies (#[trigger] rest[i]).0.len()
                <= 65535 && rest[i].1.len() <= 4294967295 by {
                assert(rs[i] == rest[i]);
            }
            assert(rs[n] == rs.last());
            if rest.len() > 0 {
                assert(rest.last() == rs[n - 1]);
            }
        }
    }
}

/// The first record that cannot be added says why a table cannot be built, whatever
/// follows it.
pub proof fn first_fault_is_reported(rs: Seq<RecordView>, n: int)
    requires
        0 <= n < rs.len(),
        build_fault(rs.take(n)) is None,
        add_fault(rs.take(n), rs[n].0, rs[n].1) is Some,
    ensures
        build_fault(rs) == add_fault(rs.take(n), rs[n].0, rs[n].1),
{
    assert(rs.take(n + 1).drop_last() =~= rs.take(n));
    build_fault_stays(rs, n + 1);
}

proof fn build_fault_stays(rs: Seq<RecordView>, n: int)
    requires
        0 <= n <= rs.len(),
        build_fault(rs.take(n)) is Some,
    ensures
        build_fault(rs) == build_fault(rs.take(n)),
    decreases rs.len() - n,
{
    if n == rs.len() {
        assert(rs.take(n) =~= rs);
    } else {
        assert(rs.take(n + 1).drop_last() =~= rs.take(n));
        build_fault_stays(rs, n + 1);
    }
}

/// The state after a write: the active memtable has it.
pub open spec fn after_write(
    v: EngineView,
    key: Seq<u8>,
    value: Seq<u8>,
    deleted: bool,
) -> EngineView {
    EngineView {
        active: v.active.insert(
            key,
            if deleted {
                (Seq::<u8>::empty(), true)
            } else {
                (value, false)
            },
        ),
        active_size: bumped_size(
            v.active_size,
            if deleted {
                key.len() as int
            } else {
                (key.len() + value.len()) as int
            },
        ) as usize,
        ..v
    }
}

/// Whether the active memtable is due to be frozen.
pub open spec fn freeze_due(v: EngineView) -> bool {
    v.options.flush_threshold_bytes > 0 && v.active_size >= v.options.flush_threshold_bytes
}

/// The state after a sequence number was handed out.
pub open spec fn after_reserve(v: EngineView) -> EngineView {
    EngineView {
        next_seq: if v.next_seq == u64::MAX {
            0
        } else {
            (v.next_seq + 1) as u64
        },
        ..v
    }
}

/// The state after a freeze: the active memtable is the newest frozen one, and
/// an empty one with the log `new_seq` takes its place.
pub open spec fn after_freeze(v: EngineView, new_seq: u64) -> EngineView {
    EngineView {
        active: Contents::empty(),
        active_size: 0,
        wal_seq: new_seq,
        immutables: v.immutables.push(ImmView { contents: v.active, wal_seq: v.wal_seq }),
        ..v
    }
}

/// The frozen memtables without those of a log generation.
pub open spec fn without_log(imms: Seq<ImmView>, wal_seq: u64) -> Seq<ImmView>
    decreases imms.len(),
{
    if imms.len() == 0 {
        Seq::empty()
    } else {
        let rest = without_log(imms.drop_last(), wal_seq);
        if imms.last().wal_seq != wal_seq {
            rest.push(imms.last())
        } else {
            rest
        }
    }
}

/// The state after a frozen memtable became a table: the table is in its place
/// at level 0, the memtable is gone, and its log can go once the manifest lists
/// the table.
pub open spec fn after_flush(v: EngineView, meta: MetaView, wal_seq: u64) -> EngineView {
    let wide = grown(v.levels, 1);
    EngineView {
        levels: wide.update(0, wide[0].insert(place_in(wide[0], meta.seq), meta)),
        immutables: without_log(v.immutables, wal_seq),
        manifest_behind: true,
        retired: v.retired.push(wal_seq),
        ..v
    }
}

/// The state after a compaction: the tables are the compacted ones, and the
/// manifest does not list them yet.
pub open spec fn after_compaction(v: EngineView, output: Option<MetaView>) -> EngineView {
    EngineView { levels: compacted(v.levels, output), manifest_behind: true, ..v }
}

/// The state after the manifest was written: it lists the tables, and no log is
/// left to be removed.
pub open spec fn after_persist(v: EngineView) -> EngineView {
    EngineView { manifest_behind: false, retired: Seq::empty(), ..v }
}

/// The levels after a compaction: level 0 is empty, and level 1 is the merged
/// table. If nothing survived the merge, level 0 is all there is.
pub open spec fn compacted(levels: Seq<Seq<MetaView>>, output: Option<MetaView>) -> Seq<
    Seq<MetaView>,
> {
    let emptied = grown(levels, 1).update(0, Seq::empty());
    match output {
        Some(m) => grown(emptied, 2).update(1, seq![m]),
        None => emptied.take(1),
    }
}

/// The tables that a compaction merges: all of level 0, then all of level 1.
pub open spec fn merge_inputs(levels: Seq<Seq<MetaView>>) -> Seq<MetaView> {
    if levels.len() > 1 {
        levels[0] + levels[1]
    } else {
        levels[0]
    }
}

impl LsmEngine {
    /// What goes to the log for a put. The errors of the log format come back if
    /// key or value is too large; nothing changes then.
    pub fn put(&self, key: &[u8], value: &[u8]) -> (r: Result<LogRecord>)
        ensures
            match r {
                Ok(rec) => {
                    &&& entry_fault(WalOp::Put, key@, value@) is None
                    &&& rec.frame@ == frame(WalOp::Put, key@, value@)
                    &&& rec.sync == self@.options.sync_per_write
                    &&& rec.key@ == key@
                    &&& rec.value@ == value@
                    &&& !rec.deleted
                },
                Err(e) => entry_fault(WalOp::Put, key@, value@) == Some(e@),
            },
            r is Ok <==> key@.len() <= 65535 && value@.len() <= 4294967295,
    {
        let mut buf: Vec<u8> = Vec::new();
        match encode_entry(WalOp::Put, key, value, &mut buf) {
            Ok(()) => {},
            Err(e) => {
                return Err(e);
            },
        }
        proof {
            assert(buf@ =~= frame(WalOp::Put, key@, value@));
        }
        Ok(
            LogRecord {
                frame: buf,
                sync: self.options.sync_per_write,
                key: utils::copy_bytes(key),
                value: utils::copy_bytes(value),
                deleted: false,
            },
        )
    }

    /// What goes to the log for a deletion.
    pub fn delete(&self, key: &[u8]) -> (r: Result<LogRecord>)
        ensures
            match r {
                Ok(rec) => {
                    &&& entry_fault(WalOp::Delete, key@, Seq::empty()) is None
                    &&& rec.frame@ == frame(WalOp::Delete, key@, Seq::empty())
                    &&& rec.sync == self@.options.sync_per_write
                    &&& rec.key@ == key@
                    &&& rec.value@ == Seq::<u8>::empty()
                    &&& rec.deleted
                },
                Err(e) => entry_fault(WalOp::Delete, key@, Seq::empty()) == Some(e@),
            },
            r is Ok <==> key@.len() <= 65535,
    {
        let none: Vec<u8> = Vec::new();
        let mut buf: Vec<u8> = Vec::new();
        proof {
            assert(none@ =~= Seq::empty());
        }
        match encode_entry(WalOp::Delete, key, none.as_slice(), &mut buf) {
            Ok(()) => {},
            Err(e) => {
                return Err(e);
            },
        }
        proof {
            assert(buf@ =~= frame(WalOp::Delete, key@, Seq::empty()));
        }
        Ok(
            LogRecord {
                frame: buf,
                sync: self.options.sync_per_write,
                key: utils::copy_bytes(key),
                value: none,
                deleted: true,
            },
        )
    }

    /// Applies a logged write to the active memtable, and says whether that is
    /// now due to be frozen.
    pub fn apply_and_maybe_freeze(&mut self, rec: LogRecord) -> (due: bool)
        ensures
            final(self)@ == after_write(old(self)@, rec.key@, rec.value@, rec.deleted),
            due == freeze_due(final(self)@),
            due <==> old(self)@.options.flush_threshold_bytes > 0 && final(self)@.active_size
                >= old(self)@.options.flush_threshold_bytes,
            final(self)@.active_size == (old(self)@.active_size + rec.key@.len() + (
            if rec.deleted {
                0
            } else {
                rec.value@.len() as int
            }) + 64) % (usize::MAX + 1),
            final(self)@.active == old(self)@.active.insert(
                rec.key@,
                if rec.deleted {
                    (Seq::<u8>::empty(), true)
                } else {
                    (rec.value@, false)
                },
            ),
            final(self)@.options == old(self)@.options,
            final(self)@.wal_seq == old(self)@.wal_seq,
            final(self)@.immutables == old(self)@.immutables,
            final(self)@.levels == old(self)@.levels,
            final(self)@.next_seq == old(self)@.next_seq,
            final(self)@.manifest_behind == old(self)@.manifest_behind,
            final(self)@.retired == old(self)@.retired,
    {
        if rec.deleted {
            let _ = self.active.delete(rec.key.as_slice());
        } else {
            let _ = self.active.put(rec.key.as_slice(), rec.value.as_slice());
        }
        self.options.flush_threshold_bytes > 0 && self.active.approximate_size()
            >= self.options.flush_threshold_bytes
    }

    /// Hands out a sequence number.
    pub fn reserve_seq(&mut self) -> (seq: u64)
        ensures
            seq == old(self)@.next_seq,
            final(self)@ == after_reserve(old(self)@),
            final(self)@.next_seq == (seq + 1) % (u64::MAX + 1),
            final(self)@ == (EngineView { next_seq: final(self)@.next_seq, ..old(self)@ }),
    {
        let seq: u64 = self.next_seq;
        self.next_seq = self.next_seq.wrapping_add(1);
        seq
    }

    /// Starts a freeze: the sequence number of the log to create for the next
    /// memtable, or `None` if the active one is empty and there is nothing to
    /// freeze. The memtable itself stays until [`LsmEngine::freeze_active`], so
    /// that a log that cannot be created leaves everything as it was.
    pub fn begin_freeze(&mut self) -> (seq: Option<u64>)
        ensures
            match seq {
                None => old(self)@.active == Contents::empty() && final(self)@ == old(self)@,
                Some(s) => old(self)@.active != Contents::empty() && s == old(self)@.next_seq
                    && final(self)@ == after_reserve(old(self)@),
            },
    {
        if self.active.is_empty() {
            None
        } else {
            Some(self.reserve_seq())
        }
    }

    /// Freezes the active memtable: it waits to be flushed, and an empty one
    /// with the log `new_seq` takes the writes.
    pub fn freeze_active(&mut self, new_seq: u64)
        ensures
            final(self)@ == after_freeze(old(self)@, new_seq),
            final(self)@.options == old(self)@.options,
            final(self)@.active == Contents::empty(),
            final(self)@.active_size == 0,
            final(self)@.wal_seq == new_seq,
            final(self)@.immutables == old(self)@.immutables.push(
                ImmView { contents: old(self)@.active, wal_seq: old(self)@.wal_seq },
            ),
            final(self)@.levels == old(self)@.levels,
            final(self)@.next_seq == old(self)@.next_seq,
            final(self)@.manifest_behind == old(self)@.manifest_behind,
            final(self)@.retired == old(self)@.retired,
    {
        let mut fresh: MemTable = MemTable::new();
        std::mem::swap(&mut self.active, &mut fresh);
        let pending = PendingImm { mem: fresh, wal_seq: self.wal_seq };
        let ghost held = self.immutables@;
        self.immutables.push(pending);
        self.wal_seq = new_seq;
        proof {
            assert(imm_views(self.immutables@) =~= imm_views(held).push(pending@));
        }
    }

    /// Starts a flush, which makes every write so far durable: the log is synced,
    /// and the active memtable is frozen if it is not empty.
    pub fn flush(&mut self) -> (start: FlushStart)
        ensures
            start.sync_log == old(self)@.wal_seq,
            match start.new_log {
                None => old(self)@.active == Contents::empty() && final(self)@ == old(self)@,
                Some(s) => old(self)@.active != Contents::empty() && s == old(self)@.next_seq
                    && final(self)@ == after_reserve(old(self)@),
            },
    {
        let sync_log: u64 = self.wal_seq;
        let new_log: Option<u64> = self.begin_freeze();
        FlushStart { sync_log, new_log }
    }

    /// The sequence number of the log that takes the writes.
    pub fn active_wal(&self) -> (seq: u64)
        ensures
            seq == self@.wal_seq,
    {
        self.wal_seq
    }

    /// What memory says of a key: its value, or `None` if it is deleted, from the
    /// active memtable or the newest frozen one that has it; otherwise the
    /// tables that may hold it.
    pub fn get(&self, key: &[u8]) -> (r: Lookup)
        ensures
            match r {
                Lookup::Answer(a) => memory_cell(self@, key@) matches Some(c) && opt_bytes(a)
                    == cell_value(c),
                Lookup::Search(s) => memory_cell(self@, key@) is None && s.wf() && s@
                    == candidates(self@.levels, key@),
            },
    {
        if let Some(entry) = self.active.get_entry(key) {
            return Lookup::Answer(
                if entry.deleted {
                    None
                } else {
                    Some(entry.value)
                },
            );
        }
        let ghost imms = imm_views(self.immutables@);
        let mut i: usize = self.immutables.len();
        proof {
            assert(imms.take(i as int) =~= imms);
        }
        while i > 0
            invariant
                i <= self.immutables@.len(),
                imms == imm_views(self.immutables@),
                !self@.active.contains_key(key@),
                frozen_cell(imms, key@) == frozen_cell(imms.take(i as int), key@),
            decreases i,
        {
            i = i - 1;
            proof {
                assert(imms.take(i + 1).drop_last() =~= imms.take(i as int));
                assert(imms.take(i + 1).last() == self.immutables@[i as int]@);
            }
            if let Some(entry) = self.immutables[i].mem.get_entry(key) {
                return Lookup::Answer(
                    if entry.deleted {
                        None
                    } else {
                        Some(entry.value)
                    },
                );
            }
        }
        let tables: Vec<SstMeta> = self.candidate_tables(key);
        let search = TableSearch { tables, at: 0 };
        proof {
            assert(search@ =~= meta_views(tables@));
        }
        Lookup::Search(search)
    }

    fn candidate_tables(&self, key: &[u8]) -> (tables: Vec<SstMeta>)
        ensures
            meta_views(tables@) == candidates(self@.levels, key@),
    {
        let ghost levels = self@.levels;
        let mut out: Vec<SstMeta> = Vec::new();
        let mut l: usize = 0;
        proof {
            assert(meta_views(out@) =~= candidates(levels.take(0), key@));
        }
        while l < self.levels.len()
            invariant
                l <= self.levels@.len(),
                levels == level_views(self.levels@),
                meta_views(out@) == candidates(levels.take(l as int), key@),
            decreases self.levels.len() - l,
        {
            let metas = &self.levels[l];
            let ghost ms = levels[l as int];
            let ghost before = meta_views(out@);
            let mut i: usize = metas.len();
            proof {
                assert(ms == meta_views(metas@));
                assert(ms.take(i as int) =~= ms);
            }
            while i > 0
                invariant
                    i <= metas@.len(),
                    ms == meta_views(metas@),
                    meta_views(out@) + level_candidates(ms.take(i as int), key@) == before
                        + level_candidates(ms, key@),
                decreases i,
            {
                i = i - 1;
                let meta = &metas[i];
                let ghost held = out@;
                proof {
                    assert(ms.take(i + 1).drop_last() =~= ms.take(i as int));
                    assert(ms.take(i + 1).last() == meta@);
                }
                let below: bool = match key_order(key, meta.min.as_slice()) {
                    KeyOrder::Less => true,
                    _ => false,
                };
                let above: bool = match key_order(key, meta.max.as_slice()) {
                    KeyOrder::Greater => true,
                    _ => false,
                };
                if !below && !above {
                    let copy: SstMeta = meta.copy();
                    out.push(copy);
                    proof {
                        assert(meta_views(out@) =~= meta_views(held).push(meta@));
                        assert(meta_views(out@) + level_candidates(ms.take(i as int), key@)
                            =~= meta_views(held) + level_candidates(ms.take(i + 1), key@));
                    }
                }
            }
            proof {
                let next = levels.take(l + 1);
                assert(next.drop_last() =~= levels.take(l as int));
                assert(meta_views(out@) + level_candidates(ms.take(0), key@) =~= meta_views(out@));
                assert(meta_views(out@) =~= candidates(next, key@));
            }
            l = l + 1;
        }
        proof {
            assert(levels.take(l as int) =~= levels);
        }
        out
    }
}

/// The names of log generations.
pub open spec fn wal_names(seqs: Seq<u64>) -> Seq<Seq<char>> {
    Seq::new(seqs.len(), |i: int| wal_name_text(seqs[i]))
}

impl LsmEngine {
    /// What a flush does next: the oldest frozen memtable is written if there is
    /// one; else, if the tables have changed since the manifest was written, the
    /// manifest, and then the logs of what was flushed go. So a manifest that could
    /// not be written is written by the next flush.
    ///
    /// A log goes only after the manifest lists the table: until then recovery
    /// replays the log.
    pub fn flush_all_pending(&self) -> (step: FlushStep)
        requires
            engine_wf(self@),
        ensures
            match step {
                FlushStep::Table { wal_seq, len } => {
                    &&& self@.immutables.len() > 0
                    &&& wal_seq == self@.immutables[0].wal_seq
                    &&& len == self@.immutables[0].contents.dom().len()
                },
                FlushStep::Commit { manifest, logs } => {
                    &&& self@.immutables.len() == 0
                    &&& self@.manifest_behind
                    &&& manifest@ == encoded(listed(self@.levels))
                    &&& names::name_views(logs@) == wal_names(self@.retired)
                },
                FlushStep::Nothing => self@.immutables.len() == 0 && !self@.manifest_behind,
            },
    {
        if self.immutables.len() > 0 {
            let pending = &self.immutables[0];
            assert(self@.immutables[0] == pending@);
            return FlushStep::Table { wal_seq: pending.wal_seq, len: pending.mem.len() };
        }
        if !self.manifest_behind {
            return FlushStep::Nothing;
        }
        FlushStep::Commit { manifest: self.manifest_bytes(), logs: self.retired_logs() }
    }

    /// The logs that can go once the manifest is written, oldest first.
    pub fn retired_logs(&self) -> (logs: Vec<String>)
        ensures
            names::name_views(logs@) == wal_names(self@.retired),
            logs@.len() == self@.retired.len(),
            forall|i: int|
                0 <= i < logs@.len() ==> (#[trigger] logs@[i])@ == wal_name_text(
                    self@.retired[i],
                ),
    {
        let mut logs: Vec<String> = Vec::new();
        let mut i: usize = 0;
        while i < self.retired.len()
            invariant
                i <= self.retired@.len(),
                logs@.len() == i,
                forall|j: int|
                    0 <= j < i ==> (#[trigger] logs@[j])@ == wal_name_text(self.retired@[j]),
            decreases self.retired.len() - i,
        {
            logs.push(wal_name(self.retired[i]));
            i = i + 1;
        }
        proof {
            assert(names::name_views(logs@) =~= wal_names(self.retired@));
        }
        logs
    }

    /// Takes note that the manifest of the tables as they are now is durable.
    pub fn manifest_written(&mut self)
        ensures
            final(self)@ == after_persist(old(self)@),
            engine_wf(old(self)@) ==> engine_wf(final(self)@),
            !final(self)@.manifest_behind,
            final(self)@.retired.len() == 0,
            final(self)@ == (EngineView {
                manifest_behind: false,
                retired: final(self)@.retired,
                ..old(self)@
            }),
    {
        self.manifest_behind = false;
        self.retired = Vec::new();
        proof {
            assert(self.retired@ =~= Seq::empty());
        }
    }

    /// The manifest that lists the tables of this engine.
    pub fn manifest(&self) -> (manifest: Manifest)
        requires
            engine_wf(self@),
        ensures
            manifest@ == listed(self@.levels),
            manifest_fits(manifest@),
    {
        proof {
            listed_fits(self@.levels);
        }
        manifest_of(&self.levels)
    }

    /// The stored form of [`LsmEngine::manifest`].
    pub fn manifest_bytes(&self) -> (bytes: Vec<u8>)
        requires
            engine_wf(self@),
        ensures
            bytes@ == encoded(listed(self@.levels)),
    {
        encode(&self.manifest())
    }

    /// The oldest frozen memtable as a table at level 0 under the sequence
    /// number `seq`. `sizing` is the size of its filter.
    pub fn flush_pending(&self, seq: u64, sizing: BloomSizing) -> (r: Result<TableWrite>)
        requires
            self@.immutables.len() > 0,
            sizing.valid(),
        ensures
            exists|rs: Seq<RecordView>| #[trigger]
                lists(rs, self@.immutables[0].contents) && match r {
                    Ok(w) => {
                        &&& build_fault(rs) is None
                        &&& w.meta@ == table_meta(0, seq, rs)
                        &&& meta_fits(w.meta@)
                        &&& table_built(rs, sizing, w.image@)
                    },
                    Err(e) => build_fault(rs) == Some(e@),
                },
    {
        let pending = &self.immutables[0];
        assert(self@.immutables[0] == pending@);
        let records: Vec<Record> = pending.mem.records();
        assert(lists(record_views(records@), self@.immutables[0].contents));
        build_table(0, seq, records.as_slice(), sizing)
    }

    /// Commits a flush: the table joins level 0 at its place, and the frozen
    /// memtable of the log `wal_seq` goes, so that a reader finds its keys in one
    /// or the other at any time. The manifest is behind then, and the log can go
    /// once it is written.
    pub fn commit_flush(&mut self, meta: SstMeta, wal_seq: u64)
        requires
            engine_wf(old(self)@),
            meta_fits(meta@),
        ensures
            final(self)@ == after_flush(old(self)@, meta@, wal_seq),
            engine_wf(final(self)@),
            final(self)@.options == old(self)@.options,
            final(self)@.active == old(self)@.active,
            final(self)@.active_size == old(self)@.active_size,
            final(self)@.wal_seq == old(self)@.wal_seq,
            final(self)@.next_seq == old(self)@.next_seq,
            final(self)@.manifest_behind,
            final(self)@.retired == old(self)@.retired.push(wal_seq),
            final(self)@.levels.len() == if old(self)@.levels.len() > 1 {
                old(self)@.levels.len()
            } else {
                1
            },
            forall|i: int|
                1 <= i < old(self)@.levels.len() ==> #[trigger] final(self)@.levels[i]
                    == old(self)@.levels[i],
    {
        let ghost v = self@;
        let ghost m = meta@;
        let ghost wide = grown(v.levels, 1);
        grow(&mut self.levels, 1);
        assert(level_views(self.levels@) == wide);
        assert(level_views(self.levels@).len() > 0);
        assert(wide[0] == meta_views(self.levels@[0]@));
        let pos: usize = find_place(&self.levels[0], meta.seq);
        proof {
            assert(seqs_ordered(wide[0])) by {
                if v.levels.len() > 0 {
                    assert(seqs_ordered(v.levels[0]));
                }
            }
            place_is(wide[0], m.seq, pos as int);
            add_keeps_order(wide[0], m, pos as int);
        }
        insert_meta(&mut self.levels, 0, pos, meta);
        self.drop_frozen(wal_seq);
        self.manifest_behind = true;
        self.retired.push(wal_seq);
        proof {
            let levels = self@.levels;
            assert(levels == wide.update(0, wide[0].insert(pos as int, m)));
            assert forall|i: int| 0 <= i < levels.len() implies seqs_ordered(
                #[trigger] levels[i],
            ) by {
                if i > 0 {
                    assert(levels[i] == v.levels[i]);
                }
            }
            assert forall|i: int, j: int|
                0 <= i < levels.len() && 0 <= j < levels[i].len() implies meta_fits(
                #[trigger] levels[i][j],
            ) by {
                if i > 0 {
                    assert(levels[i][j] == v.levels[i][j]);
                } else if j < pos {
                    assert(levels[0][j] == v.levels[0][j]);
                } else if j > pos {
                    assert(levels[0][j] == v.levels[0][j - 1]);
                }
            }
        }
    }

    fn drop_frozen(&mut self, wal_seq: u64)
        ensures
            final(self)@ == (EngineView {
                immutables: without_log(old(self)@.immutables, wal_seq),
                ..old(self)@
            }),
    {
        let ghost v = self@;
        let ghost all = v.immutables;
        let mut kept: Vec<PendingImm> = Vec::new();
        let mut rest: Vec<PendingImm> = Vec::new();
        std::mem::swap(&mut self.immutables, &mut rest);
        proof {
            assert(imm_views(rest@) =~= all);
            assert(imm_views(kept@) =~= Seq::empty());
            assert(all.skip(0) =~= all);
            assert(all.take(0) =~= Seq::empty());
        }
        let ghost mut done: int = 0;
        while rest.len() > 0
            invariant
                0 <= done <= all.len(),
                imm_views(rest@) == all.skip(done),
                imm_views(kept@) == without_log(all.take(done), wal_seq),
            decreases rest.len(),
        {
            let ghost left = rest@;
            let ghost held = kept@;
            let pending = rest.remove(0);
            proof {
                assert(imm_views(left).len() == left.len());
                assert(left.len() == all.len() - done);
                assert(pending@ == all.skip(done)[0]);
                assert(imm_views(rest@) =~= all.skip(done).skip(1));
                assert(all.skip(done).skip(1) =~= all.skip(done + 1));
                assert(all.take(done + 1).drop_last() =~= all.take(done));
                assert(all.take(done + 1).last() == pending@);
            }
            if pending.wal_seq != wal_seq {
                kept.push(pending);
                proof {
                    assert(imm_views(kept@) =~= imm_views(held).push(pending@));
                }
            }
            proof {
                done = done + 1;
            }
        }
        proof {
            assert(done == all.len()) by {
                assert(imm_views(rest@).len() == 0);
            }
            assert(all.take(done) =~= all);
        }
        self.immutables = kept;
    }

    /// Whether a compaction is due: there are as many tables at level 0 as the
    /// threshold says, and the threshold is not zero.
    pub fn compact_needed(&self) -> (needed: bool)
        ensures
            needed == (self@.options.compaction_l0_file_threshold > 0 && self@.levels.len() > 0
                && self@.levels[0].len() >= self@.options.compaction_l0_file_threshold),
    {
        if self.options.compaction_l0_file_threshold == 0 || self.levels.len() == 0 {
            return false;
        }
        assert(self@.levels[0].len() == self.levels@[0]@.len());
        self.levels[0].len() >= self.options.compaction_l0_file_threshold
    }

    /// The tables that a compaction merges: all of level 0 and all of level 1.
    /// `None` if level 0 is empty, since a lone table at level 1 is already the
    /// result of a merge.
    pub fn compact(&self) -> (inputs: Option<Vec<SstMeta>>)
        ensures
            match inputs {
                None => self@.levels.len() == 0 || self@.levels[0].len() == 0,
                Some(metas) => {
                    &&& self@.levels.len() > 0
                    &&& self@.levels[0].len() > 0
                    &&& meta_views(metas@) == merge_inputs(self@.levels)
                },
            },
    {
        if self.levels.len() == 0 {
            return None;
        }
        assert(self@.levels[0] == meta_views(self.levels@[0]@));
        if self.levels[0].len() == 0 {
            return None;
        }
        let mut out: Vec<SstMeta> = Vec::new();
        copy_metas(&mut out, &self.levels[0]);
        proof {
            assert(meta_views(out@) =~= self@.levels[0]);
        }
        if self.levels.len() > 1 {
            copy_metas(&mut out, &self.levels[1]);
            assert(self@.levels[1] == meta_views(self.levels@[1]@));
        }
        Some(out)
    }

    /// The sequence number of the table that a compaction writes, given what
    /// survived the merge: `None` if nothing did, and there is no table to write.
    pub fn reserve_output(&mut self, merged: &[Record]) -> (seq: Option<u64>)
        ensures
            match seq {
                None => merged@.len() == 0 && final(self)@ == old(self)@,
                Some(s) => merged@.len() > 0 && s == old(self)@.next_seq && final(self)@
                    == after_reserve(old(self)@),
            },
    {
        if merged.len() == 0 {
            None
        } else {
            Some(self.reserve_seq())
        }
    }

    /// Commits a compaction: the merged table, if anything survived the merge,
    /// takes the place of all tables of levels 0 and 1. The manifest is behind
    /// then.
    pub fn commit_compaction(&mut self, output: Option<SstMeta>)
        requires
            engine_wf(old(self)@),
            output matches Some(m) ==> meta_fits(m@),
        ensures
            final(self)@ == after_compaction(
                old(self)@,
                match output {
                    Some(m) => Some(m@),
                    None => None,
                },
            ),
            engine_wf(final(self)@),
            final(self)@ == (EngineView {
                levels: final(self)@.levels,
                manifest_behind: true,
                ..old(self)@
            }),
            final(self)@.levels.len() > 0,
            final(self)@.levels[0].len() == 0,
            match output {
                Some(m) => {
                    &&& final(self)@.levels.len() > 1
                    &&& final(self)@.levels[1] == seq![m@]
                    &&& forall|i: int|
                        2 <= i < old(self)@.levels.len() ==> #[trigger] final(self)@.levels[i]
                            == old(self)@.levels[i]
                },
                None => final(self)@.levels.len() == 1,
            },
    {
        let ghost v = self@;
        let ghost wide = grown(v.levels, 1);
        grow(&mut self.levels, 1);
        assert(level_views(self.levels@) == wide);
        assert(level_views(self.levels@).len() > 0);
        let none: Vec<SstMeta> = Vec::new();
        assert(meta_views(none@) =~= Seq::empty());
        set_level(&mut self.levels, 0, none);
        let ghost emptied = wide.update(0, Seq::empty());
        assert(level_views(self.levels@) =~= emptied);
        match output {
            Some(meta) => {
                let ghost m = meta@;
                grow(&mut self.levels, 2);
                assert(level_views(self.levels@).len() > 1);
                let mut one: Vec<SstMeta> = Vec::new();
                one.push(meta);
                assert(meta_views(one@) =~= seq![m]);
                set_level(&mut self.levels, 1, one);
            },
            None => {
                let ghost before = self.levels@;
                self.levels.truncate(1);
                assert(level_views(self.levels@) =~= level_views(before).take(1));
            },
        }
        self.manifest_behind = true;
        proof {
            let levels = self@.levels;
            assert forall|i: int| 0 <= i < levels.len() implies seqs_ordered(
                #[trigger] levels[i],
            ) by {
                if i > 1 {
                    assert(levels[i] == v.levels[i]);
                }
            }
            assert forall|i: int, j: int|
                0 <= i < levels.len() && 0 <= j < levels[i].len() implies meta_fits(
                #[trigger] levels[i][j],
            ) by {
                if i > 1 {
                    assert(levels[i][j] == v.levels[i][j]);
                }
            }
        }
    }
}

fn copy_metas(out: &mut Vec<SstMeta>, metas: &Vec<SstMeta>)
    ensures
        meta_views(final(out)@) == meta_views(old(out)@) + meta_views(metas@),
{
    let ghost before = meta_views(out@);
    let ghost ms = meta_views(metas@);
    let mut i: usize = 0;
    proof {
        assert(before + ms.take(0) =~= before);
    }
    while i < metas.len()
        invariant
            i <= metas@.len(),
            ms == meta_views(metas@),
            meta_views(out@) == before + ms.take(i as int),
        decreases metas.len() - i,
    {
        let ghost held = out@;
        let copy: SstMeta = metas[i].copy();
        out.push(copy);
        proof {
            assert(meta_views(out@) =~= meta_views(held).push(metas@[i as int]@));
            assert(before + ms.take(i + 1) =~= (before + ms.take(i as int)).push(ms[i as int]));
        }
        i = i + 1;
    }
    proof {
        assert(ms.take(i as int) =~= ms);
    }
}

fn set_level(levels: &mut Vec<Vec<SstMeta>>, level: usize, metas: Vec<SstMeta>)
    requires
        level < old(levels)@.len(),
    ensures
        level_views(final(levels)@) == level_views(old(levels)@).update(
            level as int,
            meta_views(metas@),
        ),
{
    let ghost before = levels@;
    levels.set(level, metas);
    proof {
        assert(level_views(levels@) =~= level_views(before).update(
            level as int,
            meta_views(metas@),
        ));
    }
}

/// A manifest that lists tables whose entries can be stored can be stored.
pub proof fn listed_fits(levels: Seq<Seq<MetaView>>)
    requires
        manifest_fits(levels),
    ensures
        manifest_fits(listed(levels)),
{
    let sorted = Seq::new(levels.len(), |i: int| sorted_level(levels[i], i as u32));
    assert forall|i: int, j: int|
        0 <= i < sorted.len() && 0 <= j < sorted[i].len() implies meta_fits(
        #[trigger] sorted[i][j],
    ) by {
        assert forall|k: int| 0 <= k < levels[i].len() implies meta_fits(
            #[trigger] levels[i][k],
        ) by {}
        sorted_level_fits(levels[i], i as u32);
    }
    trimmed_fits(sorted);
}

proof fn sorted_level_fits(metas: Seq<MetaView>, level: u32)
    requires
        forall|i: int| 0 <= i < metas.len() ==> meta_fits(#[trigger] metas[i]),
    ensures
        forall|i: int|
            0 <= i < sorted_level(metas, level).len() ==> meta_fits(
                #[trigger] sorted_level(metas, level)[i],
            ),
    decreases metas.len(),
{
    if metas.len() > 0 {
        let rest = metas.drop_last();
        assert forall|i: int| 0 <= i < rest.len() implies meta_fits(#[trigger] rest[i]) by {
            assert(rest[i] == metas[i]);
        }
        sorted_level_fits(rest, level);
        sorted_level_ordered(rest, level);
        let before = sorted_level(rest, level);
        let m = MetaView { level, ..metas.last() };
        let pos = place_in(before, m.seq);
        place_in_fits(before, m.seq);
        assert(meta_fits(metas[metas.len() - 1]));
        let after = sorted_level(metas, level);
        assert forall|i: int| 0 <= i < after.len() implies meta_fits(#[trigger] after[i]) by {
            if i < pos {
                assert(after[i] == before[i]);
            } else if i > pos {
                assert(after[i] == before[i - 1]);
            }
        }
    }
}

proof fn trimmed_fits(levels: Seq<Seq<MetaView>>)
    requires
        manifest_fits(levels),
    ensures
        manifest_fits(trimmed(levels)),
    decreases levels.len(),
{
    if levels.len() > 0 && levels.last().len() == 0 {
        let rest = levels.drop_last();
        assert forall|i: int, j: int|
            0 <= i < rest.len() && 0 <= j < rest[i].len() implies meta_fits(
            #[trigger] rest[i][j],
        ) by {
            assert(rest[i][j] == levels[i][j]);
        }
        trimmed_fits(rest);
    }
}

} // verus!
