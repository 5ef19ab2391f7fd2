//! The engine, end to end, over files that are kept in memory.

use std::cell::{Cell, RefCell};
use std::collections::BTreeMap;
use std::rc::Rc;

use lsm_engine::compaction::leveled::{merge_runs, Run};
use lsm_engine::engine::names::{parse_wal_name, table_name, wal_generations, wal_name};
use lsm_engine::engine::opening::{check_table, open_failure};
use lsm_engine::engine::{
    build_table, compaction_table, FlushStep, Lookup, LsmEngine as Core, LsmOptions, TableWrite,
    DEFAULT_FLUSH_THRESHOLD_BYTES,
};
use lsm_engine::error::{LsmError, Result};
use lsm_engine::manifest::{load, Manifest, SstMeta, MANIFEST_FILE_NAME};
use lsm_engine::sstable::bloom::{BloomSizing, BLOOM_SEED};
use lsm_engine::sstable::reader::SsTableReader;
use lsm_engine::sstable::LookupValue;

const LARGE_THRESHOLD: usize = usize::MAX; // effectively disable auto-freeze

/// A directory whose files are kept in memory.
#[derive(Clone, Default)]
struct Dir {
    files: Rc<RefCell<BTreeMap<String, Vec<u8>>>>,
}

impl Dir {
    fn read(&self, name: &str) -> Option<Vec<u8>> {
        self.files.borrow().get(name).cloned()
    }

    fn write(&self, name: &str, bytes: &[u8]) {
        self.files.borrow_mut().insert(name.to_string(), bytes.to_vec());
    }

    fn append(&self, name: &str, bytes: &[u8]) {
        let mut files = self.files.borrow_mut();
        files.get_mut(name).expect("file exists").extend_from_slice(bytes);
    }

    fn remove(&self, name: &str) {
        self.files.borrow_mut().remove(name);
    }

    fn has(&self, name: &str) -> bool {
        self.files.borrow().contains_key(name)
    }

    fn names(&self) -> Vec<String> {
        self.files.borrow().keys().cloned().collect()
    }
}

fn tempdir() -> Dir {
    Dir::default()
}

/// The size of a filter for so many keys.
fn sizing(expected_items: usize) -> BloomSizing {
    let filter = fastbloom::BloomFilter::with_false_pos(0.01)
        .seed(&BLOOM_SEED)
        .expected_items(expected_items);
    BloomSizing::new(filter.num_bits() / 64, filter.num_hashes()).expect("a size in range")
}

/// An engine that runs over a [`Dir`]. What a background worker would do after a
/// freeze is done at once, unless the worker is switched off.
struct LsmEngine {
    dir: Dir,
    core: RefCell<Core>,
    worker: Cell<bool>,
    manifest_fails: Cell<bool>,
    syncs: Cell<usize>,
}

impl LsmEngine {
    fn open(dir: &Dir) -> Result<LsmEngine> {
        LsmEngine::open_with_options(dir, LsmOptions::default())
    }

    fn open_with_options(dir: &Dir, options: LsmOptions) -> Result<LsmEngine> {
        let manifest = dir.read(MANIFEST_FILE_NAME);
        let mut opening = Core::open_with_options(manifest.as_deref(), options)?;
        for table in opening.tables() {
            check_table(&table.name, dir.has(&table.name))?;
        }
        let names = dir.names();
        let generations = wal_generations(&names);
        for (seq, at) in &generations {
            let name = &names[*at];
            opening.replay(name, *seq, dir.read(name).expect("log exists"))?;
        }
        let opened = opening.finish()?;
        dir.write(&wal_name(opened.engine.active_wal()), &opened.log);
        for (_, at) in &generations {
            dir.remove(&names[*at]);
        }
        Ok(LsmEngine {
            dir: dir.clone(),
            core: RefCell::new(opened.engine),
            worker: Cell::new(true),
            manifest_fails: Cell::new(false),
            syncs: Cell::new(0),
        })
    }

    fn put(&self, key: &[u8], value: &[u8]) -> Result<()> {
        let rec = self.core.borrow().put(key, value)?;
        self.write(rec)
    }

    fn delete(&self, key: &[u8]) -> Result<()> {
        let rec = self.core.borrow().delete(key)?;
        self.write(rec)
    }

    fn write(&self, rec: lsm_engine::engine::LogRecord) -> Result<()> {
        let log = wal_name(self.core.borrow().active_wal());
        self.dir.append(&log, &rec.frame);
        if rec.sync {
            self.syncs.set(self.syncs.get() + 1);
        }
        let due = self.core.borrow_mut().apply_and_maybe_freeze(rec);
        if due {
            let seq = self.core.borrow_mut().begin_freeze();
            self.freeze(seq);
            if self.worker.get() {
                self.flush_all_pending()?;
                if self.core.borrow().compact_needed() {
                    self.compact()?;
                }
            }
        }
        Ok(())
    }

    fn freeze(&self, new_log: Option<u64>) {
        if let Some(seq) = new_log {
            self.dir.write(&wal_name(seq), &[]);
            self.core.borrow_mut().freeze_active(seq);
        }
    }

    fn get(&self, key: &[u8]) -> Result<Option<Vec<u8>>> {
        let mut search = match self.core.borrow().get(key) {
            Lookup::Answer(answer) => return Ok(answer),
            Lookup::Search(search) => search,
        };
        while let Some(table) = search.table() {
            let (reader, file) = self.open_table(table)?;
            let found = reader.get(&file, key)?;
            if let Some(answer) = search.reply(found) {
                return Ok(answer);
            }
        }
        Ok(None)
    }

    fn open_table(&self, table: &SstMeta) -> Result<(SsTableReader, Vec<u8>)> {
        let file = self.dir.read(&table.name).expect("table exists");
        match SsTableReader::open(&table.name, &file) {
            Ok(reader) => Ok((reader, file)),
            Err(e) => Err(open_failure(&table.name, &e.to_string())),
        }
    }

    fn flush(&self) -> Result<()> {
        let start = self.core.borrow_mut().flush();
        assert!(self.dir.has(&wal_name(start.sync_log)));
        self.freeze(start.new_log);
        self.flush_all_pending()
    }

    fn flush_all_pending(&self) -> Result<()> {
        loop {
            let step = self.core.borrow().flush_all_pending();
            match step {
                FlushStep::Table { wal_seq, len } => {
                    let table = self.write_pending(len)?;
                    self.core.borrow_mut().commit_flush(table.meta, wal_seq);
                }
                FlushStep::Commit { manifest, logs } => {
                    return self.replace_manifest(&manifest, &logs);
                }
                FlushStep::Nothing => return Ok(()),
            }
        }
    }

    fn replace_manifest(&self, manifest: &[u8], logs: &[String]) -> Result<()> {
        if self.manifest_fails.get() {
            return Err(std::io::Error::other("no space left").into());
        }
        self.dir.write(MANIFEST_FILE_NAME, manifest);
        self.core.borrow_mut().manifest_written();
        for log in logs {
            self.dir.remove(log);
        }
        Ok(())
    }

    fn write_pending(&self, len: usize) -> Result<TableWrite> {
        let seq = self.core.borrow_mut().reserve_seq();
        let table = self.core.borrow().flush_pending(seq, sizing(len))?;
        self.dir.write(&table.meta.name, &table.image);
        Ok(table)
    }

    fn compact(&self) -> Result<()> {
        let Some(inputs) = self.core.borrow().compact() else {
            return Ok(());
        };
        let mut runs = Vec::new();
        for table in &inputs {
            let (reader, file) = self.open_table(table)?;
            runs.push(Run {
                seq: table.seq,
                records: reader.records(&file)?,
            });
        }
        let merged = merge_runs(&runs)?;
        let mut output = None;
        let output_seq = self.core.borrow_mut().reserve_output(&merged);
        if let Some(seq) = output_seq {
            let table = compaction_table(seq, &merged, sizing(merged.len()))?;
            self.dir.write(&table.meta.name, &table.image);
            output = Some(table.meta);
        }
        self.core.borrow_mut().commit_compaction(output);
        let manifest = self.core.borrow().manifest_bytes();
        let logs = self.core.borrow().retired_logs();
        self.replace_manifest(&manifest, &logs)?;
        for table in &inputs {
            self.dir.remove(&table.name);
        }
        Ok(())
    }
}

fn load_manifest(dir: &Dir) -> Manifest {
    load(dir.read(MANIFEST_FILE_NAME).as_deref()).expect("load manifest")
}

fn open_dir(dir: &Dir) -> LsmEngine {
    LsmEngine::open(dir).expect("open engine")
}

fn open_dir_opts(dir: &Dir, options: LsmOptions) -> LsmEngine {
    LsmEngine::open_with_options(dir, options).expect("open engine")
}

fn count_files(dir: &Dir, prefix: &str) -> usize {
    dir.names().iter().filter(|n| n.starts_with(prefix)).count()
}

fn sst_count(dir: &Dir) -> usize {
    count_files(dir, "L0_")
}

fn l1_filename(dir: &Dir) -> Option<String> {
    dir.names().into_iter().find(|n| n.starts_with("L1_"))
}

#[test]
fn put_get_delete_end_to_end() {
    let dir = tempdir();
    let engine = open_dir_opts(
        &dir,
        LsmOptions {
            flush_threshold_bytes: LARGE_THRESHOLD,
            ..Default::default()
        },
    );
    engine.put(b"a", b"v1").unwrap();
    assert_eq!(engine.get(b"a").unwrap(), Some(b"v1".to_vec()));

    engine.put(b"b", b"first").unwrap();
    engine.put(b"b", b"second").unwrap();
    assert_eq!(engine.get(b"b").unwrap(), Some(b"second".to_vec()));

    engine.delete(b"a").unwrap();
    assert_eq!(engine.get(b"a").unwrap(), None);
    assert_eq!(engine.get(b"missing").unwrap(), None);
}

#[test]
fn tombstone_shadows_flushed_data() {
    let dir = tempdir();
    let engine = open_dir_opts(
        &dir,
        LsmOptions {
            flush_threshold_bytes: LARGE_THRESHOLD,
            ..Default::default()
        },
    );
    engine.put(b"k", b"v").unwrap();
    engine.flush().unwrap(); // k now in an L0 SSTable
    assert_eq!(engine.get(b"k").unwrap(), Some(b"v".to_vec()));

    engine.delete(b"k").unwrap(); // tombstone in the active memtable
    assert_eq!(
        engine.get(b"k").unwrap(),
        None,
        "memtable tombstone must beat SST"
    );

    engine.flush().unwrap(); // tombstone now also on disk
    assert_eq!(engine.get(b"k").unwrap(), None, "must not resurrect");
}

#[test]
fn flush_creates_sst_and_manifest() {
    let dir = tempdir();
    let engine = open_dir_opts(
        &dir,
        LsmOptions {
            flush_threshold_bytes: LARGE_THRESHOLD,
            ..Default::default()
        },
    );
    engine.put(b"apple", b"red").unwrap();
    engine.put(b"cherry", b"dark red").unwrap();
    engine.flush().unwrap();

    assert_eq!(sst_count(&dir), 1);
    let manifest = load_manifest(&dir);
    assert_eq!(manifest.ssts_at(0).len(), 1);
    let meta = &manifest.ssts_at(0)[0];
    assert_eq!(meta.min, b"apple");
    assert_eq!(meta.max, b"cherry");
}

#[test]
fn get_across_levels_newest_wins() {
    let dir = tempdir();
    let engine = open_dir_opts(
        &dir,
        LsmOptions {
            flush_threshold_bytes: LARGE_THRESHOLD,
            ..Default::default()
        },
    );
    engine.put(b"k", b"v1").unwrap();
    engine.flush().unwrap();
    engine.put(b"k", b"v2").unwrap();
    engine.flush().unwrap();
    assert_eq!(sst_count(&dir), 2);
    assert_eq!(engine.get(b"k").unwrap(), Some(b"v2".to_vec()));
}

#[test]
fn recovery_from_wal_after_clean_drop() {
    let dir = tempdir();
    {
        let engine = open_dir_opts(
            &dir,
            LsmOptions {
                flush_threshold_bytes: LARGE_THRESHOLD,
                ..Default::default()
            },
        );
        engine.put(b"a", b"1").unwrap();
        engine.put(b"b", b"2").unwrap();
        engine.put(b"c", b"3").unwrap();
    } // drop: inner Drop fsyncs the active WAL
    let engine = open_dir_opts(
        &dir,
        LsmOptions {
            flush_threshold_bytes: LARGE_THRESHOLD,
            ..Default::default()
        },
    );
    assert_eq!(engine.get(b"a").unwrap(), Some(b"1".to_vec()));
    assert_eq!(engine.get(b"b").unwrap(), Some(b"2".to_vec()));
    assert_eq!(engine.get(b"c").unwrap(), Some(b"3".to_vec()));
}

#[test]
fn recovery_from_sst_after_flush() {
    let dir = tempdir();
    {
        let engine = open_dir_opts(
            &dir,
            LsmOptions {
                flush_threshold_bytes: LARGE_THRESHOLD,
                ..Default::default()
            },
        );
        engine.put(b"a", b"v").unwrap();
        engine.flush().unwrap();
        engine.put(b"b", b"w").unwrap(); // stays in WAL
    }
    let engine = open_dir_opts(
        &dir,
        LsmOptions {
            flush_threshold_bytes: LARGE_THRESHOLD,
            ..Default::default()
        },
    );
    assert_eq!(engine.get(b"a").unwrap(), Some(b"v".to_vec())); // from SST
    assert_eq!(engine.get(b"b").unwrap(), Some(b"w".to_vec())); // from WAL replay
    assert_eq!(engine.get(b"zzz").unwrap(), None);
}

#[test]
fn recovery_tombstone_persisted() {
    let dir = tempdir();
    {
        let engine = open_dir_opts(
            &dir,
            LsmOptions {
                flush_threshold_bytes: LARGE_THRESHOLD,
                ..Default::default()
            },
        );
        engine.put(b"k", b"v").unwrap();
        engine.delete(b"k").unwrap();
        engine.flush().unwrap();
    }
    let engine = open_dir_opts(
        &dir,
        LsmOptions {
            flush_threshold_bytes: LARGE_THRESHOLD,
            ..Default::default()
        },
    );
    assert_eq!(engine.get(b"k").unwrap(), None);
}

#[test]
fn open_fresh_dir_is_empty() {
    let dir = tempdir();
    let engine = open_dir(&dir);
    assert_eq!(engine.get(b"anything").unwrap(), None);
    engine.put(b"x", b"y").unwrap();
    assert_eq!(engine.get(b"x").unwrap(), Some(b"y".to_vec()));
}

#[test]
fn flush_empty_engine_is_noop() {
    let dir = tempdir();
    let engine = open_dir(&dir);
    engine.flush().unwrap();
    assert_eq!(sst_count(&dir), 0);
    assert_eq!(engine.get(b"k").unwrap(), None);
}

#[test]
fn sync_per_write_recovers_without_flush() {
    let dir = tempdir();
    {
        let engine = open_dir_opts(
            &dir,
            LsmOptions {
                flush_threshold_bytes: LARGE_THRESHOLD,
                sync_per_write: true,
                ..Default::default()
            },
        );
        engine.put(b"a", b"1").unwrap();
        engine.put(b"b", b"2").unwrap();
    }
    let engine = open_dir_opts(
        &dir,
        LsmOptions {
            flush_threshold_bytes: LARGE_THRESHOLD,
            ..Default::default()
        },
    );
    assert_eq!(engine.get(b"a").unwrap(), Some(b"1".to_vec()));
    assert_eq!(engine.get(b"b").unwrap(), Some(b"2".to_vec()));
}

#[test]
fn manifest_missing_sst_file_errors() {
    let dir = tempdir();
    {
        let engine = open_dir_opts(
            &dir,
            LsmOptions {
                flush_threshold_bytes: LARGE_THRESHOLD,
                ..Default::default()
            },
        );
        engine.put(b"k", b"v").unwrap();
        engine.flush().unwrap();
    }
    // Delete the SSTable but keep MANIFEST.
    let manifest = load_manifest(&dir);
    let name = manifest.ssts_at(0)[0].name.clone();
    dir.remove(&name);
    let err = match LsmEngine::open(&dir) {
        Ok(_) => panic!("missing sst must fail open"),
        Err(e) => e,
    };
    assert!(matches!(err, LsmError::Corruption(_)));
}

#[test]
fn empty_key_value_valid() {
    let dir = tempdir();
    let engine = open_dir_opts(
        &dir,
        LsmOptions {
            flush_threshold_bytes: LARGE_THRESHOLD,
            ..Default::default()
        },
    );
    engine.put(b"", b"").unwrap();
    assert_eq!(engine.get(b"").unwrap(), Some(b"".to_vec()));
    engine.flush().unwrap();
    assert_eq!(engine.get(b"").unwrap(), Some(b"".to_vec()));
}

#[test]
fn recovery_multiple_wal_generations_applied_in_order() {
    let dir = tempdir();
    {
        // Small threshold forces several freeze/wal-rotation cycles without
        // relying on the background worker (we drop quickly), simulating a
        // crash with multiple unwritten generations.
        let engine = open_dir_opts(
            &dir,
            LsmOptions {
                flush_threshold_bytes: 32,
                ..Default::default()
            },
        );
        engine.worker.set(false);
        engine.put(b"k", b"v1").unwrap();
        for i in 0..10u32 {
            let key = format!("a{i:03}");
            engine.put(key.as_bytes(), b"x").unwrap();
        }
        engine.put(b"k", b"v2").unwrap(); // overwrite across a generation boundary
        for i in 0..10u32 {
            let key = format!("b{i:03}");
            engine.put(key.as_bytes(), b"y").unwrap();
        }
    }
    let engine = open_dir_opts(
        &dir,
        LsmOptions {
            flush_threshold_bytes: LARGE_THRESHOLD,
            ..Default::default()
        },
    );
    assert_eq!(
        engine.get(b"k").unwrap(),
        Some(b"v2".to_vec()),
        "latest value across generations must win"
    );
    for i in 0..10u32 {
        let key = format!("a{i:03}");
        assert_eq!(engine.get(key.as_bytes()).unwrap(), Some(b"x".to_vec()));
        let key = format!("b{i:03}");
        assert_eq!(engine.get(key.as_bytes()).unwrap(), Some(b"y".to_vec()));
    }
}

#[test]
fn flush_is_idempotent() {
    let dir = tempdir();
    let engine = open_dir_opts(
        &dir,
        LsmOptions {
            flush_threshold_bytes: LARGE_THRESHOLD,
            ..Default::default()
        },
    );
    engine.put(b"k", b"v").unwrap();
    engine.flush().unwrap();
    let count = sst_count(&dir);
    engine.flush().unwrap();
    assert_eq!(sst_count(&dir), count, "second flush must not add files");
}

#[test]
fn auto_flush_produces_sst_without_explicit_flush() {
    // A small threshold + background worker must flush to disk on its own.
    // Auto-compaction is disabled so this test asserts the flush path only.
    let dir = tempdir();
    let engine = open_dir_opts(
        &dir,
        LsmOptions {
            flush_threshold_bytes: 128,
            compaction_l0_file_threshold: 0,
            ..Default::default()
        },
    );
    for i in 0..200u32 {
        let key = format!("key{i:05}");
        engine.put(key.as_bytes(), b"value-data").unwrap();
    }

    let seen = sst_count(&dir);
    assert!(seen >= 1, "background worker must flush to L0");

    // Every key must still be readable (from memtable, immutable, or SST).
    for i in 0..200u32 {
        let key = format!("key{i:05}");
        assert_eq!(
            engine.get(key.as_bytes()).unwrap(),
            Some(b"value-data".to_vec())
        );
    }

    // A final explicit flush must converge the WAL count to exactly one
    // (the active generation); all flushed generations' WALs are deleted.
    engine.flush().unwrap();
    let wals = count_files(&dir, "wal_");
    assert_eq!(wals, 1, "only the active WAL may remain after a flush");
}

#[test]
fn worker_drops_when_engine_dropped() {
    // Dropping the engine must let the worker exit (no leaked thread); the
    // strongest signal we can assert cheaply is that drop + reopen of many
    // engines in a loop neither hangs nor panics.
    for _ in 0..20 {
        let dir = tempdir();
        let engine = open_dir_opts(
            &dir,
            LsmOptions {
                flush_threshold_bytes: 64,
                ..Default::default()
            },
        );
        for i in 0..50u32 {
            let key = format!("k{i}");
            engine.put(key.as_bytes(), b"v").unwrap();
        }
        engine.flush().unwrap();
    }
}

#[test]
fn manifest_corrupt_on_existing_data_fails_open() {
    let dir = tempdir();
    {
        let engine = open_dir_opts(
            &dir,
            LsmOptions {
                flush_threshold_bytes: LARGE_THRESHOLD,
                ..Default::default()
            },
        );
        engine.put(b"a", b"1").unwrap();
        engine.flush().unwrap(); // MANIFEST now references an SST
        engine.put(b"b", b"2").unwrap(); // survives only in the WAL
    }
    // Corrupt the MANIFEST in place; a perfectly replayable WAL must not
    // mask the corruption (recovery must fail fast, not silently go empty).
    dir.write("MANIFEST", b"garbage not a manifest");
    let err = match LsmEngine::open(&dir) {
        Ok(_) => panic!("open must fail-fast on a corrupt MANIFEST"),
        Err(e) => e,
    };
    assert!(matches!(err, LsmError::Corruption(_)));
}

#[test]
fn orphan_sst_not_in_manifest_is_ignored() {
    let dir = tempdir();
    {
        let engine = open_dir_opts(
            &dir,
            LsmOptions {
                flush_threshold_bytes: LARGE_THRESHOLD,
                ..Default::default()
            },
        );
        engine.put(b"k", b"v").unwrap();
        engine.flush().unwrap(); // k is now in an SST referenced by MANIFEST
    }
    // Hand-craft an SST the engine never wrote. Its bytes are deliberately
    // not a valid SST: recovery would fail if it consulted the file, so a
    // successful open + read proves only MANIFEST-referenced SSTs load.
    dir.write("L0_999999.sst", b"not a real sstable");
    let engine = open_dir_opts(
        &dir,
        LsmOptions {
            flush_threshold_bytes: LARGE_THRESHOLD,
            ..Default::default()
        },
    );
    assert_eq!(engine.get(b"k").unwrap(), Some(b"v".to_vec()));
    assert!(
        dir.has("L0_999999.sst"),
        "orphan sst must be left untouched"
    );
}

#[test]
fn recovery_survives_repeated_reopen_without_flush() {
    // Regression: recovered data must be durably re-backed in the fresh WAL
    // so that a second clean drop + reopen still finds it. Previously the
    // replay lived only in RAM and vanished on the next reopen cycle.
    let dir = tempdir();
    {
        let engine = open_dir_opts(
            &dir,
            LsmOptions {
                flush_threshold_bytes: LARGE_THRESHOLD,
                ..Default::default()
            },
        );
        engine.put(b"k", b"v").unwrap();
    } // drop #1: fsyncs the active WAL
    {
        let engine = open_dir_opts(
            &dir,
            LsmOptions {
                flush_threshold_bytes: LARGE_THRESHOLD,
                ..Default::default()
            },
        );
        assert_eq!(
            engine.get(b"k").unwrap(),
            Some(b"v".to_vec()),
            "first reopen replays the WAL"
        );
    } // drop #2: must fsync a WAL that still holds k
    let engine = open_dir_opts(
        &dir,
        LsmOptions {
            flush_threshold_bytes: LARGE_THRESHOLD,
            ..Default::default()
        },
    );
    assert_eq!(
        engine.get(b"k").unwrap(),
        Some(b"v".to_vec()),
        "second reopen must still find k after recovery"
    );
}

#[test]
fn recovery_reappends_replayed_tombstone() {
    // The recovered WAL must carry tombstones too, so a delete followed by
    // reopen+reopen keeps the key deleted.
    let dir = tempdir();
    {
        let engine = open_dir_opts(
            &dir,
            LsmOptions {
                flush_threshold_bytes: LARGE_THRESHOLD,
                ..Default::default()
            },
        );
        engine.put(b"k", b"v").unwrap();
        engine.delete(b"k").unwrap();
    }
    {
        let engine = open_dir_opts(
            &dir,
            LsmOptions {
                flush_threshold_bytes: LARGE_THRESHOLD,
                ..Default::default()
            },
        );
        assert_eq!(engine.get(b"k").unwrap(), None);
    }
    let engine = open_dir_opts(
        &dir,
        LsmOptions {
            flush_threshold_bytes: LARGE_THRESHOLD,
            ..Default::default()
        },
    );
    assert_eq!(
        engine.get(b"k").unwrap(),
        None,
        "tombstone must survive recovery"
    );
}

#[test]
fn manifest_referenced_sst_corrupt_fails_on_first_read() {
    // A MANIFEST-listed SST whose bytes are garbage must still let open()
    // succeed (readers are lazy) but make the first get() that needs it
    // fail with Corruption — distinct from a missing file, which fails at
    // open.
    let dir = tempdir();
    let sst_name;
    {
        let engine = open_dir_opts(
            &dir,
            LsmOptions {
                flush_threshold_bytes: LARGE_THRESHOLD,
                ..Default::default()
            },
        );
        engine.put(b"k", b"v").unwrap();
        engine.flush().unwrap();
        let manifest = load_manifest(&dir);
        sst_name = manifest.ssts_at(0)[0].name.clone();
    }
    // Corrupt the real SST file in place (same path, garbage content).
    dir.write(&sst_name, b"corrupted, not an sstable");

    let engine = open_dir_opts(
        &dir,
        LsmOptions {
            flush_threshold_bytes: LARGE_THRESHOLD,
            ..Default::default()
        },
    );
    // Open is lazy: succeeds even though the SST is unreadable.
    let err = match engine.get(b"k") {
        Ok(v) => panic!("corrupt sst must surface an error, got {v:?}"),
        Err(e) => e,
    };
    assert!(matches!(err, LsmError::Corruption(_)));
}

#[test]
fn orphan_wal_not_matching_pattern_ignored() {
    let dir = tempdir();
    // Files that are not `wal_<digits>.wal` must never be replayed or
    // parsed as WALs (and must not fail open).
    dir.write("notawal.txt", b"plain text, not a wal");
    dir.write("wal_abc.wal", b"non-numeric seq, not a wal");

    // Opening succeeds only if neither stray file is treated as a WAL.
    let engine = open_dir_opts(
        &dir,
        LsmOptions {
            flush_threshold_bytes: LARGE_THRESHOLD,
            ..Default::default()
        },
    );
    engine.put(b"k", b"v").unwrap();
    engine.flush().unwrap(); // flush must not mistake the stray files either
    assert_eq!(engine.get(b"k").unwrap(), Some(b"v".to_vec()));
    drop(engine);

    assert!(dir.has("notawal.txt"));
    assert!(dir.has("wal_abc.wal"));
    let engine = open_dir_opts(
        &dir,
        LsmOptions {
            flush_threshold_bytes: LARGE_THRESHOLD,
            ..Default::default()
        },
    );
    assert_eq!(engine.get(b"k").unwrap(), Some(b"v".to_vec()));
}

#[test]
fn recovery_is_idempotent_across_reopens() {
    let dir = tempdir();
    {
        let engine = open_dir_opts(
            &dir,
            LsmOptions {
                flush_threshold_bytes: LARGE_THRESHOLD,
                ..Default::default()
            },
        );
        engine.put(b"a", b"1").unwrap();
        engine.flush().unwrap();
        engine.put(b"b", b"2").unwrap();
        engine.flush().unwrap();
    }
    // First recovery: data comes back exactly once from the SSTs.
    let engine = open_dir_opts(
        &dir,
        LsmOptions {
            flush_threshold_bytes: LARGE_THRESHOLD,
            ..Default::default()
        },
    );
    assert_eq!(engine.get(b"a").unwrap(), Some(b"1".to_vec()));
    assert_eq!(engine.get(b"b").unwrap(), Some(b"2".to_vec()));
    engine.put(b"c", b"3").unwrap();
    engine.flush().unwrap();
    let sst_after_write = sst_count(&dir);
    drop(engine);

    // Second recovery of the same directory: values must not be duplicated
    // and recovery must not add new SST files.
    let engine = open_dir_opts(
        &dir,
        LsmOptions {
            flush_threshold_bytes: LARGE_THRESHOLD,
            ..Default::default()
        },
    );
    assert_eq!(engine.get(b"a").unwrap(), Some(b"1".to_vec()));
    assert_eq!(engine.get(b"b").unwrap(), Some(b"2".to_vec()));
    assert_eq!(engine.get(b"c").unwrap(), Some(b"3".to_vec()));
    assert_eq!(
        sst_count(&dir),
        sst_after_write,
        "reopening must not add or drop SST files"
    );
}

#[test]
fn tombstone_shadows_across_flush_generations() {
    let dir = tempdir();
    {
        let engine = open_dir_opts(
            &dir,
            LsmOptions {
                flush_threshold_bytes: LARGE_THRESHOLD,
                ..Default::default()
            },
        );
        engine.put(b"k", b"v1").unwrap();
        engine.flush().unwrap(); // L0 gen 1: v1
        engine.delete(b"k").unwrap();
        engine.flush().unwrap(); // L0 gen 2: tombstone
        engine.put(b"k", b"v3").unwrap();
        engine.flush().unwrap(); // L0 gen 3: v3
        assert_eq!(
            engine.get(b"k").unwrap(),
            Some(b"v3".to_vec()),
            "a fresh put must beat an older flushed tombstone"
        );

        engine.delete(b"k").unwrap();
        engine.flush().unwrap(); // L0 gen 4: tombstone (newest)
    }
    let engine = open_dir_opts(
        &dir,
        LsmOptions {
            flush_threshold_bytes: LARGE_THRESHOLD,
            ..Default::default()
        },
    );
    assert_eq!(
        engine.get(b"k").unwrap(),
        None,
        "newest tombstone must shadow older generations after recovery"
    );
}

#[test]
fn background_worker_recovery_consistency() {
    // Small threshold: puts auto-freeze many WAL generations while the
    // background worker flushes earlier ones to L0 concurrently, so on drop
    // some generations were flushed (SST + MANIFEST, WAL deleted) and others
    // were not. flush() before drop quiesces the worker (its drain is
    // synchronous), making recovery deterministic.
    let dir = tempdir();
    const N_KEYS: usize = 300;
    {
        let engine = open_dir_opts(
            &dir,
            LsmOptions {
                flush_threshold_bytes: 128,
                compaction_l0_file_threshold: 0, // isolate flush-worker recovery
                ..Default::default()
            },
        );
        for i in 0..N_KEYS {
            let key = format!("key{i:05}");
            engine.put(key.as_bytes(), b"value-data").unwrap();
        }
        engine.flush().unwrap(); // converge: drain every frozen generation
    }
    assert!(
        sst_count(&dir) >= 1,
        "auto-flush cycles must have produced L0 files"
    );

    let engine = open_dir_opts(
        &dir,
        LsmOptions {
            flush_threshold_bytes: LARGE_THRESHOLD,
            ..Default::default()
        },
    );
    for i in 0..N_KEYS {
        let key = format!("key{i:05}");
        assert_eq!(
            engine.get(key.as_bytes()).unwrap(),
            Some(b"value-data".to_vec()),
            "key {i} must survive recovery"
        );
    }
}

#[test]
fn many_small_flushes_recover() {
    // Ten small L0 generations (one explicit flush per round) with
    // interleaved puts and deletes over the same key set. After recovery,
    // every key must reflect exactly its last write, in round order — this
    // catches ordering/lost-update bugs across many small SSTs and lets
    // flushed tombstones prove they still shadow older generations.
    let dir = tempdir();
    let keys: Vec<String> = (0..20).map(|i| format!("k{i:02}")).collect();
    let mut expected: Vec<Option<Vec<u8>>> = vec![None; keys.len()];
    {
        let engine = open_dir_opts(
            &dir,
            LsmOptions {
                flush_threshold_bytes: LARGE_THRESHOLD,
                ..Default::default()
            },
        );
        for round in 0..10u32 {
            for (i, key) in keys.iter().enumerate() {
                match (round + i as u32) % 3 {
                    0 => {
                        engine.delete(key.as_bytes()).unwrap();
                        expected[i] = None;
                    }
                    _ => {
                        let val = format!("v{round}-{i}");
                        engine.put(key.as_bytes(), val.as_bytes()).unwrap();
                        expected[i] = Some(val.into_bytes());
                    }
                }
            }
            engine.flush().unwrap();
        }
    }

    let engine = open_dir_opts(
        &dir,
        LsmOptions {
            flush_threshold_bytes: LARGE_THRESHOLD,
            ..Default::default()
        },
    );
    // Exactly one L0 SST per drained flush generation. Explicit flush()
    // never notifies the background worker, so auto-compaction (which only
    // fires on worker notifications) cannot coalesce these generations here.
    assert_eq!(
        sst_count(&dir),
        10,
        "every round's flush must leave one L0 generation on disk"
    );
    for (i, key) in keys.iter().enumerate() {
        assert_eq!(
            engine.get(key.as_bytes()).unwrap().as_deref(),
            expected[i].as_deref(),
            "key {i} must reflect its last write across generations"
        );
    }
}

#[test]
fn compact_merges_l0_to_l1() {
    let dir = tempdir();
    let engine = open_dir_opts(
        &dir,
        LsmOptions {
            flush_threshold_bytes: LARGE_THRESHOLD,
            ..Default::default()
        },
    );
    // Three L0 generations with overlapping + deleted keys.
    engine.put(b"a", b"v1").unwrap();
    engine.put(b"b", b"1").unwrap();
    engine.flush().unwrap(); // gen1: a=v1, b=1
    engine.put(b"a", b"v2").unwrap();
    engine.delete(b"b").unwrap();
    engine.put(b"c", b"3").unwrap();
    engine.flush().unwrap(); // gen2: a=v2 (overwrites), b=tombstone, c=3
    engine.put(b"c", b"33").unwrap();
    engine.flush().unwrap(); // gen3: c=33
    assert_eq!(count_files(&dir, "L0_"), 3);

    engine.compact().expect("compact");

    // L0 gone, one L1 file, manifest reflects it.
    assert_eq!(count_files(&dir, "L0_"), 0, "L0 tables must be removed");
    assert_eq!(count_files(&dir, "L1_"), 1, "one merged L1 table");
    assert_eq!(engine.get(b"a").unwrap(), Some(b"v2".to_vec()));
    assert_eq!(engine.get(b"b").unwrap(), None, "tombstone dropped b");
    assert_eq!(engine.get(b"c").unwrap(), Some(b"33".to_vec()));
}

#[test]
fn compact_noop_when_no_l0() {
    let dir = tempdir();
    let engine = open_dir_opts(
        &dir,
        LsmOptions {
            flush_threshold_bytes: LARGE_THRESHOLD,
            ..Default::default()
        },
    );
    // Empty engine: compact is a no-op.
    engine.compact().expect("compact empty");
    assert_eq!(count_files(&dir, "L1_"), 0);

    // One L0 → compacts to L1; compacting again with no L0 must not
    // rewrite L1 (file count stays 1, seq does not advance).
    engine.put(b"k", b"v").unwrap();
    engine.flush().unwrap();
    engine.compact().expect("compact");
    assert_eq!(count_files(&dir, "L1_"), 1);
    let l1_before = l1_filename(&dir).expect("one L1 file");
    engine.compact().expect("compact again");
    assert_eq!(
        l1_filename(&dir).as_ref(),
        Some(&l1_before),
        "no-op must not re-write L1 (seq must not advance)"
    );
    assert_eq!(engine.get(b"k").unwrap(), Some(b"v".to_vec()));
}

#[test]
fn compact_merge_with_existing_l1() {
    let dir = tempdir();
    let engine = open_dir_opts(
        &dir,
        LsmOptions {
            flush_threshold_bytes: LARGE_THRESHOLD,
            ..Default::default()
        },
    );
    // Two keys go to L1 via the first compaction.
    engine.put(b"l1only", b"survivor").unwrap();
    engine.put(b"shared", b"old").unwrap();
    engine.flush().unwrap();
    engine.compact().expect("first compact"); // L1: l1only, shared=old
    assert_eq!(engine.get(b"l1only").unwrap(), Some(b"survivor".to_vec()));

    // New L0: `shared` is overwritten, `l0only` is new; `l1only` exists ONLY
    // in L1 and must survive the merge because L1 is part of the input.
    engine.put(b"shared", b"new").unwrap();
    engine.put(b"l0only", b"x").unwrap();
    engine.flush().unwrap();
    engine.compact().expect("second compact"); // merges L1 + L0

    assert_eq!(
        engine.get(b"l1only").unwrap(),
        Some(b"survivor".to_vec()),
        "L1-only key must survive merge"
    );
    assert_eq!(engine.get(b"shared").unwrap(), Some(b"new".to_vec()));
    assert_eq!(engine.get(b"l0only").unwrap(), Some(b"x".to_vec()));
    assert_eq!(count_files(&dir, "L0_"), 0);
    assert_eq!(count_files(&dir, "L1_"), 1);
}

#[test]
fn compact_drops_final_tombstone() {
    let dir = tempdir();
    let engine = open_dir_opts(
        &dir,
        LsmOptions {
            flush_threshold_bytes: LARGE_THRESHOLD,
            ..Default::default()
        },
    );
    engine.put(b"k", b"v").unwrap();
    engine.flush().unwrap();
    engine.delete(b"k").unwrap();
    engine.flush().unwrap();
    engine.compact().expect("compact");

    assert_eq!(engine.get(b"k").unwrap(), None);
    // Recovery must still see k as absent (tombstone was final).
    drop(engine);
    let engine = open_dir_opts(
        &dir,
        LsmOptions {
            flush_threshold_bytes: LARGE_THRESHOLD,
            ..Default::default()
        },
    );
    assert_eq!(
        engine.get(b"k").unwrap(),
        None,
        "delete must survive compaction+recovery"
    );
}

#[test]
fn compact_empty_result_removes_all_files() {
    let dir = tempdir();
    let engine = open_dir_opts(
        &dir,
        LsmOptions {
            flush_threshold_bytes: LARGE_THRESHOLD,
            ..Default::default()
        },
    );
    engine.put(b"a", b"1").unwrap();
    engine.flush().unwrap();
    engine.put(b"a", b"2").unwrap();
    engine.delete(b"a").unwrap();
    engine.flush().unwrap();
    engine.compact().expect("compact"); // both keys deleted → empty result

    assert_eq!(engine.get(b"a").unwrap(), None);
    assert_eq!(count_files(&dir, "L1_"), 0, "empty merge must write no L1");
    assert_eq!(count_files(&dir, "L0_"), 0);
}

#[test]
fn recovery_across_compact_cycles() {
    // Compaction must be crash-safe across a real (non-empty) L1 result:
    // reopen after a compaction that produced L1, continue writing, then
    // compact again and reopen once more. Every key survives.
    let dir = tempdir();
    let opts = || LsmOptions {
        flush_threshold_bytes: LARGE_THRESHOLD,
        ..Default::default()
    };
    {
        let engine = open_dir_opts(&dir, opts());
        engine.put(b"a", b"v1").unwrap();
        engine.flush().unwrap();
        engine.compact().expect("first compact"); // real L1 with a=v1
    }
    {
        let engine = open_dir_opts(&dir, opts());
        assert_eq!(
            engine.get(b"a").unwrap(),
            Some(b"v1".to_vec()),
            "recovered from L1"
        );
        engine.put(b"b", b"w").unwrap();
        engine.flush().unwrap();
        engine.compact().expect("second compact"); // L1(a) + L0(b) -> L1
    }
    {
        let engine = open_dir_opts(&dir, opts());
        assert_eq!(engine.get(b"a").unwrap(), Some(b"v1".to_vec()));
        assert_eq!(engine.get(b"b").unwrap(), Some(b"w".to_vec()));
        assert_eq!(count_files(&dir, "L0_"), 0);
        assert_eq!(count_files(&dir, "L1_"), 1);
    }
}

#[test]
fn auto_compact_after_many_flushes() {
    // Small flush threshold + low compaction threshold: the background
    // worker should flush to L0 and then compact into L1 on its own, with
    // no explicit flush()/compact() call.
    let dir = tempdir();
    let engine = open_dir_opts(
        &dir,
        LsmOptions {
            flush_threshold_bytes: 64,
            compaction_l0_file_threshold: 2,
            ..Default::default()
        },
    );
    for i in 0..400u32 {
        let key = format!("key{i:05}");
        engine.put(key.as_bytes(), b"value-data").unwrap();
    }

    let saw_l1 = count_files(&dir, "L1_") >= 1;
    assert!(saw_l1, "background worker must auto-compact L0 into L1");

    // Converge and verify every key.
    engine.flush().unwrap();
    for i in 0..400u32 {
        let key = format!("key{i:05}");
        assert_eq!(
            engine.get(key.as_bytes()).unwrap(),
            Some(b"value-data".to_vec())
        );
    }
}

#[test]
fn compaction_threshold_zero_disables_auto_compact() {
    // compaction_l0_file_threshold = 0 must never auto-compact (no L1 file
    // appears) even after many flushes.
    let dir = tempdir();
    let engine = open_dir_opts(
        &dir,
        LsmOptions {
            flush_threshold_bytes: 64,
            compaction_l0_file_threshold: 0,
            ..Default::default()
        },
    );
    for i in 0..200u32 {
        let key = format!("key{i:05}");
        engine.put(key.as_bytes(), b"value-data").unwrap();
    }
    engine.flush().unwrap();
    assert_eq!(
        count_files(&dir, "L1_"),
        0,
        "auto-compaction must be disabled when threshold is 0"
    );
    // Data must still be intact in L0.
    for i in 0..200u32 {
        let key = format!("key{i:05}");
        assert_eq!(
            engine.get(key.as_bytes()).unwrap(),
            Some(b"value-data".to_vec())
        );
    }
}

/// Small thresholds so flushes and auto-compaction fire *during* the load.
fn small_opts() -> LsmOptions {
    LsmOptions {
        flush_threshold_bytes: 4 * 1024,
        compaction_l0_file_threshold: 2,
        sync_per_write: false,
    }
}

fn no_auto_flush_opts() -> LsmOptions {
    LsmOptions {
        flush_threshold_bytes: usize::MAX,
        compaction_l0_file_threshold: 0,
        sync_per_write: false,
    }
}

/// Number of SSTable files (L0 or L1) currently on disk.
fn count_sst(dir: &Dir) -> usize {
    count_files(dir, "L0_") + count_files(dir, "L1_")
}

#[test]
fn crash_recovery_mid_load() {
    const N_KEYS: usize = 10_000;
    const TAIL: usize = 20; // well under the 4KiB auto-freeze threshold

    let dir = tempdir();
    {
        let engine = open_dir_opts(&dir, small_opts());
        for i in 0..N_KEYS {
            let key = format!("r{i:05}");
            engine
                .put(key.as_bytes(), format!("v{i}").as_bytes())
                .expect("load put");
        }
        engine.flush().expect("flush before drop");
        for i in 0..TAIL {
            let key = format!("t{i:05}");
            engine
                .put(key.as_bytes(), format!("tail{i}").as_bytes())
                .expect("tail put");
        }
    }

    assert!(
        count_sst(&dir) > 0,
        "load must have flushed generations to SST"
    );

    let engine = open_dir_opts(&dir, small_opts());
    for i in 0..N_KEYS {
        let key = format!("r{i:05}");
        let expect = format!("v{i}");
        assert_eq!(
            engine.get(key.as_bytes()).expect("reopen get").as_deref(),
            Some(expect.as_bytes()),
            "key {key} must survive drop + reopen (SST + MANIFEST path)"
        );
    }
    for i in 0..TAIL {
        let key = format!("t{i:05}");
        let expect = format!("tail{i}");
        assert_eq!(
            engine.get(key.as_bytes()).expect("tail get").as_deref(),
            Some(expect.as_bytes()),
            "tail key {key} must survive via WAL replay"
        );
    }
}

#[test]
fn sync_per_write_durability() {
    const N_KEYS: usize = 500;

    let dir = tempdir();
    {
        let engine = open_dir_opts(
            &dir,
            LsmOptions {
                flush_threshold_bytes: usize::MAX, // keep everything in the WAL
                compaction_l0_file_threshold: 0,
                sync_per_write: true,
            },
        );
        for i in 0..N_KEYS {
            let key = format!("s{i:05}");
            engine
                .put(key.as_bytes(), format!("sync{i}").as_bytes())
                .expect("synced put");
        }
        assert_eq!(engine.syncs.get(), N_KEYS, "every write asks for a sync");
    } // drop without flush

    assert_eq!(count_sst(&dir), 0, "nothing may have flushed to SST");

    let engine = open_dir_opts(&dir, no_auto_flush_opts());
    for i in 0..N_KEYS {
        let key = format!("s{i:05}");
        let expect = format!("sync{i}");
        assert_eq!(
            engine.get(key.as_bytes()).expect("reopen get").as_deref(),
            Some(expect.as_bytes()),
            "key {key} must be durable via per-write WAL fsync"
        );
    }
}

#[test]
fn delete_after_flush_does_not_resurrect() {
    let keys: Vec<String> = (0..7).map(|i| format!("a{i}")).collect();
    let dir = tempdir();
    let engine = open_dir_opts(&dir, no_auto_flush_opts());
    for (i, k) in keys.iter().enumerate() {
        engine
            .put(k.as_bytes(), format!("seed{i}").as_bytes())
            .expect("seed put");
    }
    engine.flush().expect("seed flush");
    for k in &keys[0..5] {
        engine.delete(k.as_bytes()).expect("delete");
    }
    engine.flush().expect("flush tombstones to SST");
    for k in [&keys[2], &keys[5], &keys[6]] {
        engine.put(k.as_bytes(), b"fresh").expect("put");
    }
    engine.flush().expect("final flush");
    drop(engine);
    let reopened = open_dir_opts(&dir, no_auto_flush_opts());
    for (i, k) in keys.iter().enumerate() {
        let got = reopened.get(k.as_bytes()).expect("reopen get");
        match i {
            0 | 1 | 3 | 4 => assert_eq!(got, None, "deleted key {k} resurrected"),
            _ => assert_eq!(got.as_deref(), Some(b"fresh".as_slice())),
        }
    }
}

#[test]
fn default_options() {
    let options = LsmOptions::default();
    assert_eq!(options.flush_threshold_bytes, 64 * 1024 * 1024);
    assert_eq!(options.flush_threshold_bytes, DEFAULT_FLUSH_THRESHOLD_BYTES);
    assert!(!options.sync_per_write);
    assert_eq!(options.compaction_l0_file_threshold, 4);
}

#[test]
fn file_names() {
    assert_eq!(wal_name(7), "wal_000007.wal");
    assert_eq!(wal_name(1_234_567), "wal_1234567.wal");
    assert_eq!(table_name(0, 42), "L0_000042.sst");
    assert_eq!(table_name(1, u64::MAX), "L1_18446744073709551615.sst");
    for seq in [0, 1, 999_999, 1_000_000, u64::MAX] {
        assert_eq!(parse_wal_name(&wal_name(seq)), Some(seq));
    }
    assert_eq!(parse_wal_name("wal_5.wal"), Some(5));
    assert_eq!(parse_wal_name("wal_0000000000000000000000005.wal"), Some(5));
    for name in [
        "",
        "wal_.wal",
        "wal_+.wal",
        "wal_+5.wal",
        "wal_-5.wal",
        "wal_5.wal2",
        "wal_5a.wal",
        "wal_ 5.wal",
        "wal.wal",
        "xwal_5.wal",
        "L0_000001.sst",
        "wal_18446744073709551616.wal",
        "wal_\u{664}.wal",
    ] {
        assert_eq!(parse_wal_name(name), None, "{name}");
    }
}

#[test]
fn generations_are_listed_oldest_first() {
    let names: Vec<String> = ["wal_10.wal", "MANIFEST", "wal_9.wal", "wal_x.wal", "wal_009.wal"]
        .iter()
        .map(|n| n.to_string())
        .collect();
    assert_eq!(wal_generations(&names), [(9, 2), (9, 4), (10, 0)]);
}

#[test]
fn sequence_numbers_follow_the_highest_one() {
    let dir = tempdir();
    dir.write("wal_000041.wal", &[]);
    let engine = open_dir(&dir);
    assert_eq!(engine.core.borrow().active_wal(), 42);
    assert_eq!(engine.core.borrow_mut().reserve_seq(), 43);
    assert_eq!(engine.core.borrow_mut().reserve_seq(), 44);
    assert_eq!(dir.names(), ["wal_000042.wal"]);
}

#[test]
fn an_oversized_key_is_rejected_and_changes_nothing() {
    let dir = tempdir();
    let engine = open_dir(&dir);
    let key = vec![0u8; 65536];
    assert!(matches!(engine.put(&key, b"v"), Err(LsmError::KeyTooLarge(65536, 65535))));
    assert!(matches!(engine.delete(&key), Err(LsmError::KeyTooLarge(65536, 65535))));
    assert_eq!(engine.get(&key).expect("get"), None);
    let log = wal_name(engine.core.borrow().active_wal());
    assert_eq!(dir.read(&log), Some(Vec::new()));
}

#[test]
fn a_freeze_is_due_at_the_threshold() {
    let dir = tempdir();
    let engine = open_dir_opts(
        &dir,
        LsmOptions {
            flush_threshold_bytes: 2 * (1 + 1 + 64),
            ..Default::default()
        },
    );
    let rec = engine.core.borrow().put(b"a", b"1").expect("put");
    assert!(!engine.core.borrow_mut().apply_and_maybe_freeze(rec));
    let rec = engine.core.borrow().put(b"b", b"2").expect("put");
    assert!(engine.core.borrow_mut().apply_and_maybe_freeze(rec));

    let never = open_dir_opts(
        &tempdir(),
        LsmOptions {
            flush_threshold_bytes: 0,
            ..Default::default()
        },
    );
    let rec = never.core.borrow().put(b"a", &[0; 1000]).expect("put");
    assert!(!never.core.borrow_mut().apply_and_maybe_freeze(rec));
}

#[test]
fn an_empty_memtable_is_not_frozen() {
    let dir = tempdir();
    let engine = open_dir(&dir);
    assert_eq!(engine.core.borrow_mut().begin_freeze(), None);
    engine.put(b"k", b"v").expect("put");
    let log = engine.core.borrow().active_wal();
    let start = engine.core.borrow_mut().flush();
    assert_eq!(start.sync_log, log);
    assert_eq!(start.new_log, Some(log + 1));
}

#[test]
fn frozen_memtables_answer_before_tables() {
    let dir = tempdir();
    let engine = open_dir(&dir);
    engine.put(b"k", b"old").expect("put");
    engine.flush().expect("flush");
    engine.put(b"k", b"frozen").expect("put");
    let seq = engine.core.borrow_mut().begin_freeze();
    engine.freeze(seq);
    assert_eq!(engine.get(b"k").expect("get"), Some(b"frozen".to_vec()));
    engine.delete(b"k").expect("delete");
    assert_eq!(engine.get(b"k").expect("get"), None);
    let seq = engine.core.borrow_mut().begin_freeze();
    engine.freeze(seq);
    assert_eq!(engine.get(b"k").expect("get"), None);
    assert!(matches!(
        engine.core.borrow().get(b"other"),
        Lookup::Search(_)
    ));
    engine.flush().expect("flush");
    assert_eq!(engine.get(b"k").expect("get"), None);
    assert_eq!(sst_count(&dir), 3);
}

#[test]
fn only_tables_whose_range_holds_the_key_are_asked() {
    let dir = tempdir();
    let engine = open_dir(&dir);
    for (low, high) in [(b"a", b"f"), (b"d", b"m"), (b"x", b"z")] {
        engine.put(low, b"1").expect("put");
        engine.put(high, b"2").expect("put");
        engine.flush().expect("flush");
    }
    let asked = |key: &[u8]| match engine.core.borrow().get(key) {
        Lookup::Answer(_) => panic!("memory is empty"),
        Lookup::Search(mut search) => {
            let mut mins = Vec::new();
            while let Some(table) = search.table() {
                mins.push(table.min.clone());
                assert!(search.reply(None).is_none());
            }
            mins
        }
    };
    assert_eq!(asked(b"e"), [b"d".to_vec(), b"a".to_vec()]);
    assert_eq!(asked(b"a"), [b"a".to_vec()]);
    assert_eq!(asked(b"z"), [b"x".to_vec()]);
    assert!(asked(b"p").is_empty());
}

#[test]
fn a_reply_decides_or_goes_on() {
    let dir = tempdir();
    let engine = open_dir(&dir);
    for value in [b"1", b"2", b"3"] {
        engine.put(b"k", value).expect("put");
        engine.flush().expect("flush");
    }
    let Lookup::Search(mut search) = engine.core.borrow().get(b"k") else {
        panic!("memory is empty");
    };
    assert_eq!(search.reply(None), None);
    assert_eq!(search.reply(Some(LookupValue::Deleted)), Some(None));
    assert_eq!(
        search.reply(Some(LookupValue::Present(b"v".to_vec()))),
        Some(Some(b"v".to_vec()))
    );
    assert!(search.table().is_none());
}

#[test]
fn a_crash_between_table_and_manifest_loses_nothing() {
    let dir = tempdir();
    let engine = open_dir_opts(&dir, no_auto_flush_opts());
    engine.put(b"k", b"v").expect("put");
    let start = engine.core.borrow_mut().flush();
    engine.freeze(start.new_log);
    // The table is written, and the engine goes down before the manifest is.
    engine.write_pending(1).expect("write the table");
    drop(engine);
    assert!(!dir.has(MANIFEST_FILE_NAME));
    let engine = open_dir_opts(&dir, no_auto_flush_opts());
    assert_eq!(engine.get(b"k").expect("get"), Some(b"v".to_vec()));
}

#[test]
fn a_crash_between_manifest_and_log_removal_loses_nothing() {
    let dir = tempdir();
    let engine = open_dir_opts(&dir, no_auto_flush_opts());
    for value in [b"1", b"2"] {
        engine.put(b"k", value).expect("put");
        let seq = engine.core.borrow_mut().begin_freeze();
        engine.freeze(seq);
    }
    engine.put(b"k", b"3").expect("put");
    let before = dir.files.borrow().clone();
    engine.flush_all_pending().expect("flush the two frozen ones");
    // Bring the logs back that the flush removed, the newest one first.
    for log in ["wal_000002.wal", "wal_000001.wal"] {
        dir.write(log, &before[log]);
        let copy = Dir::default();
        for name in dir.names() {
            copy.write(&name, &dir.read(&name).expect("file"));
        }
        let reopened = open_dir_opts(&copy, no_auto_flush_opts());
        assert_eq!(reopened.get(b"k").expect("get"), Some(b"3".to_vec()));
    }
}

#[test]
fn a_flush_removes_the_logs_of_what_it_wrote() {
    let dir = tempdir();
    let engine = open_dir_opts(&dir, no_auto_flush_opts());
    let step = engine.core.borrow().flush_all_pending();
    assert!(matches!(step, FlushStep::Nothing));
    engine.put(b"a", b"1").expect("put");
    engine.put(b"b", b"2").expect("put");
    let seq = engine.core.borrow_mut().begin_freeze();
    engine.freeze(seq);
    let step = engine.core.borrow().flush_all_pending();
    assert!(matches!(step, FlushStep::Table { wal_seq: 1, len: 2 }));
    let table = engine.write_pending(2).expect("write the table");
    engine.core.borrow_mut().commit_flush(table.meta, 1);
    let FlushStep::Commit { manifest, logs } = engine.core.borrow().flush_all_pending() else {
        panic!("the manifest is behind");
    };
    assert_eq!(logs, ["wal_000001.wal"]);
    assert_eq!(manifest, engine.core.borrow().manifest_bytes());
    engine.replace_manifest(&manifest, &logs).expect("write the manifest");
    assert!(!dir.has("wal_000001.wal"));
    assert!(engine.core.borrow().retired_logs().is_empty());
    let step = engine.core.borrow().flush_all_pending();
    assert!(matches!(step, FlushStep::Nothing));
}

#[test]
fn a_flush_writes_a_manifest_that_failed_before() {
    let dir = tempdir();
    let engine = open_dir_opts(&dir, no_auto_flush_opts());
    engine.put(b"k", b"v").expect("put");
    engine.manifest_fails.set(true);
    assert!(matches!(engine.flush(), Err(LsmError::Io(_))));
    assert!(!dir.has(MANIFEST_FILE_NAME));
    assert!(dir.has("wal_000001.wal"), "the log is still needed");
    assert_eq!(engine.get(b"k").expect("get"), Some(b"v".to_vec()));
    engine.manifest_fails.set(false);
    engine.flush().expect("flush");
    assert_eq!(load_manifest(&dir), engine.core.borrow().manifest());
    assert_eq!(load_manifest(&dir).ssts_at(0).len(), 1);
    assert!(!dir.has("wal_000001.wal"), "the log is no longer needed");
    // What was overwritten since does not come back.
    engine.put(b"k", b"w").expect("put");
    engine.flush().expect("flush");
    drop(engine);
    let engine = open_dir_opts(&dir, no_auto_flush_opts());
    assert_eq!(engine.get(b"k").expect("get"), Some(b"w".to_vec()));
}

#[test]
fn a_compaction_leaves_the_manifest_behind_until_it_is_written() {
    let dir = tempdir();
    let engine = open_dir_opts(&dir, no_auto_flush_opts());
    engine.put(b"k", b"v").expect("put");
    engine.flush().expect("flush");
    engine.manifest_fails.set(true);
    assert!(matches!(engine.compact(), Err(LsmError::Io(_))));
    assert_eq!(load_manifest(&dir).ssts_at(0).len(), 1);
    engine.manifest_fails.set(false);
    engine.flush().expect("flush");
    assert!(load_manifest(&dir).ssts_at(0).is_empty());
    assert_eq!(load_manifest(&dir).ssts_at(1).len(), 1);
    drop(engine);
    let engine = open_dir_opts(&dir, no_auto_flush_opts());
    assert_eq!(engine.get(b"k").expect("get"), Some(b"v".to_vec()));
}

#[test]
fn a_corrupt_log_fails_the_opening() {
    let dir = tempdir();
    {
        let engine = open_dir_opts(&dir, no_auto_flush_opts());
        engine.put(b"a", b"1").expect("put");
        engine.put(b"b", b"2").expect("put");
    }
    let mut log = dir.read("wal_000001.wal").expect("log");
    log[12] ^= 0xFF;
    dir.write("wal_000001.wal", &log);
    assert!(matches!(
        LsmEngine::open(&dir),
        Err(LsmError::Corruption(_))
    ));
    assert!(dir.has("wal_000001.wal"), "nothing was removed");
}

#[test]
fn texts_of_missing_and_unreadable_tables() {
    check_table("dir/L0_000001.sst", true).expect("there");
    let err = check_table("dir/L0_000001.sst", false).expect_err("missing");
    assert!(matches!(err, LsmError::Corruption(text) if text
        == "manifest references missing sstable dir/L0_000001.sst"));
    let err = open_failure("dir/t.sst", "corrupted data: x");
    assert!(matches!(err, LsmError::Corruption(text) if text
        == "failed to open sstable dir/t.sst: corrupted data: x"));
}

#[test]
fn compaction_is_due_at_the_threshold() {
    let dir = tempdir();
    let engine = open_dir_opts(
        &dir,
        LsmOptions {
            compaction_l0_file_threshold: 2,
            ..Default::default()
        },
    );
    assert!(!engine.core.borrow().compact_needed());
    engine.put(b"a", b"1").expect("put");
    engine.flush().expect("flush");
    assert!(!engine.core.borrow().compact_needed());
    engine.put(b"b", b"1").expect("put");
    engine.flush().expect("flush");
    assert!(engine.core.borrow().compact_needed());
    let names: Vec<String> = engine
        .core
        .borrow()
        .compact()
        .expect("inputs")
        .into_iter()
        .map(|m| m.name)
        .collect();
    assert_eq!(names, ["L0_000003.sst", "L0_000005.sst"]);
    engine.compact().expect("compact");
    assert!(!engine.core.borrow().compact_needed());
    assert!(engine.core.borrow().compact().is_none());
    engine.put(b"c", b"1").expect("put");
    engine.flush().expect("flush");
    let names: Vec<String> = engine
        .core
        .borrow()
        .compact()
        .expect("inputs")
        .into_iter()
        .map(|m| m.name)
        .collect();
    assert_eq!(names, ["L0_000008.sst", "L1_000006.sst"]);
}

#[test]
fn unsorted_records_make_no_table() {
    let records = vec![
        (b"b".to_vec(), Vec::new(), false),
        (b"a".to_vec(), Vec::new(), false),
    ];
    assert!(matches!(
        build_table(1, 5, &records, sizing(2)),
        Err(LsmError::InvalidOp(_))
    ));
    let table = build_table(1, 5, &[], sizing(1)).expect("an empty table");
    assert_eq!(table.image.len(), 24);
    assert_eq!(table.meta.name, "L1_000005.sst");
    assert!(table.meta.min.is_empty() && table.meta.max.is_empty());
}

#[test]
fn a_merge_becomes_a_table_at_level_one() {
    let records = vec![
        (b"a".to_vec(), b"1".to_vec(), false),
        (b"b".to_vec(), Vec::new(), false),
    ];
    let table = compaction_table(7, &records, sizing(2)).expect("a table");
    assert_eq!(table.meta.level, 1);
    assert_eq!(table.meta.name, "L1_000007.sst");
    assert_eq!((table.meta.min, table.meta.max), (b"a".to_vec(), b"b".to_vec()));
    let reader = SsTableReader::open("t.sst", &table.image).expect("open");
    assert_eq!(reader.records(&table.image).expect("records"), records);
    assert!(compaction_table(7, &[records[1].clone(), records[0].clone()], sizing(2)).is_err());
}

#[test]
fn the_manifest_lists_the_tables_by_level() {
    let dir = tempdir();
    let engine = open_dir(&dir);
    engine.put(b"a", b"1").expect("put");
    engine.flush().expect("flush");
    engine.compact().expect("compact");
    engine.put(b"b", b"2").expect("put");
    engine.put(b"c", b"3").expect("put");
    engine.flush().expect("flush");
    let manifest = engine.core.borrow().manifest();
    assert_eq!(manifest, load_manifest(&dir));
    assert_eq!(manifest.levels.len(), 2);
    assert_eq!(manifest.ssts_at(0)[0].min, b"b");
    assert_eq!(manifest.ssts_at(0)[0].max, b"c");
    assert_eq!(manifest.ssts_at(1)[0].level, 1);
    assert_eq!(manifest.ssts_at(1)[0].name, l1_filename(&dir).expect("one L1"));
}

/// A copy of a directory as a crash would leave it.
fn snapshot(dir: &Dir) -> Dir {
    let copy = Dir::default();
    for name in dir.names() {
        copy.write(&name, &dir.read(&name).expect("file"));
    }
    copy
}

#[test]
fn a_crash_in_opening_loses_nothing() {
    let dir = tempdir();
    let engine = open_dir_opts(&dir, no_auto_flush_opts());
    engine.put(b"a", b"1").expect("put");
    engine.put(b"b", b"1").expect("put");
    let seq = engine.core.borrow_mut().begin_freeze();
    engine.freeze(seq);
    engine.put(b"a", b"2").expect("put");
    engine.delete(b"b").expect("delete");
    engine.put(b"c", b"2").expect("put");
    drop(engine);
    let old = snapshot(&dir);
    assert_eq!(old.names(), ["wal_000001.wal", "wal_000002.wal"]);
    drop(open_dir_opts(&dir, no_auto_flush_opts()));
    assert_eq!(dir.names(), ["wal_000003.wal"]);
    let new_log = dir.read("wal_000003.wal").expect("new log");

    let check = |left: &Dir| {
        let engine = open_dir_opts(left, no_auto_flush_opts());
        assert_eq!(engine.get(b"a").expect("get"), Some(b"2".to_vec()));
        assert_eq!(engine.get(b"b").expect("get"), None);
        assert_eq!(engine.get(b"c").expect("get"), Some(b"2".to_vec()));
    };
    // The new log is torn anywhere, and both old ones are there.
    for len in 0..=new_log.len() {
        let left = snapshot(&old);
        left.write("wal_000003.wal", &new_log[..len]);
        check(&left);
    }
    // The new log is complete, and either old one is left.
    for kept in ["wal_000001.wal", "wal_000002.wal"] {
        let left = snapshot(&dir);
        left.write(kept, &old.read(kept).expect("old log"));
        check(&left);
    }
}

#[test]
fn a_crash_in_compaction_loses_nothing() {
    let dir = tempdir();
    let engine = open_dir_opts(&dir, no_auto_flush_opts());
    engine.put(b"a", b"1").expect("put");
    engine.put(b"b", b"1").expect("put");
    engine.flush().expect("flush");
    engine.put(b"a", b"2").expect("put");
    engine.delete(b"b").expect("delete");
    engine.flush().expect("flush");
    let before = snapshot(&dir);
    engine.compact().expect("compact");
    drop(engine);

    let check = |left: &Dir| {
        let engine = open_dir_opts(left, no_auto_flush_opts());
        assert_eq!(engine.get(b"a").expect("get"), Some(b"2".to_vec()));
        assert_eq!(engine.get(b"b").expect("get"), None);
    };
    // The merged table is there, and the manifest is still the old one.
    let merged = l1_filename(&dir).expect("one L1");
    let left = snapshot(&before);
    left.write(&merged, &dir.read(&merged).expect("table"));
    check(&left);
    // The manifest is the new one, and the merged tables are still there.
    let left = snapshot(&before);
    for name in dir.names() {
        left.write(&name, &dir.read(&name).expect("file"));
    }
    assert_eq!(sst_count(&left), 2);
    check(&left);
}

#[test]
fn a_crash_in_a_freeze_loses_nothing() {
    let dir = tempdir();
    let engine = open_dir_opts(&dir, no_auto_flush_opts());
    engine.put(b"a", b"1").expect("put");
    let seq = engine.core.borrow_mut().begin_freeze().expect("not empty");
    dir.write(&wal_name(seq), &[]);
    drop(engine);
    let engine = open_dir_opts(&dir, no_auto_flush_opts());
    assert_eq!(engine.get(b"a").expect("get"), Some(b"1".to_vec()));
    assert_eq!(engine.core.borrow().active_wal(), seq + 1);
}

#[test]
fn an_output_is_numbered_only_if_something_survived() {
    let engine = open_dir(&tempdir());
    let next = engine.core.borrow_mut().reserve_seq() + 1;
    assert_eq!(engine.core.borrow_mut().reserve_output(&[]), None);
    let record = (b"k".to_vec(), b"v".to_vec(), false);
    assert_eq!(engine.core.borrow_mut().reserve_output(&[record]), Some(next));
    assert_eq!(engine.core.borrow_mut().reserve_seq(), next + 1);
}

#[test]
fn an_opening_knows_the_highest_number() {
    let mut opening = Core::open(None).expect("a fresh directory");
    assert_eq!(opening.max_seq(), 0);
    assert!(opening.tables().is_empty());
    assert_eq!(opening.replay("wal_000007.wal", 7, Vec::new()).expect("replay"), 0);
    assert_eq!(opening.replay("wal_000003.wal", 3, Vec::new()).expect("replay"), 0);
    assert_eq!(opening.max_seq(), 7);
    let opened = opening.finish().expect("open");
    assert_eq!(opened.engine.active_wal(), 8);
    assert!(opened.log.is_empty());
}

#[test]
fn a_read_gives_the_last_write_after_any_history() {
    let dir = tempdir();
    let options = LsmOptions {
        flush_threshold_bytes: 600,
        compaction_l0_file_threshold: 3,
        sync_per_write: false,
    };
    let mut engine = open_dir_opts(&dir, options);
    let mut model: BTreeMap<Vec<u8>, Vec<u8>> = BTreeMap::new();
    let mut state: u32 = 12345;
    for step in 0..3000u32 {
        state = state.wrapping_mul(1_664_525).wrapping_add(1_013_904_223);
        let pick = state >> 16;
        // Twenty keys, the empty one among them.
        let key = match pick % 20 {
            0 => Vec::new(),
            n => format!("k{n}").into_bytes(),
        };
        match (pick / 20) % 40 {
            0 => engine.flush().expect("flush"),
            1 => engine.compact().expect("compact"),
            2 => {
                drop(engine);
                engine = open_dir_opts(&dir, options);
            }
            3 => engine.worker.set(!engine.worker.get()),
            n if n < 12 => {
                engine.delete(&key).expect("delete");
                model.remove(&key);
            }
            n => {
                let value = match n {
                    12 => Vec::new(),
                    _ => format!("v{step}").into_bytes(),
                };
                engine.put(&key, &value).expect("put");
                model.insert(key.clone(), value);
            }
        }
        if step % 50 == 0 {
            for n in 0..20 {
                let key = match n {
                    0 => Vec::new(),
                    n => format!("k{n}").into_bytes(),
                };
                assert_eq!(engine.get(&key).expect("get"), model.get(&key).cloned(), "{step}");
            }
        }
        assert_eq!(engine.get(&key).expect("get"), model.get(&key).cloned(), "{step}");
    }
}
