# lsm_engine

A key-value engine on a log-structured merge tree, verified with Verus.

Writes go to a log and to an ordered table in memory. A memory table that has
grown large enough is frozen and becomes an immutable, sorted table file with a
sparse index and a bloom filter; compaction merges table files; a manifest lists
the ones that are live. An engine that is opened again replays the logs that are
left and finds everything that was written.

- `src/` is the verified library: the file formats, the memory table, the merge,
  the engine's state and each of its steps. It performs no file operations; it
  says what to read, write, sync and remove, and takes back what was read.
- `src/engine/laws.rs` states what holds across requests: a write is read back,
  and freezing, flushing and compacting change nothing that a reader sees.
- `src/engine/recovery.rs` states what holds across a crash at any step.
- `src/engine/history.rs` states what holds over a whole history: a read gives the
  last write.
- `app/` performs the steps on a directory, with locks and a background worker.
- `tests/` runs the library, over files that are kept in memory.

The outside crates that the library calls are behind small functions whose
contracts are taken on trust: `SkipMap` of crossbeam-skiplist in
`src/memtable.rs`, the filter of fastbloom in `src/sstable/bloom.rs`, and the
checksum of crc32fast in `src/wal/checksum.rs`.
