//! Compaction: merging tables to bound the work of reads and to reclaim the
//! space of deleted keys. This module is the merge itself, over sorted runs in
//! memory; the engine gathers the runs and writes the result.

pub mod leveled;
