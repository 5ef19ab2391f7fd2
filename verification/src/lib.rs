//! An LSM-tree key-value engine: the codecs, tables, merges and state
//! transitions of the store, separated from the files and threads that drive
//! them.

use vstd::prelude::*;

pub mod compaction;
pub mod engine;
pub mod error;
pub mod manifest;
pub mod memtable;
pub mod model;
pub mod order;
pub mod sstable;
pub mod text;
pub mod utils;
pub mod wal;

verus! {

} // verus!
