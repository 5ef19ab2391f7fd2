//! Appending to a write-ahead log.

use super::reader::{log_bytes, loggable};
use super::{encode_entry, entry_fault, frame, EntryView, WalOp};
use crate::error::Result;
use vstd::prelude::*;

verus! {

/// The encoding side of an append-only log: it frames one entry at a time for
/// the caller to write to the file.
///
/// If writing or syncing the file fails, the file may end in a torn entry and
/// must not be appended to any more; recovery tolerates the torn tail.
pub struct WalWriter {
    path: String,
    buf: Vec<u8>,
}

impl WalWriter {
    /// The frame of the latest append; empty before the first one and after an
    /// entry that was rejected.
    pub closed spec fn frame_view(self) -> Seq<u8> {
        self.buf@
    }

    /// The name of the log.
    pub closed spec fn path_view(self) -> Seq<char> {
        self.path@
    }

    /// A writer for a new log called `path`.
    pub fn create(path: &str) -> (writer: Self)
        ensures
            writer.frame_view() == Seq::<u8>::empty(),
            writer.path_view() == path@,
    {
        WalWriter { path: String::from_str(path), buf: Vec::new() }
    }

    /// Frames one entry. An entry that cannot be logged is rejected and leaves
    /// no bytes to be written.
    pub fn append(&mut self, op: WalOp, key: &[u8], value: &[u8]) -> (r: Result<()>)
        ensures
            final(self).path_view() == old(self).path_view(),
            match r {
                Ok(()) => entry_fault(op, key@, value@) is None && final(self).frame_view()
                    == frame(op, key@, value@),
                Err(e) => entry_fault(op, key@, value@) == Some(e@) && final(self).frame_view()
                    == Seq::<u8>::empty(),
            },
    {
        self.buf.clear();
        let r: Result<()> = encode_entry(op, key, value, &mut self.buf);
        proof {
            assert(Seq::<u8>::empty() + frame(op, key@, value@) =~= frame(op, key@, value@));
        }
        r
    }

    /// The frame of the latest append, to be written to the end of the file.
    pub fn frame(&self) -> (bytes: &[u8])
        ensures
            bytes@ == self.frame_view(),
    {
        self.buf.as_slice()
    }

    /// The name of the log.
    pub fn path(&self) -> (path: &str)
        ensures
            path@ == self.path_view(),
    {
        self.path.as_str()
    }
}

/// A log grows by exactly the frame of each appended entry.
pub proof fn append_extends_log(entries: Seq<EntryView>, e: EntryView)
    requires
        loggable(entries),
        entry_fault(e.op, e.key, e.value) is None,
    ensures
        loggable(entries.push(e)),
        log_bytes(entries.push(e)) == log_bytes(entries) + frame(e.op, e.key, e.value),
    decreases entries.len(),
{
    reveal_with_fuel(log_bytes, 2);
    let more = entries.push(e);
    if entries.len() == 0 {
        assert(more.skip(1) =~= Seq::empty());
        assert(log_bytes(more) =~= log_bytes(entries) + frame(e.op, e.key, e.value));
    } else {
        let rest = entries.skip(1);
        assert(loggable(rest)) by {
            assert forall|i: int| 0 <= i < rest.len() implies entry_fault(
                (#[trigger] rest[i]).op,
                rest[i].key,
                rest[i].value,
            ) is None by {
                assert(rest[i] == entries[i + 1]);
            }
        }
        append_extends_log(rest, e);
        assert(more.skip(1) =~= rest.push(e));
        assert(log_bytes(more) =~= log_bytes(entries) + frame(e.op, e.key, e.value));
    }
    assert(loggable(more)) by {
        assert forall|i: int| 0 <= i < more.len() implies entry_fault(
            (#[trigger] more[i]).op,
            more[i].key,
            more[i].value,
        ) is None by {
            if i < entries.len() {
                assert(more[i] == entries[i]);
            }
        }
    }
}

} // verus!
