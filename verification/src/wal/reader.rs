//! Reading a write-ahead log back.
//!
//! A log that ends mid-entry (fewer bytes left than the current entry's frame)
//! was torn by a crash: reading stops cleanly and yields every complete entry
//! before the tear. A fully present frame that fails to decode is genuine
//! corruption and is reported; it is never skipped.
//!
//! A bit flip that inflates an entry's declared lengths so that the frame seems
//! to run past the end of the log cannot be told from a torn tail.

use super::{
    declared_frame_len, decode_entry, decode_frame, entry_fault, frame, frame_alone,
    read_entry_is_loggable, read_entry_is_stored, EntryView, WalEntry, WalOp, HEADER_LEN,
};
use crate::error::{error_text, ErrorView, LsmError, Outcome, Result};
use crate::memtable::{bumped_size, MemTable};
use crate::model::Contents;
use crate::text::{append_decimal, decimal};
use crate::utils;
use vstd::prelude::*;

verus! {

pub open spec fn entry_views(entries: Seq<WalEntry>) -> Seq<EntryView> {
    Seq::new(entries.len(), |i: int| entries[i]@)
}

/// How the failure of the frame at `offset` is reported.
pub open spec fn frame_failure(offset: nat, e: ErrorView) -> ErrorView {
    ErrorView::Corruption(
        "wal entry at byte "@ + decimal(offset) + " failed to decode: "@ + error_text(e),
    )
}

/// Whether no complete frame is left at `offset`: the log ends there, or its
/// last entry was torn off.
pub open spec fn torn_at(bytes: Seq<u8>, offset: nat) -> bool {
    bytes.len() - offset < HEADER_LEN || declared_frame_len(bytes.skip(offset as int))
        > bytes.len() - offset
}

/// The frame that starts at `offset`.
pub open spec fn frame_at(bytes: Seq<u8>, offset: nat) -> Seq<u8> {
    bytes.subrange(offset as int, (offset + declared_frame_len(bytes.skip(offset as int))) as int)
}

/// The entries from `offset` to the end of the log.
pub open spec fn scan_from(bytes: Seq<u8>, offset: nat) -> Outcome<Seq<EntryView>>
    decreases bytes.len() - offset,
{
    if offset > bytes.len() || torn_at(bytes, offset) {
        Ok(Seq::empty())
    } else {
        match decode_frame(frame_at(bytes, offset)) {
            Err(e) => Err(frame_failure(offset, e)),
            Ok(entry) => match scan_from(
                bytes,
                offset + declared_frame_len(bytes.skip(offset as int)),
            ) {
                Err(e) => Err(e),
                Ok(rest) => Ok(seq![entry] + rest),
            },
        }
    }
}

/// The entries of a whole log.
pub open spec fn scan_log(bytes: Seq<u8>) -> Outcome<Seq<EntryView>> {
    scan_from(bytes, 0)
}

/// What one entry makes of a table.
pub open spec fn apply_entry(contents: Contents, e: EntryView) -> Contents {
    match e.op {
        WalOp::Put => contents.insert(e.key, (e.value, false)),
        WalOp::Delete => contents.insert(e.key, (Seq::<u8>::empty(), true)),
    }
}

/// What a sequence of entries makes of a table, first to last.
pub open spec fn replayed(contents: Contents, entries: Seq<EntryView>) -> Contents
    decreases entries.len(),
{
    if entries.len() == 0 {
        contents
    } else {
        apply_entry(replayed(contents, entries.drop_last()), entries.last())
    }
}

/// What a sequence of entries makes of a table's size estimate.
pub open spec fn replayed_size(size: usize, entries: Seq<EntryView>) -> usize
    decreases entries.len(),
{
    if entries.len() == 0 {
        size
    } else {
        let e = entries.last();
        let payload = match e.op {
            WalOp::Put => (e.key.len() + e.value.len()) as int,
            WalOp::Delete => e.key.len() as int,
        };
        bumped_size(replayed_size(size, entries.drop_last()), payload) as usize
    }
}

/// Entries as they are stored, one after the other.
pub open spec fn log_bytes(entries: Seq<EntryView>) -> Seq<u8>
    decreases entries.len(),
{
    if entries.len() == 0 {
        Seq::empty()
    } else {
        frame(entries[0].op, entries[0].key, entries[0].value) + log_bytes(entries.skip(1))
    }
}

/// Whether every entry can be logged.
pub open spec fn loggable(entries: Seq<EntryView>) -> bool {
    forall|i: int|
        0 <= i < entries.len() ==> entry_fault(
            (#[trigger] entries[i]).op,
            entries[i].key,
            entries[i].value,
        ) is None
}

/// Whether `tail` holds no complete frame: what a crash in the middle of an
/// append can leave behind.
pub open spec fn torn_tail(tail: Seq<u8>) -> bool {
    torn_at(tail, 0)
}

/// What follows the last entry counts as torn off exactly if it has no whole header, or
/// if the lengths in its header declare more than is there, whatever else it holds.
pub proof fn torn_means_short(tail: Seq<u8>)
    ensures
        torn_tail(tail) <==> tail.len() < 11 || 11 + (tail[5] + 0x100 * tail[6]) + (tail[7] + 0x100
            * tail[8] + 0x1_0000 * tail[9] + 0x100_0000 * tail[10]) > tail.len(),
{
    assert(tail.skip(0) =~= tail);
    if tail.len() >= 11 {
        utils::bytes_add_up(tail.subrange(5, 7));
        utils::bytes_add_up(tail.subrange(7, 11));
    }
}

/// The bytes of keys and values that entries carry, deletes without a value.
pub open spec fn payload_total(entries: Seq<EntryView>) -> nat
    decreases entries.len(),
{
    if entries.len() == 0 {
        0
    } else {
        payload_total(entries.drop_last()) + entries.last().key.len() + if entries.last().op
            == WalOp::Put {
            entries.last().value.len()
        } else {
            0
        }
    }
}

/// Replaying entries raises the size estimate by the bytes of their keys and values and
/// by 64 for each of them, as long as the sum fits in a machine word.
pub proof fn replay_adds_to_size(size: usize, entries: Seq<EntryView>)
    requires
        size + payload_total(entries) + 64 * entries.len() <= usize::MAX,
    ensures
        replayed_size(size, entries) == size + payload_total(entries) + 64 * entries.len(),
    decreases entries.len(),
{
    if entries.len() > 0 {
        let rest = entries.drop_last();
        replay_adds_to_size(size, rest);
        vstd::arithmetic::div_mod::lemma_small_mod(
            (size + payload_total(entries) + 64 * entries.len()) as nat,
            (usize::MAX + 1) as nat,
        );
    }
}

/// The last entry of a key decides what a replay makes of it: a put gives its value, a
/// delete a tombstone, and a key without entries stays as it was.
pub proof fn last_entry_decides(contents: Contents, entries: Seq<EntryView>, i: int, key: Seq<u8>)
    requires
        -1 <= i < entries.len(),
        i >= 0 ==> entries[i].key == key,
        forall|j: int| i < j < entries.len() ==> (#[trigger] entries[j]).key != key,
    ensures
        i == -1 ==> replayed(contents, entries).contains_key(key) == contents.contains_key(key)
            && (contents.contains_key(key) ==> replayed(contents, entries)[key]
            == contents[key]),
        i >= 0 ==> replayed(contents, entries).contains_key(key),
        i >= 0 && entries[i].op == WalOp::Put ==> replayed(contents, entries)[key] == (
            entries[i].value,
            false,
        ),
        i >= 0 && entries[i].op == WalOp::Delete ==> replayed(contents, entries)[key] == (
            Seq::<u8>::empty(),
            true,
        ),
    decreases entries.len(),
{
    if entries.len() > 0 {
        let rest = entries.drop_last();
        let last = entries.len() - 1;
        if i < last {
            assert(entries[last].key != key);
            assert forall|j: int| i < j < rest.len() implies (#[trigger] rest[j]).key != key by {
                assert(rest[j] == entries[j]);
            }
            if i >= 0 {
                assert(rest[i] == entries[i]);
            }
            last_entry_decides(contents, rest, i, key);
        }
    }
}

/// A chunk that is as long as its header declares is found as a frame.
proof fn frame_found(before: Seq<u8>, chunk: Seq<u8>, after: Seq<u8>)
    requires
        chunk.len() >= HEADER_LEN,
        declared_frame_len(chunk) == chunk.len(),
    ensures
        ({
            let bytes = before + chunk + after;
            &&& !torn_at(bytes, before.len())
            &&& declared_frame_len(bytes.skip(before.len() as int)) == chunk.len()
            &&& frame_at(bytes, before.len()) == chunk
        }),
{
    let bytes = before + chunk + after;
    let here = bytes.skip(before.len() as int);
    assert(here.subrange(5, 7) =~= chunk.subrange(5, 7));
    assert(here.subrange(7, 11) =~= chunk.subrange(7, 11));
    assert(frame_at(bytes, before.len()) =~= chunk);
}

proof fn loggable_rest(entries: Seq<EntryView>)
    requires
        loggable(entries),
        entries.len() > 0,
    ensures
        loggable(entries.skip(1)),
{
    let rest = entries.skip(1);
    assert forall|i: int| 0 <= i < rest.len() implies entry_fault(
        (#[trigger] rest[i]).op,
        rest[i].key,
        rest[i].value,
    ) is None by {
        assert(rest[i] == entries[i + 1]);
    }
}

/// Reading a stored entry gives the entry, and goes on right behind it.
proof fn scan_one(before: Seq<u8>, e: EntryView, after: Seq<u8>)
    requires
        entry_fault(e.op, e.key, e.value) is None,
    ensures
        ({
            let first = frame(e.op, e.key, e.value);
            let bytes = before + first + after;
            scan_from(bytes, before.len()) == match scan_from(
                bytes,
                (before + first).len(),
            ) {
                Err(err) => Err(err),
                Ok(rest) => Ok(seq![e] + rest),
            }
        }),
{
    let first = frame(e.op, e.key, e.value);
    frame_alone(e.op, e.key, e.value);
    frame_found(before, first, after);
    assert(EntryView { op: e.op, key: e.key, value: e.value } == e);
}

/// Whether the log reads as `entries` from `offset` on.
#[verifier::opaque]
spec fn reads_as(bytes: Seq<u8>, offset: nat, entries: Seq<EntryView>) -> bool {
    scan_from(bytes, offset) == Ok::<Seq<EntryView>, ErrorView>(entries)
}

proof fn torn_reads_as_nothing(before: Seq<u8>, tail: Seq<u8>)
    requires
        torn_tail(tail),
    ensures
        reads_as(before + tail, before.len(), Seq::empty()),
{
    reveal(reads_as);
    assert((before + tail).skip(before.len() as int) =~= tail);
    assert(tail.skip(0) =~= tail);
}

proof fn entry_reads_first(before: Seq<u8>, e: EntryView, after: Seq<u8>, rest: Seq<EntryView>)
    requires
        entry_fault(e.op, e.key, e.value) is None,
        reads_as(
            before + frame(e.op, e.key, e.value) + after,
            (before + frame(e.op, e.key, e.value)).len(),
            rest,
        ),
    ensures
        reads_as(before + frame(e.op, e.key, e.value) + after, before.len(), seq![e] + rest),
{
    reveal(reads_as);
    scan_one(before, e, after);
}

/// A log that holds `entries` and then a torn tail reads back as `entries`,
/// from wherever in the file the log starts.
proof fn scan_of_log(before: Seq<u8>, entries: Seq<EntryView>, tail: Seq<u8>)
    requires
        loggable(entries),
        torn_tail(tail),
    ensures
        reads_as(before + (log_bytes(entries) + tail), before.len(), entries),
    decreases entries.len(),
{
    if entries.len() == 0 {
        assert(log_bytes(entries) + tail =~= tail);
        assert(entries =~= Seq::empty());
        torn_reads_as_nothing(before, tail);
    } else {
        let e = entries[0];
        let first = frame(e.op, e.key, e.value);
        let rest = entries.skip(1);
        let after = log_bytes(rest) + tail;
        loggable_rest(entries);
        scan_of_log(before + first, rest, tail);
        entry_reads_first(before, e, after, rest);
        assert(before + first + after =~= before + (log_bytes(entries) + tail));
        assert(seq![e] + rest =~= entries);
    }
}

/// Reading a log gives back exactly the entries that were appended to it, in
/// order, also when a crash left part of one more entry at its end.
pub proof fn log_roundtrip(entries: Seq<EntryView>, tail: Seq<u8>)
    requires
        loggable(entries),
        torn_tail(tail),
    ensures
        scan_log(log_bytes(entries) + tail) == Ok::<Seq<EntryView>, ErrorView>(entries),
{
    scan_of_log(Seq::empty(), entries, tail);
    assert(Seq::<u8>::empty() + (log_bytes(entries) + tail) =~= log_bytes(entries) + tail);
    reveal(reads_as);
}

proof fn scanned_entries_are_stored(bytes: Seq<u8>, offset: nat)
    requires
        offset <= bytes.len(),
        scan_from(bytes, offset) is Ok,
    ensures
        ({
            let entries = scan_from(bytes, offset)->Ok_0;
            let end = (offset + log_bytes(entries).len()) as int;
            &&& loggable(entries)
            &&& end <= bytes.len()
            &&& bytes.subrange(offset as int, end) == log_bytes(entries)
            &&& torn_tail(bytes.skip(end))
        }),
    decreases bytes.len() - offset,
{
    let entries = scan_from(bytes, offset)->Ok_0;
    let here = bytes.skip(offset as int);
    if torn_at(bytes, offset) {
        assert(log_bytes(entries) =~= Seq::empty());
        assert(bytes.subrange(offset as int, offset as int) =~= Seq::empty());
        assert(here.skip(0) =~= here);
    } else {
        let len = declared_frame_len(here);
        let chunk = frame_at(bytes, offset);
        let next = offset + len;
        let e = decode_frame(chunk)->Ok_0;
        let rest = scan_from(bytes, next)->Ok_0;
        assert(chunk.subrange(5, 7) =~= here.subrange(5, 7));
        assert(chunk.subrange(7, 11) =~= here.subrange(7, 11));
        read_entry_is_stored(chunk);
        read_entry_is_loggable(chunk);
        assert(chunk.take(len as int) =~= chunk);
        scanned_entries_are_stored(bytes, next);
        assert(entries == seq![e] + rest);
        assert(entries.skip(1) =~= rest);
        let end = (next + log_bytes(rest).len()) as int;
        assert(bytes.subrange(offset as int, end) =~= chunk + bytes.subrange(next as int, end));
        assert forall|i: int| 0 <= i < entries.len() implies entry_fault(
            (#[trigger] entries[i]).op,
            entries[i].key,
            entries[i].value,
        ) is None by {
            if i > 0 {
                assert(entries[i] == rest[i - 1]);
            }
        }
    }
}

/// A log is read as the entries that are stored in it: its bytes are those entries, one
/// after the other, and then at most part of one more. Nothing is passed over.
pub proof fn read_log_is_stored(bytes: Seq<u8>)
    requires
        scan_log(bytes) is Ok,
    ensures
        ({
            let entries = scan_log(bytes)->Ok_0;
            let tail = bytes.skip(log_bytes(entries).len() as int);
            &&& loggable(entries)
            &&& bytes == log_bytes(entries) + tail
            &&& torn_tail(tail)
        }),
{
    scanned_entries_are_stored(bytes, 0);
    let entries = scan_log(bytes)->Ok_0;
    let end = log_bytes(entries).len() as int;
    assert(bytes =~= bytes.subrange(0, end) + bytes.skip(end));
}

/// Every proper beginning of a stored entry is a torn tail.
pub proof fn cut_frame_is_torn(e: EntryView, cut: nat)
    requires
        entry_fault(e.op, e.key, e.value) is None,
        cut < frame(e.op, e.key, e.value).len(),
    ensures
        torn_tail(frame(e.op, e.key, e.value).subrange(0, cut as int)),
{
    let whole = frame(e.op, e.key, e.value);
    let tail = whole.subrange(0, cut as int);
    frame_alone(e.op, e.key, e.value);
    assert(tail.skip(0) =~= tail);
    if cut >= HEADER_LEN {
        assert(tail.subrange(5, 7) =~= whole.subrange(5, 7));
        assert(tail.subrange(7, 11) =~= whole.subrange(7, 11));
    }
}

/// A complete frame that does not decode is reported, whatever comes before or
/// after it: it is never skipped, and the log yields no entries at all.
pub proof fn corruption_is_reported(entries: Seq<EntryView>, bad: Seq<u8>, after: Seq<u8>)
    requires
        loggable(entries),
        bad.len() >= HEADER_LEN,
        declared_frame_len(bad) == bad.len(),
        decode_frame(bad) is Err,
    ensures
        scan_log(log_bytes(entries) + bad + after) == Err::<Seq<EntryView>, ErrorView>(
            frame_failure(log_bytes(entries).len(), decode_frame(bad)->Err_0),
        ),
{
    corruption_from(Seq::empty(), entries, bad, after);
    let bytes = log_bytes(entries) + (bad + after);
    assert(Seq::<u8>::empty() + bytes =~= log_bytes(entries) + bad + after);
    reveal(fails_as);
}

/// The report of a frame that does not decode names the byte at which the frame starts,
/// and says what is wrong with it.
pub proof fn failure_names_the_place(offset: nat, e: ErrorView)
    ensures
        frame_failure(offset, e) == ErrorView::Corruption(
            "wal entry at byte "@ + decimal(offset) + " failed to decode: "@ + error_text(e),
        ),
{
}

/// Whether reading the log from `offset` on fails with `e`.
#[verifier::opaque]
spec fn fails_as(bytes: Seq<u8>, offset: nat, e: ErrorView) -> bool {
    scan_from(bytes, offset) == Err::<Seq<EntryView>, ErrorView>(e)
}

proof fn bad_frame_fails(before: Seq<u8>, bad: Seq<u8>, after: Seq<u8>)
    requires
        bad.len() >= HEADER_LEN,
        declared_frame_len(bad) == bad.len(),
        decode_frame(bad) is Err,
    ensures
        fails_as(
            before + (bad + after),
            before.len(),
            frame_failure(before.len(), decode_frame(bad)->Err_0),
        ),
{
    reveal(fails_as);
    frame_found(before, bad, after);
    assert(before + bad + after =~= before + (bad + after));
}

proof fn entry_passes_failure(before: Seq<u8>, e: EntryView, after: Seq<u8>, err: ErrorView)
    requires
        entry_fault(e.op, e.key, e.value) is None,
        fails_as(
            before + frame(e.op, e.key, e.value) + after,
            (before + frame(e.op, e.key, e.value)).len(),
            err,
        ),
    ensures
        fails_as(before + frame(e.op, e.key, e.value) + after, before.len(), err),
{
    reveal(fails_as);
    scan_one(before, e, after);
}

proof fn corruption_from(before: Seq<u8>, entries: Seq<EntryView>, bad: Seq<u8>, after: Seq<u8>)
    requires
        loggable(entries),
        bad.len() >= HEADER_LEN,
        declared_frame_len(bad) == bad.len(),
        decode_frame(bad) is Err,
    ensures
        fails_as(
            before + (log_bytes(entries) + (bad + after)),
            before.len(),
            frame_failure(before.len() + log_bytes(entries).len(), decode_frame(bad)->Err_0),
        ),
    decreases entries.len(),
{
    let tail = bad + after;
    if entries.len() == 0 {
        assert(log_bytes(entries) + tail =~= tail);
        bad_frame_fails(before, bad, after);
    } else {
        let e = entries[0];
        let first = frame(e.op, e.key, e.value);
        let rest = entries.skip(1);
        loggable_rest(entries);
        corruption_from(before + first, rest, bad, after);
        entry_passes_failure(
            before,
            e,
            log_bytes(rest) + tail,
            frame_failure(before.len() + log_bytes(entries).len(), decode_frame(bad)->Err_0),
        );
        assert(before + first + (log_bytes(rest) + tail) =~= before + (log_bytes(entries) + tail));
    }
}

/// A write-ahead log that was read into memory. It can be scanned any number of
/// times.
pub struct WalReader {
    path: String,
    bytes: Vec<u8>,
}

impl WalReader {
    /// The bytes of the log.
    pub closed spec fn bytes(self) -> Seq<u8> {
        self.bytes@
    }

    /// The name under which the log was opened.
    pub closed spec fn path_view(self) -> Seq<char> {
        self.path@
    }

    /// A reader over the log `bytes`, read from the file called `path`.
    pub fn open(path: &str, bytes: Vec<u8>) -> (reader: Self)
        ensures
            reader.bytes() == bytes@,
            reader.path_view() == path@,
    {
        WalReader { path: String::from_str(path), bytes }
    }

    /// Every complete entry of the log, in file order.
    ///
    /// A log that ends in the middle of an entry yields the entries before it.
    /// A fully present frame that fails its checksum, carries an invalid op byte
    /// or deletes with a value is `Corruption`.
    pub fn read_all(&self) -> (r: Result<Vec<WalEntry>>)
        ensures
            match r {
                Ok(entries) => scan_log(self.bytes()) == Ok::<Seq<EntryView>, ErrorView>(
                    entry_views(entries@),
                ),
                Err(e) => scan_log(self.bytes()) == Err::<Seq<EntryView>, ErrorView>(e@),
            },
    {
        self.scan()
    }

    /// Applies the log to `memtable`, entry by entry, and returns how many
    /// entries there were. Nothing is applied if any complete frame of the log
    /// is corrupt.
    pub fn replay_into(&self, memtable: &mut MemTable) -> (r: Result<u64>)
        ensures
            match r {
                Ok(applied) => {
                    &&& scan_log(self.bytes()) matches Ok(entries)
                    &&& applied == entries.len()
                    &&& final(memtable)@ == replayed(old(memtable)@, entries)
                    &&& final(memtable).size() == replayed_size(old(memtable).size(), entries)
                },
                Err(e) => scan_log(self.bytes()) == Err::<Seq<EntryView>, ErrorView>(e@)
                    && *final(memtable) == *old(memtable),
            },
    {
        let entries: Vec<WalEntry> = match self.scan() {
            Ok(entries) => entries,
            Err(e) => {
                return Err(e);
            },
        };
        let ghost start = memtable@;
        let ghost start_size = memtable.size();
        let ghost all = entry_views(entries@);
        let mut i: usize = 0;
        proof {
            assert(all.take(0) =~= Seq::empty());
        }
        while i < entries.len()
            invariant
                i <= entries.len(),
                all == entry_views(entries@),
                memtable@ == replayed(start, all.take(i as int)),
                memtable.size() == replayed_size(start_size, all.take(i as int)),
            decreases entries.len() - i,
        {
            proof {
                assert(all.take(i + 1).drop_last() =~= all.take(i as int));
                assert(all.take(i + 1).last() == entries@[i as int]@);
            }
            match entries[i].op {
                WalOp::Put => {
                    let _ = memtable.put(entries[i].key.as_slice(), entries[i].value.as_slice());
                },
                WalOp::Delete => {
                    let _ = memtable.delete(entries[i].key.as_slice());
                },
            }
            i = i + 1;
        }
        proof {
            assert(all.take(i as int) =~= all);
        }
        Ok(entries.len() as u64)
    }

    /// The name under which the log was opened.
    pub fn path(&self) -> (path: &str)
        ensures
            path@ == self.path_view(),
    {
        self.path.as_str()
    }

    fn scan(&self) -> (r: Result<Vec<WalEntry>>)
        ensures
            match r {
                Ok(entries) => scan_log(self.bytes()) == Ok::<Seq<EntryView>, ErrorView>(
                    entry_views(entries@),
                ),
                Err(e) => scan_log(self.bytes()) == Err::<Seq<EntryView>, ErrorView>(e@),
            },
    {
        let bytes: &[u8] = self.bytes.as_slice();
        let mut entries: Vec<WalEntry> = Vec::new();
        let mut offset: usize = 0;
        proof {
            assert(entry_views(entries@) =~= Seq::empty());
            if scan_log(bytes@) is Ok {
                assert(Seq::<EntryView>::empty() + scan_log(bytes@)->Ok_0 =~= scan_log(
                    bytes@,
                )->Ok_0);
            }
        }
        loop
            invariant
                bytes@ == self.bytes(),
                offset <= bytes.len(),
                match scan_from(bytes@, offset as nat) {
                    Ok(rest) => scan_log(bytes@) == Ok::<Seq<EntryView>, ErrorView>(
                        entry_views(entries@) + rest,
                    ),
                    Err(e) => scan_log(bytes@) == Err::<Seq<EntryView>, ErrorView>(e),
                },
            decreases bytes.len() - offset,
        {
            let remaining: usize = bytes.len() - offset;
            let ghost here = bytes@.skip(offset as int);
            if remaining < HEADER_LEN {
                proof {
                    assert(entry_views(entries@) + Seq::<EntryView>::empty() =~= entry_views(
                        entries@,
                    ));
                }
                return Ok(entries);
            }
            let header: &[u8] = vstd::slice::slice_subrange(bytes, offset, offset + HEADER_LEN);
            proof {
                assert(header@.subrange(5, 7) =~= here.subrange(5, 7));
                assert(header@.subrange(7, 11) =~= here.subrange(7, 11));
            }
            let key_len: usize = utils::read_u16(header, 5)? as usize;
            let val_len: usize = utils::read_u32(header, 7)? as usize;
            let payload: usize = remaining - HEADER_LEN;
            if key_len > payload || val_len > payload - key_len {
                proof {
                    assert(entry_views(entries@) + Seq::<EntryView>::empty() =~= entry_views(
                        entries@,
                    ));
                }
                return Ok(entries);
            }
            let frame_len: usize = HEADER_LEN + key_len + val_len;
            let one: &[u8] = vstd::slice::slice_subrange(bytes, offset, offset + frame_len);
            match decode_entry(one) {
                Err(e) => {
                    let mut s: String = String::from_str("wal entry at byte ");
                    append_decimal(&mut s, offset as u64);
                    s.append(" failed to decode: ");
                    s.append(e.to_string().as_str());
                    return Err(LsmError::Corruption(s));
                },
                Ok(entry) => {
                    let ghost before = entries@;
                    entries.push(entry);
                    proof {
                        assert(entry_views(entries@) =~= entry_views(before).push(entry@));
                        if let Ok(rest) = scan_from(bytes@, (offset + frame_len) as nat) {
                            assert(entry_views(before) + (seq![entry@] + rest) =~= entry_views(
                                entries@,
                            ) + rest);
                        }
                    }
                    offset = offset + frame_len;
                },
            }
        }
    }
}

} // verus!
