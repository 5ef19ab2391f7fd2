//! The record framing inside data blocks:
//! `[key_len u16][flags u8][value_len u32][key][value]`, integers in
//! little-endian order. Bit 0 of the flags marks a tombstone; a put of an empty
//! value has no flag set.

use super::{FLAG_DELETED, MAX_KEY_LEN, MAX_VALUE_LEN};
use crate::error::{ErrorView, LsmError, Outcome, Result};
use crate::model::{record_views, Record, RecordView};
use crate::text::{append_decimal, decimal};
use crate::utils;
use vstd::prelude::*;

verus! {

/// Bytes of a record before its key.
pub const RECORD_HEADER_LEN: usize = 7;

/// Why a record cannot be stored, if it cannot.
pub open spec fn record_fault(key: Seq<u8>, value: Seq<u8>) -> Option<ErrorView> {
    if key.len() > MAX_KEY_LEN {
        Some(ErrorView::KeyTooLarge(key.len(), MAX_KEY_LEN as nat))
    } else if value.len() > MAX_VALUE_LEN {
        Some(ErrorView::ValueTooLarge(value.len(), MAX_VALUE_LEN as nat))
    } else {
        None
    }
}

pub open spec fn flags_of(deleted: bool) -> u8 {
    if deleted {
        FLAG_DELETED
    } else {
        0
    }
}

/// A record as it is stored.
#[verifier::opaque]
pub open spec fn record_bytes(r: RecordView) -> Seq<u8> {
    utils::le_bytes(r.0.len(), 2) + seq![flags_of(r.2)] + utils::le_bytes(r.1.len(), 4) + r.0 + r.1
}

/// Records as they are stored, one after the other.
pub open spec fn run_bytes(rs: Seq<RecordView>) -> Seq<u8>
    decreases rs.len(),
{
    if rs.len() == 0 {
        Seq::empty()
    } else {
        run_bytes(rs.drop_last()) + record_bytes(rs.last())
    }
}

/// Whether every record can be stored.
pub open spec fn storable(rs: Seq<RecordView>) -> bool {
    forall|i: int|
        0 <= i < rs.len() ==> record_fault((#[trigger] rs[i]).0, rs[i].1) is None
}

pub open spec fn short_record_text(offset: nat) -> Seq<char> {
    "sstable record at offset "@ + decimal(offset) + " shorter than header"@
}

pub open spec fn truncated_record_text(offset: nat, total: nat, remaining: nat) -> Seq<char> {
    "sstable record at offset "@ + decimal(offset) + " truncated: header declares "@ + decimal(
        total,
    ) + " bytes, only "@ + decimal(remaining) + " available"@
}

/// The record at `offset` and its length.
pub open spec fn record_at(bytes: Seq<u8>, offset: nat) -> Outcome<(RecordView, nat)> {
    let remaining = if offset <= bytes.len() {
        (bytes.len() - offset) as nat
    } else {
        0
    };
    if remaining < RECORD_HEADER_LEN {
        Err(ErrorView::Corruption(short_record_text(offset)))
    } else {
        let start = offset as int;
        let key_len = utils::le_value(bytes.subrange(start, start + 2));
        let flags = bytes[start + 2];
        let value_len = utils::le_value(bytes.subrange(start + 3, start + 7));
        let total = RECORD_HEADER_LEN as nat + key_len + value_len;
        if total > remaining {
            Err(ErrorView::Corruption(truncated_record_text(offset, total, remaining)))
        } else {
            let key_start = start + RECORD_HEADER_LEN;
            Ok(
                (
                    (
                        bytes.subrange(key_start, key_start + key_len),
                        bytes.subrange(key_start + key_len, start + total),
                        flags & FLAG_DELETED != 0,
                    ),
                    total,
                ),
            )
        }
    }
}

/// The records from `offset` to the end of `data`.
pub open spec fn records_from(data: Seq<u8>, offset: nat) -> Outcome<Seq<RecordView>>
    decreases data.len() - offset,
{
    if offset >= data.len() {
        Ok(Seq::empty())
    } else {
        match record_at(data, offset) {
            Err(e) => Err(e),
            Ok((r, total)) => match records_from(data, offset + total) {
                Err(e) => Err(e),
                Ok(rest) => Ok(seq![r] + rest),
            },
        }
    }
}

/// The stored length of a record.
pub proof fn record_bytes_len(r: RecordView)
    ensures
        record_bytes(r).len() == RECORD_HEADER_LEN + r.0.len() + r.1.len(),
{
    reveal(record_bytes);
    utils::le_bytes_len(r.0.len(), 2);
    utils::le_bytes_len(r.1.len(), 4);
}

/// A table takes every key of up to 65535 bytes and every value of up to 4294967295
/// bytes, whatever they hold, and no others; the key is looked at first.
pub proof fn record_limits(key: Seq<u8>, value: Seq<u8>)
    ensures
        record_fault(key, value) is None <==> key.len() <= 65535 && value.len() <= 4294967295,
        key.len() > 65535 ==> record_fault(key, value) == Some(
            ErrorView::KeyTooLarge(key.len(), 65535),
        ),
        key.len() <= 65535 && value.len() > 4294967295 ==> record_fault(key, value) == Some(
            ErrorView::ValueTooLarge(value.len(), 4294967295),
        ),
{
}

/// The bytes of a stored record, one by one: the key length, low byte first; 1 for a
/// tombstone and 0 otherwise; the value length, low byte first; the key; the value.
pub proof fn record_byte_by_byte(r: RecordView)
    requires
        r.0.len() <= 65535,
        r.1.len() <= 4294967295,
    ensures
        ({
            let b = record_bytes(r);
            &&& b.len() == 7 + r.0.len() + r.1.len()
            &&& b[0] + 0x100 * b[1] == r.0.len()
            &&& b[2] == if r.2 {
                1u8
            } else {
                0u8
            }
            &&& b[3] + 0x100 * b[4] + 0x1_0000 * b[5] + 0x100_0000 * b[6] == r.1.len()
            &&& forall|i: int| 0 <= i < r.0.len() ==> b[7 + i] == #[trigger] r.0[i]
            &&& forall|i: int| 0 <= i < r.1.len() ==> b[7 + r.0.len() + i] == #[trigger] r.1[i]
        }),
{
    reveal(record_bytes);
    let klen = utils::le_bytes(r.0.len(), 2);
    let vlen = utils::le_bytes(r.1.len(), 4);
    utils::le_limits();
    utils::le_bytes_len(r.0.len(), 2);
    utils::le_bytes_len(r.1.len(), 4);
    utils::le_roundtrip(r.0.len(), 2);
    utils::le_roundtrip(r.1.len(), 4);
    utils::bytes_add_up(klen);
    utils::bytes_add_up(vlen);
}

/// What is read of a record, byte by byte: the lengths are those of the header, and
/// it is a tombstone if the lowest bit of the flags is set, whatever the other bits
/// are. A record is read exactly if its header and its payload are there.
pub proof fn record_is_read_bytewise(bytes: Seq<u8>, offset: nat)
    ensures
        record_at(bytes, offset) is Ok <==> {
            let at = offset as int;
            &&& offset + 7 <= bytes.len()
            &&& offset + 7 + (bytes[at] + 0x100 * bytes[at + 1]) + (bytes[at + 3] + 0x100
                * bytes[at + 4] + 0x1_0000 * bytes[at + 5] + 0x100_0000 * bytes[at + 6])
                <= bytes.len()
        },
        record_at(bytes, offset) matches Ok((r, total)) ==> {
            let at = offset as int;
            &&& r.0.len() == bytes[at] + 0x100 * bytes[at + 1]
            &&& r.1.len() == bytes[at + 3] + 0x100 * bytes[at + 4] + 0x1_0000 * bytes[at + 5]
                + 0x100_0000 * bytes[at + 6]
            &&& total == 7 + r.0.len() + r.1.len()
            &&& r.2 <==> bytes[at + 2] % 2 == 1
            &&& forall|i: int| 0 <= i < r.0.len() ==> #[trigger] r.0[i] == bytes[at + 7 + i]
            &&& forall|i: int|
                0 <= i < r.1.len() ==> #[trigger] r.1[i] == bytes[at + 7 + r.0.len() + i]
        },
{
    let at = offset as int;
    if offset + 7 <= bytes.len() {
        let klen = bytes.subrange(at, at + 2);
        let vlen = bytes.subrange(at + 3, at + 7);
        utils::bytes_add_up(klen);
        utils::bytes_add_up(vlen);
        let flags = bytes[at + 2];
        assert((flags & 1 != 0) == (flags % 2 == 1)) by (bit_vector);
    }
}

/// What is said of a record that cannot be read: where it starts, and, if its header is
/// there, how many bytes that declares and how many there are.
pub proof fn unread_record_says_why(bytes: Seq<u8>, offset: nat)
    requires
        offset <= bytes.len(),
    ensures
        offset + 7 > bytes.len() ==> record_at(bytes, offset) == Err::<
            (RecordView, nat),
            ErrorView,
        >(
            ErrorView::Corruption(
                "sstable record at offset "@ + decimal(offset) + " shorter than header"@,
            ),
        ),
        offset + 7 <= bytes.len() && record_at(bytes, offset) is Err ==> record_at(bytes, offset)
            == Err::<(RecordView, nat), ErrorView>(
            ErrorView::Corruption(
                "sstable record at offset "@ + decimal(offset) + " truncated: header declares "@
                    + decimal(
                    (7 + (bytes[offset as int] + 0x100 * bytes[offset as int + 1]) + (
                    bytes[offset as int + 3] + 0x100 * bytes[offset as int + 4] + 0x1_0000
                        * bytes[offset as int + 5] + 0x100_0000 * bytes[offset as int + 6])) as nat,
                ) + " bytes, only "@ + decimal((bytes.len() - offset) as nat) + " available"@,
            ),
        ),
{
    let at = offset as int;
    if offset + 7 <= bytes.len() {
        utils::bytes_add_up(bytes.subrange(at, at + 2));
        utils::bytes_add_up(bytes.subrange(at + 3, at + 7));
    }
}

/// A stored record is read back where it stands, whatever is around it.
pub proof fn record_roundtrip(before: Seq<u8>, r: RecordView, after: Seq<u8>)
    requires
        record_fault(r.0, r.1) is None,
    ensures
        record_bytes(r).len() == RECORD_HEADER_LEN + r.0.len() + r.1.len(),
        record_at(before + record_bytes(r) + after, before.len()) == Ok::<
            (RecordView, nat),
            ErrorView,
        >((r, record_bytes(r).len())),
{
    reveal(record_bytes);
    let bytes = before + record_bytes(r) + after;
    let start = before.len() as int;
    let klen = utils::le_bytes(r.0.len(), 2);
    let vlen = utils::le_bytes(r.1.len(), 4);
    utils::le_limits();
    utils::le_bytes_len(r.0.len(), 2);
    utils::le_bytes_len(r.1.len(), 4);
    utils::le_roundtrip(r.0.len(), 2);
    utils::le_roundtrip(r.1.len(), 4);
    assert(bytes.subrange(start, start + 2) =~= klen);
    assert(bytes[start + 2] == flags_of(r.2));
    assert(bytes.subrange(start + 3, start + 7) =~= vlen);
    assert(bytes.subrange(start + 7, start + 7 + r.0.len()) =~= r.0);
    assert(bytes.subrange(start + 7 + r.0.len(), start + 7 + r.0.len() + r.1.len()) =~= r.1);
    assert(1u8 & 1u8 != 0) by (bit_vector);
    assert(0u8 & 1u8 == 0) by (bit_vector);
}

/// Storing two runs one after the other stores the joined run.
pub proof fn run_bytes_concat(a: Seq<RecordView>, b: Seq<RecordView>)
    ensures
        run_bytes(a + b) == run_bytes(a) + run_bytes(b),
    decreases b.len(),
{
    if b.len() == 0 {
        assert(a + b =~= a);
        assert(run_bytes(a) + run_bytes(b) =~= run_bytes(a));
    } else {
        run_bytes_concat(a, b.drop_last());
        assert((a + b).drop_last() =~= a + b.drop_last());
        assert(run_bytes(a + b) =~= run_bytes(a) + run_bytes(b));
    }
}

pub proof fn run_bytes_one(r: RecordView)
    ensures
        run_bytes(seq![r]) == record_bytes(r),
{
    reveal_with_fuel(run_bytes, 2);
    assert(seq![r].drop_last() =~= Seq::empty());
    assert(run_bytes(seq![r]) =~= record_bytes(r));
}

/// A run starts with its first record.
pub proof fn run_bytes_first(rs: Seq<RecordView>)
    requires
        rs.len() > 0,
    ensures
        run_bytes(rs) == record_bytes(rs[0]) + run_bytes(rs.skip(1)),
{
    assert(seq![rs[0]] + rs.skip(1) =~= rs);
    run_bytes_concat(seq![rs[0]], rs.skip(1));
    run_bytes_one(rs[0]);
}

pub proof fn storable_rest(rs: Seq<RecordView>)
    requires
        storable(rs),
        rs.len() > 0,
    ensures
        storable(rs.skip(1)),
{
    let rest = rs.skip(1);
    assert forall|i: int| 0 <= i < rest.len() implies record_fault(
        (#[trigger] rest[i]).0,
        rest[i].1,
    ) is None by {
        assert(rest[i] == rs[i + 1]);
    }
}

proof fn records_of_run(before: Seq<u8>, rs: Seq<RecordView>)
    requires
        storable(rs),
    ensures
        records_from(before + run_bytes(rs), before.len()) == Ok::<Seq<RecordView>, ErrorView>(rs),
    decreases rs.len(),
{
    let data = before + run_bytes(rs);
    if rs.len() == 0 {
        assert(rs =~= Seq::empty());
    } else {
        let rest = rs.skip(1);
        run_bytes_first(rs);
        storable_rest(rs);
        record_roundtrip(before, rs[0], run_bytes(rest));
        assert(before + record_bytes(rs[0]) + run_bytes(rest) =~= data);
        records_of_run(before + record_bytes(rs[0]), rest);
        assert(before + record_bytes(rs[0]) + run_bytes(rest) =~= (before + record_bytes(rs[0]))
            + run_bytes(rest));
        assert(seq![rs[0]] + rest =~= rs);
    }
}

/// Reading a stored run gives back its records, in order.
pub proof fn run_roundtrip(rs: Seq<RecordView>)
    requires
        storable(rs),
    ensures
        records_from(run_bytes(rs), 0) == Ok::<Seq<RecordView>, ErrorView>(rs),
{
    records_of_run(Seq::empty(), rs);
    assert(Seq::<u8>::empty() + run_bytes(rs) =~= run_bytes(rs));
}

/// A run that was read is as long as its records when they are stored, and they can be
/// stored: nothing in it was passed over.
pub proof fn read_run_is_whole(data: Seq<u8>, offset: nat)
    requires
        offset <= data.len(),
        records_from(data, offset) is Ok,
    ensures
        storable(records_from(data, offset)->Ok_0),
        run_bytes(records_from(data, offset)->Ok_0).len() == data.len() - offset,
    decreases data.len() - offset,
{
    let rs = records_from(data, offset)->Ok_0;
    if offset < data.len() {
        let (r, total) = record_at(data, offset)->Ok_0;
        let rest = records_from(data, offset + total)->Ok_0;
        record_is_read_bytewise(data, offset);
        read_run_is_whole(data, offset + total);
        assert(rs == seq![r] + rest);
        run_bytes_concat(seq![r], rest);
        run_bytes_one(r);
        record_bytes_len(r);
        assert forall|i: int| 0 <= i < rs.len() implies record_fault(
            (#[trigger] rs[i]).0,
            rs[i].1,
        ) is None by {
            if i > 0 {
                assert(rs[i] == rest[i - 1]);
            }
        }
    }
}

/// A record is read or not by its own bytes, wherever they stand.
pub proof fn damage_stays(before: Seq<u8>, bad: Seq<u8>)
    requires
        record_at(bad, 0) is Err,
    ensures
        record_at(before + bad, before.len()) is Err,
{
    record_is_read_bytewise(bad, 0);
    record_is_read_bytewise(before + bad, before.len());
    let at = before.len() as int;
    let all = before + bad;
    if bad.len() >= 7 {
        assert(all[at] == bad[0] && all[at + 1] == bad[1] && all[at + 3] == bad[3]);
        assert(all[at + 4] == bad[4] && all[at + 5] == bad[5] && all[at + 6] == bad[6]);
    }
}

proof fn damage_found_from(before: Seq<u8>, rs: Seq<RecordView>, bad: Seq<u8>)
    requires
        storable(rs),
        bad.len() > 0,
        record_at(bad, 0) is Err,
    ensures
        records_from(before + (run_bytes(rs) + bad), before.len()) is Err,
    decreases rs.len(),
{
    let data = before + (run_bytes(rs) + bad);
    if rs.len() == 0 {
        assert(data =~= before + bad);
        damage_stays(before, bad);
    } else {
        let rest = rs.skip(1);
        let first = record_bytes(rs[0]);
        run_bytes_first(rs);
        storable_rest(rs);
        record_roundtrip(before, rs[0], run_bytes(rest) + bad);
        assert(before + first + (run_bytes(rest) + bad) =~= data);
        damage_found_from(before + first, rest, bad);
    }
}

/// A record that cannot be read is reported, whatever stands before it.
pub proof fn damaged_run_is_reported(rs: Seq<RecordView>, bad: Seq<u8>)
    requires
        storable(rs),
        bad.len() > 0,
        record_at(bad, 0) is Err,
    ensures
        records_from(run_bytes(rs) + bad, 0) is Err,
{
    damage_found_from(Seq::empty(), rs, bad);
    assert(Seq::<u8>::empty() + (run_bytes(rs) + bad) =~= run_bytes(rs) + bad);
}

/// The stored length of a record.
pub fn record_len(key_len: usize, value_len: usize) -> (len: usize)
    requires
        RECORD_HEADER_LEN + key_len + value_len <= usize::MAX,
    ensures
        len == RECORD_HEADER_LEN + key_len + value_len,
{
    RECORD_HEADER_LEN + key_len + value_len
}

/// Appends one record to `buf`. A record that cannot be stored is rejected and
/// leaves `buf` as it was.
pub fn put_record(buf: &mut Vec<u8>, key: &[u8], value: &[u8], deleted: bool) -> (r: Result<()>)
    ensures
        match r {
            Ok(()) => record_fault(key@, value@) is None && final(buf)@ == old(buf)@
                + record_bytes((key@, value@, deleted)),
            Err(e) => record_fault(key@, value@) == Some(e@) && final(buf)@ == old(buf)@,
        },
        r is Ok <==> key@.len() <= 65535 && value@.len() <= 4294967295,
{
    if key.len() > MAX_KEY_LEN {
        return Err(LsmError::KeyTooLarge(key.len(), MAX_KEY_LEN));
    }
    if value.len() > MAX_VALUE_LEN {
        return Err(LsmError::ValueTooLarge(value.len(), MAX_VALUE_LEN));
    }
    let ghost before = buf@;
    let flags: u8 = if deleted {
        FLAG_DELETED
    } else {
        0
    };
    utils::put_u16(buf, key.len() as u16);
    buf.push(flags);
    utils::put_u32(buf, value.len() as u32);
    utils::put_bytes(buf, key);
    utils::put_bytes(buf, value);
    proof {
        reveal(record_bytes);
        assert(buf@ =~= before + record_bytes((key@, value@, deleted)));
    }
    Ok(())
}

/// Decodes the record at `offset` into key, value, deletion mark and stored
/// length. `Corruption` if no whole header is left there, or if the payload that
/// the header declares runs past the end of `bytes`.
pub fn read_record(bytes: &[u8], offset: usize) -> (r: Result<(Vec<u8>, Vec<u8>, bool, usize)>)
    ensures
        match r {
            Ok(v) => record_at(bytes@, offset as nat) == Ok::<(RecordView, nat), ErrorView>(
                ((v.0@, v.1@, v.2), v.3 as nat),
            ),
            Err(e) => record_at(bytes@, offset as nat) == Err::<(RecordView, nat), ErrorView>(e@),
        },
{
    let remaining: usize = if offset <= bytes.len() {
        bytes.len() - offset
    } else {
        0
    };
    if remaining < RECORD_HEADER_LEN {
        let mut s: String = String::from_str("sstable record at offset ");
        append_decimal(&mut s, offset as u64);
        s.append(" shorter than header");
        return Err(LsmError::Corruption(s));
    }
    let key_len: usize = utils::read_u16(bytes, offset)? as usize;
    let flags: u8 = bytes[offset + 2];
    let value_len: usize = utils::read_u32(bytes, offset + 3)? as usize;
    let payload: usize = remaining - RECORD_HEADER_LEN;
    if key_len > payload || value_len > payload - key_len {
        let mut s: String = String::from_str("sstable record at offset ");
        append_decimal(&mut s, offset as u64);
        s.append(" truncated: header declares ");
        append_decimal(&mut s, 7 + key_len as u64 + value_len as u64);
        s.append(" bytes, only ");
        append_decimal(&mut s, remaining as u64);
        s.append(" available");
        return Err(LsmError::Corruption(s));
    }
    let total: usize = record_len(key_len, value_len);
    let key_start: usize = offset + RECORD_HEADER_LEN;
    let value_start: usize = key_start + key_len;
    let key: Vec<u8> = utils::copy_bytes(
        vstd::slice::slice_subrange(bytes, key_start, value_start),
    );
    let value: Vec<u8> = utils::copy_bytes(
        vstd::slice::slice_subrange(bytes, value_start, offset + total),
    );
    Ok((key, value, (flags & FLAG_DELETED) != 0, total))
}

/// Decodes every record of `data`, in order. `Corruption` if any record fails
/// to decode.
pub fn read_records(data: &[u8]) -> (r: Result<Vec<Record>>)
    ensures
        match r {
            Ok(rs) => records_from(data@, 0) == Ok::<Seq<RecordView>, ErrorView>(
                record_views(rs@),
            ),
            Err(e) => records_from(data@, 0) == Err::<Seq<RecordView>, ErrorView>(e@),
        },
{
    let mut out: Vec<Record> = Vec::new();
    let mut offset: usize = 0;
    proof {
        if let Ok(all) = records_from(data@, 0) {
            assert(record_views(out@) + all =~= all);
        }
    }
    while offset < data.len()
        invariant
            offset <= data.len(),
            match records_from(data@, offset as nat) {
                Ok(rest) => records_from(data@, 0) == Ok::<Seq<RecordView>, ErrorView>(
                    record_views(out@) + rest,
                ),
                Err(e) => records_from(data@, 0) == Err::<Seq<RecordView>, ErrorView>(e),
            },
        decreases data.len() - offset,
    {
        let (key, value, deleted, consumed) = match read_record(data, offset) {
            Ok(v) => v,
            Err(e) => {
                return Err(e);
            },
        };
        let ghost before = out@;
        let ghost one = (key@, value@, deleted);
        out.push((key, value, deleted));
        proof {
            assert(record_views(out@) =~= record_views(before).push(one));
            if let Ok(rest) = records_from(data@, (offset + consumed) as nat) {
                assert(record_views(before) + (seq![one] + rest) =~= record_views(out@) + rest);
            }
        }
        offset = offset + consumed;
    }
    proof {
        assert(record_views(out@) + Seq::<RecordView>::empty() =~= record_views(out@));
    }
    Ok(out)
}

} // verus!
