//! Write-ahead log framing.
//!
//! Each entry is stored as
//! `[CRC32 u32][op u8][key_len u16][val_len u32][key][value]`, integers in
//! little-endian order. The CRC covers every byte after the CRC field, from the
//! op to the end of the value.

use crate::error::{ErrorView, LsmError, Outcome, Result};
use crate::text::{append_decimal, append_hex_byte, decimal, hex_byte};
use crate::utils;
use checksum::{checksum_tells_byte, crc32};
use vstd::prelude::*;

pub mod checksum;
pub mod reader;
pub mod writer;

verus! {

/// Bytes of an entry before its key.
pub const HEADER_LEN: usize = 11;

/// The longest key that an entry can hold.
pub const MAX_KEY_LEN: usize = 65535;

/// The longest value that an entry can hold.
pub const MAX_VALUE_LEN: usize = 4294967295;

/// What a log entry does to its key.
#[derive(Clone, Copy, Debug, PartialEq, Eq, Structural)]
pub enum WalOp {
    Put,
    Delete,
}

/// One entry of the log.
#[derive(Clone, Debug, PartialEq, Eq)]
pub struct WalEntry {
    pub op: WalOp,
    pub key: Vec<u8>,
    /// Empty for a delete; a put with an empty value is valid user data.
    pub value: Vec<u8>,
}

/// The mathematical content of a [`WalEntry`].
pub struct EntryView {
    pub op: WalOp,
    pub key: Seq<u8>,
    pub value: Seq<u8>,
}

impl View for WalEntry {
    type V = EntryView;

    open spec fn view(&self) -> EntryView {
        EntryView { op: self.op, key: self.key@, value: self.value@ }
    }
}

/// The byte that stands for an operation.
pub open spec fn op_byte(op: WalOp) -> u8 {
    match op {
        WalOp::Put => 0x01,
        WalOp::Delete => 0x02,
    }
}

/// The operation that a byte stands for.
pub open spec fn op_of(b: u8) -> Outcome<WalOp> {
    if b == 0x01 {
        Ok(WalOp::Put)
    } else if b == 0x02 {
        Ok(WalOp::Delete)
    } else {
        Err(ErrorView::InvalidOp("unknown wal op byte: 0x"@ + hex_byte(b)))
    }
}

impl WalOp {
    /// The operation that `b` stands for; `InvalidOp` if it stands for none.
    pub fn from_byte(b: u8) -> (r: Result<WalOp>)
        ensures
            match r {
                Ok(op) => op_of(b) == Ok::<WalOp, ErrorView>(op),
                Err(e) => op_of(b) == Err::<WalOp, ErrorView>(e@),
            },
    {
        if b == 0x01 {
            Ok(WalOp::Put)
        } else if b == 0x02 {
            Ok(WalOp::Delete)
        } else {
            let mut s: String = String::from_str("unknown wal op byte: 0x");
            append_hex_byte(&mut s, b);
            Err(LsmError::InvalidOp(s))
        }
    }

    /// The byte that stands for this operation.
    pub fn to_byte(self) -> (b: u8)
        ensures
            b == op_byte(self),
    {
        match self {
            WalOp::Put => 0x01,
            WalOp::Delete => 0x02,
        }
    }
}

/// Reading the byte of an operation gives the operation back.
pub proof fn op_roundtrip(op: WalOp)
    ensures
        op_of(op_byte(op)) == Ok::<WalOp, ErrorView>(op),
{
}

/// Why an entry cannot be logged, if it cannot.
pub open spec fn entry_fault(op: WalOp, key: Seq<u8>, value: Seq<u8>) -> Option<ErrorView> {
    if key.len() > MAX_KEY_LEN {
        Some(ErrorView::KeyTooLarge(key.len(), MAX_KEY_LEN as nat))
    } else if value.len() > MAX_VALUE_LEN {
        Some(ErrorView::ValueTooLarge(value.len(), MAX_VALUE_LEN as nat))
    } else if op is Delete && value.len() > 0 {
        Some(ErrorView::InvalidOp("delete entry must not carry a value"@))
    } else {
        None
    }
}

/// The log takes every key of up to 65535 bytes with every value of up to 4294967295
/// bytes, and a delete with no value; nothing else. The key is looked at first, the
/// operation last.
pub proof fn entry_limits(op: WalOp, key: Seq<u8>, value: Seq<u8>)
    ensures
        entry_fault(op, key, value) is None <==> {
            &&& key.len() <= 65535
            &&& value.len() <= 4294967295
            &&& op == WalOp::Delete ==> value.len() == 0
        },
        key.len() > 65535 ==> entry_fault(op, key, value) == Some(
            ErrorView::KeyTooLarge(key.len(), 65535),
        ),
        key.len() <= 65535 && value.len() > 4294967295 ==> entry_fault(op, key, value) == Some(
            ErrorView::ValueTooLarge(value.len(), 4294967295),
        ),
        key.len() <= 65535 && value.len() <= 4294967295 && op == WalOp::Delete && value.len() > 0
            ==> entry_fault(op, key, value) matches Some(ErrorView::InvalidOp(_)),
{
}

/// A put is stored as 1 and a delete as 2, and no other byte is read as either.
pub proof fn op_bytes(b: u8)
    ensures
        op_byte(WalOp::Put) == 1,
        op_byte(WalOp::Delete) == 2,
        op_of(b) == Ok::<WalOp, ErrorView>(WalOp::Put) <==> b == 1,
        op_of(b) == Ok::<WalOp, ErrorView>(WalOp::Delete) <==> b == 2,
        op_of(b) is Ok <==> b == 1 || b == 2,
        op_of(b) is Err ==> op_of(b) matches Err(ErrorView::InvalidOp(_)),
{
}

/// The part of an entry that its checksum covers.
pub open spec fn frame_body(op: WalOp, key: Seq<u8>, value: Seq<u8>) -> Seq<u8> {
    seq![op_byte(op)] + utils::le_bytes(key.len(), 2) + utils::le_bytes(value.len(), 4) + key
        + value
}

/// An entry as it is stored.
#[verifier::opaque]
pub open spec fn frame(op: WalOp, key: Seq<u8>, value: Seq<u8>) -> Seq<u8> {
    let body = frame_body(op, key, value);
    utils::le_bytes(crc32(body) as nat, 4) + body
}

/// The key and value lengths that a stored header declares.
pub open spec fn declared_key_len(bytes: Seq<u8>) -> nat {
    utils::le_value(bytes.subrange(5, 7))
}

pub open spec fn declared_value_len(bytes: Seq<u8>) -> nat {
    utils::le_value(bytes.subrange(7, 11))
}

/// The length of the entry that a stored header declares.
pub open spec fn declared_frame_len(bytes: Seq<u8>) -> nat {
    HEADER_LEN as nat + declared_key_len(bytes) + declared_value_len(bytes)
}

pub open spec fn short_header_text(len: nat) -> Seq<char> {
    "wal entry shorter than 11-byte header: "@ + decimal(len) + " bytes"@
}

pub open spec fn truncated_text(declared: nat, available: nat) -> Seq<char> {
    "wal entry truncated: header declares "@ + decimal(declared) + " payload bytes, only "@
        + decimal(available) + " available"@
}

/// The entry whose header and payload are at the start of `bytes`, given the
/// checksum computed over them. A delete has no value.
pub open spec fn opened_frame(bytes: Seq<u8>, op: WalOp, computed: u32) -> Outcome<EntryView> {
    if computed as nat != utils::le_value(bytes.subrange(0, 4)) {
        Err(ErrorView::Corruption("wal checksum mismatch"@))
    } else if op is Delete && declared_value_len(bytes) > 0 {
        Err(ErrorView::Corruption("wal delete entry carries a value"@))
    } else {
        let key_end = HEADER_LEN + declared_key_len(bytes);
        Ok(
            EntryView {
                op,
                key: bytes.subrange(HEADER_LEN as int, key_end as int),
                value: bytes.subrange(key_end as int, declared_frame_len(bytes) as int),
            },
        )
    }
}

/// The entry stored at the start of `bytes`.
pub open spec fn decode_frame(bytes: Seq<u8>) -> Outcome<EntryView> {
    if bytes.len() < HEADER_LEN {
        Err(ErrorView::Corruption(short_header_text(bytes.len())))
    } else {
        match op_of(bytes[4]) {
            Err(e) => Err(e),
            Ok(op) => if declared_frame_len(bytes) > bytes.len() {
                Err(
                    ErrorView::Corruption(
                        truncated_text(
                            declared_key_len(bytes) + declared_value_len(bytes),
                            (bytes.len() - HEADER_LEN) as nat,
                        ),
                    ),
                )
            } else {
                opened_frame(
                    bytes,
                    op,
                    crc32(bytes.subrange(4, declared_frame_len(bytes) as int)),
                )
            },
        }
    }
}

/// A stored entry is its header and its payload long, and its header declares
/// the lengths that were written.
pub proof fn frame_fields(op: WalOp, key: Seq<u8>, value: Seq<u8>, after: Seq<u8>)
    requires
        key.len() <= MAX_KEY_LEN,
        value.len() <= MAX_VALUE_LEN,
    ensures
        ({
            let bytes = frame(op, key, value) + after;
            let body = frame_body(op, key, value);
            &&& frame(op, key, value).len() == HEADER_LEN + key.len() + value.len()
            &&& bytes[4] == op_byte(op)
            &&& declared_key_len(bytes) == key.len()
            &&& declared_value_len(bytes) == value.len()
            &&& utils::le_value(bytes.subrange(0, 4)) == crc32(body)
            &&& bytes.subrange(4, (11 + key.len() + value.len()) as int) == body
            &&& bytes.subrange(11, (11 + key.len()) as int) == key
            &&& bytes.subrange((11 + key.len()) as int, (11 + key.len() + value.len()) as int)
                == value
        }),
{
    reveal(frame);
    let body = frame_body(op, key, value);
    let crc = utils::le_bytes(crc32(body) as nat, 4);
    let klen = utils::le_bytes(key.len(), 2);
    let vlen = utils::le_bytes(value.len(), 4);
    let bytes = frame(op, key, value) + after;
    utils::le_limits();
    utils::le_bytes_len(crc32(body) as nat, 4);
    utils::le_bytes_len(key.len(), 2);
    utils::le_bytes_len(value.len(), 4);
    utils::le_roundtrip(crc32(body) as nat, 4);
    utils::le_roundtrip(key.len(), 2);
    utils::le_roundtrip(value.len(), 4);
    assert(bytes.subrange(0, 4) =~= crc);
    assert(bytes.subrange(5, 7) =~= klen);
    assert(bytes.subrange(7, 11) =~= vlen);
    assert(bytes.subrange(4, (11 + key.len() + value.len()) as int) =~= body);
    assert(bytes.subrange(11, (11 + key.len()) as int) =~= key);
    assert(bytes.subrange((11 + key.len()) as int, (11 + key.len() + value.len()) as int)
        =~= value);
}

/// The bytes of a stored entry, one by one: the checksum of all that follows it, low
/// byte first; 1 for a put and 2 for a delete; the key length and the value length,
/// low byte first; the key; the value.
pub proof fn entry_byte_by_byte(op: WalOp, key: Seq<u8>, value: Seq<u8>)
    requires
        key.len() <= 65535,
        value.len() <= 4294967295,
    ensures
        ({
            let b = frame(op, key, value);
            &&& b.len() == 11 + key.len() + value.len()
            &&& b[0] + 0x100 * b[1] + 0x1_0000 * b[2] + 0x100_0000 * b[3] == crc32(b.skip(4))
            &&& b[4] == match op {
                WalOp::Put => 1u8,
                WalOp::Delete => 2u8,
            }
            &&& b[5] + 0x100 * b[6] == key.len()
            &&& b[7] + 0x100 * b[8] + 0x1_0000 * b[9] + 0x100_0000 * b[10] == value.len()
            &&& forall|i: int| 0 <= i < key.len() ==> b[11 + i] == #[trigger] key[i]
            &&& forall|i: int|
                0 <= i < value.len() ==> b[11 + key.len() + i] == #[trigger] value[i]
        }),
{
    let b = frame(op, key, value);
    frame_fields(op, key, value, Seq::empty());
    assert(b + Seq::<u8>::empty() =~= b);
    utils::bytes_add_up(b.subrange(0, 4));
    utils::bytes_add_up(b.subrange(5, 7));
    utils::bytes_add_up(b.subrange(7, 11));
    assert(b.skip(4) =~= b.subrange(4, b.len() as int));
    assert forall|i: int| 0 <= i < key.len() implies b[11 + i] == #[trigger] key[i] by {
        assert(b.subrange(11, (11 + key.len()) as int)[i] == key[i]);
    }
    assert forall|i: int| 0 <= i < value.len() implies b[11 + key.len() + i]
        == #[trigger] value[i] by {
        assert(b.subrange(
            (11 + key.len()) as int,
            (11 + key.len() + value.len()) as int,
        )[i] == value[i]);
    }
}

/// What is read of an entry, byte by byte. It is read exactly if the operation is one
/// of the two, header and payload are there, the checksum is that of all that follows
/// it, and a delete declares no value; the key and the value are then the bytes behind
/// the header.
pub proof fn entry_is_read_bytewise(bytes: Seq<u8>)
    ensures
        decode_frame(bytes) is Ok <==> {
            let key_len = bytes[5] + 0x100 * bytes[6];
            let value_len = bytes[7] + 0x100 * bytes[8] + 0x1_0000 * bytes[9] + 0x100_0000
                * bytes[10];
            &&& bytes.len() >= 11 + key_len + value_len
            &&& bytes[4] == 1 || bytes[4] == 2
            &&& bytes[4] == 2 ==> value_len == 0
            &&& bytes[0] + 0x100 * bytes[1] + 0x1_0000 * bytes[2] + 0x100_0000 * bytes[3] == crc32(
                bytes.subrange(4, 11 + key_len + value_len),
            )
        },
        decode_frame(bytes) matches Ok(e) ==> {
            &&& e.op == WalOp::Put <==> bytes[4] == 1
            &&& e.op == WalOp::Delete <==> bytes[4] == 2
            &&& e.key.len() == bytes[5] + 0x100 * bytes[6]
            &&& e.value.len() == bytes[7] + 0x100 * bytes[8] + 0x1_0000 * bytes[9] + 0x100_0000
                * bytes[10]
            &&& forall|i: int| 0 <= i < e.key.len() ==> #[trigger] e.key[i] == bytes[11 + i]
            &&& forall|i: int|
                0 <= i < e.value.len() ==> #[trigger] e.value[i] == bytes[11 + e.key.len() + i]
        },
{
    if bytes.len() >= HEADER_LEN {
        utils::bytes_add_up(bytes.subrange(0, 4));
        utils::bytes_add_up(bytes.subrange(5, 7));
        utils::bytes_add_up(bytes.subrange(7, 11));
    }
}

/// Why an entry is not read: a missing header, a payload that is cut short, a wrong
/// checksum and a delete with a value are `Corruption`; an unknown operation in a whole
/// header is `InvalidOp`, whatever else is wrong.
pub proof fn unread_entry_says_why(bytes: Seq<u8>)
    ensures
        decode_frame(bytes) matches Err(ErrorView::InvalidOp(_)) <==> bytes.len() >= 11 && bytes[4]
            != 1 && bytes[4] != 2,
        decode_frame(bytes) is Err && !(bytes.len() >= 11 && bytes[4] != 1 && bytes[4] != 2)
            ==> decode_frame(bytes) matches Err(ErrorView::Corruption(_)),
        ({
            let len = 11 + (bytes[5] + 0x100 * bytes[6]) + (bytes[7] + 0x100 * bytes[8] + 0x1_0000
                * bytes[9] + 0x100_0000 * bytes[10]);
            let checksum = bytes[0] + 0x100 * bytes[1] + 0x1_0000 * bytes[2] + 0x100_0000
                * bytes[3];
            &&& 11 <= len <= bytes.len() && (bytes[4] == 1 || bytes[4] == 2) && checksum != crc32(
                bytes.subrange(4, len),
            ) ==> decode_frame(bytes) == Err::<EntryView, ErrorView>(
                ErrorView::Corruption("wal checksum mismatch"@),
            )
            &&& 11 <= len <= bytes.len() && bytes[4] == 2 && checksum == crc32(
                bytes.subrange(4, len),
            ) && len > 11 + bytes[5] + 0x100 * bytes[6] ==> decode_frame(bytes) == Err::<
                EntryView,
                ErrorView,
            >(ErrorView::Corruption("wal delete entry carries a value"@))
        }),
{
    if bytes.len() >= HEADER_LEN {
        utils::bytes_add_up(bytes.subrange(0, 4));
        utils::bytes_add_up(bytes.subrange(5, 7));
        utils::bytes_add_up(bytes.subrange(7, 11));
    }
}

/// What is said of an entry that is cut short: how many bytes there are, and, if its
/// header is there, how many of payload that declares.
pub proof fn cut_entry_says_how_short(bytes: Seq<u8>)
    ensures
        bytes.len() < 11 ==> decode_frame(bytes) == Err::<EntryView, ErrorView>(
            ErrorView::Corruption(
                "wal entry shorter than 11-byte header: "@ + decimal(bytes.len()) + " bytes"@,
            ),
        ),
        ({
            let payload = bytes[5] + 0x100 * bytes[6] + bytes[7] + 0x100 * bytes[8] + 0x1_0000
                * bytes[9] + 0x100_0000 * bytes[10];
            bytes.len() >= 11 && (bytes[4] == 1 || bytes[4] == 2) && 11 + payload > bytes.len()
                ==> decode_frame(bytes) == Err::<EntryView, ErrorView>(
                ErrorView::Corruption(
                    "wal entry truncated: header declares "@ + decimal(payload as nat)
                        + " payload bytes, only "@ + decimal((bytes.len() - 11) as nat)
                        + " available"@,
                ),
            )
        }),
        bytes.len() >= 11 && bytes[4] != 1 && bytes[4] != 2 ==> decode_frame(bytes) == Err::<
            EntryView,
            ErrorView,
        >(ErrorView::InvalidOp("unknown wal op byte: 0x"@ + hex_byte(bytes[4]))),
{
    if bytes.len() >= HEADER_LEN {
        utils::bytes_add_up(bytes.subrange(5, 7));
        utils::bytes_add_up(bytes.subrange(7, 11));
    }
}

/// An entry that was read is stored in the bytes that it was read from.
pub proof fn read_entry_is_stored(bytes: Seq<u8>)
    requires
        decode_frame(bytes) is Ok,
    ensures
        ({
            let e = decode_frame(bytes)->Ok_0;
            &&& declared_frame_len(bytes) <= bytes.len()
            &&& bytes.take(declared_frame_len(bytes) as int) == frame(e.op, e.key, e.value)
        }),
{
    reveal(frame);
    let e = decode_frame(bytes)->Ok_0;
    let len = declared_frame_len(bytes) as int;
    let covered = bytes.subrange(4, len);
    utils::le_roundtrip_bytes(bytes.subrange(0, 4));
    utils::le_roundtrip_bytes(bytes.subrange(5, 7));
    utils::le_roundtrip_bytes(bytes.subrange(7, 11));
    assert(bytes.subrange(5, 7).len() == 2 && bytes.subrange(7, 11).len() == 4);
    assert(bytes.subrange(0, 4).len() == 4);
    assert(covered =~= frame_body(e.op, e.key, e.value)) by {
        assert(covered =~= seq![bytes[4]] + bytes.subrange(5, 7) + bytes.subrange(7, 11) + e.key
            + e.value);
    }
    assert(bytes.take(len) =~= bytes.subrange(0, 4) + covered);
}

/// Decoding a stored entry gives back the operation, key and value that were
/// encoded, whatever follows the entry.
pub proof fn frame_roundtrip(op: WalOp, key: Seq<u8>, value: Seq<u8>, after: Seq<u8>)
    requires
        entry_fault(op, key, value) is None,
    ensures
        decode_frame(frame(op, key, value) + after) == Ok::<EntryView, ErrorView>(
            EntryView { op, key, value },
        ),
{
    frame_fields(op, key, value, after);
}

/// Every entry that is read could have been logged: its key and value are within
/// the limits, and a delete carries no value.
pub proof fn read_entry_is_loggable(bytes: Seq<u8>)
    ensures
        decode_frame(bytes) matches Ok(e) ==> entry_fault(e.op, e.key, e.value) is None && (
        e.op is Delete ==> e.value.len() == 0),
{
    if bytes.len() >= HEADER_LEN {
        utils::le_limits();
        utils::le_value_bound(bytes.subrange(5, 7));
        utils::le_value_bound(bytes.subrange(7, 11));
    }
}

/// A stored entry that is cut short anywhere is `Corruption`.
pub proof fn cut_entry_is_rejected(op: WalOp, key: Seq<u8>, value: Seq<u8>, n: int)
    requires
        entry_fault(op, key, value) is None,
        0 <= n < frame(op, key, value).len(),
    ensures
        decode_frame(frame(op, key, value).take(n)) matches Err(ErrorView::Corruption(_)),
{
    let whole = frame(op, key, value);
    let part = whole.take(n);
    frame_alone(op, key, value);
    frame_fields(op, key, value, Seq::empty());
    assert(whole + Seq::<u8>::empty() =~= whole);
    if n >= HEADER_LEN {
        assert(part.subrange(5, 7) =~= whole.subrange(5, 7));
        assert(part.subrange(7, 11) =~= whole.subrange(7, 11));
    }
}

/// A stored entry with any one byte of its checksum changed is `Corruption`.
pub proof fn changed_checksum_is_rejected(
    op: WalOp,
    key: Seq<u8>,
    value: Seq<u8>,
    at: int,
    b: u8,
)
    requires
        entry_fault(op, key, value) is None,
        0 <= at < 4,
        b != frame(op, key, value)[at],
    ensures
        decode_frame(frame(op, key, value).update(at, b)) == Err::<EntryView, ErrorView>(
            ErrorView::Corruption("wal checksum mismatch"@),
        ),
{
    let whole = frame(op, key, value);
    let bad = whole.update(at, b);
    frame_alone(op, key, value);
    frame_fields(op, key, value, Seq::empty());
    assert(whole + Seq::<u8>::empty() =~= whole);
    assert(bad.subrange(5, 7) =~= whole.subrange(5, 7));
    assert(bad.subrange(7, 11) =~= whole.subrange(7, 11));
    let end = whole.len() as int;
    assert(bad.subrange(4, end) =~= whole.subrange(4, end));
    assert(utils::le_value(bad.subrange(0, 4)) != utils::le_value(whole.subrange(0, 4))) by {
        utils::le_roundtrip_bytes(bad.subrange(0, 4));
        utils::le_roundtrip_bytes(whole.subrange(0, 4));
        assert(bad.subrange(0, 4)[at] != whole.subrange(0, 4)[at]);
    }
}

/// A stored entry with any one byte of its key or value changed is `Corruption`.
pub proof fn changed_payload_is_rejected(
    op: WalOp,
    key: Seq<u8>,
    value: Seq<u8>,
    at: int,
    b: u8,
)
    requires
        entry_fault(op, key, value) is None,
        HEADER_LEN <= at < frame(op, key, value).len(),
        b != frame(op, key, value)[at],
    ensures
        decode_frame(frame(op, key, value).update(at, b)) == Err::<EntryView, ErrorView>(
            ErrorView::Corruption("wal checksum mismatch"@),
        ),
{
    let whole = frame(op, key, value);
    let bad = whole.update(at, b);
    frame_alone(op, key, value);
    frame_fields(op, key, value, Seq::empty());
    assert(whole + Seq::<u8>::empty() =~= whole);
    assert(bad.subrange(0, 4) =~= whole.subrange(0, 4));
    assert(bad.subrange(5, 7) =~= whole.subrange(5, 7));
    assert(bad.subrange(7, 11) =~= whole.subrange(7, 11));
    let end = whole.len() as int;
    assert(bad.subrange(4, end) =~= whole.subrange(4, end).update(at - 4, b));
    checksum_tells_byte(whole.subrange(4, end), at - 4, b);
}

/// A stored entry by itself: it is as long as its header declares, and decodes
/// to the entry.
pub proof fn frame_alone(op: WalOp, key: Seq<u8>, value: Seq<u8>)
    requires
        entry_fault(op, key, value) is None,
    ensures
        frame(op, key, value).len() == HEADER_LEN + key.len() + value.len(),
        declared_frame_len(frame(op, key, value)) == frame(op, key, value).len(),
        decode_frame(frame(op, key, value)) == Ok::<EntryView, ErrorView>(
            EntryView { op, key, value },
        ),
{
    frame_fields(op, key, value, Seq::empty());
    frame_roundtrip(op, key, value, Seq::empty());
    assert(frame(op, key, value) + Seq::<u8>::empty() =~= frame(op, key, value));
}

fn put_body(op: WalOp, key: &[u8], value: &[u8]) -> (body: Vec<u8>)
    requires
        key.len() <= MAX_KEY_LEN,
        value.len() <= MAX_VALUE_LEN,
    ensures
        body@ == frame_body(op, key@, value@),
{
    let mut body: Vec<u8> = Vec::new();
    body.push(op.to_byte());
    proof {
        assert(body@ =~= seq![op_byte(op)]);
    }
    utils::put_u16(&mut body, key.len() as u16);
    utils::put_u32(&mut body, value.len() as u32);
    utils::put_bytes(&mut body, key);
    utils::put_bytes(&mut body, value);
    body
}

/// Appends the checksum `crc` and then the bytes it covers.
pub fn seal_frame(crc: u32, body: &[u8], buf: &mut Vec<u8>)
    ensures
        final(buf)@ == old(buf)@ + (utils::le_bytes(crc as nat, 4) + body@),
{
    let ghost before = buf@;
    utils::put_u32(buf, crc);
    utils::put_bytes(buf, body);
    proof {
        assert(buf@ =~= before + (utils::le_bytes(crc as nat, 4) + body@));
    }
}

/// Appends one entry to `buf`. An entry that cannot be logged is rejected and
/// leaves `buf` as it was.
pub fn encode_entry(op: WalOp, key: &[u8], value: &[u8], buf: &mut Vec<u8>) -> (r: Result<()>)
    ensures
        match r {
            Ok(()) => entry_fault(op, key@, value@) is None && final(buf)@ == old(buf)@ + frame(
                op,
                key@,
                value@,
            ),
            Err(e) => entry_fault(op, key@, value@) == Some(e@) && final(buf)@ == old(buf)@,
        },
        r is Ok <==> key@.len() <= 65535 && value@.len() <= 4294967295 && (op == WalOp::Delete
            ==> value@.len() == 0),
{
    if key.len() > MAX_KEY_LEN {
        return Err(LsmError::KeyTooLarge(key.len(), MAX_KEY_LEN));
    }
    if value.len() > MAX_VALUE_LEN {
        return Err(LsmError::ValueTooLarge(value.len(), MAX_VALUE_LEN));
    }
    if op == WalOp::Delete && !value.is_empty() {
        return Err(LsmError::InvalidOp(String::from_str("delete entry must not carry a value")));
    }
    let body: Vec<u8> = put_body(op, key, value);
    let crc: u32 = crc32fast::hash(body.as_slice());
    seal_frame(crc, body.as_slice(), buf);
    proof {
        reveal(frame);
    }
    Ok(())
}

/// The entry at the start of `bytes`, whose header declares `op` and lengths
/// that fit, given the checksum computed over it.
pub fn open_frame(bytes: &[u8], op: WalOp, computed: u32) -> (r: Result<WalEntry>)
    requires
        HEADER_LEN <= bytes.len(),
        declared_frame_len(bytes@) <= bytes.len(),
    ensures
        match r {
            Ok(entry) => opened_frame(bytes@, op, computed) == Ok::<EntryView, ErrorView>(entry@),
            Err(e) => opened_frame(bytes@, op, computed) == Err::<EntryView, ErrorView>(e@),
        },
{
    let key_len: usize = utils::read_u16(bytes, 5)? as usize;
    let val_len: usize = utils::read_u32(bytes, 7)? as usize;
    let stored: u32 = utils::read_u32(bytes, 0)?;
    if computed != stored {
        return Err(LsmError::Corruption(String::from_str("wal checksum mismatch")));
    }
    if op == WalOp::Delete && val_len > 0 {
        return Err(LsmError::Corruption(String::from_str("wal delete entry carries a value")));
    }
    let key_end: usize = HEADER_LEN + key_len;
    let key: Vec<u8> = utils::copy_bytes(vstd::slice::slice_subrange(bytes, HEADER_LEN, key_end));
    let value: Vec<u8> = utils::copy_bytes(
        vstd::slice::slice_subrange(bytes, key_end, key_end + val_len),
    );
    Ok(WalEntry { op, key, value })
}

/// Decodes the entry at the start of `bytes`; what follows it is not looked at.
pub fn decode_entry(bytes: &[u8]) -> (r: Result<WalEntry>)
    ensures
        match r {
            Ok(entry) => decode_frame(bytes@) == Ok::<EntryView, ErrorView>(entry@) && (entry.op
                == WalOp::Delete ==> entry.value@.len() == 0),
            Err(e) => decode_frame(bytes@) == Err::<EntryView, ErrorView>(e@),
        },
{
    if bytes.len() < HEADER_LEN {
        let mut s: String = String::from_str("wal entry shorter than 11-byte header: ");
        append_decimal(&mut s, bytes.len() as u64);
        s.append(" bytes");
        return Err(LsmError::Corruption(s));
    }
    let op: WalOp = match WalOp::from_byte(bytes[4]) {
        Ok(op) => op,
        Err(e) => {
            return Err(e);
        },
    };
    let key_len: usize = utils::read_u16(bytes, 5)? as usize;
    let val_len: usize = utils::read_u32(bytes, 7)? as usize;
    let available: usize = bytes.len() - HEADER_LEN;
    if key_len > available || val_len > available - key_len {
        let mut s: String = String::from_str("wal entry truncated: header declares ");
        append_decimal(&mut s, key_len as u64 + val_len as u64);
        s.append(" payload bytes, only ");
        append_decimal(&mut s, available as u64);
        s.append(" available");
        return Err(LsmError::Corruption(s));
    }
    let end: usize = HEADER_LEN + key_len + val_len;
    let computed: u32 = crc32fast::hash(vstd::slice::slice_subrange(bytes, 4, end));
    open_frame(bytes, op, computed)
}

} // verus!
