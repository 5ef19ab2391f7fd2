//! The write-ahead log: framing, appending and reading back.

use lsm_engine::error::{LsmError, Result};
use lsm_engine::memtable::MemTable;
use lsm_engine::wal::reader::WalReader;
use lsm_engine::wal::writer::WalWriter;
use lsm_engine::wal::{
    decode_entry, encode_entry, open_frame, seal_frame, WalEntry, WalOp, HEADER_LEN, MAX_KEY_LEN,
};

/// A log whose file is kept in memory.
struct Log {
    writer: WalWriter,
    file: Vec<u8>,
}

impl Log {
    fn create(path: &str) -> Log {
        Log {
            writer: WalWriter::create(path),
            file: Vec::new(),
        }
    }

    fn append(&mut self, op: WalOp, key: &[u8], value: &[u8]) -> Result<()> {
        self.writer.append(op, key, value)?;
        self.file.extend_from_slice(self.writer.frame());
        Ok(())
    }
}

fn write_entries(path: &str, entries: &[(WalOp, &[u8], &[u8])]) -> Vec<u8> {
    let mut log = Log::create(path);
    for (op, key, value) in entries {
        log.append(*op, key, value).expect("append wal entry");
    }
    log.file
}

fn encode_into(op: WalOp, key: &[u8], value: &[u8]) -> Vec<u8> {
    let mut buf = Vec::new();
    encode_entry(op, key, value, &mut buf).expect("encode should succeed");
    buf
}

#[test]
fn roundtrip_put_entry() {
    let bytes = encode_into(WalOp::Put, b"hello", b"world");
    let entry = decode_entry(&bytes).expect("decode should succeed");
    assert_eq!(
        entry,
        WalEntry {
            op: WalOp::Put,
            key: b"hello".to_vec(),
            value: b"world".to_vec(),
        }
    );
}

#[test]
fn roundtrip_delete_entry() {
    let bytes = encode_into(WalOp::Delete, b"gone", b"");
    let entry = decode_entry(&bytes).expect("decode should succeed");
    assert_eq!(
        entry,
        WalEntry {
            op: WalOp::Delete,
            key: b"gone".to_vec(),
            value: Vec::new(),
        }
    );
}

#[test]
fn roundtrip_empty_key_and_value_put() {
    let bytes = encode_into(WalOp::Put, b"", b"");
    let entry = decode_entry(&bytes).expect("decode should succeed");
    assert_eq!(
        entry,
        WalEntry {
            op: WalOp::Put,
            key: Vec::new(),
            value: Vec::new(),
        }
    );
}

#[test]
fn crc_mismatch_detected() {
    let mut bytes = encode_into(WalOp::Put, b"hello", b"world");
    let mid = bytes.len() / 2;
    bytes[mid] ^= 0xFF;
    let err = decode_entry(&bytes).expect_err("corrupted entry must be rejected");
    assert!(matches!(err, LsmError::Corruption(_)));
}

#[test]
fn invalid_op_byte_rejected() {
    let mut bytes = encode_into(WalOp::Put, b"hello", b"world");
    bytes[4] = 0x7F;
    let err = decode_entry(&bytes).expect_err("invalid op byte must be rejected");
    assert!(matches!(err, LsmError::InvalidOp(_)));
}

#[test]
fn key_too_large_rejected_on_encode() {
    let key = vec![0u8; MAX_KEY_LEN + 1];
    let mut buf = Vec::new();
    let err = encode_entry(WalOp::Put, &key, b"v", &mut buf)
        .expect_err("oversized key must be rejected");
    assert!(matches!(err, LsmError::KeyTooLarge(_, 65535)));
}

#[test]
fn max_length_key_roundtrips() {
    let key = vec![0xABu8; MAX_KEY_LEN];
    let bytes = encode_into(WalOp::Put, &key, b"v");
    let entry = decode_entry(&bytes).expect("max-length key must decode");
    assert_eq!(entry.key, key);
    assert_eq!(entry.value, b"v");
}

#[test]
fn delete_with_value_rejected_on_encode() {
    let mut buf = Vec::new();
    let err = encode_entry(WalOp::Delete, b"k", b"payload", &mut buf)
        .expect_err("delete with a value must be rejected");
    assert!(matches!(err, LsmError::InvalidOp(_)));
}

#[test]
fn decode_truncated_header_rejected() {
    let bytes = encode_into(WalOp::Put, b"k", b"v");
    let err = decode_entry(&bytes[..3]).expect_err("truncated header must be rejected");
    assert!(matches!(err, LsmError::Corruption(_)));
}

#[test]
fn decode_truncated_payload_rejected() {
    let bytes = encode_into(WalOp::Put, b"k", b"v");
    let err = decode_entry(&bytes[..bytes.len() - 2])
        .expect_err("truncated payload must be rejected");
    assert!(matches!(err, LsmError::Corruption(_)));
}

#[test]
fn op_to_from_byte_roundtrip() {
    for op in [WalOp::Put, WalOp::Delete] {
        assert_eq!(
            WalOp::from_byte(op.to_byte()).expect("op byte should roundtrip"),
            op
        );
    }
}

#[test]
fn encode_appends_and_can_chain() {
    let mut buf = Vec::new();
    encode_entry(WalOp::Put, b"hello", b"world", &mut buf).expect("encode put");
    encode_entry(WalOp::Delete, b"gone", b"", &mut buf).expect("encode delete");

    let first_len = 11 + 5 + 5;
    let second_len = 11 + 4;
    assert_eq!(buf.len(), first_len + second_len);

    let first = decode_entry(&buf).expect("decode first entry");
    assert_eq!(
        first,
        WalEntry {
            op: WalOp::Put,
            key: b"hello".to_vec(),
            value: b"world".to_vec(),
        }
    );

    let second = decode_entry(&buf[first_len..]).expect("decode second entry");
    assert_eq!(
        second,
        WalEntry {
            op: WalOp::Delete,
            key: b"gone".to_vec(),
            value: Vec::new(),
        }
    );
}

fn encoded_len(key: &[u8], value: &[u8]) -> usize {
    HEADER_LEN + key.len() + value.len()
}

fn expect_entries(reader_bytes: &[u8], expected: &[WalEntry]) {
    let mut offset = 0;
    let mut decoded = Vec::new();
    while offset < reader_bytes.len() {
        let entry = decode_entry(&reader_bytes[offset..]).expect("decode chained entry");
        offset += encoded_len(&entry.key, &entry.value);
        decoded.push(entry);
    }
    assert_eq!(
        offset,
        reader_bytes.len(),
        "decode walk must consume all bytes"
    );
    assert_eq!(decoded, expected);
}

#[test]
fn append_put_and_read_back_raw_bytes() {
    let mut log = Log::create("test.wal");
    log.append(WalOp::Put, b"hello", b"world")
        .expect("append should succeed");

    let bytes = log.file;
    assert_eq!(bytes.len(), encoded_len(b"hello", b"world"));
    assert_eq!(bytes.len(), 11 + 5 + 5);
    let expected = {
        let mut buf = Vec::new();
        encode_entry(WalOp::Put, b"hello", b"world", &mut buf).expect("encode reference");
        buf
    };
    assert_eq!(
        bytes, expected,
        "file bytes must match the codec frame exactly"
    );
}

#[test]
fn append_multiple_entries_frame() {
    let mut log = Log::create("test.wal");
    log.append(WalOp::Put, b"a", b"b").expect("append put a");
    log.append(WalOp::Delete, b"c", b"")
        .expect("append delete c");
    log.append(WalOp::Put, b"", b"")
        .expect("append empty put");
    log.append(WalOp::Put, b"kk", b"vvv")
        .expect("append put kk");

    let bytes = log.file;
    assert!(!bytes.is_empty(), "wal must not be empty");
    let expected_len = encoded_len(b"a", b"b")
        + encoded_len(b"c", b"")
        + encoded_len(b"", b"")
        + encoded_len(b"kk", b"vvv");
    assert_eq!(bytes.len(), expected_len);
    expect_entries(
        &bytes,
        &[
            WalEntry {
                op: WalOp::Put,
                key: b"a".to_vec(),
                value: b"b".to_vec(),
            },
            WalEntry {
                op: WalOp::Delete,
                key: b"c".to_vec(),
                value: Vec::new(),
            },
            WalEntry {
                op: WalOp::Put,
                key: Vec::new(),
                value: Vec::new(),
            },
            WalEntry {
                op: WalOp::Put,
                key: b"kk".to_vec(),
                value: b"vvv".to_vec(),
            },
        ],
    );
}

#[test]
fn append_oversized_key_errors_and_file_empty() {
    let mut log = Log::create("test.wal");
    let key = vec![0u8; 65536];
    let err = log.append(WalOp::Put, &key, b"v")
        .expect_err("oversized key must be rejected");
    assert!(matches!(err, LsmError::KeyTooLarge(_, 65535)));

    let bytes = log.file;
    assert_eq!(
        bytes.len(),
        0,
        "failed append must not leave any bytes on disk"
    );
}

#[test]
fn append_delete_with_value_errors() {
    let mut log = Log::create("test.wal");
    let err = log.append(WalOp::Delete, b"k", b"payload")
        .expect_err("delete with a value must be rejected");
    assert!(matches!(err, LsmError::InvalidOp(_)));
}

#[test]
fn sync_then_read_back() {
    let mut log = Log::create("test.wal");
    let expected: Vec<WalEntry> = (0..5)
        .map(|i| WalEntry {
            op: WalOp::Put,
            key: format!("key{i}").into_bytes(),
            value: format!("value{i}").into_bytes(),
        })
        .collect();
    for entry in &expected {
        log.append(entry.op, &entry.key, &entry.value)
            .expect("append should succeed");
    }

    let bytes = log.file;
    let total: usize = expected.iter().map(|e| encoded_len(&e.key, &e.value)).sum();
    assert_eq!(bytes.len(), total);
    expect_entries(&bytes, &expected);
}

#[test]
fn append_after_sync_continues() {
    let mut log = Log::create("test.wal");
    log.append(WalOp::Put, b"a", b"1").expect("append a");
    log.append(WalOp::Put, b"b", b"2").expect("append b");

    let bytes = log.file;
    assert_eq!(
        bytes.len(),
        encoded_len(b"a", b"1") + encoded_len(b"b", b"2")
    );
    expect_entries(
        &bytes,
        &[
            WalEntry {
                op: WalOp::Put,
                key: b"a".to_vec(),
                value: b"1".to_vec(),
            },
            WalEntry {
                op: WalOp::Put,
                key: b"b".to_vec(),
                value: b"2".to_vec(),
            },
        ],
    );
}

fn encode_frame(op: WalOp, key: &[u8], value: &[u8]) -> Vec<u8> {
    let mut buf = Vec::new();
    encode_entry(op, key, value, &mut buf).expect("encode entry");
    buf
}

#[test]
fn read_all_empty_file() {
    let path = "empty.wal";
    let file: Vec<u8> = Vec::new();

    let reader = WalReader::open(path, file);
    assert_eq!(
        reader.read_all().expect("read empty wal"),
        Vec::new(),
        "empty wal must yield no entries"
    );
}

#[test]
fn roundtrip_put_and_delete_entries() {
    let path = "roundtrip.wal";
    let file = write_entries(path, &[
            (WalOp::Put, b"a", b"v1"),
            (WalOp::Delete, b"b", b""),
            (WalOp::Put, b"c", b"v3"),
        ],
    );

    let reader = WalReader::open(path, file);
    let entries = reader.read_all().expect("read_all should succeed");
    assert_eq!(
        entries,
        vec![
            WalEntry {
                op: WalOp::Put,
                key: b"a".to_vec(),
                value: b"v1".to_vec(),
            },
            WalEntry {
                op: WalOp::Delete,
                key: b"b".to_vec(),
                value: Vec::new(),
            },
            WalEntry {
                op: WalOp::Put,
                key: b"c".to_vec(),
                value: b"v3".to_vec(),
            },
        ]
    );
}

#[test]
fn read_all_stops_at_partial_trailing_header() {
    let path = "tail-header.wal";
    let file = write_entries(path, &[(WalOp::Put, b"a", b"1"), (WalOp::Put, b"b", b"2")]);

    let frame = encode_frame(WalOp::Put, b"k", b"v");
    let mut file = file;
    file.extend_from_slice(&frame[..HEADER_LEN]);

    let reader = WalReader::open(path, file);
    let entries = reader
        .read_all()
        .expect("read_all must tolerate a partial trailing header");
    assert_eq!(entries.len(), 2, "must keep the two complete entries");
    assert_eq!(entries[0].key, b"a");
    assert_eq!(entries[1].key, b"b");
}

#[test]
fn read_all_stops_at_partial_trailing_payload() {
    let path = "tail-payload.wal";
    let file = write_entries(path, &[(WalOp::Put, b"a", b"1")]);

    let frame = encode_frame(WalOp::Put, &[0xABu8; 100], b"");
    let mut file = file;
    file.extend_from_slice(&frame[..HEADER_LEN + 5]);

    let reader = WalReader::open(path, file);
    let entries = reader
        .read_all()
        .expect("read_all must tolerate a partial trailing payload");
    assert_eq!(entries.len(), 1, "must keep the single complete entry");
    assert_eq!(entries[0].key, b"a");
}

#[test]
fn read_all_errors_on_mid_file_corruption() {
    let path = "corrupt.wal";
    let file = write_entries(path, &[
            (WalOp::Put, b"key0", b"val0"),
            (WalOp::Put, b"key1", b"val1"),
            (WalOp::Put, b"key2", b"val2"),
        ],
    );

    let mut bytes = file;
    let first_len = HEADER_LEN + b"key0".len() + b"val0".len();
    let flip_at = first_len + HEADER_LEN + 1;
    bytes[flip_at] ^= 0xFF;
    let file = bytes;

    let reader = WalReader::open(path, file);
    let err = reader
        .read_all()
        .expect_err("corrupted mid-file entry must be reported");
    assert!(matches!(err, LsmError::Corruption(_)));
}

#[test]
fn read_all_errors_on_corrupt_final_entry() {
    let path = "corrupt-final.wal";
    let file = write_entries(path, &[
            (WalOp::Put, b"key0", b"val0"),
            (WalOp::Put, b"key1", b"val1"),
        ],
    );

    let mut bytes = file;
    let first_len = HEADER_LEN + b"key0".len() + b"val0".len();
    let flip_at = first_len + HEADER_LEN + 1;
    bytes[flip_at] ^= 0xFF;
    let file = bytes;

    let reader = WalReader::open(path, file);
    let err = reader
        .read_all()
        .expect_err("corrupted fully-present final entry must be reported");
    assert!(matches!(err, LsmError::Corruption(_)));
}

#[test]
fn read_all_is_repeatable() {
    let path = "repeat.wal";
    let file = write_entries(path, &[
            (WalOp::Put, b"a", b"1"),
            (WalOp::Delete, b"b", b""),
            (WalOp::Put, b"c", b"3"),
        ],
    );

    let reader = WalReader::open(path, file);
    let first = reader.read_all().expect("first read_all");
    let second = reader.read_all().expect("second read_all");
    assert_eq!(
        first, second,
        "repeated read_all must return identical entries"
    );
    assert_eq!(first.len(), 3);
}

#[test]
fn replay_puts_and_deletes_into_memtable() {
    let path = "replay.wal";
    let file = write_entries(path, &[
            (WalOp::Put, b"k1", b"v1"),
            (WalOp::Put, b"k2", b"v2"),
            (WalOp::Delete, b"k1", b""),
        ],
    );

    let reader = WalReader::open(path, file);
    let mut memtable = MemTable::new();
    let count = reader
        .replay_into(&mut memtable)
        .expect("replay should succeed");
    assert_eq!(count, 3, "all three entries must count as applied");
    assert_eq!(memtable.get(b"k1"), None, "k1 was deleted by replay");
    assert_eq!(memtable.get(b"k2"), Some(b"v2".to_vec()));
}

#[test]
fn replay_partial_tail_applies_complete_entries() {
    let path = "replay-tail.wal";
    let file = write_entries(path, &[(WalOp::Put, b"k1", b"v1"), (WalOp::Put, b"k2", b"v2")],
    );

    let frame = encode_frame(WalOp::Put, b"k", b"v");
    let mut file = file;
    file.extend_from_slice(&frame[..HEADER_LEN]);

    let reader = WalReader::open(path, file);
    let mut memtable = MemTable::new();
    let count = reader
        .replay_into(&mut memtable)
        .expect("replay must tolerate a partial trailing header");
    assert_eq!(count, 2);
    assert_eq!(memtable.get(b"k1"), Some(b"v1".to_vec()));
    assert_eq!(memtable.get(b"k2"), Some(b"v2".to_vec()));
}

#[test]
fn replay_mid_file_corruption_errors_and_does_not_apply() {
    let path = "replay-corrupt.wal";
    let file = write_entries(path, &[
            (WalOp::Put, b"k0", b"v0"),
            (WalOp::Put, b"k1", b"v1"),
            (WalOp::Put, b"k2", b"v2"),
        ],
    );

    let mut bytes = file;
    let first_len = HEADER_LEN + b"k0".len() + b"v0".len();
    let flip_at = first_len + HEADER_LEN + 1;
    bytes[flip_at] ^= 0xFF;
    let file = bytes;

    let reader = WalReader::open(path, file);
    let mut memtable = MemTable::new();
    let err = reader
        .replay_into(&mut memtable)
        .expect_err("corrupted mid-file entry must abort replay");
    assert!(matches!(err, LsmError::Corruption(_)));
}

#[test]
fn a_new_log_is_empty() {
    let log = Log::create("dir/test.wal");
    assert!(log.file.is_empty(), "a new log has no bytes");
    assert!(log.writer.frame().is_empty(), "nothing was framed yet");
    assert_eq!(log.writer.path(), "dir/test.wal");
}

#[test]
fn reader_keeps_its_path() {
    let reader = WalReader::open("dir/000001.wal", Vec::new());
    assert_eq!(reader.path(), "dir/000001.wal");
}

#[test]
fn stored_form_of_an_entry() {
    let frame = encode_into(WalOp::Put, b"hello", b"world");
    // op, key length, value length, key, value
    let mut body = vec![0x01, 5, 0, 5, 0, 0, 0];
    body.extend_from_slice(b"helloworld");
    assert_eq!(frame[4..], body[..]);
    assert_eq!(frame[..4], crc32fast::hash(&body).to_le_bytes());
    assert_eq!(encode_into(WalOp::Delete, b"x", b"")[4], 0x02);
}

#[test]
fn a_frame_is_sealed_with_the_given_checksum() {
    let body = [0x02, 1, 0, 0, 0, 0, 0, b'k'];
    let mut frame = vec![0xEE];
    seal_frame(0x0403_0201, &body, &mut frame);
    assert_eq!(frame[..5], [0xEE, 1, 2, 3, 4]);
    assert_eq!(frame[5..], body);

    let entry = open_frame(&frame[1..], WalOp::Delete, 0x0403_0201).expect("checksums agree");
    assert_eq!(entry.key, b"k");
    let err = open_frame(&frame[1..], WalOp::Delete, 1).expect_err("checksums differ");
    assert!(matches!(err, LsmError::Corruption(_)));
}

#[test]
fn checksum_is_that_of_crc32() {
    // The check value of CRC-32 over the digits 1 to 9.
    assert_eq!(crc32fast::hash(b"123456789"), 0xCBF4_3926);
    let frame = encode_into(WalOp::Put, b"", b"");
    assert_eq!(frame[..4], crc32fast::hash(&[1, 0, 0, 0, 0, 0, 0]).to_le_bytes());
}

#[test]
fn texts_of_damaged_entries() {
    let err = WalOp::from_byte(0x7F).expect_err("no such op");
    assert!(matches!(err, LsmError::InvalidOp(text) if text == "unknown wal op byte: 0x7f"));
    let err = WalOp::from_byte(0).expect_err("no such op");
    assert!(matches!(err, LsmError::InvalidOp(text) if text == "unknown wal op byte: 0x00"));

    let mut buf = Vec::new();
    let err = encode_entry(WalOp::Delete, b"k", b"v", &mut buf).expect_err("delete with value");
    assert!(
        matches!(err, LsmError::InvalidOp(text) if text == "delete entry must not carry a value")
    );
    assert!(buf.is_empty());
}

#[test]
fn a_rejected_entry_leaves_nothing_to_write() {
    let mut log = Log::create("test.wal");
    log.append(WalOp::Put, b"k", b"v").expect("append");
    assert!(!log.writer.frame().is_empty());
    assert!(log.append(WalOp::Delete, b"k", b"v").is_err());
    assert!(log.writer.frame().is_empty());
}

#[test]
fn every_cut_of_the_last_entry_is_a_torn_tail() {
    let whole = write_entries(
        "cut.wal",
        &[(WalOp::Put, b"first", b"1"), (WalOp::Put, b"second", b"22")],
    );
    let first_len = HEADER_LEN + 5 + 1;
    for cut in first_len..whole.len() {
        let entries = WalReader::open("cut.wal", whole[..cut].to_vec())
            .read_all()
            .expect("a torn tail is tolerated");
        assert_eq!(entries.len(), 1, "cut at {cut}");
        assert_eq!(entries[0].key, b"first");
    }
    let entries = WalReader::open("cut.wal", whole).read_all().expect("whole log");
    assert_eq!(entries.len(), 2);
}

#[test]
fn corruption_names_the_entry() {
    let mut file = write_entries(
        "bad.wal",
        &[(WalOp::Put, b"a", b"1"), (WalOp::Put, b"b", b"2")],
    );
    let second = HEADER_LEN + 2;
    file[second + 4] = 9;
    let err = WalReader::open("bad.wal", file)
        .read_all()
        .expect_err("bad op byte");
    assert!(
        matches!(err, LsmError::Corruption(text) if text
            == "wal entry at byte 13 failed to decode: invalid operation: unknown wal op byte: 0x09")
    );
}

#[test]
fn replay_adds_to_the_size_estimate() {
    let file = write_entries(
        "size.wal",
        &[(WalOp::Put, b"abc", b"12345"), (WalOp::Delete, b"abc", b"")],
    );
    let mut memtable = MemTable::new();
    WalReader::open("size.wal", file)
        .replay_into(&mut memtable)
        .expect("replay");
    assert_eq!(memtable.approximate_size(), (3 + 5 + 64) + (3 + 64));
    assert_eq!(memtable.len(), 1);
}

#[test]
fn a_corrupt_log_applies_nothing() {
    let mut file = write_entries(
        "none.wal",
        &[(WalOp::Put, b"k0", b"v0"), (WalOp::Put, b"k1", b"v1")],
    );
    let last = file.len() - 1;
    file[last] ^= 0xFF;
    let mut memtable = MemTable::new();
    let reader = WalReader::open("none.wal", file);
    assert!(reader.replay_into(&mut memtable).is_err());
    assert!(memtable.is_empty());
    assert_eq!(memtable.approximate_size(), 0);
}

/// The frame of a delete that carries a value, with a true checksum.
fn delete_with_value() -> Vec<u8> {
    let mut body = vec![0x02u8, 1, 0, 1, 0, 0, 0];
    body.extend_from_slice(b"kv");
    let mut bytes = crc32fast::hash(&body).to_le_bytes().to_vec();
    bytes.extend_from_slice(&body);
    bytes
}

#[test]
fn a_delete_that_carries_a_value_is_rejected() {
    let bytes = delete_with_value();
    let err = decode_entry(&bytes).expect_err("a delete has no value");
    assert!(
        matches!(err, LsmError::Corruption(text) if text == "wal delete entry carries a value")
    );
    let reader = WalReader::open("t.wal", bytes);
    assert!(matches!(reader.read_all(), Err(LsmError::Corruption(_))));
}

#[test]
fn a_cut_or_changed_entry_is_rejected() {
    let mut bytes = Vec::new();
    encode_entry(WalOp::Put, b"key", b"value", &mut bytes).expect("encode");
    for n in 0..bytes.len() {
        assert!(matches!(decode_entry(&bytes[..n]), Err(LsmError::Corruption(_))), "{n}");
    }
    for at in (0..4).chain(11..bytes.len()) {
        for flip in 1..=255u8 {
            let mut bad = bytes.clone();
            bad[at] ^= flip;
            assert!(matches!(decode_entry(&bad), Err(LsmError::Corruption(_))), "{at} {flip}");
        }
    }
}

/// CRC-32, bit by bit.
fn shifted_crc(bytes: &[u8]) -> u32 {
    let mut register = u32::MAX;
    for b in bytes {
        register ^= u32::from(*b);
        for _ in 0..8 {
            register = match register & 1 {
                1 => (register >> 1) ^ 0xEDB8_8320,
                _ => register >> 1,
            };
        }
    }
    !register
}

#[test]
fn an_entry_starts_with_its_bitwise_checksum() {
    assert_eq!(shifted_crc(b"123456789"), 0xCBF4_3926);
    // Long enough values for every block size in which the checksum is computed.
    for len in (0..300).chain([1000, 4096, 70_000]) {
        let value: Vec<u8> = (0..len).map(|i| (i * 31 + len) as u8).collect();
        let frame = encode_into(WalOp::Put, b"key", &value);
        assert_eq!(frame[..4], shifted_crc(&frame[4..]).to_le_bytes(), "{len}");
    }
}
