//! Records in data blocks, and the sparse index over them.

use lsm_engine::error::LsmError;
use lsm_engine::sstable::index::{
    encode_index, locate_block, parse_index, IndexEntry, INDEX_ENTRY_HEADER_LEN,
};
use lsm_engine::sstable::record::{put_record, read_record, read_records, record_len};
use lsm_engine::sstable::MAX_KEY_LEN;

#[test]
fn record_put_roundtrip() {
    let mut buf = Vec::new();
    put_record(&mut buf, b"k", b"v", false).expect("put must succeed");
    assert_eq!(buf.len(), 7 + 1 + 1);
    let mut expected = vec![1, 0, 0, 1, 0, 0, 0];
    expected.extend_from_slice(b"k");
    expected.extend_from_slice(b"v");
    assert_eq!(buf, expected);

    let (key, value, deleted, consumed) = read_record(&buf, 0).expect("read must succeed");
    assert_eq!(key, b"k");
    assert_eq!(value, b"v");
    assert!(!deleted);
    assert_eq!(consumed, 9);
}

#[test]
fn record_tombstone_roundtrip() {
    let mut buf = Vec::new();
    put_record(&mut buf, b"gone", b"", true).expect("put must succeed");

    let (key, value, deleted, consumed) = read_record(&buf, 0).expect("read must succeed");
    assert_eq!(key, b"gone");
    assert!(value.is_empty());
    assert!(deleted);
    assert_eq!(consumed, 7 + 4);
}

#[test]
fn put_empty_value_is_not_tombstone() {
    let mut buf = Vec::new();
    put_record(&mut buf, b"k", b"", false).expect("put must succeed");

    let (_, value, deleted, _) = read_record(&buf, 0).expect("read must succeed");
    assert!(!deleted);
    assert!(value.is_empty());
}

#[test]
fn record_flags_upper_bits_ignored() {
    // flags 0x05 = bit0 (tombstone) + reserved bit2 set.
    let mut buf = vec![1, 0, 0x05, 0, 0, 0, 0];
    buf.push(b'k');
    let (_, _, deleted, consumed) = read_record(&buf, 0).expect("read must succeed");
    assert!(deleted);
    assert_eq!(consumed, 8);

    // flags 0x02 = reserved bit1 only, no tombstone.
    let buf = vec![1, 0, 0x02, 0, 0, 0, 0, b'k'];
    let (_, _, deleted, _) = read_record(&buf, 0).expect("read must succeed");
    assert!(!deleted);
}

#[test]
fn record_len_matches_written() {
    for (key_len, value_len) in [
        (0, 0),
        (1, 1),
        (7, 0),
        (0, 300),
        (100, 100),
        (65535, 0),
        (300, 4096),
    ] {
        let key = vec![0xABu8; key_len];
        let value = vec![0xCDu8; value_len];
        let mut buf = Vec::new();
        put_record(&mut buf, &key, &value, key_len % 2 == 0).expect("put must succeed");

        assert_eq!(buf.len(), record_len(key_len, value_len));
        let (_, _, deleted, consumed) = read_record(&buf, 0).expect("read must succeed");
        assert_eq!(consumed, record_len(key_len, value_len));
        assert_eq!(deleted, key_len % 2 == 0);
    }
}

#[test]
fn read_record_truncated_header_errors() {
    assert!(matches!(
        read_record(&[0u8; 3], 0),
        Err(LsmError::Corruption(_))
    ));

    let mut buf = Vec::new();
    put_record(&mut buf, b"hello", b"world", false).expect("put must succeed");
    // Offset into a tail too short to hold the 7-byte header.
    assert!(matches!(
        read_record(&buf, buf.len() - 2),
        Err(LsmError::Corruption(_))
    ));
    assert!(matches!(
        read_record(&buf, buf.len()),
        Err(LsmError::Corruption(_))
    ));
}

#[test]
fn read_record_truncated_payload_errors() {
    let mut buf = Vec::new();
    put_record(&mut buf, b"hello world", b"some value", false).expect("put must succeed");
    let err = read_record(&buf[..buf.len() - 1], 0).expect_err("truncated payload must error");
    assert!(matches!(err, LsmError::Corruption(_)));
}

#[test]
fn key_too_large_rejected() {
    let key = vec![0u8; 65536];
    let mut buf = Vec::new();
    let err = put_record(&mut buf, &key, b"v", false).expect_err("oversized key must error");
    assert!(matches!(err, LsmError::KeyTooLarge(65536, 65535)));
    assert!(buf.is_empty());
}

#[test]
fn put_record_appends_and_chains() {
    let mut buf = Vec::new();
    put_record(&mut buf, b"first", b"one", false).expect("put first");
    put_record(&mut buf, b"second", b"", true).expect("put second");

    let first_len = 7 + 5 + 3;
    let second_len = 7 + 6;
    assert_eq!(buf.len(), first_len + second_len);

    let (key, value, deleted, c1) = read_record(&buf, 0).expect("read first");
    assert_eq!(key, b"first");
    assert_eq!(value, b"one");
    assert!(!deleted);
    assert_eq!(c1, first_len);

    let (key, value, deleted, c2) = read_record(&buf, c1).expect("read second");
    assert_eq!(key, b"second");
    assert!(value.is_empty());
    assert!(deleted);
    assert_eq!(c2, second_len);
    assert_eq!(c1 + c2, buf.len());
}

fn entry(key: &[u8], offset: u64, size: u64) -> IndexEntry {
    IndexEntry {
        first_key: key.to_vec(),
        offset,
        size,
    }
}

#[test]
fn encode_parse_roundtrip() {
    let entries = vec![
        entry(b"aaa", 0, 100),
        entry(b"bbb", 100, 200),
        entry(b"zzz", 300, 50),
    ];
    let mut buf = Vec::new();
    encode_index(&mut buf, &entries).expect("encode must succeed");
    assert_eq!(buf.len(), (18 + 3) * 3);
    let parsed = parse_index(&buf).expect("parse must succeed");
    assert_eq!(parsed, entries);
}

#[test]
fn encode_parse_empty() {
    let mut buf = Vec::new();
    encode_index(&mut buf, &[]).expect("encode empty must succeed");
    assert!(buf.is_empty());
    assert_eq!(parse_index(&[]).expect("parse empty must succeed"), vec![]);
    assert_eq!(
        parse_index(&buf).expect("parse empty buffer must succeed"),
        vec![]
    );
}

#[test]
fn parse_truncated_mid_entry_errors() {
    let mut buf = Vec::new();
    encode_index(
        &mut buf,
        &[
            entry(b"aaa", 0, 100),
            entry(b"bbb", 100, 200),
            entry(b"zzz", 300, 50),
        ],
    )
    .expect("encode must succeed");
    buf.truncate(buf.len() - 5);
    let err = parse_index(&buf).expect_err("truncated index must error");
    assert!(matches!(err, LsmError::Corruption(_)));
}

#[test]
fn parse_trailing_garbage_errors() {
    let mut buf = Vec::new();
    encode_index(&mut buf, &[entry(b"aaa", 0, 100), entry(b"zzz", 300, 50)])
        .expect("encode must succeed");
    buf.extend_from_slice(&[0xDE, 0xAD, 0xBE]);
    let err = parse_index(&buf).expect_err("trailing garbage must error");
    assert!(matches!(err, LsmError::Corruption(_)));
}

#[test]
fn parse_oversized_key_len_errors() {
    // key_len field 0xFFFF but far fewer than 65535 key bytes available.
    let mut bytes = vec![0xFF, 0xFF];
    bytes.extend_from_slice(&[0u8; 20]);
    let err = parse_index(&bytes).expect_err("oversized declared key_len must error");
    assert!(matches!(err, LsmError::Corruption(_)));
}

#[test]
fn encode_key_too_large_errors() {
    let mut buf = Vec::new();
    let err = encode_index(&mut buf, &[entry(&[0u8; 65536], 0, 0)])
        .expect_err("oversized key must error");
    assert!(matches!(err, LsmError::KeyTooLarge(65536, 65535)));
    assert!(buf.is_empty());
}

#[test]
fn max_length_key_roundtrip() {
    let key = vec![0x5Au8; MAX_KEY_LEN];
    let entries = vec![entry(&key, 42, 7)];
    let mut buf = Vec::new();
    encode_index(&mut buf, &entries).expect("max-length key must encode");
    assert_eq!(buf.len(), INDEX_ENTRY_HEADER_LEN + MAX_KEY_LEN);
    let parsed = parse_index(&buf).expect("max-length key must parse");
    assert_eq!(parsed, entries);
}

#[test]
fn locate_rightmost_le() {
    let entries = vec![
        entry(b"a", 0, 10),
        entry(b"d", 10, 10),
        entry(b"m", 20, 10),
        entry(b"z", 30, 10),
    ];
    assert_eq!(locate_block(&entries, b"a"), Some(0));
    assert_eq!(locate_block(&entries, b"b"), Some(0));
    assert_eq!(locate_block(&entries, b"d"), Some(1));
    assert_eq!(locate_block(&entries, b"m"), Some(2));
    assert_eq!(locate_block(&entries, b"q"), Some(2));
    assert_eq!(locate_block(&entries, b"z"), Some(3));
    assert_eq!(locate_block(&entries, b"zz"), Some(3));
    assert_eq!(locate_block(&entries, b" "), None);
    assert_eq!(locate_block(&entries, b""), None);
}

#[test]
fn locate_empty_entries() {
    assert_eq!(locate_block(&[], b"any"), None);
}

#[test]
fn binary_search_big_list() {
    let entries: Vec<IndexEntry> = (0..10_000u32)
        .map(|i| entry(format!("k{i:05}").as_bytes(), i as u64 * 100, 100))
        .collect();
    assert_eq!(locate_block(&entries, b"k00000"), Some(0));
    assert_eq!(locate_block(&entries, b"k05000"), Some(5000));
    assert_eq!(locate_block(&entries, b"k09999"), Some(9999));
    assert_eq!(locate_block(&entries, b"k00001a"), Some(1));
    assert_eq!(locate_block(&entries, b"k09876a"), Some(9876));
    assert_eq!(locate_block(&entries, b"k10000"), Some(9999));
    assert_eq!(locate_block(&entries, b"z"), Some(9999));
    assert_eq!(locate_block(&entries, b"j"), None);
    for (i, e) in entries.iter().enumerate() {
        assert_eq!(locate_block(&entries, &e.first_key), Some(i));
    }
}

#[test]
fn a_run_of_records_is_read_back() {
    let mut data = Vec::new();
    put_record(&mut data, b"a", b"1", false).expect("put a");
    put_record(&mut data, b"b", b"", true).expect("put b");
    put_record(&mut data, b"c", b"", false).expect("put c");
    let records = read_records(&data).expect("read all");
    assert_eq!(
        records,
        vec![
            (b"a".to_vec(), b"1".to_vec(), false),
            (b"b".to_vec(), Vec::new(), true),
            (b"c".to_vec(), Vec::new(), false),
        ]
    );
    assert_eq!(read_records(&[]).expect("no records"), Vec::new());
    data.pop();
    assert!(matches!(
        read_records(&data),
        Err(LsmError::Corruption(_))
    ));
}

#[test]
fn texts_of_damaged_records() {
    let mut buf = Vec::new();
    put_record(&mut buf, b"hello", b"world", false).expect("put");
    let err = read_record(&buf, 11).expect_err("no header left");
    assert!(
        matches!(err, LsmError::Corruption(text) if text == "sstable record at offset 11 shorter than header")
    );
    let err = read_record(&buf, 99).expect_err("past the end");
    assert!(
        matches!(err, LsmError::Corruption(text) if text == "sstable record at offset 99 shorter than header")
    );
    let err = read_record(&buf[..16], 0).expect_err("payload cut");
    assert!(matches!(err, LsmError::Corruption(text) if text
        == "sstable record at offset 0 truncated: header declares 17 bytes, only 16 available"));
}

#[test]
fn texts_of_damaged_indexes() {
    let mut buf = Vec::new();
    encode_index(&mut buf, &[entry(b"abc", 1, 2)]).expect("encode");
    assert_eq!(
        buf,
        [3, 0, b'a', b'b', b'c', 1, 0, 0, 0, 0, 0, 0, 0, 2, 0, 0, 0, 0, 0, 0, 0]
    );
    let err = parse_index(&buf[..17]).expect_err("too short");
    assert!(matches!(err, LsmError::Corruption(text) if text
        == "sstable index entry at offset 0 truncated: 17 bytes left, need at least 18"));
    let err = parse_index(&buf[..20]).expect_err("key cut");
    assert!(matches!(err, LsmError::Corruption(text) if text
        == "sstable index entry at offset 0 truncated: header declares 21 bytes, only 20 available"));
}

#[test]
fn an_index_with_one_oversized_key_writes_nothing() {
    let mut buf = vec![7];
    let err = encode_index(
        &mut buf,
        &[entry(b"a", 0, 1), entry(&[0u8; 70_000], 1, 1), entry(&[0u8; 80_000], 2, 1)],
    )
    .expect_err("the first oversized key is reported");
    assert!(matches!(err, LsmError::KeyTooLarge(70_000, 65535)));
    assert_eq!(buf, [7]);
}
