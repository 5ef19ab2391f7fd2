//! Laying out a table.

use lsm_engine::error::LsmError;
use lsm_engine::sstable::bloom::{decode_bloom, Bloom, BloomSizing, BLOOM_SEED};
use lsm_engine::sstable::builder::SsTableBuilder;
use lsm_engine::sstable::index::parse_index;
use lsm_engine::sstable::record::read_record;
use lsm_engine::sstable::{FOOTER_LEN, MAGIC, TARGET_BLOCK_SIZE};
use lsm_engine::utils;

/// The size of a filter for so many keys.
fn sizing(expected_items: usize) -> BloomSizing {
    let filter = fastbloom::BloomFilter::with_false_pos(0.01)
        .seed(&BLOOM_SEED)
        .expected_items(expected_items);
    BloomSizing::new(filter.num_bits() / 64, filter.num_hashes()).expect("a size in range")
}

fn read_footer(bytes: &[u8]) -> (u64, u64) {
    assert!(bytes.len() >= FOOTER_LEN);
    let footer = &bytes[bytes.len() - FOOTER_LEN..];
    (
        utils::read_u64(footer, 0).expect("footer index_offset"),
        utils::read_u64(footer, 8).expect("footer bloom_offset"),
    )
}

fn read_all_records(bytes: &[u8]) -> Vec<(Vec<u8>, Vec<u8>, bool)> {
    let (index_offset, _) = read_footer(bytes);
    let mut records = Vec::new();
    let mut offset = 0usize;
    while offset < index_offset as usize {
        let (key, value, deleted, consumed) =
            read_record(bytes, offset).expect("record must parse");
        assert!(consumed > 0);
        records.push((key, value, deleted));
        offset += consumed;
    }
    records
}

#[test]
fn build_writes_valid_file_layout() {
    let mut builder = SsTableBuilder::new();
    builder.add(b"k1", b"v1", false).expect("add k1");
    builder.add(b"k2", b"v2", false).expect("add k2");
    let bytes = builder.build().expect("build must succeed");

    let data_len = 11usize + 11; // two records: 7 header + 2 key + 2 value
    let index_len = 20usize; // one sparse entry (both records share a block): 2 key + 18 header
    assert_eq!(bytes.len(), data_len + index_len + FOOTER_LEN);

    let (index_offset, bloom_offset) = read_footer(&bytes);
    assert_eq!(index_offset, data_len as u64);
    assert_eq!(bloom_offset, 0);
    assert_eq!(&bytes[bytes.len() - 8..], &MAGIC);

    let (key, value, deleted, consumed) = read_record(&bytes, 0).expect("first record");
    assert_eq!(key, b"k1");
    assert_eq!(value, b"v1");
    assert!(!deleted);
    let (key, value, deleted, consumed2) =
        read_record(&bytes, consumed).expect("second record");
    assert_eq!(key, b"k2");
    assert_eq!(value, b"v2");
    assert!(!deleted);
    assert_eq!(consumed + consumed2, data_len);
}

#[test]
fn single_block_index_offset() {
    let mut builder = SsTableBuilder::new();
    builder.add(b"apple", b"red", false).expect("add apple");
    builder
        .add(b"banana", b"", true)
        .expect("add banana tombstone");
    builder
        .add(b"cherry", b"dark red", false)
        .expect("add cherry");
    let bytes = builder.build().expect("build must succeed");
    let (index_offset, _bloom) = read_footer(&bytes);

    // apple: 7+5+3=15, banana: 7+6=13, cherry: 7+6+8=21.
    let data_len = 15 + 13 + 21;
    assert_eq!(index_offset, data_len as u64);

    let entries =
        parse_index(&bytes[data_len..bytes.len() - FOOTER_LEN]).expect("index must parse");
    assert_eq!(entries.len(), 1);
    assert_eq!(entries[0].first_key, b"apple");
    assert_eq!(entries[0].offset, 0);
    assert_eq!(entries[0].size, data_len as u64);
}

#[test]
fn multi_block_split() {
    let mut builder = SsTableBuilder::new();
    for i in 0..500u32 {
        let key = format!("k{i:05}");
        let value = vec![0u8; 32];
        builder
            .add(key.as_bytes(), &value, false)
            .expect("add must succeed");
    }
    let bytes = builder.build().expect("build must succeed");
    let (index_offset, _bloom) = read_footer(&bytes);

    let entries = parse_index(&bytes[index_offset as usize..bytes.len() - FOOTER_LEN])
        .expect("index must parse");
    // 500 records x 45 bytes each = 22500 bytes; blocks hold at most ~4096.
    assert!(
        entries.len() >= 5,
        "expected >=5 blocks, got {}",
        entries.len()
    );

    assert_eq!(entries[0].offset, 0);
    for pair in entries.windows(2) {
        assert_eq!(pair[1].offset, pair[0].offset + pair[0].size);
    }
    let last = entries.last().expect("at least one entry");
    assert_eq!(last.offset + last.size, index_offset);

    for entry in &entries {
        let (first_key, _, _, _) =
            read_record(&bytes, entry.offset as usize).expect("block first record");
        assert_eq!(first_key, entry.first_key);
        assert!(
            entry.size <= TARGET_BLOCK_SIZE as u64,
            "finalized block must not exceed target unless it is a lone oversized record"
        );
    }
}

#[test]
fn exact_block_boundary_splits_correctly() {
    // Empty record = 7 bytes, leaving 4089 for the rest of block 1.
    // A filler record with key_len 1356 costs 7 + 1356 = 1363; three of them
    // fill 4089 exactly, so block 1 totals precisely TARGET_BLOCK_SIZE.
    let mut builder = SsTableBuilder::new();
    builder.add(b"", b"", false).expect("add empty seed");
    let filler_len = 1356;
    for i in 0..3u32 {
        let key = format!("{i:04}{}", "a".repeat(filler_len - 4));
        assert_eq!(key.len(), filler_len);
        builder.add(key.as_bytes(), b"", false).expect("add filler");
    }
    builder.add(b"z-final", b"x", false).expect("add boundary");
    let bytes = builder.build().expect("build must succeed");
    let (index_offset, _bloom) = read_footer(&bytes);
    let entries = parse_index(&bytes[index_offset as usize..bytes.len() - FOOTER_LEN])
        .expect("index must parse");

    assert_eq!(entries.len(), 2, "boundary record must start a new block");
    assert_eq!(entries[0].size, TARGET_BLOCK_SIZE as u64);
    assert_eq!(entries[0].first_key, b"");
    assert_eq!(entries[1].first_key, b"z-final");
}

#[test]
fn build_twice_same_path_truncates() {
    let mut first = SsTableBuilder::new();
    for i in 0..500u32 {
        let key = format!("k{i:05}");
        first.add(key.as_bytes(), &[0u8; 32], false).unwrap();
    }
    let first_len = first.build().expect("first build must succeed").len();

    let mut second = SsTableBuilder::new();
    second.add(b"only", b"one", false).unwrap();
    let second_bytes = second.build().expect("second build must succeed");

    assert!(second_bytes.len() < first_len);
    let (index_offset, _bloom) = read_footer(&second_bytes);
    assert_eq!(
        index_offset as usize,
        second_bytes.len() - FOOTER_LEN - (2 + b"only".len() + 8 + 8)
    );
}

#[test]
fn empty_builder_writes_footer_only() {
    let bytes = SsTableBuilder::new()
        .build()
        .expect("build must succeed");
    assert_eq!(bytes.len(), FOOTER_LEN);

    let (index_offset, bloom_offset) = read_footer(&bytes);
    assert_eq!(index_offset, 0);
    assert_eq!(bloom_offset, 0);
    assert_eq!(&bytes[bytes.len() - 8..], &MAGIC);

    assert!(
        parse_index(&bytes[..0])
            .expect("empty index must parse")
            .is_empty()
    );
}

#[test]
fn oversized_record_is_its_own_block() {
    let value = vec![0xABu8; 10_000];
    let mut builder = SsTableBuilder::new();
    builder.add(b"big", &value, false).expect("add oversized");
    builder.add(b"small", b"v", false).expect("add small");
    let bytes = builder.build().expect("build must succeed");
    let (index_offset, _bloom) = read_footer(&bytes);

    let entries = parse_index(&bytes[index_offset as usize..bytes.len() - FOOTER_LEN])
        .expect("index must parse");
    assert_eq!(entries.len(), 2);
    assert_eq!(entries[0].first_key, b"big");
    assert_eq!(entries[0].offset, 0);
    assert_eq!(entries[0].size, (7 + 3 + 10_000) as u64);
    assert_eq!(entries[1].offset, entries[0].size);
}

#[test]
fn out_of_order_key_rejected() {
    let mut builder = SsTableBuilder::new();
    builder.add(b"a", b"1", false).expect("add a");
    let err = builder
        .add(b"a", b"2", false)
        .expect_err("duplicate must error");
    assert!(matches!(err, LsmError::InvalidOp(_)));

    builder
        .add(b"c", b"3", false)
        .expect("add c after rejection");
    let err = builder
        .add(b"b", b"4", false)
        .expect_err("b after c must error");
    assert!(matches!(err, LsmError::InvalidOp(_)));

    builder.add(b"d", b"5", false).expect("add d");
    let bytes = builder.build().expect("build must succeed");
    let records = read_all_records(&bytes);
    let got: Vec<(&[u8], &[u8])> = records
        .iter()
        .map(|(k, v, _)| (k.as_slice(), v.as_slice()))
        .collect();
    assert_eq!(
        got,
        vec![(&b"a"[..], &b"1"[..]), (b"c", b"3"), (b"d", b"5")]
    );
}

#[test]
fn empty_key_first_allowed_then_reject() {
    let mut builder = SsTableBuilder::new();
    builder
        .add(b"", b"first", false)
        .expect("empty key is valid");
    let err = builder
        .add(b"", b"dup", false)
        .expect_err("duplicate empty must error");
    assert!(matches!(err, LsmError::InvalidOp(_)));

    builder
        .add(b"\x00", b"after", false)
        .expect("0x00 sorts after empty");
    let bytes = builder.build().expect("build must succeed");
    let records = read_all_records(&bytes);
    assert_eq!(records.len(), 2);
    assert_eq!(records[0].0, b"");
    assert_eq!(records[0].1, b"first");
    assert_eq!(records[1].0, b"\x00");
    assert_eq!(records[1].1, b"after");
}

#[test]
fn oversized_key_rejected_cleanly() {
    let key = vec![0u8; 65536];
    let mut builder = SsTableBuilder::new();
    let err = builder
        .add(&key, b"v", false)
        .expect_err("oversized key must error");
    assert!(matches!(err, LsmError::KeyTooLarge(65536, 65535)));

    assert!(builder.is_empty(), "failed add must not mutate builder");
    builder
        .add(b"small", b"value", false)
        .expect("valid add after rejection");
    let bytes = builder.build().expect("build must succeed");
    let records = read_all_records(&bytes);
    assert_eq!(records.len(), 1);
    assert_eq!(records[0].0, b"small");
    assert_eq!(records[0].1, b"value");
}

#[test]
fn estimated_data_size_tracks_current_and_data() {
    let mut builder = SsTableBuilder::new();
    assert_eq!(builder.estimated_data_size(), 0);
    assert!(builder.is_empty());

    builder.add(b"kk", b"v", false).expect("add kk");
    assert_eq!(builder.estimated_data_size(), 10); // 7 header + 2 + 1
    builder.add(b"ll", b"w", false).expect("add ll");
    builder.add(b"mm", b"x", false).expect("add mm");
    assert_eq!(builder.estimated_data_size(), 30);
    assert!(!builder.is_empty());
}

#[test]
fn is_empty_tracks_adds() {
    let mut builder = SsTableBuilder::new();
    assert!(builder.is_empty());
    builder.add(b"k", b"v", false).expect("add must succeed");
    assert!(!builder.is_empty());
}

#[test]
fn min_max_key_track_extremes() {
    let mut builder = SsTableBuilder::new();
    assert_eq!(builder.min_key(), None);
    assert_eq!(builder.max_key(), None);

    builder.add(b"a", b"1", false).expect("add a");
    builder.add(b"b", b"2", false).expect("add b");
    builder.add(b"c", b"3", false).expect("add c");
    assert_eq!(builder.min_key(), Some(b"a".to_vec()));
    assert_eq!(builder.max_key(), Some(b"c".to_vec()));

    // Tombstone counts as a key for range purposes.
    builder.add(b"d", b"", true).expect("add delete d");
    assert_eq!(builder.max_key(), Some(b"d".to_vec()));
}

#[test]
fn min_max_key_across_block_boundaries() {
    let mut builder = SsTableBuilder::with_expected_items(200, sizing(200));
    builder.add(b"", b"", false).expect("add empty first");
    for i in 0..500u32 {
        let key = format!("k{i:05}");
        builder.add(key.as_bytes(), &[0u8; 32], false).expect("add");
    }
    builder.add(b"zz", b"x", false).expect("add last");
    assert_eq!(builder.min_key(), Some(b"".to_vec()));
    assert_eq!(builder.max_key(), Some(b"zz".to_vec()));
}

#[test]
fn tombstone_record_written() {
    let mut builder = SsTableBuilder::new();
    builder.add(b"a", b"v1", false).expect("add put a");
    builder.add(b"b", b"", true).expect("add delete b");
    let bytes = builder.build().expect("build must succeed");

    let (key, value, deleted, consumed) = read_record(&bytes, 0).expect("first record");
    assert_eq!(key, b"a");
    assert_eq!(value, b"v1");
    assert!(!deleted);

    let (key, value, deleted, _) = read_record(&bytes, consumed).expect("second record");
    assert_eq!(key, b"b");
    assert!(value.is_empty());
    assert!(deleted);
}

fn bloom_bytes(bytes: &[u8], bloom_offset: u64) -> &[u8] {
    &bytes[bloom_offset as usize..bytes.len() - FOOTER_LEN]
}

fn decode_file_bloom(bytes: &[u8]) -> Bloom {
    let (_index_offset, bloom_offset) = read_footer(bytes);
    assert!(bloom_offset > 0, "expected a bloom block to be present");
    decode_bloom(bloom_bytes(bytes, bloom_offset))
        .expect("bloom block must decode")
}

/// Builds `count` ascending keys `k00000..` (each a 32-byte value) into a
/// fresh table. `expected_items` > 0 routes through
/// `with_expected_items`, otherwise `new()` (bloom disabled).
fn build_sequential(count: usize, expected_items: usize) -> Vec<u8> {
    let mut builder = if expected_items > 0 {
        SsTableBuilder::with_expected_items(expected_items, sizing(expected_items))
    } else {
        SsTableBuilder::new()
    };
    let value = vec![0u8; 32];
    for i in 0..count {
        let key = format!("k{i:05}");
        builder.add(key.as_bytes(), &value, false).expect("add");
    }
    builder.build().expect("build")
}

#[test]
fn build_with_bloom_writes_bloom_offset() {
    let mut builder = SsTableBuilder::with_expected_items(100, sizing(100));
    for i in 0..5u32 {
        let key = format!("k{i}");
        builder.add(key.as_bytes(), b"v", false).expect("add");
    }
    let bytes = builder.build().expect("build must succeed");
    let (index_offset, bloom_offset) = read_footer(&bytes);
    assert!(
        index_offset < bloom_offset,
        "bloom must start after the index"
    );
    assert!(
        bloom_offset < bytes.len() as u64 - FOOTER_LEN as u64,
        "bloom must end before the footer"
    );

    let index = parse_index(&bytes[index_offset as usize..bloom_offset as usize])
        .expect("index region must parse");
    assert_eq!(index.len(), 1, "all five keys share one block");

    let decoded = decode_file_bloom(&bytes);
    for i in 0..5u32 {
        let key = format!("k{i}");
        assert!(
            decoded.contains(key.as_bytes()),
            "key {key} must be in bloom"
        );
    }
}

#[test]
fn tombstone_key_in_bloom() {
    let mut builder = SsTableBuilder::with_expected_items(10, sizing(10));
    builder.add(b"a", b"v1", false).expect("add a");
    builder.add(b"b", b"", true).expect("add delete b");
    let bytes = builder.build().expect("build must succeed");
    let decoded = decode_file_bloom(&bytes);
    assert!(decoded.contains(b"a"), "live key must be in bloom");
    assert!(
        decoded.contains(b"b"),
        "tombstone key must be in bloom so Deleted is discoverable"
    );
}

#[test]
fn no_bloom_default_writes_zero() {
    let mut builder = SsTableBuilder::new();
    builder.add(b"k1", b"v1", false).expect("add k1");
    builder.add(b"k2", b"v2", false).expect("add k2");
    let bytes = builder.build().expect("build must succeed");
    let (index_offset, bloom_offset) = read_footer(&bytes);
    assert_eq!(bloom_offset, 0, "no bloom block without expected_items");

    // Without a filter: data + index + footer, no bloom padding.
    let data_len = 22usize; // two records of 7 header + 2 key + 2 value
    let index_len = 20usize; // one sparse entry
    assert_eq!(index_offset, data_len as u64);
    assert_eq!(bytes.len(), data_len + index_len + FOOTER_LEN);
    assert_eq!(&bytes[bytes.len() - 8..], &MAGIC);
}

#[test]
fn empty_table_no_bloom_even_when_enabled() {
    let bytes = SsTableBuilder::with_expected_items(10, sizing(10))
        .build()
        .expect("build must succeed");
    assert_eq!(bytes.len(), FOOTER_LEN, "no keys -> footer-only file");
    let (index_offset, bloom_offset) = read_footer(&bytes);
    assert_eq!(index_offset, 0);
    assert_eq!(
        bloom_offset, 0,
        "lazily-created bloom must be skipped when no key was added"
    );
}

#[test]
fn bloom_file_is_larger() {
    let no_bloom = build_sequential(100, 0);
    let with_bloom = build_sequential(100, 100);
    assert!(
        with_bloom.len() > no_bloom.len(),
        "bloom file must be larger"
    );

    assert_eq!(&no_bloom[no_bloom.len() - 8..], &MAGIC);
    assert_eq!(&with_bloom[with_bloom.len() - 8..], &MAGIC);

    let (nb_index_offset, nb_bloom_offset) = read_footer(&no_bloom);
    assert_eq!(nb_bloom_offset, 0);
    let nb_entries =
        parse_index(&no_bloom[nb_index_offset as usize..no_bloom.len() - FOOTER_LEN])
            .expect("no-bloom index must parse");
    assert!(!nb_entries.is_empty());

    let (wb_index_offset, wb_bloom_offset) = read_footer(&with_bloom);
    let wb_entries =
        parse_index(&with_bloom[wb_index_offset as usize..wb_bloom_offset as usize])
            .expect("bloom file index must parse");
    assert_eq!(
        wb_entries.len(),
        nb_entries.len(),
        "same data must produce the same index"
    );

    let decoded = decode_file_bloom(&with_bloom);
    for i in 0..100u32 {
        let key = format!("k{i:05}");
        assert!(
            decoded.contains(key.as_bytes()),
            "key {key} must be in bloom"
        );
    }
}

#[test]
fn bloom_contains_all_after_reopen_roundtrip() {
    let bytes = build_sequential(200, 200);
    let decoded = decode_file_bloom(&bytes);
    for i in 0..200u32 {
        let key = format!("k{i:05}");
        assert!(
            decoded.contains(key.as_bytes()),
            "key {key} lost through file roundtrip"
        );
    }
}

#[test]
fn zero_expected_items_turns_the_filter_off() {
    let mut builder = SsTableBuilder::with_expected_items(0, sizing(1));
    builder.add(b"k", b"v", false).expect("add");
    let bytes = builder.build().expect("build");
    assert_eq!(read_footer(&bytes).1, 0);

    let mut plain = SsTableBuilder::default();
    plain.add(b"k", b"v", false).expect("add");
    assert_eq!(plain.build().expect("build"), bytes);
}

#[test]
fn a_record_that_fits_exactly_stays_in_its_block() {
    let mut builder = SsTableBuilder::new();
    builder.add(b"a", &[0u8; 2000], false).expect("add a");
    let rest = TARGET_BLOCK_SIZE - (7 + 1 + 2000) - (7 + 1);
    builder.add(b"b", &vec![0u8; rest], false).expect("add b");
    let bytes = builder.build().expect("build");
    let (index_offset, _) = read_footer(&bytes);
    let entries =
        parse_index(&bytes[index_offset as usize..bytes.len() - FOOTER_LEN]).expect("index");
    assert_eq!(entries.len(), 1);
    assert_eq!(entries[0].size, TARGET_BLOCK_SIZE as u64);

    let mut builder = SsTableBuilder::new();
    builder.add(b"a", &[0u8; 2000], false).expect("add a");
    builder.add(b"b", &vec![0u8; rest + 1], false).expect("add b");
    let bytes = builder.build().expect("build");
    let (index_offset, _) = read_footer(&bytes);
    let entries =
        parse_index(&bytes[index_offset as usize..bytes.len() - FOOTER_LEN]).expect("index");
    assert_eq!(entries.len(), 2);
    assert_eq!(entries[1].offset, 2008);
}

#[test]
fn order_errors_have_their_text() {
    let mut builder = SsTableBuilder::new();
    builder.add(b"b", b"", false).expect("add b");
    let err = builder.add(b"a", b"", false).expect_err("descending");
    assert!(
        matches!(err, LsmError::InvalidOp(text) if text == "sstable keys must be strictly ascending")
    );
    // The length limit is looked at before the order.
    let err = builder.add(&[0u8; 65536], b"", false).expect_err("too long");
    assert!(matches!(err, LsmError::KeyTooLarge(65536, 65535)));
    assert_eq!(builder.estimated_data_size(), 8);
    assert_eq!(builder.max_key(), Some(b"b".to_vec()));
}
