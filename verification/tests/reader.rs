//! Opening a table and looking keys up in it.

use lsm_engine::error::{LsmError, Result};
use lsm_engine::model::Record;
use lsm_engine::sstable::bloom::{BloomSizing, BLOOM_SEED};
use lsm_engine::sstable::builder::SsTableBuilder;
use lsm_engine::sstable::reader::{check_length, read_footer, search_block, SsTableReader};
use lsm_engine::sstable::{LookupValue, FOOTER_LEN, MAGIC};
use lsm_engine::utils;

/// The size of a filter for so many keys.
fn sizing(expected_items: usize) -> BloomSizing {
    let filter = fastbloom::BloomFilter::with_false_pos(0.01)
        .seed(&BLOOM_SEED)
        .expected_items(expected_items);
    BloomSizing::new(filter.num_bits() / 64, filter.num_hashes()).expect("a size in range")
}

/// A table file that is kept in memory.
struct Table {
    name: String,
    file: Vec<u8>,
}

/// An open table with its file.
struct Open<'a> {
    reader: SsTableReader,
    file: &'a [u8],
}

impl Table {
    fn new(name: &str, file: Vec<u8>) -> Table {
        Table {
            name: name.to_string(),
            file,
        }
    }

    fn open(&self) -> Result<Open<'_>> {
        Ok(Open {
            reader: SsTableReader::open(&self.name, &self.file)?,
            file: &self.file,
        })
    }
}

impl Open<'_> {
    fn get(&self, key: &[u8]) -> Result<Option<LookupValue>> {
        self.reader.get(self.file, key)
    }

    fn records(&self) -> Result<Vec<Record>> {
        self.reader.records(self.file)
    }

    fn num_blocks(&self) -> usize {
        self.reader.num_blocks()
    }

    fn bloom_probe(&self, key: &[u8]) -> Option<bool> {
        self.reader.bloom_probe(key)
    }
}

fn fill(mut builder: SsTableBuilder, entries: &[(Vec<u8>, Option<Vec<u8>>)]) -> Vec<u8> {
    for (key, maybe_value) in entries {
        match maybe_value {
            Some(value) => builder.add(key, value, false).expect("add put"),
            None => builder.add(key, &[], true).expect("add delete"),
        }
    }
    builder.build().expect("build sstable")
}

fn build_sst(name: &str, entries: &[(Vec<u8>, Option<Vec<u8>>)]) -> Table {
    Table::new(name, fill(SsTableBuilder::new(), entries))
}

fn build_sst_with_bloom(
    name: &str,
    expected_items: usize,
    entries: &[(Vec<u8>, Option<Vec<u8>>)],
) -> Table {
    let builder = SsTableBuilder::with_expected_items(expected_items, sizing(expected_items));
    Table::new(name, fill(builder, entries))
}

#[test]
fn magic_bytes() {
    assert_eq!(MAGIC, *b"LSMTREE1");
}

#[test]
fn lookup_value_variants() {
    assert_ne!(LookupValue::Present(b"x".to_vec()), LookupValue::Deleted);
    assert_ne!(LookupValue::Deleted, LookupValue::Present(Vec::new()));
    assert_eq!(
        LookupValue::Present(Vec::new()),
        LookupValue::Present(Vec::new())
    );
}

#[test]
fn get_present_value() {
    let mut table = build_sst("present.sst",
        &[
            (b"k1".to_vec(), Some(b"v1".to_vec())),
            (b"k2".to_vec(), Some(b"v2".to_vec())),
        ],
    );
    let reader = table.open().expect("open");
    assert_eq!(
        reader.get(b"k1").expect("get k1"),
        Some(LookupValue::Present(b"v1".to_vec()))
    );
    assert_eq!(
        reader.get(b"k2").expect("get k2"),
        Some(LookupValue::Present(b"v2".to_vec()))
    );
}

#[test]
fn get_absent_returns_none() {
    let mut table = build_sst("absent.sst",
        &[
            (b"aaa".to_vec(), Some(b"1".to_vec())),
            (b"ccc".to_vec(), Some(b"3".to_vec())),
        ],
    );
    let reader = table.open().expect("open");
    assert_eq!(reader.get(b"nope").expect("get"), None);
    assert_eq!(reader.get(b"bbb").expect("get between"), None);
}

#[test]
fn get_tombstone_and_empty_value() {
    let mut table = build_sst("tomb.sst",
        &[
            (b"del".to_vec(), None),
            (b"empty".to_vec(), Some(b"".to_vec())),
        ],
    );
    let reader = table.open().expect("open");
    assert_eq!(
        reader.get(b"del").expect("get deleted"),
        Some(LookupValue::Deleted)
    );
    assert_eq!(
        reader.get(b"empty").expect("get empty"),
        Some(LookupValue::Present(Vec::new()))
    );
}

#[test]
fn get_before_first_and_after_last() {
    let mut table = build_sst("range.sst",
        &[
            (b"m".to_vec(), Some(b"1".to_vec())),
            (b"z".to_vec(), Some(b"2".to_vec())),
        ],
    );
    let reader = table.open().expect("open");
    assert_eq!(reader.get(b"a").expect("before first"), None);
    assert_eq!(reader.get(b"zzz").expect("after last"), None);
}

#[test]
fn multi_block_lookup() {
    let mut entries = Vec::new();
    for i in 0..500u32 {
        let key = format!("k{i:05}").into_bytes();
        if i % 50 == 0 {
            entries.push((key, None));
        } else {
            entries.push((key, Some(vec![0u8; 32])));
        }
    }
    let mut table = build_sst("multi.sst", &entries);
    let reader = table.open().expect("open");
    assert!(reader.num_blocks() >= 2, "expected multi-block table");

    for (i, (key, maybe_value)) in entries.iter().enumerate() {
        let result = reader.get(key).expect("get inserted key");
        match maybe_value {
            Some(_) => assert!(
                matches!(result, Some(LookupValue::Present(_))),
                "key {} idx {i} should be present",
                String::from_utf8_lossy(key)
            ),
            None => assert_eq!(
                result,
                Some(LookupValue::Deleted),
                "key {} idx {i} should be deleted",
                String::from_utf8_lossy(key)
            ),
        }
    }
    // Misses between inserted keys.
    for i in 0..500u32 {
        let miss = format!("k{i:05}x").into_bytes();
        assert_eq!(reader.get(&miss).expect("get miss"), None);
    }
}

#[test]
fn empty_table() {
    let table = Table::new("empty.sst", SsTableBuilder::new().build().expect("build empty"));
    let reader = table.open().expect("open empty");
    assert_eq!(reader.num_blocks(), 0);
    assert_eq!(reader.get(b"anything").expect("get"), None);
}

#[test]
fn corrupt_magic_errors() {
    let mut table = build_sst("magic.sst", &[(b"k".to_vec(), Some(b"v".to_vec()))]);
    let mut bytes = table.file.clone();
    let last = bytes.len() - 1;
    bytes[last] ^= 0xFF;
    table.file = bytes;
    let err = match table.open() {
        Ok(_) => panic!("bad magic must error"),
        Err(e) => e,
    };
    assert!(matches!(err, LsmError::Corruption(_)));
}

#[test]
fn truncated_file_errors() {
    let mut table = build_sst("trunc.sst", &[(b"k".to_vec(), Some(b"v".to_vec()))]);
    let bytes = table.file.clone();
    table.file = bytes[..10].to_vec();
    let err = match table.open() {
        Ok(_) => panic!("short file must error"),
        Err(e) => e,
    };
    assert!(matches!(err, LsmError::Corruption(_)));
}

#[test]
fn data_block_pointer_out_of_file_errors() {
    // Inflate a block's recorded size in the index so the block pointer
    // runs past EOF; open() still succeeds (index parses fine) but get()
    // must reject the out-of-range block with Corruption.
    let mut table = build_sst("block-ptr.sst",
        &[(b"k".to_vec(), Some(vec![0u8; 64]))],
    );
    let mut bytes = table.file.clone();
    // Index region layout per entry: [key_len u16][key][offset u64][size u64].
    // The final u64 (size) ends exactly at bytes.len() - FOOTER_LEN.
    let size_field = bytes.len() - FOOTER_LEN - 8;
    for b in &mut bytes[size_field..size_field + 8] {
        *b = 0xFF;
    }
    table.file = bytes;

    let reader = table.open().expect("open must still succeed");
    let err = match reader.get(b"k") {
        Ok(_) => panic!("out-of-range block must error"),
        Err(e) => e,
    };
    assert!(matches!(err, LsmError::Corruption(_)));
}

#[test]
fn block_offset_plus_size_overflow_errors() {
    // Second block sits at a nonzero offset; inflating its size to u64::MAX
    // makes offset+size overflow, which must surface as Corruption (not a
    // panic or a huge allocation).
    // Block 0: one oversized record (value 10_000 > 4096 target). Block 1: "z".
    let mut builder = SsTableBuilder::new();
    builder
        .add(b"a", &[0u8; 10_000], false)
        .expect("add block0");
    builder.add(b"z", b"last", false).expect("add block1");
    let mut table = Table::new("overflow.sst", builder.build().expect("build"));

    let mut bytes = table.file.clone();
    let index_offset = utils::read_u64(&bytes[bytes.len() - FOOTER_LEN..], 0).expect("io");
    // Walk index: skip entry 0 to reach entry 1's size field (its last 8 bytes).
    let mut pos = index_offset as usize;
    let key0_len = utils::read_u16(&bytes, pos).expect("key0 len") as usize;
    pos += 2 + key0_len + 8 + 8; // skip entry 0 entirely
    let key1_len = utils::read_u16(&bytes, pos).expect("key1 len") as usize;
    let size_field = pos + 2 + key1_len + 8; // skip key1 + offset, land on size
    for b in &mut bytes[size_field..size_field + 8] {
        *b = 0xFF;
    }
    table.file = bytes;

    let reader = table.open().expect("open must still succeed");
    let err = match reader.get(b"z") {
        Ok(_) => panic!("overflowing block pointer must error"),
        Err(e) => e,
    };
    assert!(matches!(err, LsmError::Corruption(_)));
}

#[test]
fn index_malformed_errors() {
    let mut table = build_sst("idx.sst", &[(b"k".to_vec(), Some(b"v".to_vec()))]);
    let mut bytes = table.file.clone();
    let index_offset = utils::read_u64(&bytes[bytes.len() - FOOTER_LEN..], 0).expect("io");
    // Overwrite index region with 0xFF garbage.
    let idx_start = index_offset as usize;
    let idx_end = bytes.len() - FOOTER_LEN;
    for b in &mut bytes[idx_start..idx_end] {
        *b = 0xFF;
    }
    table.file = bytes;
    let err = match table.open() {
        Ok(_) => panic!("garbage index must error"),
        Err(e) => e,
    };
    assert!(matches!(err, LsmError::Corruption(_)));
}

#[test]
fn tri_state_distinct() {
    let mut table = build_sst("tri.sst",
        &[
            (b"live".to_vec(), Some(b"v".to_vec())),
            (b"tomb".to_vec(), None),
        ],
    );
    let reader = table.open().expect("open");
    assert!(matches!(
        reader.get(b"live").expect("get live"),
        Some(LookupValue::Present(_))
    ));
    assert_eq!(
        reader.get(b"tomb").expect("get tomb"),
        Some(LookupValue::Deleted)
    );
    assert_eq!(reader.get(b"gone").expect("get gone"), None);
}

#[test]
fn roundtrip_with_bloom_finds_all() {
    let mut table = build_sst_with_bloom("bloom-roundtrip.sst",
        10,
        &[
            (b"a1".to_vec(), Some(b"v1".to_vec())),
            (b"del".to_vec(), None),
            (b"empty".to_vec(), Some(Vec::new())),
        ],
    );
    let reader = table.open().expect("open with bloom");
    assert_eq!(
        reader.get(b"a1").expect("get live"),
        Some(LookupValue::Present(b"v1".to_vec()))
    );
    assert_eq!(
        reader.get(b"empty").expect("get empty-value put"),
        Some(LookupValue::Present(Vec::new()))
    );
    assert_eq!(
        reader.get(b"del").expect("get tombstone"),
        Some(LookupValue::Deleted)
    );
    assert_eq!(reader.get(b"zzz").expect("get absent"), None);
}

#[test]
fn bloom_short_circuits_absent_key() {
    // Corrupt the first data block's index entry (inflate its recorded size
    // past EOF) so any get() that reaches the block read returns
    // Corruption. A key the bloom rules out must still read Ok(None) —
    // the only way it can, with a poisoned block, is by short-circuiting
    // on the bloom before touching the index or disk.
    let entries: Vec<(Vec<u8>, Option<Vec<u8>>)> = (0..100u32)
        .map(|i| (format!("k{i:04}").into_bytes(), Some(vec![0u8; 16])))
        .collect();
    let mut table = build_sst_with_bloom("short.sst", 100, &entries);

    let mut bytes = table.file.clone();
    let index_offset = utils::read_u64(&bytes[bytes.len() - FOOTER_LEN..], 0).expect("io");
    let key0_len = utils::read_u16(&bytes, index_offset as usize).expect("io") as usize;
    // First index entry layout: [key_len u16][first_key][offset u64][size u64].
    let size_field = index_offset as usize + 2 + key0_len + 8;
    for b in &mut bytes[size_field..size_field + 8] {
        *b = 0xFF;
    }
    table.file = bytes;

    let reader = table.open().expect("open must still succeed");
    // A present key must pass the bloom and die on the corrupt block read,
    // proving the block is genuinely unreadable.
    assert_eq!(
        reader.bloom_probe(b"k0000"),
        Some(true),
        "present key must not be a false negative"
    );
    assert!(matches!(reader.get(b"k0000"), Err(LsmError::Corruption(_))));

    // An absent key the bloom rules out must short-circuit before reaching
    // the corrupt block, so it reads Ok(None) rather than Corruption.
    let absent = (100..10_000u32)
        .map(|i| format!("k{i:04}").into_bytes())
        .find(|k| reader.bloom_probe(k) == Some(false))
        .expect("some absent key must be bloom-negative");
    assert_eq!(
        reader.get(&absent).expect("absent must short-circuit"),
        None
    );
}

#[test]
fn f3_file_without_bloom_still_reads() {
    let mut table = build_sst("no-bloom.sst",
        &[
            (b"k1".to_vec(), Some(b"v1".to_vec())),
            (b"k2".to_vec(), Some(b"v2".to_vec())),
        ],
    );
    let reader = table.open().expect("open plain file");
    assert_eq!(reader.bloom_probe(b"k1"), None, "no bloom loaded");
    assert_eq!(
        reader.get(b"k1").expect("get present"),
        Some(LookupValue::Present(b"v1".to_vec()))
    );
    assert_eq!(reader.get(b"nope").expect("get absent"), None);
}

#[test]
fn corrupt_bloom_block_errors() {
    let mut table = build_sst_with_bloom("corrupt-bloom.sst",
        10,
        &[(b"k1".to_vec(), Some(b"v1".to_vec()))],
    );
    let mut bytes = table.file.clone();
    let file_len = bytes.len();
    // Locate the real bloom block start from the footer (offset 8 of footer).
    let bloom_offset = utils::read_u64(&bytes[file_len - FOOTER_LEN..], 8).expect("io");
    assert!(bloom_offset > 0, "test file must carry a bloom block");
    // Overwrite the bloom block's num_hashes field (first 4 bytes) with an
    // implausible value so decode_bloom rejects it — exercising the reader's
    // bloom decode Corruption path with structurally-intact index/footer.
    bytes[bloom_offset as usize..bloom_offset as usize + 4]
        .copy_from_slice(&u32::MAX.to_le_bytes());
    table.file = bytes;

    let err = match table.open() {
        Ok(_) => panic!("corrupt bloom block must error at open"),
        Err(e) => e,
    };
    assert!(matches!(err, LsmError::Corruption(_)));
}

#[test]
fn empty_table_with_bloom_requested_reads_as_no_bloom() {
    let builder = SsTableBuilder::with_expected_items(10, sizing(10));
    let table = Table::new(
        "empty-bloom.sst",
        builder.build().expect("build empty with bloom requested"),
    );
    let reader = table.open().expect("open empty");
    assert_eq!(reader.num_blocks(), 0);
    assert_eq!(reader.bloom_probe(b"anything"), None);
    assert_eq!(reader.get(b"anything").expect("get"), None);
}

#[test]
fn bloom_offset_overlapping_footer_errors() {
    // Set footer bloom_offset past the end of the bloom region (into the
    // footer itself); the open-time guard must reject before index parse.
    let mut table = build_sst_with_bloom("bloom-overlap.sst",
        10,
        &[(b"k1".to_vec(), Some(b"v1".to_vec()))],
    );
    let mut bytes = table.file.clone();
    let file_len = bytes.len();
    let bloom_field = file_len - FOOTER_LEN + 8; // bloom_offset in footer
    bytes[bloom_field..bloom_field + 8].copy_from_slice(&(file_len as u64 - 1).to_le_bytes());
    table.file = bytes;

    let err = match table.open() {
        Ok(_) => panic!("bloom_offset overlapping the footer must error"),
        Err(e) => e,
    };
    assert!(matches!(err, LsmError::Corruption(_)));
}

#[test]
fn zero_length_bloom_region_errors() {
    // Point bloom_offset exactly at the bloom region end (== footer start):
    // an empty region must fail decode_bloom, not read as no-bloom.
    let mut table = build_sst_with_bloom("bloom-empty-region.sst",
        10,
        &[(b"k1".to_vec(), Some(b"v1".to_vec()))],
    );
    let mut bytes = table.file.clone();
    let file_len = bytes.len();
    let footer_start = (file_len - FOOTER_LEN) as u64;
    let bloom_field = file_len - FOOTER_LEN + 8; // bloom_offset in footer
    bytes[bloom_field..bloom_field + 8].copy_from_slice(&footer_start.to_le_bytes());
    table.file = bytes;

    let err = match table.open() {
        Ok(_) => panic!("zero-length bloom region must error"),
        Err(e) => e,
    };
    assert!(matches!(err, LsmError::Corruption(_)));
}

#[test]
fn records_returns_all_in_ascending_order() {
    let entries = vec![
        (b"a".to_vec(), Some(b"1".to_vec())),
        (b"b".to_vec(), None),               // tombstone
        (b"c".to_vec(), Some(b"".to_vec())), // empty-value put
        (b"d".to_vec(), Some(b"4".to_vec())),
    ];
    let mut table = build_sst("rec.sst", &entries);
    let reader = table.open().expect("open");
    let records = reader.records().expect("records");
    assert_eq!(
        records,
        vec![
            (b"a".to_vec(), b"1".to_vec(), false),
            (b"b".to_vec(), Vec::new(), true),
            (b"c".to_vec(), Vec::new(), false),
            (b"d".to_vec(), b"4".to_vec(), false),
        ]
    );
}

#[test]
fn records_multi_block_sorted() {
    let mut entries = Vec::new();
    for i in 0..500u32 {
        entries.push((format!("k{i:05}").into_bytes(), Some(vec![0u8; 32])));
    }
    // Sprinkle tombstones.
    for i in (0..500usize).step_by(100) {
        entries[i].1 = None;
    }
    let mut table = build_sst("rec-multi.sst", &entries);
    let reader = table.open().expect("open");
    let records = reader.records().expect("records");
    assert_eq!(records.len(), 500);
    let mut prev: Option<&[u8]> = None;
    for (i, (key, _val, deleted)) in records.iter().enumerate() {
        if let Some(p) = prev {
            assert!(p < key.as_slice(), "records must be ascending");
        }
        prev = Some(key.as_slice());
        let want_deleted = i % 100 == 0;
        assert_eq!(*deleted, want_deleted, "index {i}");
    }
}

#[test]
fn records_empty_table_is_empty() {
    let table = Table::new("empty-rec.sst", SsTableBuilder::new().build().expect("build empty"));
    let reader = table.open().expect("open");
    assert_eq!(reader.records().expect("records"), Vec::new());
}

fn corruption(table: &Table) -> String {
    match table.open() {
        Err(LsmError::Corruption(text)) => text,
        Err(other) => panic!("expected corruption, got {other:?}"),
        Ok(_) => panic!("expected corruption"),
    }
}

#[test]
fn texts_of_damaged_tables() {
    let good = build_sst("dir/t.sst", &[(b"k".to_vec(), Some(b"v".to_vec()))]);
    assert_eq!(
        corruption(&Table::new("dir/t.sst", good.file[..10].to_vec())),
        "sstable \"dir/t.sst\" is 10 bytes, shorter than the 24-byte footer"
    );

    let mut magic = good.file.clone();
    let last = magic.len() - 1;
    magic[last] = b'2';
    assert_eq!(
        corruption(&Table::new("a\"b", magic)),
        "sstable \"a\\\"b\" has an invalid magic (not an sstable or truncated footer)"
    );

    // 9 bytes of data, 19 of index, the footer.
    assert_eq!(good.file.len(), 9 + 19 + 24);
    let mut bloom = good.file.clone();
    bloom[36..44].copy_from_slice(&29u64.to_le_bytes());
    assert_eq!(
        corruption(&Table::new("t", bloom)),
        "sstable \"t\" bloom_offset 29 exceeds region end 28 (overlaps the footer)"
    );

    let mut index = good.file.clone();
    index[28..36].copy_from_slice(&29u64.to_le_bytes());
    assert_eq!(
        corruption(&Table::new("t", index)),
        "sstable \"t\" footer offsets out of range: index_offset=29, bloom_offset=0, file_len=52"
    );
}

#[test]
fn texts_of_damaged_block_pointers() {
    let good = build_sst("t", &[(b"k".to_vec(), Some(b"v".to_vec()))]);
    let size_field = good.file.len() - FOOTER_LEN - 8;

    let mut long = good.file.clone();
    long[size_field..size_field + 8].copy_from_slice(&100u64.to_le_bytes());
    let table = Table::new("t", long);
    let err = table.open().expect("opens").get(b"k").expect_err("block past the end");
    assert!(matches!(err, LsmError::Corruption(text) if text
        == "sstable \"t\" block 0 at offset 0 size 100 exceeds file length 52"));

    let mut huge = good.file.clone();
    huge[size_field - 8..size_field + 8].copy_from_slice(&[0xFF; 16]);
    let table = Table::new("t", huge);
    let err = table.open().expect("opens").get(b"k").expect_err("block overflows");
    assert!(matches!(err, LsmError::Corruption(text) if text
        == "sstable \"t\" block 0 offset+size overflows u64"));
}

#[test]
fn a_table_is_read_piece_by_piece_as_from_its_whole_file() {
    let entries: Vec<(Vec<u8>, Option<Vec<u8>>)> = (0..300u32)
        .map(|i| (format!("k{i:04}").into_bytes(), Some(vec![i as u8; 40])))
        .collect();
    let table = build_sst_with_bloom("whole", 300, &entries);
    let file = &table.file;
    let len = file.len() as u64;

    check_length("whole", len).expect("long enough");
    let layout = read_footer("whole", len, &file[file.len() - FOOTER_LEN..]).expect("footer");
    let index = &file[layout.index_offset as usize..layout.index_end() as usize];
    let bloom = &file[layout.bloom_offset as usize..layout.bloom_end() as usize];
    let reader = SsTableReader::load("whole", layout, index, bloom).expect("load");
    assert_eq!(reader.path(), "whole");
    assert_eq!(reader.data_len(), layout.index_offset);
    assert!(reader.num_blocks() > 1);

    for (key, value) in &entries {
        let (offset, size) = reader.locate(key).expect("locate").expect("a block");
        let block = &file[offset as usize..(offset + size) as usize];
        let found = search_block(block, key).expect("search");
        assert_eq!(found, value.clone().map(LookupValue::Present));
        assert_eq!(reader.get(file, key).expect("get"), found);
    }
    assert_eq!(reader.locate(b"a").expect("before every block"), None);
}

#[test]
fn a_block_scan_stops_behind_the_key() {
    let table = build_sst(
        "t",
        &[
            (b"a".to_vec(), Some(b"1".to_vec())),
            (b"c".to_vec(), None),
        ],
    );
    // Two records of 9 and 8 bytes; what follows the first cannot be decoded.
    let mut block = table.file[..17].to_vec();
    block.truncate(12);
    assert_eq!(
        search_block(&block, b"a").expect("found before the damage"),
        Some(LookupValue::Present(b"1".to_vec()))
    );
    assert_eq!(search_block(&block, b"A").expect("sorts before"), None);
    assert!(search_block(&block, b"b").is_err());
    let whole = &table.file[..17];
    assert_eq!(search_block(whole, b"b").expect("not there"), None);
    assert_eq!(
        search_block(whole, b"c").expect("tombstone"),
        Some(LookupValue::Deleted)
    );
    assert_eq!(search_block(whole, b"d").expect("not there"), None);
}
