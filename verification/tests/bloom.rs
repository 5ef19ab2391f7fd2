//! The bloom filter block.

use lsm_engine::error::LsmError;
use lsm_engine::sstable::bloom::{
    decode_bloom, encode_bloom, new_bloom, BloomSizing, BLOOM_SEED, MAX_NUM_HASHES,
};
use lsm_engine::utils;

const BLOOM_FP_RATE: f64 = 0.01;

/// The size of a filter for so many keys.
fn sizing(expected_items: usize) -> BloomSizing {
    let filter = fastbloom::BloomFilter::with_false_pos(BLOOM_FP_RATE)
        .seed(&BLOOM_SEED)
        .expected_items(expected_items);
    BloomSizing::new(filter.num_bits() / 64, filter.num_hashes()).expect("a size in range")
}

#[test]
fn roundtrip_preserves_all_keys() {
    let mut bloom = new_bloom(sizing(1000));
    let keys: Vec<String> = (0..1000).map(|i| format!("k{i}")).collect();
    for k in &keys {
        bloom.insert(k.as_bytes());
    }
    let mut buf = Vec::new();
    encode_bloom(&mut buf, &bloom);
    let decoded = decode_bloom(&buf).expect("decode must succeed");
    for k in &keys {
        assert!(
            decoded.contains(k.as_bytes()),
            "key {k} lost in bloom roundtrip (false negative)"
        );
    }
}

#[test]
fn rebuild_has_low_false_positive() {
    let mut bloom = new_bloom(sizing(1000));
    for i in 0..1000 {
        bloom.insert(format!("k{i}").as_bytes());
    }
    let mut buf = Vec::new();
    encode_bloom(&mut buf, &bloom);
    let decoded = decode_bloom(&buf).expect("decode must succeed");

    let fp = (0..20_000u32)
        .filter(|i| decoded.contains(format!("absent-{i}").as_bytes()))
        .count();
    assert!(
        (fp as f64) < 0.03 * 20_000.0,
        "false positive rate too high: {fp}/20000"
    );
}

#[test]
fn different_seed_breaks_rebuild() {
    let keys: Vec<String> = (0..1000).map(|i| format!("k{i}")).collect();
    let mut bloom = fastbloom::BloomFilter::with_false_pos(BLOOM_FP_RATE)
        .seed(&(BLOOM_SEED + 1))
        .expected_items(1000);
    for k in &keys {
        bloom.insert(k.as_bytes());
    }
    let mut buf = Vec::new();
    utils::put_u32(&mut buf, bloom.num_hashes());
    for word in bloom.iter() {
        utils::put_u64(&mut buf, word);
    }
    let decoded = decode_bloom(&buf).expect("decode must succeed");

    let still_contained = keys
        .iter()
        .filter(|k| decoded.contains(k.as_bytes()))
        .count();
    assert!(
        still_contained < 500,
        "wrong-seed rebuild must drop most present keys, {still_contained}/1000 still contained"
    );
}

#[test]
fn expected_items_zero_is_valid() {
    let bloom = new_bloom(sizing(0));
    let mut buf = Vec::new();
    encode_bloom(&mut buf, &bloom);
    assert!(buf.len() >= 4);
    let decoded = decode_bloom(&buf).expect("zero-item bloom must decode");
    assert!(!decoded.contains(b"anything"));
}

#[test]
fn decode_truncated_errors() {
    assert!(matches!(
        decode_bloom(&[0u8; 3]),
        Err(LsmError::Corruption(_))
    ));
    assert!(matches!(
        decode_bloom(&[0u8; 5]),
        Err(LsmError::Corruption(_))
    ));
}

#[test]
fn decode_zero_words_errors() {
    // 4 bytes = num_hashes only, no words: fastbloom's from_vec panics on an
    // empty vec, so decode_bloom must reject it instead.
    let mut buf = Vec::new();
    utils::put_u32(&mut buf, 7);
    let err = decode_bloom(&buf).expect_err("zero-word block must not panic");
    assert!(matches!(err, LsmError::Corruption(_)));
}

#[test]
fn decode_implausible_num_hashes_errors() {
    let mut bloom = new_bloom(sizing(100));
    bloom.insert(b"k");
    let mut buf = Vec::new();
    encode_bloom(&mut buf, &bloom);
    // Overwrite num_hashes with a hostile value.
    utils::put_u32(&mut buf, u32::MAX);
    let err = decode_bloom(&buf).expect_err("implausible num_hashes must error");
    assert!(matches!(err, LsmError::Corruption(_)));
}

#[test]
fn encode_layout() {
    let bloom = new_bloom(sizing(100));
    let mut buf = Vec::new();
    encode_bloom(&mut buf, &bloom);
    assert_eq!(buf.len(), 4 + 8 * bloom.words().len());
    assert_eq!(
        utils::read_u32(&buf, 0).expect("read num_hashes must succeed"),
        bloom.num_hashes()
    );
}

#[test]
fn a_filter_is_the_one_that_its_size_was_taken_from() {
    let mut reference = fastbloom::BloomFilter::with_false_pos(BLOOM_FP_RATE)
        .seed(&BLOOM_SEED)
        .expected_items(300);
    let mut bloom = new_bloom(sizing(300));
    for i in 0..300u32 {
        let key = format!("key-{i}").into_bytes();
        reference.insert(key.as_slice());
        bloom.insert(&key);
    }
    assert_eq!(bloom.words(), reference.iter().collect::<Vec<u64>>());
    assert_eq!(bloom.num_hashes(), reference.num_hashes());
    for i in 0..1000u32 {
        let key = format!("probe-{i}").into_bytes();
        assert_eq!(bloom.contains(&key), reference.contains(key.as_slice()));
    }
}

#[test]
fn an_empty_filter_reports_nothing_and_an_added_key_is_reported() {
    let mut bloom = new_bloom(sizing(10));
    assert!(bloom.words().iter().all(|w| *w == 0));
    assert!(!bloom.contains(b"k"));
    bloom.insert(b"k");
    assert!(bloom.contains(b"k"));
    assert!(bloom.words().iter().any(|w| *w != 0));
}

#[test]
fn sizes_out_of_range_are_refused() {
    assert!(BloomSizing::new(0, 1).is_none());
    assert!(BloomSizing::new(1, 0).is_none());
    assert!(BloomSizing::new(1, 256).is_none());
    assert!(BloomSizing::new(usize::MAX, 1).is_none());
    assert!(BloomSizing::new(1, MAX_NUM_HASHES).is_some());
    let bloom = new_bloom(BloomSizing::new(3, 5).expect("in range"));
    assert_eq!(bloom.words(), [0, 0, 0]);
    assert_eq!(bloom.num_hashes(), 5);
}

#[test]
fn stored_form_of_a_filter() {
    let bloom = new_bloom(BloomSizing::new(1, 7).expect("in range"));
    let mut buf = vec![0xEE];
    encode_bloom(&mut buf, &bloom);
    assert_eq!(buf, [0xEE, 7, 0, 0, 0, 0, 0, 0, 0, 0, 0, 0, 0]);

    let decoded = decode_bloom(&[2, 0, 0, 0, 1, 2, 3, 4, 5, 6, 7, 8]).expect("decode");
    assert_eq!(decoded.num_hashes(), 2);
    assert_eq!(decoded.words(), [0x0807_0605_0403_0201]);
}

#[test]
fn texts_of_damaged_filters() {
    let text = |bytes: &[u8]| match decode_bloom(bytes) {
        Err(LsmError::Corruption(text)) => text,
        other => panic!("expected corruption, got {other:?}"),
    };
    assert_eq!(text(&[0; 3]), "bloom block length 3 is not 4 + a multiple of 8");
    assert_eq!(text(&[0; 13]), "bloom block length 13 is not 4 + a multiple of 8");
    assert_eq!(text(&[0; 12]), "bloom block declares implausible hash count 0");
    assert_eq!(
        text(&[0, 1, 0, 0, 0, 0, 0, 0, 0, 0, 0, 0]),
        "bloom block declares implausible hash count 256"
    );
    assert_eq!(text(&[7, 0, 0, 0]), "bloom block has no data words");
}

#[test]
fn a_key_sets_its_own_bits_and_no_others() {
    let filled = |keys: &[&[u8]]| {
        let mut bloom = new_bloom(sizing(64));
        for key in keys {
            bloom.insert(key);
        }
        bloom.words()
    };
    let empty = filled(&[]);
    assert!(empty.iter().all(|w| *w == 0));
    let a = filled(&[b"a"]);
    let b = filled(&[b"b"]);
    assert_ne!(a, empty);
    assert_eq!(filled(&[b"a", b"a"]), a);
    let both: Vec<u64> = a.iter().zip(&b).map(|(x, y)| x | y).collect();
    assert_eq!(filled(&[b"a", b"b"]), both);
    assert_eq!(filled(&[b"b", b"a"]), both);
    let set: u32 = a.iter().map(|w| w.count_ones()).sum();
    assert!(set >= 1 && set <= new_bloom(sizing(64)).num_hashes());
}
