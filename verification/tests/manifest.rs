//! The manifest: its levels and its stored form.

use lsm_engine::error::LsmError;
use lsm_engine::manifest::{
    decode, encode, levels_to_add, load, place, Manifest, SstMeta, MAGIC_MANIFEST,
};
use lsm_engine::utils::{put_u32, put_u64};

fn meta(level: u32, seq: u64, name: &str, min: &[u8], max: &[u8]) -> SstMeta {
    SstMeta {
        level,
        seq,
        name: name.to_string(),
        min: min.to_vec(),
        max: max.to_vec(),
    }
}

fn sample_manifest() -> Manifest {
    let mut manifest = Manifest::default();
    manifest.add(meta(0, 1, "L0_000001.sst", b"a", b"m"));
    manifest.add(meta(0, 2, "L0_000002.sst", b"n", b"z"));
    manifest.add(meta(1, 5, "L1_000001.sst", b"a", b"z"));
    manifest
}

#[test]
fn encode_decode_roundtrip() {
    let manifest = sample_manifest();
    let bytes = encode(&manifest);
    let decoded = decode(&bytes).expect("decode of self-encoded manifest must succeed");
    assert_eq!(decoded, manifest);
}

#[test]
fn empty_manifest_is_magic_only() {
    let bytes = encode(&Manifest::default());
    assert_eq!(bytes, MAGIC_MANIFEST.to_vec());
    let decoded = decode(&bytes).expect("magic-only bytes must decode");
    assert_eq!(decoded, Manifest::default());
}

#[test]
fn decode_bad_magic_errors() {
    let err = decode(b"notamanifest").expect_err("wrong magic must be rejected");
    assert!(matches!(err, LsmError::Corruption(_)));
}

#[test]
fn decode_truncated_record_errors() {
    let bytes = encode(&sample_manifest());
    let truncated = &bytes[..bytes.len() - 3];
    let err = decode(truncated).expect_err("truncated manifest must be rejected");
    assert!(matches!(err, LsmError::Corruption(_)));
}

#[test]
fn decode_garbage_tail_errors() {
    let mut bytes = encode(&sample_manifest());
    bytes.extend_from_slice(&[0xAA, 0xBB, 0xCC]);
    let err = decode(&bytes).expect_err("garbage tail must be rejected");
    assert!(matches!(err, LsmError::Corruption(_)));
}

#[test]
fn decode_rejects_out_of_order_seq() {
    // Hand-craft a manifest whose second record repeats a seq (well-formed
    // framing, invalid ordering) — decode must reject it as Corruption.
    let mut manifest = Manifest::default();
    manifest.add(meta(0, 1, "a.sst", b"k", b"k"));
    manifest.add(meta(0, 1, "b.sst", b"k", b"k"));
    let bytes = encode(&manifest);
    let err = decode(&bytes).expect_err("duplicate seq must be rejected");
    assert!(matches!(err, LsmError::Corruption(_)));
}

#[test]
fn add_keeps_seq_sorted() {
    let mut manifest = Manifest::default();
    manifest.add(meta(0, 3, "c.sst", b"k", b"k"));
    manifest.add(meta(0, 1, "a.sst", b"k", b"k"));
    manifest.add(meta(0, 2, "b.sst", b"k", b"k"));
    let seqs: Vec<u64> = manifest.ssts_at(0).iter().map(|m| m.seq).collect();
    assert_eq!(seqs, [1, 2, 3]);
}

#[test]
fn remove_works() {
    let mut manifest = Manifest::default();
    manifest.add(meta(0, 1, "a.sst", b"k", b"k"));
    manifest.add(meta(0, 2, "b.sst", b"k", b"k"));

    assert!(
        manifest.remove(0, 1),
        "removing existing seq must return true"
    );
    let seqs: Vec<u64> = manifest.ssts_at(0).iter().map(|m| m.seq).collect();
    assert_eq!(seqs, [2]);

    assert!(
        !manifest.remove(0, 99),
        "removing unknown seq must return false"
    );
    assert!(
        !manifest.remove(7, 1),
        "removing from nonexistent level must return false"
    );
}

#[test]
fn ssts_at_absent_level() {
    let manifest = Manifest::default();
    assert!(manifest.ssts_at(5).is_empty());
}

#[test]
fn add_extends_levels() {
    let mut manifest = Manifest::default();
    manifest.add(meta(3, 9, "deep.sst", b"a", b"z"));
    assert_eq!(manifest.ssts_at(3).len(), 1);
    assert!(manifest.ssts_at(0).is_empty());
    assert!(manifest.ssts_at(1).is_empty());
    assert!(manifest.ssts_at(2).is_empty());
}

#[test]
fn write_load_roundtrip() {
    let manifest = sample_manifest();
    let file = encode(&manifest);
    let loaded = load(Some(&file)).expect("load should succeed");
    assert_eq!(loaded, manifest);
}

#[test]
fn load_missing_file_returns_empty() {
    let loaded = load(None).expect("missing MANIFEST must load as empty");
    assert_eq!(loaded, Manifest::default());
}

#[test]
fn load_corrupt_file_errors() {
    let err = load(Some(b"this is not a manifest")).expect_err("corrupt MANIFEST must be rejected");
    assert!(matches!(err, LsmError::Corruption(_)));
}

fn corruption(bytes: &[u8]) -> String {
    match decode(bytes) {
        Err(LsmError::Corruption(text)) => text,
        other => panic!("expected corruption, got {other:?}"),
    }
}

/// The magic, then one record whose fields are given as raw bytes.
fn raw_record(level: u32, seq: u64, name: &[u8], min: &[u8], max: &[u8]) -> Vec<u8> {
    let mut buf = Vec::new();
    put_u32(&mut buf, level);
    put_u64(&mut buf, seq);
    for field in [name, min, max] {
        put_u32(&mut buf, field.len() as u32);
        buf.extend_from_slice(field);
    }
    buf
}

#[test]
fn stored_form_of_one_table() {
    let mut manifest = Manifest::new();
    manifest.add(meta(0, 0x0102, "a.sst", b"k", b"zz"));
    let mut expected = b"LSMMANIFEST01".to_vec();
    expected.extend_from_slice(&[0, 0, 0, 0]);
    expected.extend_from_slice(&[2, 1, 0, 0, 0, 0, 0, 0]);
    expected.extend_from_slice(&[5, 0, 0, 0]);
    expected.extend_from_slice(b"a.sst");
    expected.extend_from_slice(&[1, 0, 0, 0]);
    expected.extend_from_slice(b"k");
    expected.extend_from_slice(&[2, 0, 0, 0]);
    expected.extend_from_slice(b"zz");
    assert_eq!(encode(&manifest), expected);
}

#[test]
fn texts_of_damaged_manifests() {
    assert_eq!(corruption(b"LSMMANIFEST0"), "invalid manifest magic");

    let mut short = MAGIC_MANIFEST.to_vec();
    short.extend_from_slice(&[0; 15]);
    assert_eq!(
        corruption(&short),
        "manifest record shorter than 16-byte header: 15 bytes remain"
    );

    let mut name = MAGIC_MANIFEST.to_vec();
    put_u32(&mut name, 0);
    put_u64(&mut name, 1);
    put_u32(&mut name, 9);
    name.extend_from_slice(b"abc");
    assert_eq!(
        corruption(&name),
        "manifest sst name runs past end of file: declared 9 bytes, 3 available"
    );

    let mut utf8 = MAGIC_MANIFEST.to_vec();
    utf8.extend_from_slice(&raw_record(0, 1, &[0xFF, 0xFE], b"a", b"b"));
    assert_eq!(corruption(&utf8), "manifest sst name is not valid utf-8");

    let mut max = MAGIC_MANIFEST.to_vec();
    max.extend_from_slice(&raw_record(0, 1, b"n", b"a", b"bcd"));
    max.truncate(max.len() - 1);
    assert_eq!(
        corruption(&max),
        "manifest max key runs past end of file: declared 3 bytes, 2 available"
    );

    let mut min = MAGIC_MANIFEST.to_vec();
    min.extend_from_slice(&raw_record(0, 1, b"n", b"a", b"bcd"));
    min.truncate(13 + 16 + 1 + 2);
    assert_eq!(
        corruption(&min),
        "read of 4 bytes at offset 30 exceeds buffer length 32"
    );

    let mut order = MAGIC_MANIFEST.to_vec();
    order.extend_from_slice(&raw_record(2, 7, b"n", b"a", b"b"));
    order.extend_from_slice(&raw_record(2, 7, b"m", b"a", b"b"));
    assert_eq!(
        corruption(&order),
        "manifest level 2 seq out of order: 7 after 7"
    );
}

#[test]
fn names_are_stored_as_utf8() {
    let mut manifest = Manifest::new();
    manifest.add(meta(1, 3, "t\u{e4}ble.sst", b"", b"\xff"));
    let decoded = decode(&encode(&manifest)).expect("decode");
    assert_eq!(decoded, manifest);
    assert_eq!(decoded.ssts_at(1)[0].name, "t\u{e4}ble.sst");
}

#[test]
fn empty_levels_behind_the_last_table_are_not_stored() {
    let mut manifest = sample_manifest();
    manifest.levels.push(Vec::new());
    manifest.levels.push(Vec::new());
    let decoded = decode(&encode(&manifest)).expect("decode");
    assert_eq!(decoded, sample_manifest());
}

#[test]
fn a_level_without_room_is_refused() {
    let mut manifest = Manifest::new();
    let err = place(&mut manifest, meta(4_000_000_000, 1, "n", b"a", b"b"), false)
        .expect_err("no room for the levels");
    assert!(
        matches!(err, LsmError::Corruption(text) if text == "manifest level number 4000000000 too large")
    );

    place(&mut manifest, meta(1, 1, "n", b"a", b"b"), true).expect("room for two levels");
    place(&mut manifest, meta(0, 9, "m", b"a", b"b"), false).expect("the level is there");
    assert_eq!(manifest.levels.len(), 2);
    let err = place(&mut manifest, meta(0, 9, "o", b"a", b"b"), true).expect_err("same number");
    assert!(
        matches!(err, LsmError::Corruption(text) if text == "manifest level 0 seq out of order: 9 after 9")
    );
}

#[test]
fn equal_numbers_go_before_the_older_entry() {
    let mut manifest = Manifest::new();
    manifest.add(meta(0, 5, "first", b"a", b"b"));
    manifest.add(meta(0, 5, "second", b"a", b"b"));
    let names: Vec<&str> = manifest.ssts_at(0).iter().map(|m| m.name.as_str()).collect();
    assert_eq!(names, ["second", "first"]);
    assert!(manifest.remove(0, 5));
    assert_eq!(manifest.ssts_at(0)[0].name, "first");
}

#[test]
fn adding_and_removing_gives_the_level_back() {
    let mut manifest = sample_manifest();
    let before = manifest.clone();
    manifest.add(meta(0, 9, "new.sst", b"q", b"r"));
    assert_eq!(manifest.ssts_at(0).len(), 3);
    assert!(manifest.remove(0, 9));
    assert_eq!(manifest, before);
}

#[test]
fn a_manifest_cut_between_records_holds_the_records_before() {
    let mut manifest = Manifest::new();
    for (level, seq) in [(0, 3), (0, 5), (2, 1)] {
        manifest.add(SstMeta {
            level,
            seq,
            name: format!("L{level}_{seq:06}.sst"),
            min: b"a".to_vec(),
            max: b"zz".to_vec(),
        });
    }
    let bytes = encode(&manifest);
    let record = (bytes.len() - 13) / 3;
    for n in 0..bytes.len() {
        let cut = decode(&bytes[..n]);
        if n >= 13 && (n - 13) % record == 0 {
            let mut before = Manifest::new();
            for meta in manifest.levels.iter().flatten().take((n - 13) / record) {
                before.add(meta.clone());
            }
            assert_eq!(cut.expect("a cut between records"), before);
        } else {
            assert!(matches!(cut, Err(LsmError::Corruption(_))), "{n}");
        }
    }
}

#[test]
fn a_manifest_that_was_read_is_written_in_as_many_bytes() {
    let record = |level: u32, seq: u64| {
        let mut manifest = Manifest::new();
        manifest.add(SstMeta {
            level,
            seq,
            name: "t.sst".to_string(),
            min: Vec::new(),
            max: b"k".to_vec(),
        });
        encode(&manifest)[13..].to_vec()
    };
    let mut grouped = MAGIC_MANIFEST.to_vec();
    let mut mixed = MAGIC_MANIFEST.to_vec();
    for (level, seq) in [(0, 1), (0, 2), (1, 1)] {
        grouped.extend(record(level, seq));
    }
    for (level, seq) in [(1, 1), (0, 1), (0, 2)] {
        mixed.extend(record(level, seq));
    }
    assert_eq!(encode(&decode(&grouped).expect("decode")), grouped);
    assert_eq!(encode(&decode(&mixed).expect("decode")), grouped);
    assert_eq!(mixed.len(), grouped.len());
}

#[test]
fn levels_are_added_up_to_the_one_that_is_asked_for() {
    assert_eq!(levels_to_add(0, 0), 1);
    assert_eq!(levels_to_add(0, 6), 7);
    assert_eq!(levels_to_add(3, 6), 4);
}

#[test]
fn a_number_that_is_there_twice_is_removed_once() {
    let mut manifest = Manifest::new();
    for name in ["first", "second"] {
        manifest.add(SstMeta {
            level: 0,
            seq: 4,
            name: name.to_string(),
            min: Vec::new(),
            max: Vec::new(),
        });
    }
    assert_eq!(manifest.ssts_at(0)[0].name, "second");
    assert!(manifest.remove(0, 4));
    assert_eq!(manifest.ssts_at(0)[0].name, "first");
    assert!(manifest.remove(0, 4));
    assert!(!manifest.remove(0, 4));
}
