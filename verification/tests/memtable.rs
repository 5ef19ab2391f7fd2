//! The ordered in-memory table.

use lsm_engine::memtable::{Entry, MemTable};

#[test]
fn put_then_get_returns_value() {
    let mut table = MemTable::new();
    table.put(b"key1", b"v1").unwrap();
    assert_eq!(table.get(b"key1"), Some(b"v1".to_vec()));
}

#[test]
fn overwrite_same_key_keeps_latest_value() {
    let mut table = MemTable::new();
    table.put(b"key", b"a").unwrap();
    table.put(b"key", b"b").unwrap();
    assert_eq!(table.get(b"key"), Some(b"b".to_vec()));
    assert_eq!(table.len(), 1);
}

#[test]
fn get_missing_key_returns_none() {
    let table = MemTable::new();
    assert_eq!(table.get(b"absent"), None);
}

#[test]
fn delete_existing_key_makes_get_none() {
    let mut table = MemTable::new();
    table.put(b"key", b"v").unwrap();
    table.delete(b"key").unwrap();
    assert_eq!(table.get(b"key"), None);
}

#[test]
fn delete_missing_key_is_ok_and_get_none() {
    let mut table = MemTable::new();
    table.delete(b"never-existed").unwrap();
    assert_eq!(table.get(b"never-existed"), None);
}

#[test]
fn put_after_delete_revives_key() {
    let mut table = MemTable::new();
    table.put(b"key", b"v").unwrap();
    table.delete(b"key").unwrap();
    table.put(b"key", b"v2").unwrap();
    assert_eq!(table.get(b"key"), Some(b"v2".to_vec()));
}

#[test]
fn empty_table_is_empty() {
    let mut table = MemTable::new();
    assert!(table.is_empty());
    assert_eq!(table.len(), 0);
    table.put(b"key", b"v").unwrap();
    assert!(!table.is_empty());
}

#[test]
fn approximate_size_grows_on_put() {
    let mut table = MemTable::new();
    for i in 0..10 {
        let key = format!("key-{i}");
        let value = format!("val-{i}");
        table.put(key.as_bytes(), value.as_bytes()).unwrap();
    }
    let size = table.approximate_size();
    assert!(size > 0);
    assert!(size >= 10 * (5 + 5), "size {size} too small");
}

#[test]
fn iter_yields_sorted_entries_including_tombstones() {
    let mut table = MemTable::new();
    table.put(b"b", b"bv").unwrap();
    table.put(b"a", b"av").unwrap();
    table.delete(b"c").unwrap();

    let entries: Vec<(Vec<u8>, Entry)> = table.iter();
    let keys: Vec<&[u8]> = entries.iter().map(|(k, _)| k.as_slice()).collect();
    assert_eq!(keys, [b"a".as_slice(), b"b".as_slice(), b"c".as_slice()]);

    assert_eq!(entries[0].1.value, b"av");
    assert!(!entries[0].1.deleted);
    assert_eq!(entries[1].1.value, b"bv");
    assert!(!entries[1].1.deleted);
    assert!(entries[2].1.deleted, "tombstone must be visible in iter");
}

#[test]
fn iter_skips_nothing() {
    let mut table = MemTable::new();
    table.put(b"k1", b"v1").unwrap();
    table.put(b"k2", b"v2").unwrap();
    table.delete(b"k3").unwrap();
    let collected: Vec<(Vec<u8>, Entry)> = table.iter();
    assert_eq!(collected.len(), table.len());
    assert_eq!(collected.len(), 3);
}

#[test]
fn empty_key_and_value_are_valid() {
    let mut table = MemTable::new();
    table.put(b"", b"").unwrap();
    assert_eq!(table.get(b""), Some(b"".to_vec()));
}

#[test]
fn get_entry_distinguishes_present_tombstone_absent() {
    let mut table = MemTable::new();
    table.put(b"live", b"v").unwrap();
    table.put(b"gone", b"old").unwrap();
    table.delete(b"gone").unwrap();

    let live = table
        .get_entry(b"live")
        .expect("present key must yield an entry");
    assert!(!live.deleted);
    assert_eq!(live.value, b"v");

    let gone = table
        .get_entry(b"gone")
        .expect("tombstoned key must yield an entry");
    assert!(gone.deleted, "tombstone must be visible via get_entry");

    assert!(table.get_entry(b"absent").is_none());
}
