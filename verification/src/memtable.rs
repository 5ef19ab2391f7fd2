//! The in-memory table: an ordered map from keys to their newest state.

use crate::error::Result;
use crate::model::{listing_len, lists, live, opt_bytes, record_views, Contents, Record};
use crate::utils::copy_bytes;
use crossbeam_skiplist::SkipMap;
use vstd::prelude::*;

verus! {

/// Estimated fixed cost of an entry (map node, vector headers, flags).
pub const ENTRY_OVERHEAD: usize = 64;

/// The state of a key. A deletion is an explicit flag rather than an
/// empty-value sentinel, because empty values are legitimate user data.
#[derive(Clone, Debug)]
pub struct Entry {
    pub value: Vec<u8>,
    pub deleted: bool,
}

/// `crossbeam_skiplist::SkipMap`, an ordered map.
#[verifier::external_type_specification]
#[verifier::external_body]
#[verifier::reject_recursive_types(K)]
#[verifier::reject_recursive_types(V)]
pub struct ExSkipMap<K, V>(crossbeam_skiplist::SkipMap<K, V>);

/// What a skip map holds.
pub uninterp spec fn skip_map_contents(map: SkipMap<Vec<u8>, (Vec<u8>, bool)>) -> Map<
    Seq<u8>,
    (Seq<u8>, bool),
>;

/// `SkipMap::new`: a new map holds nothing.
#[verifier::external_body]
fn skip_map_new() -> (fresh: SkipMap<Vec<u8>, (Vec<u8>, bool)>)
    ensures
        skip_map_contents(fresh) == Contents::empty(),
{
    SkipMap::new()
}

/// `SkipMap::insert`: the key's entry is replaced or created, every other entry
/// stays. The map is borrowed exclusively, so no other thread takes part.
#[verifier::external_body]
fn skip_map_insert(
    map: &mut SkipMap<Vec<u8>, (Vec<u8>, bool)>,
    key: Vec<u8>,
    value: (Vec<u8>, bool),
)
    ensures
        skip_map_contents(*final(map)) == skip_map_contents(*old(map)).insert(
            key@,
            (value.0@, value.1),
        ),
{
    map.insert(key, value);
}

/// `SkipMap::get`: a copy of the value stored under the key, if there is one.
#[verifier::external_body]
fn skip_map_get(map: &SkipMap<Vec<u8>, (Vec<u8>, bool)>, key: &[u8]) -> (found: Option<
    (Vec<u8>, bool),
>)
    ensures
        match found {
            Some(v) => skip_map_contents(*map).contains_key(key@) && skip_map_contents(*map)[key@]
                == (v.0@, v.1),
            None => !skip_map_contents(*map).contains_key(key@),
        },
{
    map.get(key).map(|e| e.value().clone())
}

/// `SkipMap::is_empty`: whether the map holds nothing.
#[verifier::external_body]
fn skip_map_is_empty(map: &SkipMap<Vec<u8>, (Vec<u8>, bool)>) -> (empty: bool)
    ensures
        empty == (skip_map_contents(*map) == Contents::empty()),
{
    map.is_empty()
}

/// `SkipMap::len`: the number of keys, which is exact while no other thread
/// changes the map.
#[verifier::external_body]
fn skip_map_len(map: &SkipMap<Vec<u8>, (Vec<u8>, bool)>) -> (len: usize)
    ensures
        len == skip_map_contents(*map).dom().len(),
{
    map.len()
}

/// `SkipMap::iter`: a copy of every entry, sorted by key. The keys are byte
/// vectors, which `Ord` compares lexicographically.
#[verifier::external_body]
fn skip_map_items(map: &SkipMap<Vec<u8>, (Vec<u8>, bool)>) -> (items: Vec<Record>)
    ensures
        lists(record_views(items@), skip_map_contents(*map)),
{
    map.iter().map(|e| (e.key().clone(), e.value().0.clone(), e.value().1)).collect()
}

/// The size estimate after one more write of `payload` bytes. The estimate is
/// kept modulo the machine word.
pub open spec fn bumped_size(size: usize, payload: int) -> int {
    (size + payload + ENTRY_OVERHEAD) % (usize::MAX + 1)
}

/// An ordered in-memory table.
pub struct MemTable {
    map: SkipMap<Vec<u8>, (Vec<u8>, bool)>,
    // Estimate of resident bytes. Each write adds its key and value lengths and
    // ENTRY_OVERHEAD; overwrites never subtract, so the estimate errs high.
    approximate_size: usize,
}

impl View for MemTable {
    type V = Contents;

    closed spec fn view(&self) -> Contents {
        skip_map_contents(self.map)
    }
}

impl MemTable {
    /// The running estimate of resident bytes.
    pub closed spec fn size(self) -> usize {
        self.approximate_size
    }

    /// An empty table.
    pub fn new() -> (table: Self)
        ensures
            table@ == Contents::empty(),
            table.size() == 0,
    {
        MemTable { map: skip_map_new(), approximate_size: 0 }
    }

    /// Sets `key` to `value`.
    pub fn put(&mut self, key: &[u8], value: &[u8]) -> (r: Result<()>)
        ensures
            r is Ok,
            final(self)@ == old(self)@.insert(key@, (value@, false)),
            final(self).size() == bumped_size(old(self).size(), key.len() + value.len()),
    {
        self.bump_approximate_size(key.len(), value.len());
        skip_map_insert(&mut self.map, copy_bytes(key), (copy_bytes(value), false));
        Ok(())
    }

    /// The live value of `key`; `None` if it is absent or deleted.
    pub fn get(&self, key: &[u8]) -> (r: Option<Vec<u8>>)
        ensures
            opt_bytes(r) == live(self@, key@),
    {
        match skip_map_get(&self.map, key) {
            Some((value, deleted)) => if deleted {
                None
            } else {
                Some(value)
            },
            None => None,
        }
    }

    /// The state of `key`, so that a caller can tell a deletion from an absent
    /// key. `None` means absent; an entry with `deleted` set is a tombstone that
    /// shadows older data.
    pub fn get_entry(&self, key: &[u8]) -> (r: Option<Entry>)
        ensures
            match r {
                Some(e) => self@.contains_key(key@) && self@[key@] == (e.value@, e.deleted),
                None => !self@.contains_key(key@),
            },
    {
        match skip_map_get(&self.map, key) {
            Some((value, deleted)) => Some(Entry { value, deleted }),
            None => None,
        }
    }

    /// Marks `key` as deleted, whether or not it was there.
    pub fn delete(&mut self, key: &[u8]) -> (r: Result<()>)
        ensures
            r is Ok,
            final(self)@ == old(self)@.insert(key@, (Seq::<u8>::empty(), true)),
            final(self).size() == bumped_size(old(self).size(), key.len() as int),
    {
        self.bump_approximate_size(key.len(), 0);
        skip_map_insert(&mut self.map, copy_bytes(key), (Vec::new(), true));
        Ok(())
    }

    /// Whether the table has no entry at all.
    pub fn is_empty(&self) -> (empty: bool)
        ensures
            empty == (self@ == Contents::empty()),
    {
        skip_map_is_empty(&self.map)
    }

    /// The number of keys, deleted ones counted too.
    pub fn len(&self) -> (len: usize)
        ensures
            len == self@.dom().len(),
    {
        skip_map_len(&self.map)
    }

    /// The running estimate of resident bytes.
    pub fn approximate_size(&self) -> (size: usize)
        ensures
            size == self.size(),
    {
        self.approximate_size
    }

    /// Every entry as a record, in ascending key order, deletions among them.
    pub fn records(&self) -> (items: Vec<Record>)
        ensures
            lists(record_views(items@), self@),
            items.len() == self@.dom().len(),
    {
        let items: Vec<Record> = skip_map_items(&self.map);
        proof {
            listing_len(record_views(items@));
        }
        items
    }

    /// Every entry in ascending key order, deletions among them.
    pub fn iter(&self) -> (items: Vec<(Vec<u8>, Entry)>)
        ensures
            lists(item_views(items@), self@),
            items.len() == self@.dom().len(),
    {
        let records: Vec<Record> = self.records();
        let ghost all = records@;
        let mut items: Vec<(Vec<u8>, Entry)> = Vec::new();
        let mut i: usize = 0;
        while i < records.len()
            invariant
                i <= records.len(),
                records@ == all,
                items@.len() == i,
                forall|j: int|
                    0 <= j < i ==> #[trigger] item_views(items@)[j] == record_views(all)[j],
            decreases records.len() - i,
        {
            let ghost before = items@;
            let value: Vec<u8> = copy_bytes(records[i].1.as_slice());
            let key: Vec<u8> = copy_bytes(records[i].0.as_slice());
            let deleted: bool = records[i].2;
            items.push((key, Entry { value, deleted }));
            i = i + 1;
            proof {
                assert forall|j: int| 0 <= j < i implies #[trigger] item_views(items@)[j]
                    == record_views(all)[j] by {
                    if j < i - 1 {
                        assert(item_views(before)[j] == record_views(all)[j]);
                        assert(items@[j] == before[j]);
                    }
                }
            }
        }
        proof {
            assert(item_views(items@) =~= record_views(all));
        }
        items
    }

    fn bump_approximate_size(&mut self, key_len: usize, value_len: usize)
        ensures
            final(self)@ == old(self)@,
            final(self).size() == bumped_size(old(self).size(), key_len + value_len),
    {
        let step: usize = key_len.wrapping_add(value_len).wrapping_add(ENTRY_OVERHEAD);
        self.approximate_size = self.approximate_size.wrapping_add(step);
    }
}

/// The records behind a listing of keys and entries.
pub open spec fn item_views(items: Seq<(Vec<u8>, Entry)>) -> Seq<(Seq<u8>, Seq<u8>, bool)> {
    Seq::new(items.len(), |i: int| (items[i].0@, items[i].1.value@, items[i].1.deleted))
}

/// A put is read back; a deletion makes the key absent to readers; a put after
/// a deletion brings it back; and neither changes what is read of other keys.
pub proof fn write_then_read(contents: Contents, key: Seq<u8>, value: Seq<u8>, other: Seq<u8>)
    ensures
        live(contents.insert(key, (value, false)), key) == Some(value),
        live(contents.insert(key, (Seq::<u8>::empty(), true)), key) is None,
        live(contents.insert(key, (Seq::<u8>::empty(), true)).insert(key, (value, false)), key)
            == Some(value),
        other != key ==> live(contents.insert(key, (value, false)), other) == live(
            contents,
            other,
        ),
        other != key ==> live(contents.insert(key, (Seq::<u8>::empty(), true)), other) == live(
            contents,
            other,
        ),
{
}

/// The size estimate never decreases, as long as it fits the machine word, and
/// each write raises it by at least the bytes written.
pub proof fn size_estimate_grows(size: usize, payload: int)
    requires
        0 <= payload,
        size + payload + ENTRY_OVERHEAD <= usize::MAX,
    ensures
        bumped_size(size, payload) == size + payload + ENTRY_OVERHEAD,
        bumped_size(size, payload) > size,
{
    vstd::arithmetic::div_mod::lemma_small_mod(
        (size + payload + ENTRY_OVERHEAD) as nat,
        (usize::MAX + 1) as nat,
    );
}

impl Default for MemTable {
    fn default() -> (table: Self)
        ensures
            table@ == Contents::empty(),
            table.size() == 0,
    {
        MemTable::new()
    }
}

} // verus!
