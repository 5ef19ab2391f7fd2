//! [`SsTableBuilder`]: gathers ascending records into data blocks of about
//! [`TARGET_BLOCK_SIZE`] bytes with a sparse index, and lays a table out as
//! `[data][index][bloom?][footer]`. The bloom block is there only if the
//! builder was made by [`SsTableBuilder::with_expected_items`]; otherwise the
//! footer's `bloom_offset` is zero.

use super::bloom::{
    bits_of_keys, bloom_bits, bloom_hashes, bloom_words, encode_bloom, new_bloom, set_bits, Bloom,
    BloomSizing,
};
use super::index::{encode_index, index_views, IndexEntry};
use super::layout::{
    block_index, bloom_filled, blocks_bytes, index_storable, layout, layout_bytes, record_keys,
    table_image,
};
use super::record::{put_record, record_bytes_len, record_fault, run_bytes, storable};
use super::{MAGIC, MAX_KEY_LEN, MAX_VALUE_LEN, TARGET_BLOCK_SIZE};
use crate::error::{ErrorView, LsmError, Result};
use crate::model::{ascending, opt_bytes, RecordView};
use crate::order::{key_order, lex_facts, lex_lt, KeyOrder};
use crate::utils;
use vstd::prelude::*;

verus! {

/// Why a record cannot be added after `rs`, if it cannot: the length limits
/// come first, the order second.
pub open spec fn add_fault(rs: Seq<RecordView>, key: Seq<u8>, value: Seq<u8>) -> Option<
    ErrorView,
> {
    if record_fault(key, value) is Some {
        record_fault(key, value)
    } else if rs.len() > 0 && !lex_lt(rs.last().0, key) {
        Some(ErrorView::InvalidOp("sstable keys must be strictly ascending"@))
    } else {
        None
    }
}

/// Gathers strictly ascending records and lays them out as a table.
///
/// Records go to the block being filled until it would exceed
/// [`TARGET_BLOCK_SIZE`]; then that block is closed and an index entry records
/// where it stands. A builder without records makes a valid table of a footer
/// alone.
///
/// The bloom filter is made by the first successful [`SsTableBuilder::add`], so
/// a table without records has no bloom block.
pub struct SsTableBuilder {
    data: Vec<u8>,
    current: Vec<u8>,
    current_first_key: Option<Vec<u8>>,
    index: Vec<IndexEntry>,
    first_key: Option<Vec<u8>>,
    last_key: Option<Vec<u8>>,
    bloom: Option<Bloom>,
    sizing: Option<BloomSizing>,
    records: Ghost<Seq<RecordView>>,
}

impl SsTableBuilder {
    /// The records added so far.
    pub closed spec fn records(&self) -> Seq<RecordView> {
        self.records@
    }

    /// The filter over the keys added so far.
    pub closed spec fn bloom(&self) -> Option<Bloom> {
        self.bloom
    }

    /// The size of the filter to be made, if one is wanted.
    pub closed spec fn sizing(&self) -> Option<BloomSizing> {
        self.sizing
    }

    /// The length of the data section so far.
    pub open spec fn data_len(&self) -> nat {
        run_bytes(self.records()).len()
    }

    /// The invariant of a builder: its buffers are the layout of its records,
    /// which ascend and can be stored, and its filter is that of their keys.
    pub closed spec fn wf(&self) -> bool {
        let rs = self.records@;
        &&& ascending(rs)
        &&& storable(rs)
        &&& self.holds(layout(rs).0, layout(rs).1)
        &&& opt_bytes(self.first_key) == if rs.len() > 0 {
            Some(rs[0].0)
        } else {
            None
        }
        &&& opt_bytes(self.last_key) == if rs.len() > 0 {
            Some(rs.last().0)
        } else {
            None
        }
        &&& self.bloom is Some <==> self.sizing is Some && rs.len() > 0
        &&& bloom_filled(self.bloom, rs)
        &&& self.sizing matches Some(s) ==> s.valid()
        &&& self.bloom matches Some(b) ==> bloom_words(b).len() == self.sizing.unwrap().words()
            && bloom_hashes(b) == self.sizing.unwrap().hashes()
    }

    /// What the invariant says of the records and the filter.
    pub proof fn wf_facts(&self)
        requires
            self.wf(),
        ensures
            ascending(self.records()),
            storable(self.records()),
            bloom_filled(self.bloom(), self.records()),
            self.bloom() is Some <==> self.sizing() is Some && self.records().len() > 0,
            self.bloom() matches Some(b) ==> bloom_words(b).len() == self.sizing().unwrap().words()
                && bloom_hashes(b) == self.sizing().unwrap().hashes(),
    {
    }

    /// A builder of tables without a bloom block.
    pub fn new() -> (b: SsTableBuilder)
        ensures
            b.wf(),
            b.records() == Seq::<RecordView>::empty(),
            b.sizing() is None,
    {
        let b = SsTableBuilder {
            data: Vec::new(),
            current: Vec::new(),
            current_first_key: None,
            index: Vec::new(),
            first_key: None,
            last_key: None,
            bloom: None,
            sizing: None,
            records: Ghost(Seq::empty()),
        };
        proof {
            assert(index_views(b.index@) =~= Seq::empty());
        }
        b
    }

    /// A builder of tables with a bloom block, for `expected_items` keys.
    /// `expected_items` is a hint and not a limit: the filter records every
    /// added key. Zero turns the bloom block off. `sizing` is the filter's size
    /// for that many keys; a size that is too small raises the rate of false
    /// positives and never causes a false negative.
    pub fn with_expected_items(expected_items: usize, sizing: BloomSizing) -> (b: SsTableBuilder)
        requires
            sizing.valid(),
        ensures
            b.wf(),
            b.records() == Seq::<RecordView>::empty(),
            b.sizing() == if expected_items > 0 {
                Some(sizing)
            } else {
                None
            },
    {
        let mut b = SsTableBuilder::new();
        if expected_items > 0 {
            b.sizing = Some(sizing);
        }
        b
    }

    /// Adds one record. Keys must strictly ascend in byte order; a key equal to
    /// or smaller than the last one gives `InvalidOp`. The empty key is valid
    /// and can only be first. A rejected record leaves the builder as it was.
    /// The key goes into the bloom filter too if there is one, also when it is
    /// deleted, so that a tombstone is found.
    pub fn add(&mut self, key: &[u8], value: &[u8], deleted: bool) -> (r: Result<()>)
        requires
            old(self).wf(),
        ensures
            final(self).wf(),
            final(self).sizing() == old(self).sizing(),
            match r {
                Ok(()) => add_fault(old(self).records(), key@, value@) is None && final(
                    self).records() == old(self).records().push((key@, value@, deleted)),
                Err(e) => add_fault(old(self).records(), key@, value@) == Some(e@) && *final(self)
                    == *old(self),
            },
            r is Ok <==> key@.len() <= 65535 && value@.len() <= 4294967295 && (
            old(self).records().len() > 0 ==> lex_lt(old(self).records().last().0, key@)),
            key@.len() > 65535 ==> (r matches Err(e) && e@ == ErrorView::KeyTooLarge(
                key@.len(),
                65535,
            )),
            key@.len() <= 65535 && value@.len() > 4294967295 ==> (r matches Err(e) && e@
                == ErrorView::ValueTooLarge(value@.len(), 4294967295)),
            key@.len() <= 65535 && value@.len() <= 4294967295 && r is Err ==> (r matches Err(e)
                && e@ is InvalidOp),
    {
        if key.len() > MAX_KEY_LEN {
            return Err(LsmError::KeyTooLarge(key.len(), MAX_KEY_LEN));
        }
        if value.len() > MAX_VALUE_LEN {
            return Err(LsmError::ValueTooLarge(value.len(), MAX_VALUE_LEN));
        }
        if let Some(prev) = &self.last_key {
            match key_order(prev.as_slice(), key) {
                KeyOrder::Less => {},
                _ => {
                    return Err(
                        LsmError::InvalidOp(
                            String::from_str("sstable keys must be strictly ascending"),
                        ),
                    );
                },
            }
        }
        let ghost rs = self.records@;
        let ghost r: RecordView = (key@, value@, deleted);
        let ghost (closed_blocks, filling) = layout(rs);
        proof {
            record_bytes_len(r);
            if filling.len() > 0 {
                record_bytes_len(filling.last());
            }
        }
        let filled: usize = self.current.len();
        let record: u64 = 7 + key.len() as u64 + value.len() as u64;
        if filled > 0 && (filled > TARGET_BLOCK_SIZE || record > (TARGET_BLOCK_SIZE - filled)
            as u64) {
            self.finalize_block(Ghost(closed_blocks), Ghost(filling));
        }
        let ghost (next_blocks, next_filling) = layout(rs.push(r));
        proof {
            assert(rs.push(r).drop_last() =~= rs);
            assert(rs.push(r).last() == r);
            assert(next_filling.drop_last() =~= if next_filling.len() == 1 {
                Seq::empty()
            } else {
                filling
            });
            assert(self.holds(next_blocks, next_filling.drop_last()));
        }
        if self.current.len() == 0 {
            self.current_first_key = Some(utils::copy_bytes(key));
        }
        if let Some(sizing) = self.sizing {
            let mut bloom = match self.bloom.take() {
                Some(b) => b,
                None => new_bloom(sizing),
            };
            proof {
                if rs.len() == 0 {
                    assert(record_keys(rs) =~= Seq::empty());
                }
                assert(set_bits(bloom_words(bloom)) == bits_of_keys(
                    bloom_bits(bloom),
                    record_keys(rs),
                ));
            }
            bloom.insert(key);
            proof {
                assert(record_keys(rs.push(r)).drop_last() =~= record_keys(rs));
                assert(record_keys(rs.push(r)).last() == key@);
                assert(set_bits(bloom_words(bloom)) == bits_of_keys(
                    bloom_bits(bloom),
                    record_keys(rs.push(r)),
                ));
            }
            self.bloom = Some(bloom);
        }
        put_record(&mut self.current, key, value, deleted)?;
        if self.last_key.is_none() {
            self.first_key = Some(utils::copy_bytes(key));
        }
        self.last_key = Some(utils::copy_bytes(key));
        self.records = Ghost(rs.push(r));
        proof {
            lex_facts();
            if next_filling.len() > 1 {
                record_bytes_len(next_filling.drop_last().last());
            }
            assert(self.holds(next_blocks, next_filling));
            assert(ascending(rs.push(r)));
            assert(storable(rs.push(r)));
            assert(bloom_filled(self.bloom, rs.push(r)));
        }
        Ok(())
    }

    /// Whether the buffers hold these closed blocks and this one being filled.
    closed spec fn holds(
        &self,
        closed_blocks: Seq<Seq<RecordView>>,
        filling: Seq<RecordView>,
    ) -> bool {
        &&& self.data@ == blocks_bytes(closed_blocks)
        &&& self.current@ == run_bytes(filling)
        &&& index_views(self.index@) == block_index(closed_blocks)
        &&& opt_bytes(self.current_first_key) == if filling.len() > 0 {
            Some(filling[0].0)
        } else {
            None
        }
    }

    /// Closes the block being filled, if it holds anything: an index entry
    /// records where it stands, and it moves to the data section.
    fn finalize_block(
        &mut self,
        closed_blocks: Ghost<Seq<Seq<RecordView>>>,
        filling: Ghost<Seq<RecordView>>,
    )
        requires
            old(self).holds(closed_blocks@, filling@),
        ensures
            final(self).holds(
                if filling@.len() > 0 {
                    closed_blocks@.push(filling@)
                } else {
                    closed_blocks@
                },
                Seq::empty(),
            ),
            final(self).first_key == old(self).first_key,
            final(self).last_key == old(self).last_key,
            final(self).bloom == old(self).bloom,
            final(self).sizing == old(self).sizing,
            final(self).records == old(self).records,
    {
        let ghost before = self.index@;
        if let Some(first_key) = self.current_first_key.take() {
            let offset: u64 = self.data.len() as u64;
            let size: u64 = self.current.len() as u64;
            let entry = IndexEntry { first_key, offset, size };
            let ghost one = entry@;
            self.index.push(entry);
            self.data.append(&mut self.current);
            proof {
                assert(closed_blocks@.push(filling@).drop_last() =~= closed_blocks@);
                assert(index_views(self.index@) =~= index_views(before).push(one));
            }
        }
    }

    /// Whether no record was added.
    pub fn is_empty(&self) -> (empty: bool)
        requires
            self.wf(),
        ensures
            empty <==> self.records().len() == 0,
    {
        proof {
            layout_bytes(self.records@);
            if self.records@.len() > 0 {
                record_bytes_len(self.records@.last());
            }
        }
        self.data.len() == 0 && self.current.len() == 0
    }

    /// The exact size of the data section so far. The table is larger: index,
    /// bloom block and footer follow.
    pub fn estimated_data_size(&self) -> (size: usize)
        requires
            self.wf(),
            self.data_len() <= usize::MAX,
        ensures
            size == self.data_len(),
    {
        proof {
            layout_bytes(self.records@);
        }
        self.data.len() + self.current.len()
    }

    /// The smallest key added so far: the first.
    pub fn min_key(&self) -> (key: Option<Vec<u8>>)
        requires
            self.wf(),
        ensures
            opt_bytes(key) == if self.records().len() > 0 {
                Some(self.records()[0].0)
            } else {
                None
            },
    {
        match &self.first_key {
            Some(k) => Some(utils::copy_bytes(k.as_slice())),
            None => None,
        }
    }

    /// The largest key added so far: the last.
    pub fn max_key(&self) -> (key: Option<Vec<u8>>)
        requires
            self.wf(),
        ensures
            opt_bytes(key) == if self.records().len() > 0 {
                Some(self.records().last().0)
            } else {
                None
            },
    {
        match &self.last_key {
            Some(k) => Some(utils::copy_bytes(k.as_slice())),
            None => None,
        }
    }

    /// Lays out the table: closes the last block and returns
    /// `[data][index][bloom?][footer]`. With a filter and at least one record
    /// the bloom block stands between index and footer, and `bloom_offset` is
    /// where it starts; otherwise `bloom_offset` is zero.
    pub fn build(self) -> (r: Result<Vec<u8>>)
        requires
            self.wf(),
        ensures
            r matches Ok(image) && image@ == table_image(self.records(), self.bloom()),
    {
        let ghost rs = self.records@;
        let ghost (closed_blocks, filling) = layout(rs);
        let mut this = self;
        this.finalize_block(Ghost(closed_blocks), Ghost(filling));
        let mut out: Vec<u8> = Vec::new();
        out.append(&mut this.data);
        let index_offset: u64 = out.len() as u64;
        proof {
            index_storable(rs);
        }
        encode_index(&mut out, this.index.as_slice())?;
        let mut bloom_offset: u64 = 0;
        if let Some(bloom) = &this.bloom {
            bloom_offset = out.len() as u64;
            encode_bloom(&mut out, bloom);
        }
        utils::put_u64(&mut out, index_offset);
        utils::put_u64(&mut out, bloom_offset);
        utils::put_bytes(&mut out, MAGIC.as_slice());
        proof {
            assert(out@ =~= table_image(rs, self.bloom));
        }
        Ok(out)
    }
}

impl Default for SsTableBuilder {
    fn default() -> (b: SsTableBuilder)
        ensures
            b.wf(),
            b.records() == Seq::<RecordView>::empty(),
            b.sizing() is None,
    {
        SsTableBuilder::new()
    }
}

} // verus!
