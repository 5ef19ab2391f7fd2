//! [`SsTableReader`]: opens a table, keeps its index and its bloom filter in
//! memory, and answers point lookups. A lookup asks the filter first, and a
//! negative answer ends it there; then it searches the index, reads one data
//! block and scans it.
//!
//! A table can be opened from its whole image with [`SsTableReader::open`], or
//! piece by piece as a file is read: [`check_length`], [`read_footer`] on the
//! last bytes, [`SsTableReader::load`] on the index and the bloom block. A
//! lookup likewise: [`SsTableReader::locate`] says which bytes to read, and
//! [`search_block`] finds the key in them.

use super::bloom::{
    bloom_determined, bloom_keys, bloom_parts, bloom_sound, bloom_stored, decode_bloom, Bloom,
};
use super::index::{
    chosen_block, entries_from, index_views, locate_block, parse_index, rightmost_exists,
    IndexEntry, IndexView,
};
use super::record::{
    damage_stays, read_record, read_records, record_at, record_bytes, record_bytes_len,
    record_fault, record_roundtrip, records_from, run_bytes, run_bytes_first, storable,
    storable_rest,
};
use super::{lookup_view, reported, LookupValue, LookupView, FOOTER_LEN, MAGIC};
use crate::error::{ErrorView, LsmError, Outcome, Result};
use crate::model::{record_views, Record, RecordView};
use crate::order::{key_order, lex_facts, lex_lt, KeyOrder};
use crate::text::{append_decimal, decimal, quote_path, quoted_path};
use crate::utils;
use vstd::prelude::*;

verus! {

/// Where the sections of a table stand, as its footer says. A `bloom_offset` of
/// zero means that there is no bloom block.
#[derive(Clone, Copy, Debug, PartialEq, Eq, Structural)]
pub struct TableLayout {
    pub file_len: u64,
    pub index_offset: u64,
    pub bloom_offset: u64,
}

impl TableLayout {
    /// Whether the sections are in order and end before the footer.
    pub open spec fn valid(&self) -> bool {
        &&& FOOTER_LEN <= self.file_len
        &&& self.index_offset <= self.index_end_spec() <= self.bloom_end_spec()
    }

    pub open spec fn bloom_end_spec(&self) -> int {
        self.file_len - FOOTER_LEN
    }

    pub open spec fn index_end_spec(&self) -> int {
        if self.bloom_offset == 0 {
            self.bloom_end_spec()
        } else {
            self.bloom_offset as int
        }
    }

    /// Where the bloom block ends, and the footer starts.
    pub fn bloom_end(&self) -> (end: u64)
        requires
            self.valid(),
        ensures
            end == self.bloom_end_spec(),
    {
        self.file_len - 24
    }

    /// Where the index ends: at the bloom block, or at the footer if there is
    /// none.
    pub fn index_end(&self) -> (end: u64)
        requires
            self.valid(),
        ensures
            end == self.index_end_spec(),
    {
        if self.bloom_offset == 0 {
            self.file_len - 24
        } else {
            self.bloom_offset
        }
    }
}

pub open spec fn short_table_text(path: Seq<char>, file_len: nat) -> Seq<char> {
    "sstable "@ + quoted_path(path) + " is "@ + decimal(file_len)
        + " bytes, shorter than the 24-byte footer"@
}

pub open spec fn magic_text(path: Seq<char>) -> Seq<char> {
    "sstable "@ + quoted_path(path)
        + " has an invalid magic (not an sstable or truncated footer)"@
}

pub open spec fn bloom_offset_text(path: Seq<char>, bloom_offset: nat, bloom_end: nat) -> Seq<
    char,
> {
    "sstable "@ + quoted_path(path) + " bloom_offset "@ + decimal(bloom_offset)
        + " exceeds region end "@ + decimal(bloom_end) + " (overlaps the footer)"@
}

pub open spec fn offsets_text(
    path: Seq<char>,
    index_offset: nat,
    bloom_offset: nat,
    file_len: nat,
) -> Seq<char> {
    "sstable "@ + quoted_path(path) + " footer offsets out of range: index_offset="@ + decimal(
        index_offset,
    ) + ", bloom_offset="@ + decimal(bloom_offset) + ", file_len="@ + decimal(file_len)
}

/// Why a file of this length is no table, if it is too short to be one.
pub open spec fn length_fault(path: Seq<char>, file_len: nat) -> Option<ErrorView> {
    if file_len < FOOTER_LEN {
        Some(ErrorView::Corruption(short_table_text(path, file_len)))
    } else {
        None
    }
}

/// What a footer says of a file that is long enough to have one.
pub open spec fn footer_layout(path: Seq<char>, file_len: u64, footer: Seq<u8>) -> Outcome<
    TableLayout,
> {
    let index_offset = utils::le_value(footer.subrange(0, 8)) as u64;
    let bloom_offset = utils::le_value(footer.subrange(8, 16)) as u64;
    let found = TableLayout { file_len, index_offset, bloom_offset };
    if footer.subrange(16, 24) != MAGIC@ {
        Err(ErrorView::Corruption(magic_text(path)))
    } else if bloom_offset != 0 && bloom_offset > found.bloom_end_spec() {
        Err(
            ErrorView::Corruption(
                bloom_offset_text(path, bloom_offset as nat, found.bloom_end_spec() as nat),
            ),
        )
    } else if index_offset > found.index_end_spec() {
        Err(
            ErrorView::Corruption(
                offsets_text(path, index_offset as nat, bloom_offset as nat, file_len as nat),
            ),
        )
    } else {
        Ok(found)
    }
}

/// Why the index and the bloom block cannot be loaded, if they cannot: the
/// index is looked at first.
pub open spec fn load_fault(
    layout: TableLayout,
    index_part: Seq<u8>,
    bloom_part: Seq<u8>,
) -> Option<ErrorView> {
    match entries_from(index_part, 0) {
        Err(e) => Some(e),
        Ok(_) => if layout.bloom_offset == 0 {
            None
        } else {
            match bloom_parts(bloom_part) {
                Err(e) => Some(e),
                Ok(_) => None,
            }
        },
    }
}

/// What a reader knows of its table.
pub struct ReaderView {
    pub path: Seq<char>,
    pub file_len: nat,
    pub index_offset: nat,
    pub index: Seq<IndexView>,
    pub bloom: Option<Bloom>,
}

/// Whether `v` is what loading the index and the bloom block gives.
pub open spec fn loaded(
    path: Seq<char>,
    layout: TableLayout,
    index_part: Seq<u8>,
    bloom_part: Seq<u8>,
    v: ReaderView,
) -> bool {
    &&& v.path == path
    &&& v.file_len == layout.file_len
    &&& v.index_offset == layout.index_offset
    &&& entries_from(index_part, 0) == Ok::<Seq<IndexView>, ErrorView>(v.index)
    &&& match v.bloom {
        None => layout.bloom_offset == 0,
        Some(b) => layout.bloom_offset != 0 && bloom_stored(bloom_part, b),
    }
}

pub open spec fn index_part(file: Seq<u8>, layout: TableLayout) -> Seq<u8> {
    file.subrange(layout.index_offset as int, layout.index_end_spec())
}

pub open spec fn bloom_part(file: Seq<u8>, layout: TableLayout) -> Seq<u8> {
    if layout.bloom_offset == 0 {
        Seq::empty()
    } else {
        file.subrange(layout.bloom_offset as int, layout.bloom_end_spec())
    }
}

/// What the footer of a whole table file says, or why the file is none.
pub open spec fn file_layout(path: Seq<char>, file: Seq<u8>) -> Outcome<TableLayout> {
    match length_fault(path, file.len()) {
        Some(e) => Err(e),
        None => footer_layout(
            path,
            file.len() as u64,
            file.subrange(file.len() - FOOTER_LEN, file.len() as int),
        ),
    }
}

/// Why a file cannot be opened as a table, if it cannot.
pub open spec fn open_fault(path: Seq<char>, file: Seq<u8>) -> Option<ErrorView> {
    match file_layout(path, file) {
        Err(e) => Some(e),
        Ok(layout) => load_fault(layout, index_part(file, layout), bloom_part(file, layout)),
    }
}

/// Whether `v` is what opening the file gives.
pub open spec fn table_opened(path: Seq<char>, file: Seq<u8>, v: ReaderView) -> bool {
    match file_layout(path, file) {
        Err(_) => false,
        Ok(layout) => loaded(
            path,
            layout,
            index_part(file, layout),
            bloom_part(file, layout),
            v,
        ),
    }
}

/// The layout that the last bytes of a file give, whatever they are.
pub open spec fn claimed_layout(file: Seq<u8>) -> TableLayout {
    let footer = file.subrange(file.len() - FOOTER_LEN, file.len() as int);
    TableLayout {
        file_len: file.len() as u64,
        index_offset: utils::le_value(footer.subrange(0, 8)) as u64,
        bloom_offset: utils::le_value(footer.subrange(8, 16)) as u64,
    }
}

/// The length of a file's bloom block; zero if there is none, also if the file is
/// no table.
pub open spec fn bloom_part_len(file: Seq<u8>) -> nat {
    if file.len() >= FOOTER_LEN && file.skip(file.len() - 8) == MAGIC@
        && claimed_layout(file).valid() {
        bloom_part(file, claimed_layout(file)).len()
    } else {
        0
    }
}

/// A file is taken for a table exactly if it has at least 24 bytes, the last eight are
/// "LSMTREE1", and the offsets before them lie in order: the index starts no later than
/// the bloom block, or than the footer if there is none, and the bloom block no later
/// than the footer.
pub proof fn table_is_known_by_footer(path: Seq<char>, file: Seq<u8>)
    requires
        file.len() <= u64::MAX,
    ensures
        file_layout(path, file) is Ok <==> {
            let end = file.len() - 24;
            let index_offset = utils::le_value(file.subrange(end, end + 8));
            let bloom_offset = utils::le_value(file.subrange(end + 8, end + 16));
            &&& file.len() >= 24
            &&& file.subrange(end + 16, end + 24) == seq![
                'L' as u8,
                'S' as u8,
                'M' as u8,
                'T' as u8,
                'R' as u8,
                'E' as u8,
                'E' as u8,
                '1' as u8,
            ]
            &&& bloom_offset <= end
            &&& index_offset <= end
            &&& bloom_offset > 0 ==> index_offset <= bloom_offset
        },
        file_layout(path, file) matches Ok(found) ==> {
            let end = file.len() - 24;
            &&& found.file_len == file.len()
            &&& found.index_offset == utils::le_value(file.subrange(end, end + 8))
            &&& found.bloom_offset == utils::le_value(file.subrange(end + 8, end + 16))
        },
        file_layout(path, file) is Err ==> file_layout(path, file) matches Err(
            ErrorView::Corruption(_),
        ),
{
    if file.len() >= 24 {
        let end = file.len() - 24;
        let footer = file.subrange(end, file.len() as int);
        assert(footer.subrange(0, 8) =~= file.subrange(end, end + 8));
        assert(footer.subrange(8, 16) =~= file.subrange(end + 8, end + 16));
        assert(footer.subrange(16, 24) =~= file.subrange(end + 16, end + 24));
        utils::le_limits();
        utils::le_value_bound(footer.subrange(0, 8));
        utils::le_value_bound(footer.subrange(8, 16));
        assert(MAGIC@ =~= seq![
            'L' as u8,
            'S' as u8,
            'M' as u8,
            'T' as u8,
            'R' as u8,
            'E' as u8,
            'E' as u8,
            '1' as u8,
        ]);
    }
}

/// Rejects a file that is too short to be a table.
pub fn check_length(path: &str, file_len: u64) -> (r: Result<()>)
    ensures
        match r {
            Ok(()) => length_fault(path@, file_len as nat) is None,
            Err(e) => length_fault(path@, file_len as nat) == Some(e@),
        },
{
    if file_len < 24 {
        let mut s: String = String::from_str("sstable ");
        s.append(quote_path(path).as_str());
        s.append(" is ");
        append_decimal(&mut s, file_len);
        s.append(" bytes, shorter than the 24-byte footer");
        return Err(LsmError::Corruption(s));
    }
    Ok(())
}

fn is_magic(bytes: &[u8]) -> (same: bool)
    requires
        bytes@.len() == 8,
    ensures
        same <==> bytes@ == MAGIC@,
{
    let mut i: usize = 0;
    while i < 8
        invariant
            i <= 8,
            bytes@.len() == 8,
            forall|j: int| 0 <= j < i ==> bytes@[j] == MAGIC@[j],
        decreases 8 - i,
    {
        if bytes[i] != MAGIC[i] {
            return false;
        }
        i = i + 1;
    }
    proof {
        assert(bytes@ =~= MAGIC@);
    }
    true
}

/// Reads the footer, the last bytes of the file: the magic is checked, then the
/// offsets against the file's length.
pub fn read_footer(path: &str, file_len: u64, footer: &[u8]) -> (r: Result<TableLayout>)
    requires
        FOOTER_LEN <= file_len,
        footer@.len() == FOOTER_LEN,
    ensures
        match r {
            Ok(layout) => footer_layout(path@, file_len, footer@) == Ok::<
                TableLayout,
                ErrorView,
            >(layout) && layout.valid() && layout.file_len == file_len,
            Err(e) => footer_layout(path@, file_len, footer@) == Err::<TableLayout, ErrorView>(
                e@,
            ),
        },
{
    if !is_magic(vstd::slice::slice_subrange(footer, 16, 24)) {
        let mut s: String = String::from_str("sstable ");
        s.append(quote_path(path).as_str());
        s.append(" has an invalid magic (not an sstable or truncated footer)");
        return Err(LsmError::Corruption(s));
    }
    let index_offset: u64 = utils::read_u64(footer, 0)?;
    let bloom_offset: u64 = utils::read_u64(footer, 8)?;
    let bloom_end: u64 = file_len - 24;
    if bloom_offset != 0 && bloom_offset > bloom_end {
        let mut s: String = String::from_str("sstable ");
        s.append(quote_path(path).as_str());
        s.append(" bloom_offset ");
        append_decimal(&mut s, bloom_offset);
        s.append(" exceeds region end ");
        append_decimal(&mut s, bloom_end);
        s.append(" (overlaps the footer)");
        return Err(LsmError::Corruption(s));
    }
    let end_of_index: u64 = if bloom_offset == 0 {
        bloom_end
    } else {
        bloom_offset
    };
    if index_offset > end_of_index {
        let mut s: String = String::from_str("sstable ");
        s.append(quote_path(path).as_str());
        s.append(" footer offsets out of range: index_offset=");
        append_decimal(&mut s, index_offset);
        s.append(", bloom_offset=");
        append_decimal(&mut s, bloom_offset);
        s.append(", file_len=");
        append_decimal(&mut s, file_len);
        return Err(LsmError::Corruption(s));
    }
    Ok(TableLayout { file_len, index_offset, bloom_offset })
}

/// A table that is open for reading: its index and, if it has one, its filter
/// are in memory. Lookups take `&self`, so a reader can be shared.
pub struct SsTableReader {
    path: String,
    file_len: u64,
    index_offset: u64,
    index: Vec<IndexEntry>,
    bloom: Option<Bloom>,
}

impl View for SsTableReader {
    type V = ReaderView;

    closed spec fn view(&self) -> ReaderView {
        ReaderView {
            path: self.path@,
            file_len: self.file_len as nat,
            index_offset: self.index_offset as nat,
            index: index_views(self.index@),
            bloom: self.bloom,
        }
    }
}

pub open spec fn overflow_text(path: Seq<char>, block: nat) -> Seq<char> {
    "sstable "@ + quoted_path(path) + " block "@ + decimal(block) + " offset+size overflows u64"@
}

pub open spec fn block_range_text(
    path: Seq<char>,
    block: nat,
    offset: nat,
    size: nat,
    file_len: nat,
) -> Seq<char> {
    "sstable "@ + quoted_path(path) + " block "@ + decimal(block) + " at offset "@ + decimal(
        offset,
    ) + " size "@ + decimal(size) + " exceeds file length "@ + decimal(file_len)
}

/// Whether the filter, if there is one, rules the key out.
pub open spec fn ruled_out(v: ReaderView, key: Seq<u8>) -> bool {
    v.bloom matches Some(b) && !bloom_keys(b).contains(key)
}

/// The offset and size of a block, if it lies within the file.
pub open spec fn block_range(v: ReaderView, block: nat) -> Outcome<(nat, nat)> {
    let e = v.index[block as int];
    if e.offset + e.size > u64::MAX {
        Err(ErrorView::Corruption(overflow_text(v.path, block)))
    } else if e.offset + e.size > v.file_len {
        Err(
            ErrorView::Corruption(
                block_range_text(v.path, block, e.offset, e.size, v.file_len),
            ),
        )
    } else {
        Ok((e.offset, e.size))
    }
}

/// The bytes that may hold `key`, given the block that the index search chose:
/// none if the filter rules the key out or no block starts at it or before it.
pub open spec fn located(v: ReaderView, key: Seq<u8>, block: Option<nat>) -> Outcome<
    Option<(nat, nat)>,
> {
    if ruled_out(v, key) {
        Ok(None)
    } else {
        match block {
            None => Ok(None),
            Some(i) => match block_range(v, i) {
                Err(e) => Err(e),
                Ok(range) => Ok(Some(range)),
            },
        }
    }
}

/// What a scan of a block from `offset` on says of `key`. The scan stops at the
/// first key that sorts after it.
pub open spec fn search_from(block: Seq<u8>, offset: nat, key: Seq<u8>) -> Outcome<
    Option<LookupView>,
>
    decreases block.len() - offset,
{
    if offset >= block.len() {
        Ok(None)
    } else {
        match record_at(block, offset) {
            Err(e) => Err(e),
            Ok((r, total)) => if r.0 == key {
                Ok(Some(reported((r.1, r.2))))
            } else if lex_lt(key, r.0) {
                Ok(None)
            } else {
                search_from(block, offset + total, key)
            },
        }
    }
}

/// What a table says of `key`, given the block that the index search chose.
pub open spec fn looked_up(
    v: ReaderView,
    file: Seq<u8>,
    key: Seq<u8>,
    block: Option<nat>,
) -> Outcome<Option<LookupView>> {
    match located(v, key, block) {
        Err(e) => Err(e),
        Ok(None) => Ok(None),
        Ok(Some((offset, size))) => search_from(
            file.subrange(offset as int, (offset + size) as int),
            0,
            key,
        ),
    }
}

/// A lookup reads a block exactly if the filter does not rule the key out and the index
/// has a block for it: a key that the filter does not report is absent without a read.
pub proof fn filter_spares_the_block(v: ReaderView, key: Seq<u8>, block: Option<nat>)
    ensures
        v.bloom matches Some(b) && !bloom_keys(b).contains(key) ==> located(v, key, block) == Ok::<
            Option<(nat, nat)>,
            ErrorView,
        >(None),
        block is None ==> located(v, key, block) == Ok::<Option<(nat, nat)>, ErrorView>(None),
        (v.bloom matches Some(b) ==> bloom_keys(b).contains(key)) && block is Some ==> (
        block_range(v, block.unwrap()) matches Ok(range) ==> located(v, key, block) == Ok::<
            Option<(nat, nat)>,
            ErrorView,
        >(Some(range))),
        (v.bloom matches Some(b) ==> bloom_keys(b).contains(key)) && block is Some && block_range(
            v,
            block.unwrap(),
        ) is Err ==> located(v, key, block) is Err,
{
}

/// A block is read exactly if it ends within the file.
pub proof fn block_is_within_file(v: ReaderView, block: nat)
    requires
        v.file_len <= u64::MAX,
        block < v.index.len(),
    ensures
        block_range(v, block) is Ok <==> v.index[block as int].offset + v.index[block as int].size
            <= v.file_len,
        block_range(v, block) matches Ok((offset, size)) ==> offset
            == v.index[block as int].offset && size == v.index[block as int].size,
        block_range(v, block) is Err ==> block_range(v, block) matches Err(
            ErrorView::Corruption(_),
        ),
{
}

proof fn search_passes_record(before: Seq<u8>, r: RecordView, after: Seq<u8>, key: Seq<u8>)
    requires
        record_fault(r.0, r.1) is None,
        lex_lt(r.0, key),
    ensures
        search_from(before + record_bytes(r) + after, before.len(), key) == search_from(
            before + record_bytes(r) + after,
            (before + record_bytes(r)).len(),
            key,
        ),
{
    record_roundtrip(before, r, after);
    record_bytes_len(r);
    lex_facts();
}

proof fn search_finds_damage_from(
    before: Seq<u8>,
    rs: Seq<RecordView>,
    bad: Seq<u8>,
    key: Seq<u8>,
)
    requires
        storable(rs),
        forall|i: int| 0 <= i < rs.len() ==> lex_lt((#[trigger] rs[i]).0, key),
        bad.len() > 0,
        record_at(bad, 0) is Err,
    ensures
        search_from(before + (run_bytes(rs) + bad), before.len(), key) is Err,
    decreases rs.len(),
{
    let block = before + (run_bytes(rs) + bad);
    if rs.len() == 0 {
        assert(block =~= before + bad);
        damage_stays(before, bad);
    } else {
        let rest = rs.skip(1);
        let first = record_bytes(rs[0]);
        run_bytes_first(rs);
        storable_rest(rs);
        assert(lex_lt(rs[0].0, key));
        assert forall|i: int| 0 <= i < rest.len() implies lex_lt((#[trigger] rest[i]).0, key) by {
            assert(rest[i] == rs[i + 1]);
        }
        search_passes_record(before, rs[0], run_bytes(rest) + bad, key);
        assert(before + first + (run_bytes(rest) + bad) =~= block);
        search_finds_damage_from(before + first, rest, bad, key);
        assert((before + first) + (run_bytes(rest) + bad) =~= block);
    }
}

proof fn search_ends_from(
    before: Seq<u8>,
    rs: Seq<RecordView>,
    r: RecordView,
    after: Seq<u8>,
    key: Seq<u8>,
)
    requires
        storable(rs),
        record_fault(r.0, r.1) is None,
        forall|i: int| 0 <= i < rs.len() ==> lex_lt((#[trigger] rs[i]).0, key),
        !lex_lt(r.0, key),
    ensures
        search_from(
            before + (run_bytes(rs) + (record_bytes(r) + after)),
            before.len(),
            key,
        ) == Ok::<Option<LookupView>, ErrorView>(
            if r.0 != key {
                None
            } else if r.2 {
                Some(LookupView::Deleted)
            } else {
                Some(LookupView::Present(r.1))
            },
        ),
    decreases rs.len(),
{
    let tail = record_bytes(r) + after;
    let block = before + (run_bytes(rs) + tail);
    lex_facts();
    if rs.len() == 0 {
        assert(block =~= before + record_bytes(r) + after);
        record_roundtrip(before, r, after);
        record_bytes_len(r);
    } else {
        let rest = rs.skip(1);
        let first = record_bytes(rs[0]);
        run_bytes_first(rs);
        storable_rest(rs);
        assert(lex_lt(rs[0].0, key));
        assert forall|i: int| 0 <= i < rest.len() implies lex_lt((#[trigger] rest[i]).0, key) by {
            assert(rest[i] == rs[i + 1]);
        }
        search_passes_record(before, rs[0], run_bytes(rest) + tail, key);
        assert(before + first + (run_bytes(rest) + tail) =~= block);
        search_ends_from(before + first, rest, r, after, key);
        assert((before + first) + (run_bytes(rest) + tail) =~= block);
    }
}

/// The first record of a block that does not sort before the key ends the search: it is
/// the answer if it has the key, and the key is absent otherwise, whatever follows it.
pub proof fn first_record_not_before_key_decides(
    rs: Seq<RecordView>,
    r: RecordView,
    after: Seq<u8>,
    key: Seq<u8>,
)
    requires
        storable(rs),
        record_fault(r.0, r.1) is None,
        forall|i: int| 0 <= i < rs.len() ==> lex_lt((#[trigger] rs[i]).0, key),
        !lex_lt(r.0, key),
    ensures
        search_from(run_bytes(rs) + (record_bytes(r) + after), 0, key) == Ok::<
            Option<LookupView>,
            ErrorView,
        >(
            if r.0 != key {
                None
            } else if r.2 {
                Some(LookupView::Deleted)
            } else {
                Some(LookupView::Present(r.1))
            },
        ),
{
    let block = run_bytes(rs) + (record_bytes(r) + after);
    search_ends_from(Seq::empty(), rs, r, after, key);
    assert(Seq::<u8>::empty() + block =~= block);
}

/// A record that cannot be read is reported by every search that comes to it: one for a
/// key that sorts after all records before it.
pub proof fn damaged_block_is_reported(rs: Seq<RecordView>, bad: Seq<u8>, key: Seq<u8>)
    requires
        storable(rs),
        forall|i: int| 0 <= i < rs.len() ==> lex_lt((#[trigger] rs[i]).0, key),
        bad.len() > 0,
        record_at(bad, 0) is Err,
    ensures
        search_from(run_bytes(rs) + bad, 0, key) is Err,
{
    search_finds_damage_from(Seq::empty(), rs, bad, key);
    assert(Seq::<u8>::empty() + (run_bytes(rs) + bad) =~= run_bytes(rs) + bad);
}

/// A file opens exactly if its footer is in order, its index can be read to the end, and
/// its bloom block, if it has one, can be read.
pub proof fn open_checks_every_section(path: Seq<char>, file: Seq<u8>)
    ensures
        open_fault(path, file) is None <==> {
            &&& file_layout(path, file) matches Ok(found)
            &&& entries_from(index_part(file, found), 0) is Ok
            &&& found.bloom_offset != 0 ==> bloom_parts(bloom_part(file, found)) is Ok
        },
{
}

/// Finds `key` in a data block: a value, a tombstone, or `None` if it is not
/// there. `Corruption` if a record on the way cannot be decoded.
pub fn search_block(block: &[u8], key: &[u8]) -> (r: Result<Option<LookupValue>>)
    ensures
        match r {
            Ok(found) => search_from(block@, 0, key@) == Ok::<Option<LookupView>, ErrorView>(
                lookup_view(found),
            ),
            Err(e) => search_from(block@, 0, key@) == Err::<Option<LookupView>, ErrorView>(e@),
        },
{
    let mut offset: usize = 0;
    while offset < block.len()
        invariant
            offset <= block.len(),
            search_from(block@, 0, key@) == search_from(block@, offset as nat, key@),
        decreases block.len() - offset,
    {
        let (record_key, value, deleted, consumed) = match read_record(block, offset) {
            Ok(v) => v,
            Err(e) => {
                return Err(e);
            },
        };
        proof {
            lex_facts();
        }
        match key_order(record_key.as_slice(), key) {
            KeyOrder::Equal => {
                if deleted {
                    return Ok(Some(LookupValue::Deleted));
                } else {
                    return Ok(Some(LookupValue::Present(value)));
                }
            },
            KeyOrder::Greater => {
                return Ok(None);
            },
            KeyOrder::Less => {},
        }
        offset = offset + consumed;
    }
    Ok(None)
}

impl SsTableReader {
    /// The invariant of a reader: its data section lies within the file and its
    /// filter is sound.
    pub closed spec fn wf(&self) -> bool {
        &&& self.index_offset <= self.file_len
        &&& self.bloom matches Some(b) ==> bloom_sound(b) && bloom_determined(b)
    }

    /// Loads the index and the bloom block of a table. `bloom_block` is ignored
    /// if the layout has no bloom block. Its bits must be countable in `usize`.
    pub fn load(
        path: &str,
        layout: TableLayout,
        index_block: &[u8],
        bloom_block: &[u8],
    ) -> (r: Result<SsTableReader>)
        requires
            layout.valid(),
            bloom_block@.len() <= usize::MAX / 8,
        ensures
            match r {
                Ok(t) => t.wf() && loaded(path@, layout, index_block@, bloom_block@, t@)
                    && load_fault(layout, index_block@, bloom_block@) is None,
                Err(e) => load_fault(layout, index_block@, bloom_block@) == Some(e@),
            },
    {
        let index: Vec<IndexEntry> = match parse_index(index_block) {
            Ok(es) => es,
            Err(e) => {
                return Err(e);
            },
        };
        let bloom: Option<Bloom> = if layout.bloom_offset == 0 {
            None
        } else {
            match decode_bloom(bloom_block) {
                Ok(b) => Some(b),
                Err(e) => {
                    return Err(e);
                },
            }
        };
        Ok(
            SsTableReader {
                path: String::from_str(path),
                file_len: layout.file_len,
                index_offset: layout.index_offset,
                index,
                bloom,
            },
        )
    }

    /// Opens a whole table file: checks its length, reads the footer, and loads
    /// the index and the bloom block. `Corruption` for any structural problem. The
    /// bits of the bloom block must be countable in `usize`.
    pub fn open(path: &str, file: &[u8]) -> (r: Result<SsTableReader>)
        requires
            bloom_part_len(file@) <= usize::MAX / 8,
        ensures
            match r {
                Ok(t) => t.wf() && table_opened(path@, file@, t@) && open_fault(
                    path@,
                    file@,
                ) is None,
                Err(e) => open_fault(path@, file@) == Some(e@),
            },
    {
        let file_len: u64 = file.len() as u64;
        match check_length(path, file_len) {
            Ok(()) => {},
            Err(e) => {
                return Err(e);
            },
        }
        let footer = vstd::slice::slice_subrange(file, file.len() - 24, file.len());
        let layout: TableLayout = match read_footer(path, file_len, footer) {
            Ok(l) => l,
            Err(e) => {
                return Err(e);
            },
        };
        proof {
            assert(footer@.subrange(16, 24) =~= file@.skip(file@.len() - 8));
            assert(layout == claimed_layout(file@));
        }
        let index_end: usize = layout.index_end() as usize;
        let bloom_end: usize = layout.bloom_end() as usize;
        let index_block = vstd::slice::slice_subrange(
            file,
            layout.index_offset as usize,
            index_end,
        );
        if layout.bloom_offset == 0 {
            let none: Vec<u8> = Vec::new();
            SsTableReader::load(path, layout, index_block, none.as_slice())
        } else {
            let bloom_block = vstd::slice::slice_subrange(file, index_end, bloom_end);
            SsTableReader::load(path, layout, index_block, bloom_block)
        }
    }

    /// The number of data blocks.
    pub fn num_blocks(&self) -> (n: usize)
        ensures
            n == self@.index.len(),
    {
        self.index.len()
    }

    /// The path that the table was opened under.
    pub fn path(&self) -> (path: &str)
        ensures
            path@ == self@.path,
    {
        self.path.as_str()
    }

    /// The length of the data section, which is at the start of the file.
    pub fn data_len(&self) -> (len: u64)
        ensures
            len == self@.index_offset,
    {
        self.index_offset
    }

    /// Asks the filter for a key; `None` if the table has no filter.
    pub fn bloom_probe(&self, key: &[u8]) -> (answer: Option<bool>)
        requires
            self.wf(),
        ensures
            answer == match self@.bloom {
                Some(b) => Some(bloom_keys(b).contains(key@)),
                None => None,
            },
    {
        match &self.bloom {
            Some(b) => Some(b.contains(key)),
            None => None,
        }
    }

    /// Where to look for a key: the offset and size of the one block that may
    /// hold it, or `None` if the table does not hold it. `Corruption` if the
    /// block does not lie within the file.
    pub fn locate(&self, key: &[u8]) -> (r: Result<Option<(u64, u64)>>)
        requires
            self.wf(),
        ensures
            exists|block: Option<nat>| #[trigger]
                chosen_block(self@.index, key@, block) && match r {
                    Ok(Some((offset, size))) => located(self@, key@, block) == Ok::<
                        Option<(nat, nat)>,
                        ErrorView,
                    >(Some((offset as nat, size as nat))),
                    Ok(None) => located(self@, key@, block) == Ok::<
                        Option<(nat, nat)>,
                        ErrorView,
                    >(None),
                    Err(e) => located(self@, key@, block) == Err::<
                        Option<(nat, nat)>,
                        ErrorView,
                    >(e@),
                },
    {
        if let Some(false) = self.bloom_probe(key) {
            proof {
                let block = rightmost_exists(self@.index, key@);
                assert(chosen_block(self@.index, key@, block));
            }
            return Ok(None);
        }
        let found: Option<usize> = locate_block(self.index.as_slice(), key);
        let ghost block: Option<nat> = match found {
            Some(i) => Some(i as nat),
            None => None,
        };
        assert(chosen_block(self@.index, key@, block));
        let block_idx: usize = match found {
            Some(i) => i,
            None => {
                return Ok(None);
            },
        };
        let entry = &self.index[block_idx];
        assert(self@.index[block_idx as int] == entry@);
        if entry.offset > u64::MAX - entry.size {
            let mut s: String = String::from_str("sstable ");
            s.append(quote_path(self.path.as_str()).as_str());
            s.append(" block ");
            append_decimal(&mut s, block_idx as u64);
            s.append(" offset+size overflows u64");
            return Err(LsmError::Corruption(s));
        }
        let block_end: u64 = entry.offset + entry.size;
        if block_end > self.file_len {
            let mut s: String = String::from_str("sstable ");
            s.append(quote_path(self.path.as_str()).as_str());
            s.append(" block ");
            append_decimal(&mut s, block_idx as u64);
            s.append(" at offset ");
            append_decimal(&mut s, entry.offset);
            s.append(" size ");
            append_decimal(&mut s, entry.size);
            s.append(" exceeds file length ");
            append_decimal(&mut s, self.file_len);
            return Err(LsmError::Corruption(s));
        }
        Ok(Some((entry.offset, entry.size)))
    }

    /// Looks up a key in the table, whose whole file is `file`: `None` if it is
    /// not there, a live value (which may be empty), or a tombstone.
    /// `Corruption` if the block does not lie within the file or a record in it
    /// cannot be decoded.
    pub fn get(&self, file: &[u8], key: &[u8]) -> (r: Result<Option<LookupValue>>)
        requires
            self.wf(),
            file@.len() == self@.file_len,
        ensures
            exists|block: Option<nat>| #[trigger]
                chosen_block(self@.index, key@, block) && match r {
                    Ok(found) => looked_up(self@, file@, key@, block) == Ok::<
                        Option<LookupView>,
                        ErrorView,
                    >(lookup_view(found)),
                    Err(e) => looked_up(self@, file@, key@, block) == Err::<
                        Option<LookupView>,
                        ErrorView,
                    >(e@),
                },
    {
        let file_len: usize = file.len();
        match self.locate(key) {
            Err(e) => Err(e),
            Ok(None) => Ok(None),
            Ok(Some((offset, size))) => {
                assert(offset + size <= file_len);
                let start: usize = offset as usize;
                let block = vstd::slice::slice_subrange(file, start, start + size as usize);
                search_block(block, key)
            },
        }
    }

    /// Every record of the table, whose whole file is `file`, in order.
    /// `Corruption` if a record cannot be decoded.
    pub fn records(&self, file: &[u8]) -> (r: Result<Vec<Record>>)
        requires
            self.wf(),
            file@.len() == self@.file_len,
        ensures
            match r {
                Ok(rs) => records_from(file@.subrange(0, self@.index_offset as int), 0) == Ok::<
                    Seq<RecordView>,
                    ErrorView,
                >(record_views(rs@)),
                Err(e) => records_from(file@.subrange(0, self@.index_offset as int), 0) == Err::<
                    Seq<RecordView>,
                    ErrorView,
                >(e@),
            },
    {
        assert(self.index_offset <= file.len());
        read_records(vstd::slice::slice_subrange(file, 0, self.index_offset as usize))
    }
}

} // verus!
