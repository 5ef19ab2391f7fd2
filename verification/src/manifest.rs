//! The manifest: which tables exist at which level, with each table's key
//! range. It is rewritten as a whole on every change.
//!
//! Stored form, integers in little-endian order:
//! ```text
//! [magic "LSMMANIFEST01" 13 bytes]
//! records by ascending level, within a level by ascending sequence number:
//!   [level u32][seq u64][name_len u32][name]
//!   [min_len u32][min][max_len u32][max]
//! ```
//! There is no record count: records are read until the bytes are used up
//! exactly.

use crate::error::{ErrorView, LsmError, Outcome, Result};
use crate::text::{append_decimal, decimal};
use crate::utils;
use vstd::prelude::*;
use vstd::utf8::{
    decode_utf8, decode_utf8_encode_utf8, encode_utf8, encode_utf8_decode_utf8,
    encode_utf8_valid_utf8, valid_utf8,
};

pub mod stored;

verus! {

/// The first bytes of a manifest: "LSMMANIFEST01".
pub const MAGIC_MANIFEST: [u8; 13] = [
    0x4C, 0x53, 0x4D, 0x4D, 0x41, 0x4E, 0x49, 0x46, 0x45, 0x53, 0x54, 0x30, 0x31,
];

/// The name of the manifest file.
pub const MANIFEST_FILE_NAME: &'static str = "MANIFEST";

/// The name under which a new manifest is written before it replaces the old
/// one.
pub const MANIFEST_TMP_FILE_NAME: &'static str = "MANIFEST.tmp";

/// Bytes of a record before its name: level, sequence number, name length.
pub const FIXED_HEADER_LEN: usize = 16;

/// What the manifest records of one table.
#[derive(Clone, Debug, PartialEq, Eq)]
pub struct SstMeta {
    pub level: u32,
    pub seq: u64,
    pub name: String,
    pub min: Vec<u8>,
    pub max: Vec<u8>,
}

/// The mathematical content of an [`SstMeta`].
pub struct MetaView {
    pub level: u32,
    pub seq: u64,
    pub name: Seq<char>,
    pub min: Seq<u8>,
    pub max: Seq<u8>,
}

impl View for SstMeta {
    type V = MetaView;

    open spec fn view(&self) -> MetaView {
        MetaView {
            level: self.level,
            seq: self.seq,
            name: self.name@,
            min: self.min@,
            max: self.max@,
        }
    }
}

pub open spec fn meta_views(metas: Seq<SstMeta>) -> Seq<MetaView> {
    Seq::new(metas.len(), |i: int| metas[i]@)
}

pub open spec fn level_views(levels: Seq<Vec<SstMeta>>) -> Seq<Seq<MetaView>> {
    Seq::new(levels.len(), |i: int| meta_views(levels[i]@))
}

impl SstMeta {
    /// A copy of this entry.
    pub fn copy(&self) -> (m: SstMeta)
        ensures
            m@ == self@,
    {
        SstMeta {
            level: self.level,
            seq: self.seq,
            name: String::from_str(self.name.as_str()),
            min: utils::copy_bytes(self.min.as_slice()),
            max: utils::copy_bytes(self.max.as_slice()),
        }
    }
}

/// `levels[l]` holds the tables at level `l`, by ascending sequence number.
#[derive(Clone, Debug, PartialEq, Eq)]
pub struct Manifest {
    pub levels: Vec<Vec<SstMeta>>,
}

impl View for Manifest {
    type V = Seq<Seq<MetaView>>;

    open spec fn view(&self) -> Seq<Seq<MetaView>> {
        level_views(self.levels@)
    }
}

/// Whether sequence numbers do not descend.
pub open spec fn seqs_ordered(metas: Seq<MetaView>) -> bool {
    forall|i: int, j: int|
        #![trigger metas[i], metas[j]]
        0 <= i < j < metas.len() ==> metas[i].seq <= metas[j].seq
}

/// Whether sequence numbers strictly ascend.
pub open spec fn seqs_ascend(metas: Seq<MetaView>) -> bool {
    forall|i: int, j: int|
        #![trigger metas[i], metas[j]]
        0 <= i < j < metas.len() ==> metas[i].seq < metas[j].seq
}

/// `levels` with empty levels added, so that there are at least `count`.
pub open spec fn grown(levels: Seq<Seq<MetaView>>, count: nat) -> Seq<Seq<MetaView>> {
    if levels.len() >= count {
        levels
    } else {
        levels + Seq::new((count - levels.len()) as nat, |i: int| Seq::<MetaView>::empty())
    }
}

/// Whether `pos` is where a table of this sequence number goes in a level: after
/// the smaller ones and before the others. In a level that is out of order it
/// is some position of the level.
pub open spec fn place_for(metas: Seq<MetaView>, seq: u64, pos: int) -> bool {
    &&& 0 <= pos <= metas.len()
    &&& seqs_ordered(metas) ==> {
        &&& forall|i: int| 0 <= i < pos ==> (#[trigger] metas[i]).seq < seq
        &&& forall|i: int| pos <= i < metas.len() ==> (#[trigger] metas[i]).seq >= seq
    }
}

/// `levels` with `meta` at position `pos` of its level.
pub open spec fn with_meta(levels: Seq<Seq<MetaView>>, meta: MetaView, pos: int) -> Seq<
    Seq<MetaView>,
> {
    let wide = grown(levels, meta.level as nat + 1);
    wide.update(meta.level as int, wide[meta.level as int].insert(pos, meta))
}

/// The first table of a level with this sequence number.
pub open spec fn first_with_seq(metas: Seq<MetaView>, seq: u64) -> Option<int>
    decreases metas.len(),
{
    if metas.len() == 0 {
        None
    } else {
        match first_with_seq(metas.drop_last(), seq) {
            Some(i) => Some(i),
            None => if metas.last().seq == seq {
                Some(metas.len() - 1)
            } else {
                None
            },
        }
    }
}

/// What the first table with a sequence number is: it has the number, and none before it
/// has; and there is one if any table has the number.
pub proof fn first_with_seq_range(metas: Seq<MetaView>, seq: u64)
    ensures
        first_with_seq(metas, seq) matches Some(i) ==> {
            &&& 0 <= i < metas.len()
            &&& metas[i].seq == seq
            &&& forall|j: int| 0 <= j < i ==> (#[trigger] metas[j]).seq != seq
        },
        first_with_seq(metas, seq) is None ==> forall|i: int|
            0 <= i < metas.len() ==> (#[trigger] metas[i]).seq != seq,
    decreases metas.len(),
{
    if metas.len() > 0 {
        first_with_seq_range(metas.drop_last(), seq);
        assert forall|i: int|
            first_with_seq(metas, seq) is None && 0 <= i < metas.len() implies (
        #[trigger] metas[i]).seq != seq by {
            if i < metas.len() - 1 {
                assert(metas.drop_last()[i] == metas[i]);
            }
        }
        if let Some(i) = first_with_seq(metas, seq) {
            assert forall|j: int| 0 <= j < i implies (#[trigger] metas[j]).seq != seq by {
                assert(metas.drop_last()[j] == metas[j]);
            }
        }
    }
}

/// Where a table of this sequence number goes in a level.
pub(crate) fn find_place(metas: &Vec<SstMeta>, seq: u64) -> (pos: usize)
    ensures
        place_for(meta_views(metas@), seq, pos as int),
{
    let ghost ms = meta_views(metas@);
    let mut low: usize = 0;
    let mut high: usize = metas.len();
    while low < high
        invariant
            low <= high <= metas.len(),
            ms == meta_views(metas@),
            seqs_ordered(ms) ==> forall|i: int| 0 <= i < low ==> (#[trigger] ms[i]).seq < seq,
            seqs_ordered(ms) ==> forall|i: int|
                high <= i < ms.len() ==> (#[trigger] ms[i]).seq >= seq,
        decreases high - low,
    {
        let mid: usize = low + (high - low) / 2;
        assert(ms[mid as int] == metas@[mid as int]@);
        if metas[mid].seq < seq {
            low = mid + 1;
        } else {
            high = mid;
        }
    }
    low
}

/// Adds empty levels until there are at least `count`.
pub(crate) fn grow(levels: &mut Vec<Vec<SstMeta>>, count: usize)
    ensures
        level_views(final(levels)@) == grown(level_views(old(levels)@), count as nat),
{
    let ghost before = level_views(levels@);
    while levels.len() < count
        invariant
            before.len() <= levels@.len(),
            levels@.len() <= count || levels@.len() == before.len(),
            level_views(levels@) == grown(before, levels@.len()),
        decreases count - levels.len(),
    {
        let ghost held = levels@;
        let none: Vec<SstMeta> = Vec::new();
        levels.push(none);
        proof {
            assert(meta_views(none@) =~= Seq::empty());
            assert(level_views(levels@) =~= level_views(held).push(Seq::empty()));
            assert(level_views(levels@) =~= grown(before, levels@.len()));
        }
    }
}

/// Puts `meta` into a level at `pos`.
pub(crate) fn insert_meta(levels: &mut Vec<Vec<SstMeta>>, level: usize, pos: usize, meta: SstMeta)
    requires
        level < old(levels)@.len(),
        pos <= old(levels)@[level as int]@.len(),
    ensures
        level_views(final(levels)@) == level_views(old(levels)@).update(
            level as int,
            level_views(old(levels)@)[level as int].insert(pos as int, meta@),
        ),
{
    let ghost before = levels@;
    let ghost m = meta@;
    levels[level].insert(pos, meta);
    proof {
        assert(meta_views(levels@[level as int]@) =~= meta_views(before[level as int]@).insert(
            pos as int,
            m,
        ));
        assert(level_views(levels@) =~= level_views(before).update(
            level as int,
            level_views(before)[level as int].insert(pos as int, m),
        ));
    }
}

impl Manifest {
    /// A manifest without tables.
    pub fn new() -> (m: Manifest)
        ensures
            m@ == Seq::<Seq<MetaView>>::empty(),
    {
        let m = Manifest { levels: Vec::new() };
        proof {
            assert(m@ =~= Seq::empty());
        }
        m
    }

    /// The tables at a level; none at a level that is not there.
    pub fn ssts_at(&self, level: u32) -> (metas: &[SstMeta])
        ensures
            meta_views(metas@) == if level < self@.len() {
                self@[level as int]
            } else {
                Seq::empty()
            },
    {
        if (level as usize) < self.levels.len() {
            self.levels[level as usize].as_slice()
        } else {
            let none: &[SstMeta] = &[];
            proof {
                assert(meta_views(none@) =~= Seq::empty());
            }
            none
        }
    }

    /// Adds a table to its level at the place of its sequence number.
    pub fn add(&mut self, meta: SstMeta)
        requires
            meta.level < usize::MAX,
        ensures
            exists|pos: int| #[trigger]
                place_for(
                    grown(old(self)@, meta.level as nat + 1)[meta.level as int],
                    meta.seq,
                    pos,
                ) && final(self)@ == with_meta(old(self)@, meta@, pos),
    {
        let level: usize = meta.level as usize;
        grow(&mut self.levels, level + 1);
        assert(level_views(self.levels@).len() > level);
        let pos: usize = find_place(&self.levels[level], meta.seq);
        proof {
            assert(self@[level as int] == meta_views(self.levels@[level as int]@));
            assert(place_for(
                grown(old(self)@, meta.level as nat + 1)[meta.level as int],
                meta.seq,
                pos as int,
            ));
        }
        insert_meta(&mut self.levels, level, pos, meta);
    }

    /// Removes the table with this sequence number from a level, the first one
    /// if there are more. Says whether there was one.
    pub fn remove(&mut self, level: u32, seq: u64) -> (removed: bool)
        ensures
            removed == (level < old(self)@.len() && first_with_seq(
                old(self)@[level as int],
                seq,
            ) is Some),
            !removed ==> final(self)@ == old(self)@,
            removed ==> final(self)@ == old(self)@.update(
                level as int,
                old(self)@[level as int].remove(
                    first_with_seq(old(self)@[level as int], seq).unwrap(),
                ),
            ),
            removed <==> level < old(self)@.len() && exists|i: int|
                0 <= i < old(self)@[level as int].len() && (
                #[trigger] old(self)@[level as int][i]).seq == seq,
    {
        proof {
            if level < self@.len() {
                first_with_seq_range(self@[level as int], seq);
            }
        }
        let at: usize = level as usize;
        if at >= self.levels.len() {
            return false;
        }
        let ghost before = self.levels@;
        let ghost ms = meta_views(self.levels@[at as int]@);
        let count: usize = self.levels[at].len();
        let mut i: usize = 0;
        assert(ms.take(count as int) =~= ms);
        while i < count
            invariant
                i <= count,
                ms.take(count as int) == ms,
                at < self.levels@.len(),
                self.levels@ == before,
                count == self.levels@[at as int]@.len(),
                ms == meta_views(self.levels@[at as int]@),
                first_with_seq(ms.take(i as int), seq) is None,
            ensures
                self.levels@ == before,
                i <= count,
                i < count ==> first_with_seq(ms, seq) == Some(i as int),
                i == count ==> first_with_seq(ms, seq) is None,
            decreases count - i,
        {
            proof {
                assert(ms.take(i + 1).drop_last() =~= ms.take(i as int));
                assert(ms[i as int] == self.levels@[at as int]@[i as int]@);
            }
            if self.levels[at][i].seq == seq {
                proof {
                    first_stays(ms, i + 1, seq);
                }
                break;
            }
            i = i + 1;
        }
        assert(level_views(before)[at as int] == ms);
        if i == count {
            return false;
        }
        let _ = self.levels[at].remove(i);
        proof {
            assert(meta_views(self.levels@[at as int]@) =~= ms.remove(i as int));
            assert(level_views(self.levels@) =~= level_views(before).update(
                at as int,
                ms.remove(i as int),
            ));
        }
        true
    }
}

proof fn first_stays(metas: Seq<MetaView>, n: int, seq: u64)
    requires
        0 <= n <= metas.len(),
        first_with_seq(metas.take(n), seq) is Some,
    ensures
        first_with_seq(metas, seq) == first_with_seq(metas.take(n), seq),
    decreases metas.len() - n,
{
    if n == metas.len() {
        assert(metas.take(n) =~= metas);
    } else {
        assert(metas.take(n + 1).drop_last() =~= metas.take(n));
        first_stays(metas, n + 1, seq);
    }
}

impl Default for Manifest {
    fn default() -> (m: Manifest)
        ensures
            m@ == Seq::<Seq<MetaView>>::empty(),
    {
        Manifest::new()
    }
}

/// A level that is in order stays in order when a table is added to it.
pub proof fn add_keeps_order(metas: Seq<MetaView>, meta: MetaView, pos: int)
    requires
        seqs_ordered(metas),
        place_for(metas, meta.seq, pos),
    ensures
        seqs_ordered(metas.insert(pos, meta)),
{
    let after = metas.insert(pos, meta);
    assert forall|i: int, j: int| 0 <= i < j < after.len() implies after[i].seq
        <= after[j].seq by {
        if i < pos {
            assert(after[i] == metas[i]);
        } else if i > pos {
            assert(after[i] == metas[i - 1]);
        }
        if j < pos {
            assert(after[j] == metas[j]);
        } else if j > pos {
            assert(after[j] == metas[j - 1]);
        }
    }
}

/// A table that is added to a level in order is the first one with its number
/// there, also if the number was there before, so that removing the number gives
/// the level back. A level whose numbers strictly ascend still does if the number
/// is a new one.
pub proof fn add_then_remove(metas: Seq<MetaView>, meta: MetaView, pos: int)
    requires
        seqs_ordered(metas),
        place_for(metas, meta.seq, pos),
    ensures
        first_with_seq(metas.insert(pos, meta), meta.seq) == Some(pos),
        metas.insert(pos, meta).remove(pos) == metas,
        seqs_ascend(metas) && (forall|i: int|
            0 <= i < metas.len() ==> (#[trigger] metas[i]).seq != meta.seq) ==> seqs_ascend(
            metas.insert(pos, meta),
        ),
{
    let after = metas.insert(pos, meta);
    assert forall|i: int, j: int|
        seqs_ascend(metas) && (forall|i: int|
            0 <= i < metas.len() ==> (#[trigger] metas[i]).seq != meta.seq) && 0 <= i < j
            < after.len() implies after[i].seq < after[j].seq by {
        if i < pos {
            assert(after[i] == metas[i]);
        } else if i > pos {
            assert(after[i] == metas[i - 1]);
        }
        if j < pos {
            assert(after[j] == metas[j]);
        } else if j > pos {
            assert(after[j] == metas[j - 1]);
        }
    }
    first_with_seq_range(after, meta.seq);
    assert(after[pos] == meta);
    assert forall|i: int| 0 <= i < pos implies (#[trigger] after[i]).seq != meta.seq by {
        assert(after[i] == metas[i]);
    }
    assert(after.remove(pos) =~= metas);
}

/// One table's record as it is stored at a level.
#[verifier::opaque]
pub open spec fn meta_bytes(level: u32, m: MetaView) -> Seq<u8> {
    utils::le_bytes(level as nat, 4) + utils::le_bytes(m.seq as nat, 8) + utils::le_bytes(
        encode_utf8(m.name).len(),
        4,
    ) + encode_utf8(m.name) + utils::le_bytes(m.min.len(), 4) + m.min + utils::le_bytes(
        m.max.len(),
        4,
    ) + m.max
}

/// The records of one level as they are stored.
pub open spec fn level_bytes(level: u32, metas: Seq<MetaView>) -> Seq<u8>
    decreases metas.len(),
{
    if metas.len() == 0 {
        Seq::empty()
    } else {
        level_bytes(level, metas.drop_last()) + meta_bytes(level, metas.last())
    }
}

/// The records of all levels as they are stored. A level's number is its
/// position, in four bytes.
pub open spec fn levels_bytes(levels: Seq<Seq<MetaView>>) -> Seq<u8>
    decreases levels.len(),
{
    if levels.len() == 0 {
        Seq::empty()
    } else {
        levels_bytes(levels.drop_last()) + level_bytes((levels.len() - 1) as u32, levels.last())
    }
}

/// A manifest as it is stored.
pub open spec fn encoded(levels: Seq<Seq<MetaView>>) -> Seq<u8> {
    MAGIC_MANIFEST@ + levels_bytes(levels)
}

/// Whether the lengths of a table's name and keys fit in their fields.
pub open spec fn meta_fits(m: MetaView) -> bool {
    encode_utf8(m.name).len() <= u32::MAX && m.min.len() <= u32::MAX && m.max.len() <= u32::MAX
}

pub open spec fn manifest_fits(levels: Seq<Seq<MetaView>>) -> bool {
    forall|i: int, j: int|
        0 <= i < levels.len() && 0 <= j < levels[i].len() ==> meta_fits(#[trigger] levels[i][j])
}

fn put_meta(buf: &mut Vec<u8>, level: u32, meta: &SstMeta)
    requires
        meta_fits(meta@),
    ensures
        final(buf)@ == old(buf)@ + meta_bytes(level, meta@),
{
    let ghost before = buf@;
    let name: &[u8] = meta.name.as_str().as_bytes();
    utils::put_u32(buf, level);
    utils::put_u64(buf, meta.seq);
    utils::put_u32(buf, name.len() as u32);
    utils::put_bytes(buf, name);
    utils::put_u32(buf, meta.min.len() as u32);
    utils::put_bytes(buf, meta.min.as_slice());
    utils::put_u32(buf, meta.max.len() as u32);
    utils::put_bytes(buf, meta.max.as_slice());
    proof {
        reveal(meta_bytes);
        assert(buf@ =~= before + meta_bytes(level, meta@));
    }
}

/// The stored form of a manifest: the magic, then every table's record, level
/// by level. Names and keys must be no longer than their length fields can say.
pub fn encode(manifest: &Manifest) -> (bytes: Vec<u8>)
    requires
        manifest_fits(manifest@),
    ensures
        bytes@ == encoded(manifest@),
{
    let ghost levels = manifest@;
    let mut buf: Vec<u8> = Vec::new();
    utils::put_bytes(&mut buf, MAGIC_MANIFEST.as_slice());
    let mut i: usize = 0;
    proof {
        assert(buf@ =~= MAGIC_MANIFEST@ + levels_bytes(levels.take(0)));
    }
    while i < manifest.levels.len()
        invariant
            i <= manifest.levels@.len(),
            levels == manifest@,
            manifest_fits(levels),
            buf@ == MAGIC_MANIFEST@ + levels_bytes(levels.take(i as int)),
        decreases manifest.levels.len() - i,
    {
        let metas = &manifest.levels[i];
        let ghost ms = levels[i as int];
        let ghost before = buf@;
        let level: u32 = #[verifier::truncate] (i as u32);
        let mut j: usize = 0;
        proof {
            assert(ms == meta_views(metas@));
            assert(buf@ =~= before + level_bytes(level, ms.take(0)));
        }
        while j < metas.len()
            invariant
                i < levels.len(),
                j <= metas@.len(),
                ms == meta_views(metas@),
                ms == levels[i as int],
                manifest_fits(levels),
                buf@ == before + level_bytes(level, ms.take(j as int)),
            decreases metas.len() - j,
        {
            assert(levels[i as int][j as int] == metas@[j as int]@);
            put_meta(&mut buf, level, &metas[j]);
            proof {
                let next = ms.take(j + 1);
                assert(next.drop_last() =~= ms.take(j as int));
                assert(buf@ =~= before + level_bytes(level, next));
            }
            j = j + 1;
        }
        proof {
            assert(ms.take(j as int) =~= ms);
            let next = levels.take(i + 1);
            assert(next.drop_last() =~= levels.take(i as int));
            assert(buf@ =~= MAGIC_MANIFEST@ + levels_bytes(next));
        }
        i = i + 1;
    }
    proof {
        assert(levels.take(i as int) =~= levels);
    }
    buf
}

pub open spec fn short_meta_text(remaining: nat) -> Seq<char> {
    "manifest record shorter than 16-byte header: "@ + decimal(remaining) + " bytes remain"@
}

pub open spec fn payload_text(what: Seq<char>, offset: nat, len: nat, available: nat) -> Seq<
    char,
> {
    if offset + len > usize::MAX {
        "manifest "@ + what + " length overflows at offset "@ + decimal(offset)
    } else {
        "manifest "@ + what + " runs past end of file: declared "@ + decimal(len) + " bytes, "@
            + decimal(available) + " available"@
    }
}

/// The `len` bytes of a field from `offset` on, if they are there.
pub open spec fn payload_at(bytes: Seq<u8>, offset: nat, len: nat, what: Seq<char>) -> Outcome<
    Seq<u8>,
>
    recommends
        offset <= bytes.len(),
{
    if offset + len > bytes.len() {
        Err(
            ErrorView::Corruption(
                payload_text(what, offset, len, (bytes.len() - offset) as nat),
            ),
        )
    } else {
        Ok(bytes.subrange(offset as int, (offset + len) as int))
    }
}

/// A field that stands behind its own length: its bytes and where it ends.
pub open spec fn field_at(bytes: Seq<u8>, offset: nat, what: Seq<char>) -> Outcome<
    (Seq<u8>, nat),
> {
    match utils::number_at(bytes, offset, 4) {
        Err(e) => Err(e),
        Ok(len) => match payload_at(bytes, offset + 4, len, what) {
            Err(e) => Err(e),
            Ok(b) => Ok((b, offset + 4 + len)),
        },
    }
}

/// The record at `offset` and where it ends.
pub open spec fn meta_at(bytes: Seq<u8>, offset: nat) -> Outcome<(MetaView, nat)>
    recommends
        offset <= bytes.len(),
{
    let remaining = (bytes.len() - offset) as nat;
    if remaining < FIXED_HEADER_LEN {
        Err(ErrorView::Corruption(short_meta_text(remaining)))
    } else {
        let start = offset as int;
        let level = utils::le_value(bytes.subrange(start, start + 4)) as u32;
        let seq = utils::le_value(bytes.subrange(start + 4, start + 12)) as u64;
        match field_at(bytes, offset + 12, "sst name"@) {
            Err(e) => Err(e),
            Ok((name, name_end)) => if !valid_utf8(name) {
                Err(ErrorView::Corruption("manifest sst name is not valid utf-8"@))
            } else {
                match field_at(bytes, name_end, "min key"@) {
                    Err(e) => Err(e),
                    Ok((min, min_end)) => match field_at(bytes, min_end, "max key"@) {
                        Err(e) => Err(e),
                        Ok((max, max_end)) => Ok(
                            ((MetaView { level, seq, name: decode_utf8(name), min, max }), max_end),
                        ),
                    },
                }
            },
        }
    }
}

pub open spec fn too_large_text(level: nat) -> Seq<char> {
    "manifest level number "@ + decimal(level) + " too large"@
}

pub open spec fn order_text(level: nat, seq: nat, prev: nat) -> Seq<char> {
    "manifest level "@ + decimal(level) + " seq out of order: "@ + decimal(seq) + " after "@
        + decimal(prev)
}

/// `levels` with `meta` at the end of its level. `room` says whether there is
/// memory for the levels that have to be added first, if any have to be.
pub open spec fn placed(levels: Seq<Seq<MetaView>>, meta: MetaView, room: bool) -> Outcome<
    Seq<Seq<MetaView>>,
> {
    let at = meta.level as int;
    if levels.len() <= at && at + 1 > usize::MAX {
        Err(ErrorView::Corruption("manifest level number overflows usize"@))
    } else if levels.len() <= at && !room {
        Err(ErrorView::Corruption(too_large_text(meta.level as nat)))
    } else {
        let wide = grown(levels, meta.level as nat + 1);
        if wide[at].len() > 0 && wide[at].last().seq >= meta.seq {
            Err(
                ErrorView::Corruption(
                    order_text(meta.level as nat, meta.seq as nat, wide[at].last().seq as nat),
                ),
            )
        } else {
            Ok(wide.update(at, wide[at].push(meta)))
        }
    }
}

/// The levels that the records from `offset` on make, added to `levels`.
/// `refused` holds the numbers of levels for which there is no memory.
pub open spec fn decoded_from(
    bytes: Seq<u8>,
    offset: nat,
    levels: Seq<Seq<MetaView>>,
    refused: Set<nat>,
) -> Outcome<Seq<Seq<MetaView>>>
    decreases bytes.len() - offset,
{
    if offset >= bytes.len() {
        Ok(levels)
    } else {
        match meta_at(bytes, offset) {
            Err(e) => Err(e),
            Ok((meta, end)) => match placed(
                levels,
                meta,
                !refused.contains(meta.level as nat + 1),
            ) {
                Err(e) => Err(e),
                Ok(next) => decoded_from(bytes, end, next, refused),
            },
        }
    }
}

/// The levels that a stored manifest holds. `refused` holds the numbers of
/// levels for which there is no memory.
pub open spec fn decoded(bytes: Seq<u8>, refused: Set<nat>) -> Outcome<Seq<Seq<MetaView>>> {
    if bytes.len() < 13 || bytes.subrange(0, 13) != MAGIC_MANIFEST@ {
        Err(ErrorView::Corruption("invalid manifest magic"@))
    } else {
        decoded_from(bytes, 13, Seq::empty(), refused)
    }
}

/// Turns bytes into text with `String::from_utf8`. Claims: it succeeds exactly
/// on valid UTF-8, and the text is what the bytes encode.
#[verifier::external_body]
fn text_from_utf8(bytes: Vec<u8>) -> (text: Option<String>)
    ensures
        match text {
            Some(s) => valid_utf8(bytes@) && s@ == decode_utf8(bytes@),
            None => !valid_utf8(bytes@),
        },
{
    String::from_utf8(bytes).ok()
}

fn read_payload<'a>(bytes: &'a [u8], offset: &mut usize, len: usize, what: &str) -> (r: Result<
    &'a [u8],
>)
    requires
        *old(offset) <= bytes@.len(),
    ensures
        match r {
            Ok(b) => payload_at(bytes@, *old(offset) as nat, len as nat, what@) == Ok::<
                Seq<u8>,
                ErrorView,
            >(b@) && *final(offset) == *old(offset) + len && *final(offset) <= bytes@.len(),
            Err(e) => payload_at(bytes@, *old(offset) as nat, len as nat, what@) == Err::<
                Seq<u8>,
                ErrorView,
            >(e@),
        },
{
    let start: usize = *offset;
    let available: usize = bytes.len() - start;
    if start > usize::MAX - len {
        let mut s: String = String::from_str("manifest ");
        s.append(what);
        s.append(" length overflows at offset ");
        append_decimal(&mut s, start as u64);
        return Err(LsmError::Corruption(s));
    }
    let end: usize = start + len;
    if end > bytes.len() {
        let mut s: String = String::from_str("manifest ");
        s.append(what);
        s.append(" runs past end of file: declared ");
        append_decimal(&mut s, len as u64);
        s.append(" bytes, ");
        append_decimal(&mut s, available as u64);
        s.append(" available");
        return Err(LsmError::Corruption(s));
    }
    *offset = end;
    Ok(vstd::slice::slice_subrange(bytes, start, end))
}

fn read_field<'a>(bytes: &'a [u8], offset: &mut usize, what: &str) -> (r: Result<&'a [u8]>)
    requires
        *old(offset) <= bytes@.len(),
    ensures
        match r {
            Ok(b) => field_at(bytes@, *old(offset) as nat, what@) == Ok::<
                (Seq<u8>, nat),
                ErrorView,
            >((b@, *final(offset) as nat)) && *final(offset) <= bytes@.len(),
            Err(e) => field_at(bytes@, *old(offset) as nat, what@) == Err::<
                (Seq<u8>, nat),
                ErrorView,
            >(e@),
        },
{
    let len: usize = utils::read_u32(bytes, *offset)? as usize;
    assert(*offset + 4 <= bytes.len());
    *offset = *offset + 4;
    read_payload(bytes, offset, len, what)
}

/// Reads the record at `offset`: what it says of a table, and where it ends.
fn read_meta(bytes: &[u8], offset: usize) -> (r: Result<(SstMeta, usize)>)
    requires
        offset <= bytes@.len(),
    ensures
        match r {
            Ok((m, end)) => meta_at(bytes@, offset as nat) == Ok::<(MetaView, nat), ErrorView>(
                (m@, end as nat),
            ) && offset < end <= bytes@.len(),
            Err(e) => meta_at(bytes@, offset as nat) == Err::<(MetaView, nat), ErrorView>(e@),
        },
{
    let remaining: usize = bytes.len() - offset;
    if remaining < FIXED_HEADER_LEN {
        let mut s: String = String::from_str("manifest record shorter than 16-byte header: ");
        append_decimal(&mut s, remaining as u64);
        s.append(" bytes remain");
        return Err(LsmError::Corruption(s));
    }
    let level: u32 = utils::read_u32(bytes, offset)?;
    let seq: u64 = utils::read_u64(bytes, offset + 4)?;
    let mut at: usize = offset + 12;
    let name_bytes: Vec<u8> = utils::copy_bytes(read_field(bytes, &mut at, "sst name")?);
    let name: String = match text_from_utf8(name_bytes) {
        Some(s) => s,
        None => {
            return Err(
                LsmError::Corruption(String::from_str("manifest sst name is not valid utf-8")),
            );
        },
    };
    let min: Vec<u8> = utils::copy_bytes(read_field(bytes, &mut at, "min key")?);
    let max: Vec<u8> = utils::copy_bytes(read_field(bytes, &mut at, "max key")?);
    Ok((SstMeta { level, seq, name, min, max }, at))
}

/// Puts a table at the end of its level, as a stored manifest lists it. `room`
/// says whether there is memory for the levels that have to be added first.
/// `Corruption` if there is none, if the level number is too large, or if the
/// level's sequence numbers would not ascend.
pub fn place(manifest: &mut Manifest, meta: SstMeta, room: bool) -> (r: Result<()>)
    ensures
        match r {
            Ok(()) => placed(old(manifest)@, meta@, room) == Ok::<Seq<Seq<MetaView>>, ErrorView>(
                final(manifest)@,
            ),
            Err(e) => placed(old(manifest)@, meta@, room) == Err::<Seq<Seq<MetaView>>, ErrorView>(
                e@,
            ),
        },
{
    let level: usize = meta.level as usize;
    if manifest.levels.len() <= level {
        if level == usize::MAX {
            return Err(
                LsmError::Corruption(String::from_str("manifest level number overflows usize")),
            );
        }
        if !room {
            let mut s: String = String::from_str("manifest level number ");
            append_decimal(&mut s, meta.level as u64);
            s.append(" too large");
            return Err(LsmError::Corruption(s));
        }
        grow(&mut manifest.levels, level + 1);
    }
    let ghost wide = level_views(manifest.levels@);
    assert(wide.len() > level);
    assert(wide == grown(old(manifest)@, meta.level as nat + 1));
    let count: usize = manifest.levels[level].len();
    assert(wide[level as int] == meta_views(manifest.levels@[level as int]@));
    if count > 0 {
        let prev: u64 = manifest.levels[level][count - 1].seq;
        assert(wide[level as int].last().seq == prev);
        if prev >= meta.seq {
            let mut s: String = String::from_str("manifest level ");
            append_decimal(&mut s, meta.level as u64);
            s.append(" seq out of order: ");
            append_decimal(&mut s, meta.seq);
            s.append(" after ");
            append_decimal(&mut s, prev);
            return Err(LsmError::Corruption(s));
        }
    }
    let ghost m = meta@;
    insert_meta(&mut manifest.levels, level, count, meta);
    proof {
        assert(wide[level as int].insert(count as int, m) =~= wide[level as int].push(m));
    }
    Ok(())
}

/// How many levels have to be added to `have` of them so that there is one of
/// number `level`.
pub fn levels_to_add(have: usize, level: u32) -> (n: usize)
    requires
        have <= level,
        level < usize::MAX,
    ensures
        n == level + 1 - have,
{
    level as usize + 1 - have
}

fn has_magic(bytes: &[u8]) -> (same: bool)
    ensures
        same <==> bytes@.len() >= 13 && bytes@.subrange(0, 13) == MAGIC_MANIFEST@,
{
    if bytes.len() < 13 {
        return false;
    }
    let mut i: usize = 0;
    while i < 13
        invariant
            i <= 13,
            bytes@.len() >= 13,
            forall|j: int| 0 <= j < i ==> bytes@[j] == MAGIC_MANIFEST@[j],
        decreases 13 - i,
    {
        if bytes[i] != MAGIC_MANIFEST[i] {
            assert(bytes@.subrange(0, 13)[i as int] != MAGIC_MANIFEST@[i as int]);
            return false;
        }
        i = i + 1;
    }
    proof {
        assert(bytes@.subrange(0, 13) =~= MAGIC_MANIFEST@);
    }
    true
}

/// Reads a stored manifest. `Corruption` if the magic is wrong, if a record is
/// cut short or something follows the last one, or if a level's sequence numbers
/// do not ascend. The allocator decides whether there is memory for the levels
/// that a record asks for; where it refuses, that is `Corruption` too.
pub fn decode(bytes: &[u8]) -> (r: Result<Manifest>)
    ensures
        exists|refused: Set<nat>|
            match r {
                Ok(m) => #[trigger] decoded(bytes@, refused) == Ok::<
                    Seq<Seq<MetaView>>,
                    ErrorView,
                >(m@),
                Err(e) => decoded(bytes@, refused) == Err::<Seq<Seq<MetaView>>, ErrorView>(e@),
            },
{
    let ghost mut refused: Set<nat> = Set::empty();
    if !has_magic(bytes) {
        assert(decoded(bytes@, refused) is Err);
        return Err(LsmError::Corruption(String::from_str("invalid manifest magic")));
    }
    let mut manifest: Manifest = Manifest::new();
    let mut offset: usize = 13;
    while offset < bytes.len()
        invariant
            13 <= offset <= bytes@.len(),
            bytes@.subrange(0, 13) == MAGIC_MANIFEST@,
            refused == Set::<nat>::empty(),
            forall|none: Set<nat>|
                (forall|n: nat| none.contains(n) ==> n > manifest@.len()) ==> #[trigger] decoded(
                    bytes@,
                    none,
                ) == decoded_from(bytes@, offset as nat, manifest@, none),
        decreases bytes.len() - offset,
    {
        let (meta, end) = match read_meta(bytes, offset) {
            Ok(v) => v,
            Err(e) => {
                assert(decoded(bytes@, refused) == Err::<Seq<Seq<MetaView>>, ErrorView>(e@));
                return Err(e);
            },
        };
        let ghost before = manifest@;
        let ghost m = meta@;
        let need: usize = meta.level as usize;
        let mut room: bool = true;
        if manifest.levels.len() <= need && need < usize::MAX {
            let more: usize = levels_to_add(manifest.levels.len(), meta.level);
            room = match manifest.levels.try_reserve(more) {
                Ok(()) => true,
                Err(_) => false,
            };
        }
        let ghost refused_now: Set<nat> = if room {
            Set::empty()
        } else {
            Set::empty().insert(need as nat + 1)
        };
        assert(decoded(bytes@, refused_now) == decoded_from(
            bytes@,
            offset as nat,
            before,
            refused_now,
        ));
        match place(&mut manifest, meta, room) {
            Ok(()) => {},
            Err(e) => {
                assert(decoded(bytes@, refused_now) == Err::<Seq<Seq<MetaView>>, ErrorView>(e@));
                return Err(e);
            },
        }
        proof {
            assert forall|none: Set<nat>|
                (forall|n: nat| none.contains(n) ==> n > manifest@.len()) implies #[trigger] decoded(
                bytes@,
                none,
            ) == decoded_from(bytes@, end as nat, manifest@, none) by {
                assert(manifest@.len() >= before.len());
                assert(manifest@.len() > m.level);
                assert(decoded(bytes@, none) == decoded_from(
                    bytes@,
                    offset as nat,
                    before,
                    none,
                ));
            }
        }
        offset = end;
    }
    assert(decoded(bytes@, refused) == Ok::<Seq<Seq<MetaView>>, ErrorView>(manifest@));
    Ok(manifest)
}

/// Reads the manifest of a directory, given the manifest file's bytes. A
/// directory without the file is a fresh one, with no tables.
pub fn load(file: Option<&[u8]>) -> (r: Result<Manifest>)
    ensures
        match file {
            None => r matches Ok(m) && m@ == Seq::<Seq<MetaView>>::empty(),
            Some(bytes) => exists|refused: Set<nat>|
                match r {
                    Ok(m) => #[trigger] decoded(bytes@, refused) == Ok::<
                        Seq<Seq<MetaView>>,
                        ErrorView,
                    >(m@),
                    Err(e) => decoded(bytes@, refused) == Err::<Seq<Seq<MetaView>>, ErrorView>(e@),
                },
        },
{
    match file {
        Some(bytes) => decode(bytes),
        None => Ok(Manifest::new()),
    }
}

proof fn refusal_from(bytes: Seq<u8>, offset: nat, levels: Seq<Seq<MetaView>>, refused: Set<nat>)
    ensures
        decoded_from(bytes, offset, levels, refused) == decoded_from(
            bytes,
            offset,
            levels,
            Set::empty(),
        ) || exists|level: nat|
            refused.contains(level + 1) && decoded_from(bytes, offset, levels, refused) == Err::<
                Seq<Seq<MetaView>>,
                ErrorView,
            >(ErrorView::Corruption(#[trigger] too_large_text(level))),
    decreases bytes.len() - offset,
{
    if offset < bytes.len() {
        if let Ok((meta, end)) = meta_at(bytes, offset) {
            let room = !refused.contains(meta.level as nat + 1);
            if placed(levels, meta, room) == placed(levels, meta, true) {
                if let Ok(next) = placed(levels, meta, room) {
                    refusal_from(bytes, end, next, refused);
                }
            } else {
                assert(decoded_from(bytes, offset, levels, refused) == Err::<
                    Seq<Seq<MetaView>>,
                    ErrorView,
                >(ErrorView::Corruption(too_large_text(meta.level as nat))));
            }
        }
    }
}

/// Memory decides nothing but whether a level number is refused: what is read
/// otherwise does not depend on it.
pub proof fn refusal_only_refuses(bytes: Seq<u8>, refused: Set<nat>)
    ensures
        decoded(bytes, refused) == decoded(bytes, Set::empty()) || exists|level: nat|
            refused.contains(level + 1) && decoded(bytes, refused) == Err::<
                Seq<Seq<MetaView>>,
                ErrorView,
            >(ErrorView::Corruption(#[trigger] too_large_text(level))),
{
    refusal_from(bytes, 13, Seq::empty(), refused);
}

/// A table's record is read back where it stands, whatever is around it.
#[verifier::rlimit(30)]
pub proof fn meta_roundtrip(before: Seq<u8>, m: MetaView, after: Seq<u8>)
    requires
        meta_fits(m),
    ensures
        meta_bytes(m.level, m).len() > 0,
        meta_at(before + meta_bytes(m.level, m) + after, before.len()) == Ok::<
            (MetaView, nat),
            ErrorView,
        >((m, before.len() + meta_bytes(m.level, m).len())),
{
    reveal(meta_bytes);
    let bytes = before + meta_bytes(m.level, m) + after;
    let start = before.len() as int;
    let name = encode_utf8(m.name);
    let at_name = start + 12;
    let at_min = start + 16 + name.len();
    let at_max = at_min + 4 + m.min.len();
    encode_utf8_valid_utf8(m.name);
    encode_utf8_decode_utf8(m.name);
    utils::le_limits();
    utils::le_bytes_len(m.level as nat, 4);
    utils::le_bytes_len(m.seq as nat, 8);
    utils::le_bytes_len(name.len(), 4);
    utils::le_bytes_len(m.min.len(), 4);
    utils::le_bytes_len(m.max.len(), 4);
    utils::le_roundtrip(m.level as nat, 4);
    utils::le_roundtrip(m.seq as nat, 8);
    utils::le_roundtrip(name.len(), 4);
    utils::le_roundtrip(m.min.len(), 4);
    utils::le_roundtrip(m.max.len(), 4);
    assert(bytes.subrange(start, start + 4) =~= utils::le_bytes(m.level as nat, 4));
    assert(bytes.subrange(start + 4, start + 12) =~= utils::le_bytes(m.seq as nat, 8));
    assert(bytes.subrange(at_name, at_name + 4) =~= utils::le_bytes(name.len(), 4));
    assert(bytes.subrange(at_name + 4, at_name + 4 + name.len()) =~= name);
    assert(bytes.subrange(at_min, at_min + 4) =~= utils::le_bytes(m.min.len(), 4));
    assert(bytes.subrange(at_min + 4, at_min + 4 + m.min.len()) =~= m.min);
    assert(bytes.subrange(at_max, at_max + 4) =~= utils::le_bytes(m.max.len(), 4));
    assert(bytes.subrange(at_max + 4, at_max + 4 + m.max.len()) =~= m.max);
}

/// Tables put into `levels` one after the other.
pub open spec fn placed_all(levels: Seq<Seq<MetaView>>, ms: Seq<MetaView>) -> Outcome<
    Seq<Seq<MetaView>>,
>
    decreases ms.len(),
{
    if ms.len() == 0 {
        Ok(levels)
    } else {
        match placed(levels, ms[0], true) {
            Err(e) => Err(e),
            Ok(next) => placed_all(next, ms.skip(1)),
        }
    }
}

/// The tables of all levels, level by level.
pub open spec fn all_metas(levels: Seq<Seq<MetaView>>) -> Seq<MetaView>
    decreases levels.len(),
{
    if levels.len() == 0 {
        Seq::empty()
    } else {
        all_metas(levels.drop_last()) + levels.last()
    }
}

/// The records of tables, each at its own level.
pub open spec fn metas_bytes(ms: Seq<MetaView>) -> Seq<u8>
    decreases ms.len(),
{
    if ms.len() == 0 {
        Seq::empty()
    } else {
        metas_bytes(ms.drop_last()) + meta_bytes(ms.last().level, ms.last())
    }
}

proof fn metas_bytes_concat(a: Seq<MetaView>, b: Seq<MetaView>)
    ensures
        metas_bytes(a + b) == metas_bytes(a) + metas_bytes(b),
    decreases b.len(),
{
    if b.len() == 0 {
        assert(a + b =~= a);
        assert(metas_bytes(a) + metas_bytes(b) =~= metas_bytes(a));
    } else {
        metas_bytes_concat(a, b.drop_last());
        assert((a + b).drop_last() =~= a + b.drop_last());
        assert(metas_bytes(a + b) =~= metas_bytes(a) + metas_bytes(b));
    }
}

proof fn level_bytes_is(level: u32, metas: Seq<MetaView>)
    requires
        forall|i: int| 0 <= i < metas.len() ==> (#[trigger] metas[i]).level == level,
    ensures
        level_bytes(level, metas) == metas_bytes(metas),
    decreases metas.len(),
{
    if metas.len() > 0 {
        assert(metas[metas.len() - 1].level == level);
        level_bytes_is(level, metas.drop_last());
    }
}

/// Whether each table says its own level, and the sequence numbers of every
/// level strictly ascend: the form of every manifest that [`decode`] gives.
pub open spec fn manifest_ordered(levels: Seq<Seq<MetaView>>) -> bool {
    &&& forall|i: int, j: int|
        0 <= i < levels.len() && 0 <= j < levels[i].len() ==> (#[trigger] levels[i][j]).level == i
    &&& forall|i: int| 0 <= i < levels.len() ==> seqs_ascend(#[trigger] levels[i])
}

proof fn levels_bytes_is(levels: Seq<Seq<MetaView>>)
    requires
        manifest_ordered(levels),
    ensures
        levels_bytes(levels) == metas_bytes(all_metas(levels)),
    decreases levels.len(),
{
    if levels.len() > 0 {
        let rest = levels.drop_last();
        let last = levels.len() - 1;
        ordered_rest(levels);
        levels_bytes_is(rest);
        metas_bytes_concat(all_metas(rest), levels.last());
        if levels.last().len() > 0 {
            assert(levels[last][0].level == last);
            assert forall|j: int| 0 <= j < levels.last().len() implies (
            #[trigger] levels.last()[j]).level == last as u32 by {
                assert(levels[last][j].level == last);
            }
        }
        level_bytes_is(last as u32, levels.last());
    }
}

proof fn ordered_rest(levels: Seq<Seq<MetaView>>)
    requires
        manifest_ordered(levels),
        levels.len() > 0,
    ensures
        manifest_ordered(levels.drop_last()),
{
    let rest = levels.drop_last();
    assert forall|i: int, j: int| 0 <= i < rest.len() && 0 <= j < rest[i].len() implies (
    #[trigger] rest[i][j]).level == i by {
        assert(rest[i][j] == levels[i][j]);
    }
    assert forall|i: int| 0 <= i < rest.len() implies seqs_ascend(#[trigger] rest[i]) by {
        assert(rest[i] == levels[i]);
    }
}

proof fn metas_bytes_first(ms: Seq<MetaView>)
    requires
        ms.len() > 0,
    ensures
        metas_bytes(ms) == meta_bytes(ms[0].level, ms[0]) + metas_bytes(ms.skip(1)),
{
    assert(seq![ms[0]] + ms.skip(1) =~= ms);
    metas_bytes_concat(seq![ms[0]], ms.skip(1));
    reveal_with_fuel(metas_bytes, 2);
    assert(seq![ms[0]].drop_last() =~= Seq::empty());
    assert(metas_bytes(seq![ms[0]]) =~= meta_bytes(ms[0].level, ms[0]));
}

/// Reading goes through whole records one after the other, whatever follows them.
proof fn decode_past_metas(
    before: Seq<u8>,
    levels: Seq<Seq<MetaView>>,
    ms: Seq<MetaView>,
    tail: Seq<u8>,
)
    requires
        forall|i: int| 0 <= i < ms.len() ==> meta_fits(#[trigger] ms[i]),
    ensures
        decoded_from(before + metas_bytes(ms) + tail, before.len(), levels, Set::empty())
            == match placed_all(levels, ms) {
            Err(e) => Err(e),
            Ok(next) => decoded_from(
                before + metas_bytes(ms) + tail,
                before.len() + metas_bytes(ms).len(),
                next,
                Set::empty(),
            ),
        },
    decreases ms.len(),
{
    let bytes = before + metas_bytes(ms) + tail;
    if ms.len() > 0 {
        let rest = ms.skip(1);
        let one = meta_bytes(ms[0].level, ms[0]);
        metas_bytes_first(ms);
        meta_roundtrip(before, ms[0], metas_bytes(rest) + tail);
        assert(before + one + (metas_bytes(rest) + tail) =~= bytes);
        if let Ok(next) = placed(levels, ms[0], true) {
            assert forall|i: int| 0 <= i < rest.len() implies meta_fits(#[trigger] rest[i]) by {
                assert(rest[i] == ms[i + 1]);
            }
            decode_past_metas(before + one, next, rest, tail);
            assert((before + one) + metas_bytes(rest) + tail =~= bytes);
        }
    }
}

proof fn decode_of_metas(before: Seq<u8>, levels: Seq<Seq<MetaView>>, ms: Seq<MetaView>)
    requires
        forall|i: int| 0 <= i < ms.len() ==> meta_fits(#[trigger] ms[i]),
    ensures
        decoded_from(before + metas_bytes(ms), before.len(), levels, Set::empty()) == placed_all(
            levels,
            ms,
        ),
{
    decode_past_metas(before, levels, ms, Seq::empty());
    assert(before + metas_bytes(ms) + Seq::<u8>::empty() =~= before + metas_bytes(ms));
}

proof fn placed_all_concat(levels: Seq<Seq<MetaView>>, a: Seq<MetaView>, b: Seq<MetaView>)
    ensures
        placed_all(levels, a + b) == match placed_all(levels, a) {
            Err(e) => Err(e),
            Ok(next) => placed_all(next, b),
        },
    decreases a.len(),
{
    if a.len() == 0 {
        assert(a + b =~= b);
    } else {
        assert((a + b)[0] == a[0]);
        assert((a + b).skip(1) =~= a.skip(1) + b);
        if let Ok(next) = placed(levels, a[0], true) {
            placed_all_concat(next, a.skip(1), b);
        }
    }
}

/// The levels up to the last one that has tables.
pub open spec fn trimmed(levels: Seq<Seq<MetaView>>) -> Seq<Seq<MetaView>>
    decreases levels.len(),
{
    if levels.len() == 0 || levels.last().len() > 0 {
        levels
    } else {
        trimmed(levels.drop_last())
    }
}

proof fn trimmed_grows_back(levels: Seq<Seq<MetaView>>, count: nat)
    requires
        count >= levels.len(),
    ensures
        trimmed(levels).len() <= levels.len(),
        grown(trimmed(levels), count) == grown(levels, count),
    decreases levels.len(),
{
    if levels.len() > 0 && levels.last().len() == 0 {
        trimmed_grows_back(levels.drop_last(), count);
        assert(levels.last() =~= Seq::empty());
        assert(grown(levels.drop_last(), count) =~= grown(levels, count));
    }
}

/// Tables of one level put in place one after the other.
proof fn place_level(levels: Seq<Seq<MetaView>>, ms: Seq<MetaView>, n: int)
    requires
        0 < n <= ms.len(),
        levels.len() < usize::MAX,
        forall|j: int| 0 <= j < ms.len() ==> (#[trigger] ms[j]).level == levels.len(),
        seqs_ascend(ms),
    ensures
        placed_all(trimmed(levels), ms.take(n)) == Ok::<Seq<Seq<MetaView>>, ErrorView>(
            levels.push(ms.take(n)),
        ),
    decreases n,
{
    let at = levels.len() as int;
    let m = ms[n - 1];
    let held = ms.take(n - 1);
    assert(m.level == at);
    assert(ms.take(n) =~= held + seq![m]);
    placed_all_concat(trimmed(levels), held, seq![m]);
    reveal_with_fuel(placed_all, 2);
    assert(seq![m].skip(1) =~= Seq::empty());
    trimmed_grows_back(levels, (at + 1) as nat);
    assert(held.push(m) =~= ms.take(n));
    if n == 1 {
        assert(held =~= Seq::empty());
        let wide = grown(trimmed(levels), (at + 1) as nat);
        assert(wide =~= levels.push(Seq::empty()));
        assert(wide.update(at, wide[at].push(m)) =~= levels.push(ms.take(n)));
    } else {
        place_level(levels, ms, n - 1);
        let wide = levels.push(held);
        assert(grown(wide, (at + 1) as nat) == wide);
        assert(wide[at].last() == ms[n - 2]);
        assert(ms[n - 2].seq < ms[n - 1].seq);
        assert(wide.update(at, wide[at].push(m)) =~= levels.push(ms.take(n)));
    }
}

proof fn place_levels(levels: Seq<Seq<MetaView>>)
    requires
        manifest_ordered(levels),
        levels.len() <= usize::MAX,
    ensures
        placed_all(Seq::empty(), all_metas(levels)) == Ok::<Seq<Seq<MetaView>>, ErrorView>(
            trimmed(levels),
        ),
    decreases levels.len(),
{
    if levels.len() == 0 {
        assert(levels =~= Seq::empty());
    } else {
        let rest = levels.drop_last();
        let ms = levels.last();
        ordered_rest(levels);
        place_levels(rest);
        placed_all_concat(Seq::empty(), all_metas(rest), ms);
        if ms.len() > 0 {
            assert forall|j: int| 0 <= j < ms.len() implies (#[trigger] ms[j]).level
                == rest.len() by {
                assert(levels[levels.len() - 1][j].level == levels.len() - 1);
            }
            assert(seqs_ascend(levels[levels.len() - 1]));
            place_level(rest, ms, ms.len() as int);
            assert(ms.take(ms.len() as int) =~= ms);
            assert(rest.push(ms) =~= levels);
        }
    }
}

/// Reading a stored manifest gives back its levels, up to the last one that has
/// tables: empty levels behind it are not stored.
pub proof fn manifest_roundtrip(levels: Seq<Seq<MetaView>>)
    requires
        manifest_ordered(levels),
        manifest_fits(levels),
        levels.len() <= usize::MAX,
    ensures
        decoded(encoded(levels), Set::empty()) == Ok::<Seq<Seq<MetaView>>, ErrorView>(
            trimmed(levels),
        ),
{
    let ms = all_metas(levels);
    let bytes = encoded(levels);
    assert(bytes.subrange(0, 13) =~= MAGIC_MANIFEST@);
    levels_bytes_is(levels);
    metas_fit(levels);
    decode_of_metas(MAGIC_MANIFEST@, Seq::empty(), ms);
    place_levels(levels);
}

proof fn metas_fit(levels: Seq<Seq<MetaView>>)
    requires
        manifest_fits(levels),
    ensures
        forall|k: int|
            0 <= k < all_metas(levels).len() ==> meta_fits(#[trigger] all_metas(levels)[k]),
    decreases levels.len(),
{
    if levels.len() > 0 {
        let rest = levels.drop_last();
        let last = levels.len() - 1;
        assert forall|i: int, j: int| 0 <= i < rest.len() && 0 <= j < rest[i].len() implies meta_fits(
            #[trigger] rest[i][j],
        ) by {
            assert(rest[i][j] == levels[i][j]);
        }
        metas_fit(rest);
        let all = all_metas(levels);
        assert forall|k: int| 0 <= k < all.len() implies meta_fits(#[trigger] all[k]) by {
            if k < all_metas(rest).len() {
                assert(all[k] == all_metas(rest)[k]);
            } else {
                assert(all[k] == levels[last][k - all_metas(rest).len()]);
            }
        }
    }
}

/// Where a table of this sequence number goes in a level that is in order: after
/// the last smaller one.
pub open spec fn place_in(metas: Seq<MetaView>, seq: u64) -> int
    decreases metas.len(),
{
    if metas.len() == 0 {
        0
    } else if metas.last().seq < seq {
        metas.len() as int
    } else {
        place_in(metas.drop_last(), seq)
    }
}

/// In a level that is in order there is one place for a sequence number.
pub proof fn place_is(metas: Seq<MetaView>, seq: u64, pos: int)
    requires
        seqs_ordered(metas),
        place_for(metas, seq, pos),
    ensures
        pos == place_in(metas, seq),
    decreases metas.len(),
{
    if metas.len() > 0 {
        let rest = metas.drop_last();
        if metas.last().seq < seq {
            assert(metas[metas.len() - 1].seq < seq);
        } else {
            assert(pos < metas.len()) by {
                if pos == metas.len() {
                    assert(metas[metas.len() - 1].seq < seq);
                }
            }
            assert(seqs_ordered(rest)) by {
                assert forall|i: int, j: int| 0 <= i < j < rest.len() implies rest[i].seq
                    <= rest[j].seq by {
                    assert(rest[i] == metas[i] && rest[j] == metas[j]);
                }
            }
            assert(place_for(rest, seq, pos)) by {
                assert forall|i: int| 0 <= i < pos implies (#[trigger] rest[i]).seq < seq by {
                    assert(rest[i] == metas[i]);
                }
                assert forall|i: int| pos <= i < rest.len() implies (#[trigger] rest[i]).seq
                    >= seq by {
                    assert(rest[i] == metas[i]);
                }
            }
            place_is(rest, seq, pos);
        }
    }
}

/// The tables of a level under the number `level`, each put in its place in
/// turn.
pub open spec fn sorted_level(metas: Seq<MetaView>, level: u32) -> Seq<MetaView>
    decreases metas.len(),
{
    if metas.len() == 0 {
        Seq::empty()
    } else {
        let before = sorted_level(metas.drop_last(), level);
        let m = MetaView { level, ..metas.last() };
        before.insert(place_in(before, m.seq), m)
    }
}

/// The place of a sequence number in a level that is in order is one between
/// the smaller ones and the others.
pub proof fn place_in_fits(metas: Seq<MetaView>, seq: u64)
    requires
        seqs_ordered(metas),
    ensures
        place_for(metas, seq, place_in(metas, seq)),
    decreases metas.len(),
{
    if metas.len() > 0 {
        let rest = metas.drop_last();
        let pos = place_in(metas, seq);
        assert(seqs_ordered(rest)) by {
            assert forall|i: int, j: int| 0 <= i < j < rest.len() implies rest[i].seq
                <= rest[j].seq by {
                assert(rest[i] == metas[i] && rest[j] == metas[j]);
            }
        }
        place_in_fits(rest, seq);
        let last = metas.len() - 1;
        if metas.last().seq < seq {
            assert forall|i: int| 0 <= i < pos implies (#[trigger] metas[i]).seq < seq by {
                if i < last {
                    assert(metas[i].seq <= metas[last].seq);
                }
            }
        } else {
            assert forall|i: int| 0 <= i < pos implies (#[trigger] metas[i]).seq < seq by {
                assert(rest[i] == metas[i]);
            }
            assert forall|i: int| pos <= i < metas.len() implies (#[trigger] metas[i]).seq
                >= seq by {
                if i < last {
                    assert(rest[i] == metas[i]);
                }
            }
        }
    }
}

/// Putting each table in its place gives a level in order.
pub proof fn sorted_level_ordered(metas: Seq<MetaView>, level: u32)
    ensures
        seqs_ordered(sorted_level(metas, level)),
        sorted_level(metas, level).len() == metas.len(),
    decreases metas.len(),
{
    if metas.len() > 0 {
        let before = sorted_level(metas.drop_last(), level);
        let m = MetaView { level, ..metas.last() };
        sorted_level_ordered(metas.drop_last(), level);
        place_in_fits(before, m.seq);
        add_keeps_order(before, m, place_in(before, m.seq));
    }
}

/// A level whose sequence numbers ascend and whose tables have its number is
/// left as it is.
pub proof fn sorted_level_same(metas: Seq<MetaView>, level: u32)
    requires
        seqs_ascend(metas),
        forall|i: int| 0 <= i < metas.len() ==> (#[trigger] metas[i]).level == level,
    ensures
        sorted_level(metas, level) == metas,
    decreases metas.len(),
{
    if metas.len() > 0 {
        let rest = metas.drop_last();
        assert forall|i: int, j: int| 0 <= i < j < rest.len() implies rest[i].seq
            < rest[j].seq by {
            assert(rest[i] == metas[i] && rest[j] == metas[j]);
        }
        assert forall|i: int| 0 <= i < rest.len() implies (#[trigger] rest[i]).level == level by {
            assert(rest[i] == metas[i]);
        }
        sorted_level_same(rest, level);
        let last = metas.len() - 1;
        assert(metas[last].level == level);
        if rest.len() > 0 {
            assert(metas[last - 1].seq < metas[last].seq);
        }
        assert(rest.insert(last, metas.last()) =~= metas);
    }
}

/// The levels of a manifest that lists the tables of `levels`: each level in
/// order and under its own number, up to the last one that has tables.
pub open spec fn listed(levels: Seq<Seq<MetaView>>) -> Seq<Seq<MetaView>> {
    trimmed(Seq::new(levels.len(), |i: int| sorted_level(levels[i], i as u32)))
}

/// The manifest that lists the tables of `levels`.
pub fn manifest_of(levels: &Vec<Vec<SstMeta>>) -> (manifest: Manifest)
    requires
        levels@.len() <= 0x1_0000_0000,
    ensures
        manifest@ == listed(level_views(levels@)),
{
    let ghost all = level_views(levels@);
    let ghost sorted = Seq::new(all.len(), |i: int| sorted_level(all[i], i as u32));
    let mut manifest: Manifest = Manifest::new();
    let mut i: usize = 0;
    proof {
        assert(sorted.take(0) =~= Seq::empty());
        assert(manifest@ =~= trimmed(sorted.take(0)));
    }
    while i < levels.len()
        invariant
            i <= levels@.len() <= 0x1_0000_0000,
            all == level_views(levels@),
            sorted == Seq::new(all.len(), |i: int| sorted_level(all[i], i as u32)),
            manifest@ == trimmed(sorted.take(i as int)),
        decreases levels.len() - i,
    {
        let metas = &levels[i];
        let ghost ms = all[i as int];
        let ghost held = sorted.take(i as int);
        let level: u32 = i as u32;
        let mut j: usize = 0;
        assert(ms == meta_views(metas@));
        while j < metas.len()
            invariant
                i < levels@.len() <= 0x1_0000_0000,
                j <= metas@.len(),
                ms == meta_views(metas@),
                level == i,
                level < usize::MAX,
                held.len() == i,
                manifest@ == if j == 0 {
                    trimmed(held)
                } else {
                    held.push(sorted_level(ms.take(j as int), level))
                },
            decreases metas.len() - j,
        {
            let ghost before = manifest@;
            let ghost part = sorted_level(ms.take(j as int), level);
            let mut meta: SstMeta = metas[j].copy();
            meta.level = level;
            let ghost m = meta@;
            proof {
                trimmed_grows_back(held, (i + 1) as nat);
                sorted_level_ordered(ms.take(j as int), level);
                assert(ms.take(j + 1).drop_last() =~= ms.take(j as int));
                assert(ms.take(j + 1).last() == metas@[j as int]@);
                if j == 0 {
                    assert(part =~= Seq::empty());
                    assert(grown(held, (i + 1) as nat) =~= held.push(part));
                }
                assert(grown(before, level as nat + 1) == held.push(part));
            }
            manifest.add(meta);
            proof {
                let pos = choose|pos: int| #[trigger]
                    place_for(grown(before, level as nat + 1)[level as int], m.seq, pos)
                        && manifest@ == with_meta(before, m, pos);
                place_is(part, m.seq, pos);
                assert(manifest@ =~= held.push(sorted_level(ms.take(j + 1), level)));
            }
            j = j + 1;
        }
        proof {
            assert(ms.take(j as int) =~= ms);
            let next = sorted.take(i + 1);
            assert(next.drop_last() =~= held);
            sorted_level_ordered(ms, level);
            assert(next =~= held.push(sorted_level(ms, level)));
        }
        i = i + 1;
    }
    proof {
        assert(sorted.take(i as int) =~= sorted);
    }
    manifest
}

proof fn meta_read_fits(bytes: Seq<u8>, offset: nat)
    requires
        offset <= bytes.len(),
        meta_at(bytes, offset) is Ok,
    ensures
        meta_fits(meta_at(bytes, offset)->Ok_0.0),
{
    utils::le_limits();
    assert forall|at: nat| (#[trigger] utils::number_at(bytes, at, 4)) is Ok implies utils::number_at(
        bytes,
        at,
        4,
    )->Ok_0 <= u32::MAX by {
        utils::le_value_bound(bytes.subrange(at as int, (at + 4) as int));
    }
    let name = field_at(bytes, offset + 12, "sst name"@)->Ok_0.0;
    decode_utf8_encode_utf8(name);
}

proof fn placed_keeps_form(levels: Seq<Seq<MetaView>>, meta: MetaView, room: bool)
    requires
        manifest_ordered(levels),
        manifest_fits(levels),
        levels.len() <= 0x1_0000_0000,
        meta_fits(meta),
        placed(levels, meta, room) is Ok,
    ensures
        manifest_ordered(placed(levels, meta, room)->Ok_0),
        manifest_fits(placed(levels, meta, room)->Ok_0),
        placed(levels, meta, room)->Ok_0.len() <= 0x1_0000_0000,
{
    let at = meta.level as int;
    let wide = grown(levels, meta.level as nat + 1);
    let next = placed(levels, meta, room)->Ok_0;
    assert forall|i: int| 0 <= i < wide.len() implies #[trigger] wide[i] == if i < levels.len() {
        levels[i]
    } else {
        Seq::empty()
    } by {}
    assert forall|i: int, j: int| 0 <= i < next.len() && 0 <= j < next[i].len() implies (
    #[trigger] next[i][j]).level == i && meta_fits(next[i][j]) by {
        if i != at || j < wide[at].len() {
            assert(next[i][j] == wide[i][j]);
            assert(wide[i][j] == levels[i][j]);
        }
    }
    assert forall|i: int| 0 <= i < next.len() implies seqs_ascend(#[trigger] next[i]) by {
        if i < levels.len() {
            assert(seqs_ascend(levels[i]));
        }
        if i == at {
            assert forall|a: int, b: int| 0 <= a < b < next[at].len() implies next[at][a].seq
                < next[at][b].seq by {
                assert(next[at][a] == wide[at][a]);
                if b < wide[at].len() {
                    assert(next[at][b] == wide[at][b]);
                } else {
                    assert(wide[at].last() == wide[at][wide[at].len() - 1]);
                }
            }
        }
    }
}

proof fn decoded_from_form(
    bytes: Seq<u8>,
    offset: nat,
    levels: Seq<Seq<MetaView>>,
    refused: Set<nat>,
)
    requires
        offset <= bytes.len(),
        manifest_ordered(levels),
        manifest_fits(levels),
        levels.len() <= 0x1_0000_0000,
        decoded_from(bytes, offset, levels, refused) is Ok,
    ensures
        manifest_ordered(decoded_from(bytes, offset, levels, refused)->Ok_0),
        manifest_fits(decoded_from(bytes, offset, levels, refused)->Ok_0),
        decoded_from(bytes, offset, levels, refused)->Ok_0.len() <= 0x1_0000_0000,
    decreases bytes.len() - offset,
{
    if offset < bytes.len() {
        let (meta, end) = meta_at(bytes, offset)->Ok_0;
        let room = !refused.contains(meta.level as nat + 1);
        meta_read_fits(bytes, offset);
        placed_keeps_form(levels, meta, room);
        decoded_from_form(bytes, end, placed(levels, meta, room)->Ok_0, refused);
    }
}

/// Every manifest that is read has each table at its own level, ascending
/// sequence numbers, and can be stored again.
pub proof fn decoded_form(bytes: Seq<u8>, refused: Set<nat>)
    requires
        decoded(bytes, refused) is Ok,
    ensures
        manifest_ordered(decoded(bytes, refused)->Ok_0),
        manifest_fits(decoded(bytes, refused)->Ok_0),
        decoded(bytes, refused)->Ok_0.len() <= 0x1_0000_0000,
{
    decoded_from_form(bytes, 13, Seq::empty(), refused);
}

} // verus!
