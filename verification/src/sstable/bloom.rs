//! The bloom filter block of a table: seeded construction, storage as
//! `[num_hashes u32][words u64 x N]` in little-endian order, and
//! reconstruction from the stored words.

use crate::error::{ErrorView, LsmError, Outcome, Result};
use crate::text::{append_decimal, decimal};
use crate::utils;
use fastbloom::BloomFilter;
use vstd::prelude::*;

verus! {

/// The seed of every filter's hasher. A filter can be rebuilt from its words
/// only under the seed it was filled with, so this value is part of the file
/// format.
pub const BLOOM_SEED: u128 = 0x4C53_4D54_5245_4531_0000_0000_0000_0001;

/// The most hashes per key that a stored filter may declare. Filters of the
/// sizes in use need far fewer; the bound keeps a damaged block from making
/// every probe loop for billions of rounds.
pub const MAX_NUM_HASHES: u32 = 255;

/// A bloom filter over keys.
#[verifier::external_body]
#[derive(Debug)]
pub struct Bloom {
    filter: BloomFilter,
}

/// The bit words of a filter.
pub uninterp spec fn bloom_words(b: Bloom) -> Seq<u64>;

/// How many bits of a filter each key sets.
pub uninterp spec fn bloom_hashes(b: Bloom) -> u32;

/// The seed that a filter's hasher was made with.
pub uninterp spec fn bloom_seed(b: Bloom) -> u128;

/// The bits that each key sets in a filter, numbered from the lowest bit of the
/// first word on.
pub uninterp spec fn bloom_bits(b: Bloom) -> Map<Seq<u8>, Set<nat>>;

/// Whether the bit number `n` of `words` is set.
pub open spec fn bit_is_set(words: Seq<u64>, n: nat) -> bool {
    n / 64 < words.len() && (words[(n / 64) as int] >> ((n % 64) as u64)) & 1 == 1
}

/// The bits of `words` that are set.
pub open spec fn set_bits(words: Seq<u64>) -> Set<nat> {
    Set::new(|n: nat| bit_is_set(words, n))
}

/// The keys that a filter reports as possibly present, which are those whose bits
/// are all set: every inserted key, and whatever other keys happen to share their
/// bits.
pub open spec fn bloom_keys(b: Bloom) -> Set<Seq<u8>> {
    Set::new(|key: Seq<u8>| bloom_bits(b)[key].subset_of(set_bits(bloom_words(b))))
}

/// Whether two filters have as many words, the same hash count and the same seed.
pub open spec fn bloom_alike(a: Bloom, b: Bloom) -> bool {
    bloom_words(a).len() == bloom_words(b).len() && bloom_hashes(a) == bloom_hashes(b)
        && bloom_seed(a) == bloom_seed(b)
}

/// Whether every key sets the same bits in every filter with as many words, the
/// same hash count and the same seed as `b`.
pub open spec fn bloom_determined(b: Bloom) -> bool {
    forall|other: Bloom| #[trigger] bloom_alike(other, b) ==> bloom_bits(other) == bloom_bits(b)
}

/// Whether every key sets at least one bit, and none outside the words.
pub open spec fn bloom_bits_fit(b: Bloom) -> bool {
    forall|key: Seq<u8>|
        {
            &&& #[trigger] bloom_bits(b)[key] != Set::<nat>::empty()
            &&& forall|n: nat|
                bloom_bits(b)[key].contains(n) ==> n < 64 * bloom_words(b).len()
        }
}

/// Whether a filter is one that a table can hold: made with the format's seed,
/// with at least one word, no more bits than can be counted, and a plausible
/// hash count.
pub open spec fn bloom_sound(b: Bloom) -> bool {
    &&& bloom_seed(b) == BLOOM_SEED
    &&& 1 <= bloom_words(b).len() <= usize::MAX / 64
    &&& 1 <= bloom_hashes(b) <= MAX_NUM_HASHES
}

/// The seed of a table's filter is a fixed number, and its hash count is at least 1 and
/// at most 255, so that every table can be read by every build of the engine.
pub proof fn filter_format_is_fixed(b: Bloom)
    requires
        bloom_sound(b),
    ensures
        bloom_seed(b) == 0x4C53_4D54_5245_4531_0000_0000_0000_0001u128,
        1 <= bloom_hashes(b) <= 255,
        bloom_words(b).len() >= 1,
{
}

/// Makes a filter from its words with `fastbloom::BloomFilter::from_vec`, then
/// `seed` and `hashes` of the builder it returns. Claims: the filter has the
/// given words, seed and hash count (at least one word and one hash, else
/// `from_vec` panics or `hashes` puts one in place of zero); which bits a key sets
/// in it depends on the number of its words, the hash count and the seed alone,
/// since the hasher is built from the seed (the hasher also takes in the key's
/// length as a machine word, so this holds among filters on one machine); and
/// every key has at least one bit, all of them within the words. The number of bits
/// must fit in `usize`, in which they are counted.
#[verifier::external_body]
fn filter_of_words(words: Vec<u64>, num_hashes: u32, seed: u128) -> (b: Bloom)
    requires
        0 < words@.len() <= usize::MAX / 64,
        num_hashes > 0,
    ensures
        bloom_words(b) == words@,
        bloom_hashes(b) == num_hashes,
        bloom_seed(b) == seed,
        bloom_determined(b),
        bloom_bits_fit(b),
{
    Bloom { filter: BloomFilter::from_vec(words).seed(&seed).hashes(num_hashes) }
}

/// Adds a key with `fastbloom::BloomFilter::insert`. Claims: the bits of the key
/// are set from then on, and of the other bits those that were set before; the
/// number of words, the hash count, the seed and the bits of every key stay; the
/// result says whether the key was reported before. The number of bits must fit in
/// `usize`, in which `insert` counts them.
#[verifier::external_body]
fn filter_insert(b: &mut Bloom, key: &[u8]) -> (was_reported: bool)
    requires
        0 < bloom_words(*old(b)).len() <= usize::MAX / 64,
    ensures
        set_bits(bloom_words(*final(b))) == set_bits(bloom_words(*old(b))).union(
            bloom_bits(*old(b))[key@],
        ),
        bloom_bits(*final(b)) == bloom_bits(*old(b)),
        bloom_words(*final(b)).len() == bloom_words(*old(b)).len(),
        bloom_hashes(*final(b)) == bloom_hashes(*old(b)),
        bloom_seed(*final(b)) == bloom_seed(*old(b)),
        was_reported == bloom_keys(*old(b)).contains(key@),
{
    b.filter.insert(key)
}

/// Asks for a key with `fastbloom::BloomFilter::contains`. Claims: the answer
/// says whether the bits of the key are all set. The number of bits must fit in
/// `usize`, in which `contains` counts them.
#[verifier::external_body]
fn filter_contains(b: &Bloom, key: &[u8]) -> (reported: bool)
    requires
        0 < bloom_words(*b).len() <= usize::MAX / 64,
    ensures
        reported == bloom_keys(*b).contains(key@),
{
    b.filter.contains(key)
}

/// Lists the words with `fastbloom::BloomFilter::iter`. Claims: they come out in
/// their order, all of them.
#[verifier::external_body]
fn filter_words(b: &Bloom) -> (words: Vec<u64>)
    ensures
        words@ == bloom_words(*b),
{
    b.filter.iter().collect()
}

/// Reads the hash count with `fastbloom::BloomFilter::num_hashes`. Claims: it is
/// the count that the filter was made with.
#[verifier::external_body]
fn filter_num_hashes(b: &Bloom) -> (n: u32)
    ensures
        n == bloom_hashes(*b),
{
    b.filter.num_hashes()
}

/// The size of a filter to be made: how many words of bits it has and how many
/// of its bits each key sets.
#[derive(Clone, Copy, Debug, PartialEq, Eq, Structural)]
pub struct BloomSizing {
    num_words: usize,
    num_hashes: u32,
}

impl BloomSizing {
    pub closed spec fn words(&self) -> nat {
        self.num_words as nat
    }

    pub closed spec fn hashes(&self) -> u32 {
        self.num_hashes
    }

    /// Whether a table can hold a filter of this size.
    pub open spec fn valid(&self) -> bool {
        1 <= self.words() <= usize::MAX / 64 && 1 <= self.hashes() <= MAX_NUM_HASHES
    }

    /// A size of `num_words` words and `num_hashes` hashes per key. `None` if a
    /// table cannot hold such a filter.
    pub fn new(num_words: usize, num_hashes: u32) -> (r: Option<BloomSizing>)
        ensures
            r is Some <==> 1 <= num_words <= usize::MAX / 64 && 1 <= num_hashes <= MAX_NUM_HASHES,
            r is Some <==> 1 <= num_words <= usize::MAX / 64 && 1 <= num_hashes <= 255,
            r matches Some(s) ==> s.valid() && s.words() == num_words && s.hashes() == num_hashes,
    {
        if num_words == 0 || num_words > usize::MAX / 64 || num_hashes == 0 || num_hashes
            > MAX_NUM_HASHES {
            None
        } else {
            Some(BloomSizing { num_words, num_hashes })
        }
    }
}

/// An empty filter of the given size under the format's seed.
pub fn new_bloom(sizing: BloomSizing) -> (b: Bloom)
    requires
        sizing.valid(),
    ensures
        bloom_sound(b),
        bloom_determined(b),
        bloom_words(b) == Seq::new(sizing.words(), |i: int| 0u64),
        set_bits(bloom_words(b)) == Set::<nat>::empty(),
        bloom_keys(b) == Set::<Seq<u8>>::empty(),
        bloom_hashes(b) == sizing.hashes(),
{
    let mut words: Vec<u64> = Vec::new();
    while words.len() < sizing.num_words
        invariant
            words@.len() <= sizing.num_words,
            words@ == Seq::new(words@.len(), |i: int| 0u64),
        decreases sizing.num_words - words.len(),
    {
        words.push(0);
    }
    let b: Bloom = filter_of_words(words, sizing.num_hashes, BLOOM_SEED);
    proof {
        let on = set_bits(bloom_words(b));
        assert forall|n: nat| !on.contains(n) by {
            let shift = (n % 64) as u64;
            assert((0u64 >> shift) & 1 == 0) by (bit_vector);
        }
        assert(on =~= Set::empty());
        assert forall|key: Seq<u8>| !bloom_keys(b).contains(key) by {
            assert(bloom_bits(b)[key] != Set::<nat>::empty());
            if bloom_bits(b)[key].subset_of(on) {
                assert(bloom_bits(b)[key] =~= Set::empty());
            }
        }
        assert(bloom_keys(b) =~= Set::empty());
    }
    b
}

/// The bits that a sequence of keys sets.
pub open spec fn bits_of_keys(bits: Map<Seq<u8>, Set<nat>>, keys: Seq<Seq<u8>>) -> Set<nat>
    decreases keys.len(),
{
    if keys.len() == 0 {
        Set::empty()
    } else {
        bits_of_keys(bits, keys.drop_last()).union(bits[keys.last()])
    }
}

proof fn bits_of_keys_cover(bits: Map<Seq<u8>, Set<nat>>, keys: Seq<Seq<u8>>, i: int)
    requires
        0 <= i < keys.len(),
    ensures
        bits[keys[i]].subset_of(bits_of_keys(bits, keys)),
    decreases keys.len(),
{
    if i < keys.len() - 1 {
        bits_of_keys_cover(bits, keys.drop_last(), i);
        assert(keys.drop_last()[i] == keys[i]);
    }
}

/// A filter whose bits are those of some keys reports every one of them: it never
/// gives a false negative.
pub proof fn filled_bloom_reports(b: Bloom, keys: Seq<Seq<u8>>, i: int)
    requires
        set_bits(bloom_words(b)) == bits_of_keys(bloom_bits(b), keys),
        0 <= i < keys.len(),
    ensures
        bloom_keys(b).contains(keys[i]),
{
    bits_of_keys_cover(bloom_bits(b), keys, i);
}

impl Bloom {
    /// Adds a key: its bits are set, and no other bit changes.
    pub fn insert(&mut self, key: &[u8])
        requires
            bloom_sound(*old(self)),
        ensures
            bloom_sound(*final(self)),
            set_bits(bloom_words(*final(self))) == set_bits(bloom_words(*old(self))).union(
                bloom_bits(*old(self))[key@],
            ),
            bloom_bits(*final(self)) == bloom_bits(*old(self)),
            bloom_keys(*old(self)).insert(key@).subset_of(bloom_keys(*final(self))),
            bloom_words(*final(self)).len() == bloom_words(*old(self)).len(),
            bloom_hashes(*final(self)) == bloom_hashes(*old(self)),
    {
        let _ = filter_insert(self, key);
    }

    /// Whether a key is possibly present; `false` proves that it was never
    /// added.
    pub fn contains(&self, key: &[u8]) -> (reported: bool)
        requires
            bloom_sound(*self),
        ensures
            reported == bloom_keys(*self).contains(key@),
    {
        filter_contains(self, key)
    }

    /// How many bits each key sets.
    pub fn num_hashes(&self) -> (n: u32)
        ensures
            n == bloom_hashes(*self),
    {
        filter_num_hashes(self)
    }

    /// The bit words, in order.
    pub fn words(&self) -> (words: Vec<u64>)
        ensures
            words@ == bloom_words(*self),
    {
        filter_words(self)
    }
}

/// Words as they are stored.
pub open spec fn word_bytes(words: Seq<u64>) -> Seq<u8>
    decreases words.len(),
{
    if words.len() == 0 {
        Seq::empty()
    } else {
        word_bytes(words.drop_last()) + utils::le_bytes(words.last() as nat, 8)
    }
}

/// A filter as it is stored.
pub open spec fn bloom_bytes(words: Seq<u64>, num_hashes: u32) -> Seq<u8> {
    utils::le_bytes(num_hashes as nat, 4) + word_bytes(words)
}

pub open spec fn bloom_length_text(len: nat) -> Seq<char> {
    "bloom block length "@ + decimal(len) + " is not 4 + a multiple of 8"@
}

pub open spec fn bloom_hashes_text(num_hashes: nat) -> Seq<char> {
    "bloom block declares implausible hash count "@ + decimal(num_hashes)
}

/// The words that stored bytes hold.
pub open spec fn words_in(bytes: Seq<u8>) -> Seq<u64> {
    Seq::new(
        bytes.len() / 8,
        |i: int| utils::le_value(bytes.subrange(8 * i, 8 * i + 8)) as u64,
    )
}

/// The words and the hash count that a stored filter holds.
pub open spec fn bloom_parts(bytes: Seq<u8>) -> Outcome<(Seq<u64>, nat)> {
    if bytes.len() < 4 || (bytes.len() - 4) % 8 != 0 {
        Err(ErrorView::Corruption(bloom_length_text(bytes.len())))
    } else {
        let num_hashes = utils::le_value(bytes.subrange(0, 4));
        if num_hashes == 0 || num_hashes > MAX_NUM_HASHES {
            Err(ErrorView::Corruption(bloom_hashes_text(num_hashes)))
        } else if bytes.len() == 4 {
            Err(ErrorView::Corruption("bloom block has no data words"@))
        } else {
            Ok((words_in(bytes.skip(4)), num_hashes))
        }
    }
}

/// A bloom block is accepted exactly if it has a hash count from 1 to 255 and, behind
/// its four bytes, at least one word of eight bytes and no part of one. Each word is the
/// number of its eight bytes, low byte first.
pub proof fn bloom_block_limits(bytes: Seq<u8>)
    ensures
        bloom_parts(bytes) is Ok <==> {
            let num_hashes = utils::le_value(bytes.subrange(0, 4));
            &&& bytes.len() >= 12
            &&& bytes.len() % 8 == 4
            &&& 1 <= num_hashes <= 255
        },
        bloom_parts(bytes) matches Ok((words, num_hashes)) ==> {
            &&& num_hashes == utils::le_value(bytes.subrange(0, 4))
            &&& 8 * words.len() == bytes.len() - 4
            &&& forall|i: int|
                0 <= i < words.len() ==> #[trigger] words[i] == utils::le_value(
                    bytes.subrange(4 + 8 * i, 12 + 8 * i),
                )
        },
{
    if bytes.len() >= 4 {
        let rest = bytes.skip(4);
        let words = words_in(rest);
        assert forall|i: int| 0 <= i < words.len() implies #[trigger] words[i]
            == utils::le_value(bytes.subrange(4 + 8 * i, 12 + 8 * i)) by {
            let part = rest.subrange(8 * i, 8 * i + 8);
            assert(part =~= bytes.subrange(4 + 8 * i, 12 + 8 * i));
            utils::le_limits();
            utils::le_value_bound(part);
        }
    }
}

/// Whether `b` is the filter that the stored `bytes` hold.
pub open spec fn bloom_stored(bytes: Seq<u8>, b: Bloom) -> bool {
    &&& bloom_parts(bytes) == Ok::<(Seq<u64>, nat), ErrorView>(
        (bloom_words(b), bloom_hashes(b) as nat),
    )
    &&& bloom_sound(b)
    &&& bloom_determined(b)
}

proof fn word_bytes_at(words: Seq<u64>)
    ensures
        word_bytes(words).len() == 8 * words.len(),
        forall|i: int|
            0 <= i < words.len() ==> word_bytes(words).subrange(8 * i, 8 * i + 8)
                == utils::le_bytes(#[trigger] words[i] as nat, 8),
    decreases words.len(),
{
    if words.len() > 0 {
        let rest = words.drop_last();
        word_bytes_at(rest);
        utils::le_bytes_len(words.last() as nat, 8);
        assert forall|i: int| 0 <= i < words.len() implies word_bytes(words).subrange(
            8 * i,
            8 * i + 8,
        ) == utils::le_bytes(#[trigger] words[i] as nat, 8) by {
            if i < rest.len() {
                assert(rest[i] == words[i]);
                assert(word_bytes(words).subrange(8 * i, 8 * i + 8) =~= word_bytes(rest).subrange(
                    8 * i,
                    8 * i + 8,
                ));
            } else {
                assert(word_bytes(words).subrange(8 * i, 8 * i + 8) =~= utils::le_bytes(
                    words[i] as nat,
                    8,
                ));
            }
        }
    }
}

/// Reading a stored filter gives back its words and hash count.
pub proof fn bloom_roundtrip(words: Seq<u64>, num_hashes: u32)
    requires
        words.len() > 0,
        1 <= num_hashes <= MAX_NUM_HASHES,
    ensures
        bloom_bytes(words, num_hashes).len() == 4 + 8 * words.len(),
        bloom_parts(bloom_bytes(words, num_hashes)) == Ok::<(Seq<u64>, nat), ErrorView>(
            (words, num_hashes as nat),
        ),
{
    let bytes = bloom_bytes(words, num_hashes);
    word_bytes_at(words);
    utils::le_limits();
    utils::le_bytes_len(num_hashes as nat, 4);
    utils::le_roundtrip(num_hashes as nat, 4);
    assert(bytes.subrange(0, 4) =~= utils::le_bytes(num_hashes as nat, 4));
    assert(bytes.skip(4) =~= word_bytes(words));
    assert forall|i: int| 0 <= i < words.len() implies #[trigger] words_in(bytes.skip(4))[i]
        == words[i] by {
        utils::le_roundtrip(words[i] as nat, 8);
    }
    assert(words_in(bytes.skip(4)) =~= words);
}

/// A filter read back from its stored form reports the same keys: no key that
/// was added is ever lost by storing the filter.
pub proof fn stored_bloom_keeps_keys(b: Bloom, back: Bloom)
    requires
        bloom_sound(b),
        bloom_stored(bloom_bytes(bloom_words(b), bloom_hashes(b)), back),
    ensures
        bloom_keys(back) == bloom_keys(b),
{
    bloom_roundtrip(bloom_words(b), bloom_hashes(b));
    assert(bloom_alike(b, back));
}

/// Appends the stored form of a filter to `buf`.
pub fn encode_bloom(buf: &mut Vec<u8>, bloom: &Bloom)
    ensures
        final(buf)@ == old(buf)@ + bloom_bytes(bloom_words(*bloom), bloom_hashes(*bloom)),
{
    let ghost before = buf@;
    let ghost head = utils::le_bytes(bloom_hashes(*bloom) as nat, 4);
    utils::put_u32(buf, bloom.num_hashes());
    let words: Vec<u64> = bloom.words();
    let mut i: usize = 0;
    proof {
        assert(buf@ =~= before + head + word_bytes(words@.take(0)));
    }
    while i < words.len()
        invariant
            i <= words.len(),
            words@ == bloom_words(*bloom),
            buf@ == before + head + word_bytes(words@.take(i as int)),
        decreases words.len() - i,
    {
        utils::put_u64(buf, words[i]);
        proof {
            let next = words@.take(i + 1);
            assert(next.drop_last() =~= words@.take(i as int));
            assert(buf@ =~= before + head + word_bytes(next));
        }
        i = i + 1;
    }
    proof {
        assert(words@.take(i as int) =~= words@);
        assert(buf@ =~= before + bloom_bytes(words@, bloom_hashes(*bloom)));
    }
}

/// Decodes a stored filter. `Corruption` if the length is not four and a
/// multiple of eight, if the hash count is zero or over [`MAX_NUM_HASHES`], or
/// if there are no words. The filter's bits must be countable in `usize`.
pub fn decode_bloom(bytes: &[u8]) -> (r: Result<Bloom>)
    requires
        bytes@.len() <= usize::MAX / 8,
    ensures
        match r {
            Ok(b) => bloom_stored(bytes@, b),
            Err(e) => bloom_parts(bytes@) == Err::<(Seq<u64>, nat), ErrorView>(e@),
        },
{
    if bytes.len() < 4 || (bytes.len() - 4) % 8 != 0 {
        let mut s: String = String::from_str("bloom block length ");
        append_decimal(&mut s, bytes.len() as u64);
        s.append(" is not 4 + a multiple of 8");
        return Err(LsmError::Corruption(s));
    }
    let num_hashes: u32 = utils::read_u32(bytes, 0)?;
    if num_hashes == 0 || num_hashes > MAX_NUM_HASHES {
        let mut s: String = String::from_str("bloom block declares implausible hash count ");
        append_decimal(&mut s, num_hashes as u64);
        return Err(LsmError::Corruption(s));
    }
    let num_words: usize = (bytes.len() - 4) / 8;
    if num_words == 0 {
        return Err(LsmError::Corruption(String::from_str("bloom block has no data words")));
    }
    let ghost body = bytes@.skip(4);
    let mut words: Vec<u64> = Vec::new();
    let mut i: usize = 0;
    while i < num_words
        invariant
            i <= num_words,
            num_words <= usize::MAX / 64,
            4 + 8 * num_words == bytes@.len(),
            bytes@.len() <= usize::MAX / 8,
            body == bytes@.skip(4),
            words@ == words_in(body).take(i as int),
        decreases num_words - i,
    {
        proof {
            assert(bytes@.subrange(4 + i * 8, 4 + i * 8 + 8) =~= body.subrange(
                8 * i,
                8 * i + 8,
            ));
        }
        let word: u64 = utils::read_u64(bytes, 4 + i * 8)?;
        words.push(word);
        proof {
            assert(words@ =~= words_in(body).take(i + 1));
        }
        i = i + 1;
    }
    proof {
        assert(words_in(body).take(num_words as int) =~= words_in(body));
    }
    Ok(filter_of_words(words, num_hashes, BLOOM_SEED))
}

} // verus!
