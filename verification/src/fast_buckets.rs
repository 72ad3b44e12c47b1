//! Counters in a single cache line.
//!
//! A [`Cacheline_Counter_Bucket`] is eight words. It holds two `(key, pos)` pairs,
//! the metadata of 64 counters and 160 payload bits that those counters share. It
//! is conceptually two [`Counter_Block`]s, each of which owns one `(key, pos)` pair
//! and 32 of the counters. A block keeps its metadata and its payload at the same
//! offsets as a bucket, and records the lengths of both in its second word, where a
//! bucket has its second pair.
//!
//! The counters are packed as [`crate::packed_counters`] says: a counter takes no
//! payload while it is zero, and the fewest bits that hold it, less one, after that.
use vstd::prelude::*;
use crate::bits::{
    bit, copy_bits, exchange_words, high_half, join, joined, lemma_low_mask, lemma_low_word,
    lemma_words_of, low_bits_mask, low_half, lower, padded, prefix_bits, select_u64, select_words,
    shr_words, upper, word_bits, words_of,
};
use crate::oblivious::ObliviousBlock;
use crate::packed_counters::{
    can_count, count_up, counted, field_of, fields, lemma_fields, lemma_fields_concat,
    lemma_packed_canonical, lemma_packed_unique, locate, packed, payload_end_for_index,
    read_counter, used, Counted, CounterLocation,
};
use crate::packing::{metadata, payload};
use crate::prelude::{PositionType, DUMMY_POS};

verus! {

/// Number of `(key, pos)` pairs in a bucket.
pub const CACHELINE_COUNTER_BUCKET_BLOCKS: usize = 2;

/// Number of `u32` words in those pairs.
pub const CACHELINE_COUNTER_BUCKET_BLOCK_WORDS: usize = 4;

/// Number of counters in a bucket.
pub const CACHELINE_COUNTER_BUCKET_COUNTERS: usize = 64;

/// Number of counters in a block.
pub const CACHELINE_COUNTER_BLOCK_COUNTERS: usize = 32;

/// Number of metadata bits.
pub const CACHELINE_COUNTER_BUCKET_METADATA_BITS: usize = 224;

/// Number of payload bits.
pub const CACHELINE_COUNTER_BUCKET_COUNTER_BITS: usize = 160;

/// Payload bits that a block may use before it stops growing: its half of a bucket.
pub const CACHELINE_COUNTER_BLOCK_COUNTER_BITS: usize = 80;

/// The metadata words of a cache line.
pub open spec fn metadata_part(raw: Seq<u64>) -> Seq<u64> {
    seq![raw[2], raw[3], raw[4], raw[5] & 0xffff_ffff]
}

/// The payload words of a cache line.
pub open spec fn counter_part(raw: Seq<u64>) -> Seq<u64> {
    seq![
        (raw[5] >> 32u64) | (raw[6] << 32u64),
        (raw[6] >> 32u64) | (raw[7] << 32u64),
        raw[7] >> 32u64,
    ]
}

/// Whether a cache line holds the counters `c`.
pub open spec fn line_holds(raw: Seq<u64>, c: Seq<u64>) -> bool {
    &&& packed(metadata_part(raw), counter_part(raw), c)
    &&& used(c) <= CACHELINE_COUNTER_BUCKET_COUNTER_BITS
}

/// The top words of the two parts of a cache line have zero upper halves.
proof fn lemma_part_tops(meta: Seq<u64>, pay: Seq<u64>, c: Seq<u64>)
    requires
        meta.len() == 4,
        pay.len() == 3,
        packed(meta, pay, c),
        c.len() + used(c) <= CACHELINE_COUNTER_BUCKET_METADATA_BITS,
        used(c) <= CACHELINE_COUNTER_BUCKET_COUNTER_BITS,
    ensures
        meta[3] & 0xffff_ffff == meta[3],
        pay[2] & 0xffff_ffff == pay[2],
{
    lemma_fields(c);
    assert forall|j: int| 32 <= j < 64 implies !#[trigger] bit(meta[3], j) by {
        assert(word_bits(meta)[192 + j] == bit(meta[(192 + j) / 64], (192 + j) % 64));
        assert(!padded(metadata(fields(c)), 256)[192 + j]);
    }
    lemma_low_word(meta[3]);
    assert forall|j: int| 32 <= j < 64 implies !#[trigger] bit(pay[2], j) by {
        assert(word_bits(pay)[128 + j] == bit(pay[(128 + j) / 64], (128 + j) % 64));
        assert(!padded(payload(fields(c)), 192)[128 + j]);
    }
    lemma_low_word(pay[2]);
}

/// A cache line is made up of its header and its two parts.
proof fn lemma_line_parts(a: Seq<u64>, b: Seq<u64>)
    requires
        a.len() == 8,
        b.len() == 8,
        a[0] == b[0],
        a[1] == b[1],
        metadata_part(a) == metadata_part(b),
        counter_part(a) == counter_part(b),
    ensures
        a == b,
{
    assert(metadata_part(a)[0] == a[2] && metadata_part(b)[0] == b[2]);
    assert(metadata_part(a)[1] == a[3] && metadata_part(b)[1] == b[3]);
    assert(metadata_part(a)[2] == a[4] && metadata_part(b)[2] == b[4]);
    let (a5, a6, a7, b5, b6, b7) = (a[5], a[6], a[7], b[5], b[6], b[7]);
    assert(metadata_part(a)[3] == a5 & 0xffff_ffff && metadata_part(b)[3] == b5 & 0xffff_ffff);
    assert(counter_part(a)[0] == (a5 >> 32u64) | (a6 << 32u64));
    assert(counter_part(b)[0] == (b5 >> 32u64) | (b6 << 32u64));
    assert(counter_part(a)[1] == (a6 >> 32u64) | (a7 << 32u64));
    assert(counter_part(b)[1] == (b6 >> 32u64) | (b7 << 32u64));
    assert(counter_part(a)[2] == a7 >> 32u64 && counter_part(b)[2] == b7 >> 32u64);
    assert(a5 == b5 && a6 == b6 && a7 == b7) by (bit_vector)
        requires
            a5 & 0xffff_ffff == b5 & 0xffff_ffff,
            (a5 >> 32u64) | (a6 << 32u64) == (b5 >> 32u64) | (b6 << 32u64),
            (a6 >> 32u64) | (a7 << 32u64) == (b6 >> 32u64) | (b7 << 32u64),
            a7 >> 32u64 == b7 >> 32u64,
    ;
    assert forall|i: int| 0 <= i < 8 implies a[i] == b[i] by {
        assert(i == 0 || i == 1 || i == 2 || i == 3 || i == 4 || i == 5 || i == 6 || i == 7);
    }
    assert(a =~= b);
}

/// The cache line with the given header, metadata words and payload words.
pub open spec fn line_of(first: u64, second: u64, meta: Seq<u64>, pay: Seq<u64>) -> [u64; 8] {
    [
        first,
        second,
        meta[0],
        meta[1],
        meta[2],
        (meta[3] & 0xffff_ffff) | (pay[0] << 32u64),
        (pay[0] >> 32u64) | (pay[1] << 32u64),
        (pay[1] >> 32u64) | ((pay[2] & 0xffff_ffff) << 32u64),
    ]
}

/// Three payload words behind half a word of metadata can be read back.
proof fn lemma_pack(five: u64, w0: u64, w1: u64, w2: u64)
    ensures
        ({
            let new5 = (five & 0xffff_ffff) | (w0 << 32u64);
            let new6 = (w0 >> 32u64) | (w1 << 32u64);
            let new7 = (w1 >> 32u64) | ((w2 & 0xffff_ffff) << 32u64);
            &&& (new5 >> 32u64) | (new6 << 32u64) == w0
            &&& (new6 >> 32u64) | (new7 << 32u64) == w1
            &&& new7 >> 32u64 == w2 & 0xffff_ffff
            &&& new5 & 0xffff_ffff == five & 0xffff_ffff
        }),
{
    let new5 = (five & 0xffff_ffff) | (w0 << 32u64);
    let new6 = (w0 >> 32u64) | (w1 << 32u64);
    let new7 = (w1 >> 32u64) | ((w2 & 0xffff_ffff) << 32u64);
    assert((new5 >> 32u64) | (new6 << 32u64) == w0 && (new6 >> 32u64) | (new7 << 32u64) == w1
        && new7 >> 32u64 == w2 & 0xffff_ffff && new5 & 0xffff_ffff == five & 0xffff_ffff)
        by (bit_vector)
        requires
            new5 == (five & 0xffff_ffff) | (w0 << 32u64),
            new6 == (w0 >> 32u64) | (w1 << 32u64),
            new7 == (w1 >> 32u64) | ((w2 & 0xffff_ffff) << 32u64),
    ;
}

/// The cache line that holds the counters `c` under a given header.
pub open spec fn line_with(first: u64, second: u64, c: Seq<u64>) -> [u64; 8] {
    line_of(
        first,
        second,
        words_of(padded(metadata(fields(c)), 256)),
        words_of(padded(payload(fields(c)), 192)),
    )
}

/// A cache line made to hold counters holds them.
proof fn lemma_line_with(first: u64, second: u64, c: Seq<u64>)
    requires
        c.len() + used(c) <= CACHELINE_COUNTER_BUCKET_METADATA_BITS,
        used(c) <= CACHELINE_COUNTER_BUCKET_COUNTER_BITS,
    ensures
        line_holds(line_with(first, second, c)@, c),
        line_with(first, second, c)@[0] == first,
        line_with(first, second, c)@[1] == second,
{
    let meta = words_of(padded(metadata(fields(c)), 256));
    let pay = words_of(padded(payload(fields(c)), 192));
    lemma_fields(c);
    lemma_words_of(padded(metadata(fields(c)), 256));
    lemma_words_of(padded(payload(fields(c)), 192));
    assert(packed(meta, pay, c));
    lemma_part_tops(meta, pay, c);
    lemma_pack(meta[3], pay[0], pay[1], pay[2]);
    let raw = line_with(first, second, c)@;
    assert(metadata_part(raw) =~= meta);
    assert(counter_part(raw) =~= pay);
}

/// The metadata words of a cache line.
fn metadata_of(raw: &[u64; 8]) -> (r: [u64; 4])
    ensures
        r@ == metadata_part(raw@),
{
    [raw[2], raw[3], raw[4], raw[5] & 0xffff_ffff]
}

/// The payload words of a cache line.
fn counters_of(raw: &[u64; 8]) -> (r: [u64; 3])
    ensures
        r@ == counter_part(raw@),
{
    [
        (raw[5] >> 32u64) | (raw[6] << 32u64),
        (raw[6] >> 32u64) | (raw[7] << 32u64),
        raw[7] >> 32u64,
    ]
}

/// Replaces the metadata words of a cache line.
fn store_metadata(raw: &mut [u64; 8], words: [u64; 4])
    ensures
        metadata_part(final(raw)@) == words@.update(3, words@[3] & 0xffff_ffff),
        counter_part(final(raw)@) == counter_part(old(raw)@),
        final(raw)@[0] == old(raw)@[0],
        final(raw)@[1] == old(raw)@[1],
{
    let five: u64 = raw[5];
    let top: u64 = words[3];
    let new: u64 = (five & !0xffff_ffffu64) | (top & 0xffff_ffff);
    raw[2] = words[0];
    raw[3] = words[1];
    raw[4] = words[2];
    raw[5] = new;
    assert(new & 0xffff_ffff == top & 0xffff_ffff && new >> 32u64 == five >> 32u64)
        by (bit_vector)
        requires
            new == (five & !0xffff_ffffu64) | (top & 0xffff_ffff),
    ;
}

/// Replaces the payload words of a cache line.
fn store_counters(raw: &mut [u64; 8], words: [u64; 3])
    ensures
        counter_part(final(raw)@) == words@.update(2, words@[2] & 0xffff_ffff),
        metadata_part(final(raw)@) == metadata_part(old(raw)@),
        final(raw)@[0] == old(raw)@[0],
        final(raw)@[1] == old(raw)@[1],
{
    let five: u64 = raw[5];
    let (w0, w1, w2): (u64, u64, u64) = (words[0], words[1], words[2]);
    let new5: u64 = (five & 0xffff_ffff) | (w0 << 32u64);
    let new6: u64 = (w0 >> 32u64) | (w1 << 32u64);
    let new7: u64 = (w1 >> 32u64) | ((w2 & 0xffff_ffff) << 32u64);
    raw[5] = new5;
    raw[6] = new6;
    raw[7] = new7;
    proof {
        lemma_pack(five, w0, w1, w2);
    }
}

/// Replaces the two parts of a cache line by ones that hold the counters `c`.
fn store_parts(raw: &mut [u64; 8], meta: [u64; 4], pay: [u64; 3], Ghost(c): Ghost<Seq<u64>>)
    requires
        packed(meta@, pay@, c),
        c.len() + used(c) <= CACHELINE_COUNTER_BUCKET_METADATA_BITS,
        used(c) <= CACHELINE_COUNTER_BUCKET_COUNTER_BITS,
    ensures
        line_holds(final(raw)@, c),
        final(raw)@[0] == old(raw)@[0],
        final(raw)@[1] == old(raw)@[1],
{
    store_metadata(raw, meta);
    store_counters(raw, pay);
    proof {
        lemma_part_tops(meta@, pay@, c);
        assert(metadata_part(raw@) =~= meta@);
        assert(counter_part(raw@) =~= pay@);
    }
}

/// Counters that are all zero take one delimiter each and no payload.
pub proof fn lemma_all_zero(n: nat)
    ensures
        metadata(fields(Seq::new(n, |i: int| 0u64))) == Seq::new(n, |i: int| true),
        payload(fields(Seq::new(n, |i: int| 0u64))) == Seq::<bool>::empty(),
        used(Seq::new(n, |i: int| 0u64)) == 0,
    decreases n,
{
    let c = Seq::new(n, |i: int| 0u64);
    if n > 0 {
        let m = (n - 1) as nat;
        lemma_all_zero(m);
        assert(fields(c).drop_last() =~= fields(Seq::new(m, |i: int| 0u64)));
        assert(fields(c).last() == field_of(0));
        assert(crate::bits::bits_of(0, 0) =~= Seq::<bool>::empty());
        assert(crate::packing::unary(0) =~= seq![true]);
        assert(Seq::new(n, |i: int| true) =~= Seq::new(m, |i: int| true) + seq![true]);
        assert(Seq::<bool>::empty() + Seq::<bool>::empty() =~= Seq::<bool>::empty());
    }
}

/// A cache line with one delimiter per counter and no payload holds counters that are
/// all zero.
proof fn lemma_fresh_line(raw: Seq<u64>, n: nat)
    requires
        raw.len() == 8,
        n <= 64,
        forall|j: int| 0 <= j < 64 ==> #[trigger] bit(raw[2], j) == (j < n),
        raw[3] == 0,
        raw[4] == 0,
        raw[5] == 0,
        raw[6] == 0,
        raw[7] == 0,
    ensures
        line_holds(raw, Seq::new(n, |i: int| 0u64)),
{
    broadcast use crate::bits::group_bits;

    lemma_all_zero(n);
    assert(0u64 & 0xffff_ffff == 0 && (0u64 >> 32u64) | (0u64 << 32u64) == 0 && 0u64 >> 32u64 == 0)
        by (bit_vector);
    let meta = metadata_part(raw);
    let pay = counter_part(raw);
    assert(word_bits(meta) =~= padded(Seq::new(n, |i: int| true), 256)) by {
        assert forall|k: int| 0 <= k < 256 implies word_bits(meta)[k] == padded(
            Seq::new(n, |i: int| true),
            256,
        )[k] by {
            if k < 64 {
                assert(k / 64 == 0 && k % 64 == k);
            } else {
                assert(meta[k / 64] == 0);
            }
        }
    }
    assert(word_bits(pay) =~= padded(Seq::<bool>::empty(), 192)) by {
        assert forall|k: int| 0 <= k < 192 implies !word_bits(pay)[k] by {
            assert(pay[k / 64] == 0);
        }
    }
}

/// A cache line that holds one `(key, pos)` pair and 32 counters.
#[allow(non_camel_case_types)]
#[derive(Clone, Copy, Debug, PartialEq, Eq)]
pub struct Counter_Block {
    /// The eight words.
    pub raw: [u64; 8],
}

impl Counter_Block {
    /// Whether the block holds the counters `c`.
    pub open spec fn holds(self, c: Seq<u64>) -> bool {
        &&& c.len() == CACHELINE_COUNTER_BLOCK_COUNTERS
        &&& line_holds(self.raw@, c)
        &&& low_half(self.raw@[1]) == CACHELINE_COUNTER_BLOCK_COUNTERS + used(c)
        &&& high_half(self.raw@[1]) == used(c)
    }

    /// Whether the block holds counters at all.
    pub open spec fn wf(self) -> bool {
        exists|c: Seq<u64>| self.holds(c)
    }

    /// The counters of the block.
    pub open spec fn counters(self) -> Seq<u64> {
        choose|c: Seq<u64>| self.holds(c)
    }

    /// The key of the block.
    pub open spec fn block_key(self) -> u32 {
        low_half(self.raw@[0])
    }

    /// The position of the block.
    pub open spec fn block_pos(self) -> PositionType {
        high_half(self.raw@[0])
    }

    /// The block with the given key, position and counters.
    pub open spec fn with(key: u32, pos: PositionType, c: Seq<u64>) -> Self {
        Counter_Block {
            raw: line_with(joined(key, pos), joined((32 + used(c)) as u32, used(c) as u32), c),
        }
    }

    /// The block made with a key, a position and counters has them.
    pub proof fn lemma_made_with(key: u32, pos: PositionType, c: Seq<u64>)
        requires
            c.len() == CACHELINE_COUNTER_BLOCK_COUNTERS,
            used(c) <= CACHELINE_COUNTER_BUCKET_COUNTER_BITS,
        ensures
            Self::with(key, pos, c).wf(),
            Self::with(key, pos, c).block_key() == key,
            Self::with(key, pos, c).block_pos() == pos,
            Self::with(key, pos, c).counters() == c,
    {
        lemma_line_with(joined(key, pos), joined((32 + used(c)) as u32, used(c) as u32), c);
        Self::with(key, pos, c).lemma_counters(c);
    }

    /// A block is the one with its key, position and counters.
    pub proof fn lemma_with(self)
        requires
            self.wf(),
        ensures
            self == Self::with(self.block_key(), self.block_pos(), self.counters()),
    {
        let c = self.counters();
        let (key, pos) = (self.block_key(), self.block_pos());
        assert(self.holds(c));
        Self::lemma_made_with(key, pos, c);
        self.lemma_determined(Self::with(key, pos, c));
    }

    /// A fresh slot holds counters that are all zero.
    pub proof fn lemma_blank()
        ensures
            Self::blank().wf(),
            Self::blank().block_key() == 0,
            Self::blank().block_pos() == DUMMY_POS,
            Self::blank().counters() == Seq::new(32, |i: int| 0u64),
            used(Self::blank().counters()) == 0,
    {
        let r = Self::blank();
        lemma_low_mask();
        lemma_all_zero(32);
        lemma_fresh_line(r.raw@, 32);
        r.lemma_counters(Seq::new(32, |i: int| 0u64));
    }

    /// Taking the block out of its slot leaves the counters.
    pub proof fn lemma_vacated(self)
        requires
            self.wf(),
        ensures
            self.vacated().wf(),
            self.vacated().counters() == self.counters(),
    {
        let v = self.vacated();
        assert(metadata_part(v.raw@) =~= metadata_part(self.raw@));
        assert(counter_part(v.raw@) =~= counter_part(self.raw@));
        v.lemma_counters(self.counters());
    }

    /// The counters that a block holds are the only ones it holds.
    pub proof fn lemma_counters(self, c: Seq<u64>)
        requires
            self.holds(c),
        ensures
            self.wf(),
            self.counters() == c,
    {
        lemma_packed_unique(
            metadata_part(self.raw@),
            counter_part(self.raw@),
            c,
            self.counters(),
        );
    }

    /// Two blocks with the same key, position and counters are the same.
    pub proof fn lemma_determined(self, other: Self)
        requires
            self.wf(),
            other.wf(),
            self.block_key() == other.block_key(),
            self.block_pos() == other.block_pos(),
            self.counters() == other.counters(),
        ensures
            self == other,
    {
        broadcast use vstd::array::group_array_axioms;

        let c = self.counters();
        assert(self.holds(c) && other.holds(c));
        lemma_packed_canonical(
            metadata_part(self.raw@),
            counter_part(self.raw@),
            metadata_part(other.raw@),
            counter_part(other.raw@),
            c,
        );
        lemma_line_parts(self.raw@, other.raw@);
        assert(self.raw =~= other.raw);
    }

    /// A vacant block with all its counters zero.
    pub fn new() -> (r: Self)
        ensures
            r == Counter_Block::blank(),
            r.wf(),
            r.block_key() == 0,
            r.block_pos() == DUMMY_POS,
            r.counters() == Seq::new(32, |i: int| 0u64),
    {
        broadcast use vstd::array::group_array_axioms;

        let low: u64 = low_bits_mask(CACHELINE_COUNTER_BLOCK_COUNTERS);
        let r = Counter_Block { raw: [join(0, DUMMY_POS), join(32, 0), low, 0, 0, 0, 0, 0] };
        proof {
            vstd::arithmetic::power2::lemma2_to64();
            assert(r.raw =~= Counter_Block::blank().raw);
            Self::lemma_blank();
        }
        r
    }

    /// Becomes `other` exactly when `choice` holds.
    pub fn cmov(&mut self, other: &Self, choice: bool)
        ensures
            *final(self) == (if choice { *other } else { *old(self) }),
    {
        select_words(&mut self.raw, &other.raw, choice);
    }

    /// Exchanges the two exactly when `choice` holds.
    pub fn cxchg(&mut self, other: &mut Self, choice: bool)
        ensures
            *final(self) == (if choice { *old(other) } else { *old(self) }),
            *final(other) == (if choice { *old(self) } else { *old(other) }),
    {
        exchange_words(&mut self.raw, &mut other.raw, choice);
    }

    /// The block's key.
    pub fn key(&self) -> (r: u32)
        ensures
            r == self.block_key(),
    {
        lower(self.raw[0])
    }

    /// The block's position.
    pub fn pos(&self) -> (r: PositionType)
        ensures
            r == self.block_pos(),
    {
        upper(self.raw[0])
    }

    /// Sets the block's key and position.
    pub fn set_key_pos(&mut self, key: u32, pos: PositionType)
        ensures
            final(self).block_key() == key,
            final(self).block_pos() == pos,
            forall|c: Seq<u64>| #[trigger] final(self).holds(c) == old(self).holds(c),
            old(self).wf() ==> final(self).wf() && final(self).counters() == old(self).counters(),
    {
        let ghost before = *self;
        self.raw[0] = join(key, pos);
        proof {
            assert(metadata_part(self.raw@) =~= metadata_part(before.raw@));
            assert(counter_part(self.raw@) =~= counter_part(before.raw@));
            if before.wf() {
                self.lemma_counters(before.counters());
            }
        }
    }

    /// Makes the block vacant exactly when `choice` holds, by its position alone.
    pub fn cmov_empty(&mut self, choice: bool)
        ensures
            final(self).block_key() == old(self).block_key(),
            final(self).block_pos() == (if choice { DUMMY_POS } else { old(self).block_pos() }),
            *final(self) == (if choice { old(self).vacated() } else { *old(self) }),
            forall|c: Seq<u64>| #[trigger] final(self).holds(c) == old(self).holds(c),
            old(self).wf() ==> final(self).wf() && final(self).counters() == old(self).counters(),
    {
        broadcast use vstd::array::group_array_axioms;

        let ghost before = *self;
        let emptied: u64 = join(lower(self.raw[0]), DUMMY_POS);
        self.raw[0] = select_u64(self.raw[0], emptied, choice);
        proof {
            assert(metadata_part(self.raw@) =~= metadata_part(before.raw@));
            assert(counter_part(self.raw@) =~= counter_part(before.raw@));
            if before.wf() {
                self.lemma_counters(before.counters());
            }
            if choice {
                assert(self.raw =~= before.vacated().raw);
            } else {
                assert(self.raw =~= before.raw);
            }
        }
    }

    /// Whether the block is vacant.
    pub fn is_empty(&self) -> (r: bool)
        ensures
            r == (self.block_pos() == DUMMY_POS),
    {
        self.pos() == DUMMY_POS
    }

    /// The value of counter `index`.
    pub fn get_counter(&self, index: usize) -> (r: u64)
        requires
            self.wf(),
            index < CACHELINE_COUNTER_BLOCK_COUNTERS,
        ensures
            r == self.counters()[index as int],
    {
        read_counter(
            &metadata_of(&self.raw),
            &counters_of(&self.raw),
            index,
            Ghost(self.counters()),
        )
    }

    /// The payload bits of the counters in `start_index..end_index`.
    pub fn get_counter_endpoints(&self, start_index: usize, end_index: usize) -> (r: (usize, usize))
        requires
            self.wf(),
            start_index <= end_index <= CACHELINE_COUNTER_BLOCK_COUNTERS,
        ensures
            r.0 == used(self.counters().take(start_index as int)),
            r.1 == used(self.counters().take(end_index as int)),
    {
        let words: [u64; 4] = metadata_of(&self.raw);
        (
            payload_end_for_index(&words, start_index, Ghost(self.counters())),
            payload_end_for_index(&words, end_index, Ghost(self.counters())),
        )
    }

    /// Counts counter `index` up, and tells whether there was room for it.
    pub fn increment_counter(&mut self, index: usize) -> (r: bool)
        requires
            old(self).wf(),
            index < CACHELINE_COUNTER_BLOCK_COUNTERS,
        ensures
            r == can_count(
                old(self).counters(),
                index as int,
                CACHELINE_COUNTER_BLOCK_COUNTER_BITS as nat,
            ),
            final(self).wf(),
            final(self).block_key() == old(self).block_key(),
            final(self).block_pos() == old(self).block_pos(),
            r ==> final(self).counters() == counted(old(self).counters(), index as int),
            !r ==> *final(self) == *old(self),
    {
        self.get_and_increment_counter(index).1
    }

    /// Gives the value of counter `index` and counts it up; the second part of the
    /// result tells whether there was room for it.
    pub fn get_and_increment_counter(&mut self, index: usize) -> (r: (u64, bool))
        requires
            old(self).wf(),
            index < CACHELINE_COUNTER_BLOCK_COUNTERS,
        ensures
            r.0 == old(self).counters()[index as int],
            r.1 == can_count(
                old(self).counters(),
                index as int,
                CACHELINE_COUNTER_BLOCK_COUNTER_BITS as nat,
            ),
            final(self).wf(),
            final(self).block_key() == old(self).block_key(),
            final(self).block_pos() == old(self).block_pos(),
            r.1 ==> final(self).counters() == counted(old(self).counters(), index as int),
            !r.1 ==> *final(self) == *old(self),
    {
        self.get_and_increment_counter_if(index, true)
    }

    /// Gives the value of counter `selected_index`, and counts it up when `increment`
    /// holds and there is room for it.
    pub fn access_counter_oblivious(&mut self, selected_index: usize, increment: bool) -> (r: u64)
        requires
            old(self).wf(),
            selected_index < CACHELINE_COUNTER_BLOCK_COUNTERS,
        ensures
            r == old(self).counters()[selected_index as int],
            final(self).wf(),
            final(self).block_key() == old(self).block_key(),
            final(self).block_pos() == old(self).block_pos(),
            final(self).counters() == (if increment && can_count(
                old(self).counters(),
                selected_index as int,
                CACHELINE_COUNTER_BLOCK_COUNTER_BITS as nat,
            ) {
                counted(old(self).counters(), selected_index as int)
            } else {
                old(self).counters()
            }),
    {
        if increment {
            self.get_and_increment_counter(selected_index).0
        } else {
            self.get_counter(selected_index)
        }
    }

    fn get_and_increment_counter_if(&mut self, index: usize, enable: bool) -> (r: (u64, bool))
        requires
            old(self).wf(),
            index < CACHELINE_COUNTER_BLOCK_COUNTERS,
        ensures
            r.0 == old(self).counters()[index as int],
            r.1 == can_count(
                old(self).counters(),
                index as int,
                CACHELINE_COUNTER_BLOCK_COUNTER_BITS as nat,
            ),
            final(self).wf(),
            final(self).block_key() == old(self).block_key(),
            final(self).block_pos() == old(self).block_pos(),
            enable && r.1 ==> final(self).counters() == counted(
                old(self).counters(),
                index as int,
            ),
            !enable || !r.1 ==> *final(self) == *old(self),
    {
        let ghost c = self.counters();
        let ghost before = *self;
        let result: Counted<4, 3> = count_up(
            &metadata_of(&self.raw),
            &counters_of(&self.raw),
            index,
            CACHELINE_COUNTER_BLOCK_COUNTERS,
            CACHELINE_COUNTER_BLOCK_COUNTER_BITS,
            enable,
            Ghost(c),
        );
        let more: usize = result.grew as usize;
        let ghost next = if enable && result.counted {
            counted(c, index as int)
        } else {
            c
        };
        let metadata_len: usize = self.metadata_bits_len() + more;
        let counter_len: usize = self.counter_bits_len() + more;
        store_parts(&mut self.raw, result.meta, result.pay, Ghost(next));
        self.set_lengths(metadata_len, counter_len);
        proof {
            self.lemma_counters(next);
            if !(enable && result.counted) {
                self.lemma_determined(before);
            }
        }
        (result.old_value, result.counted)
    }

    /// The number of metadata bits in use.
    pub fn metadata_bits_len(&self) -> (r: usize)
        ensures
            r == low_half(self.raw@[1]),
            self.wf() ==> r == CACHELINE_COUNTER_BLOCK_COUNTERS + used(self.counters()),
    {
        lower(self.raw[1]) as usize
    }

    /// The number of payload bits in use.
    pub fn counter_bits_len(&self) -> (r: usize)
        ensures
            r == high_half(self.raw@[1]),
            self.wf() ==> r == used(self.counters()),
    {
        upper(self.raw[1]) as usize
    }

    fn set_lengths(&mut self, metadata_bits_len: usize, counter_bits_len: usize)
        requires
            metadata_bits_len <= CACHELINE_COUNTER_BUCKET_METADATA_BITS,
            counter_bits_len <= CACHELINE_COUNTER_BUCKET_COUNTER_BITS,
        ensures
            final(self).raw@ == old(self).raw@.update(1, final(self).raw@[1]),
            low_half(final(self).raw@[1]) == metadata_bits_len,
            high_half(final(self).raw@[1]) == counter_bits_len,
            metadata_part(final(self).raw@) == metadata_part(old(self).raw@),
            counter_part(final(self).raw@) == counter_part(old(self).raw@),
    {
        self.raw[1] = join(metadata_bits_len as u32, counter_bits_len as u32);
    }

    /// The metadata words.
    pub fn metadata_words(&self) -> (r: [u64; 4])
        ensures
            r@ == metadata_part(self.raw@),
    {
        metadata_of(&self.raw)
    }
}

impl Default for Counter_Block {
    fn default() -> (r: Self)
        ensures
            r.wf(),
            r.block_key() == 0,
            r.block_pos() == DUMMY_POS,
            r.counters() == Seq::new(32, |i: int| 0u64),
    {
        Counter_Block::new()
    }
}

impl ObliviousBlock for Counter_Block {
    open spec fn vacant(self) -> bool {
        self.block_pos() == DUMMY_POS
    }

    open spec fn vacated(self) -> Self {
        Counter_Block {
            raw: [
                joined(self.block_key(), DUMMY_POS),
                self.raw@[1],
                self.raw@[2],
                self.raw@[3],
                self.raw@[4],
                self.raw@[5],
                self.raw@[6],
                self.raw@[7],
            ],
        }
    }

    open spec fn blank() -> Self {
        Counter_Block { raw: [joined(0, DUMMY_POS), joined(32, 0), 0xffff_ffff, 0, 0, 0, 0, 0] }
    }

    proof fn lemma_vacancy(self) {
    }

    fn is_vacant(&self) -> (r: bool) {
        self.is_empty()
    }

    fn fresh() -> (r: Self) {
        Counter_Block::new()
    }

    fn select(&mut self, other: &Self, choice: bool) {
        self.cmov(other, choice)
    }

    fn vacate(&mut self, choice: bool) {
        self.cmov_empty(choice)
    }
}

/// A cache line that holds two `(key, pos)` pairs and 64 counters.
#[allow(non_camel_case_types)]
#[derive(Clone, Copy, Debug, PartialEq, Eq)]
pub struct Cacheline_Counter_Bucket {
    /// The eight words.
    pub raw: [u64; 8],
}

impl Cacheline_Counter_Bucket {
    /// Whether the bucket holds the counters `c`.
    pub open spec fn holds(self, c: Seq<u64>) -> bool {
        &&& c.len() == CACHELINE_COUNTER_BUCKET_COUNTERS
        &&& line_holds(self.raw@, c)
    }

    /// Whether the bucket holds counters at all.
    pub open spec fn wf(self) -> bool {
        exists|c: Seq<u64>| self.holds(c)
    }

    /// The counters of the bucket.
    pub open spec fn counters(self) -> Seq<u64> {
        choose|c: Seq<u64>| self.holds(c)
    }

    /// The key in slot `slot`.
    pub open spec fn slot_key(self, slot: int) -> u32 {
        low_half(self.raw@[slot])
    }

    /// The position in slot `slot`.
    pub open spec fn slot_pos(self, slot: int) -> PositionType {
        high_half(self.raw@[slot])
    }

    /// Whether `block` has the key, the position and the counters of slot `slot`.
    pub open spec fn has_block(self, slot: int, block: Counter_Block) -> bool {
        &&& block.wf()
        &&& block.block_key() == self.slot_key(slot)
        &&& block.block_pos() == self.slot_pos(slot)
        &&& block.counters() == self.counters().subrange(32 * slot, 32 * slot + 32)
    }

    /// The counters that a bucket holds are the only ones it holds.
    pub proof fn lemma_counters(self, c: Seq<u64>)
        requires
            self.holds(c),
        ensures
            self.wf(),
            self.counters() == c,
    {
        lemma_packed_unique(
            metadata_part(self.raw@),
            counter_part(self.raw@),
            c,
            self.counters(),
        );
    }

    /// Two buckets with the same pairs and the same counters are the same.
    pub proof fn lemma_determined(self, other: Self)
        requires
            self.wf(),
            other.wf(),
            forall|slot: int|
                0 <= slot < 2 ==> #[trigger] self.slot_key(slot) == other.slot_key(slot)
                    && self.slot_pos(slot) == other.slot_pos(slot),
            self.counters() == other.counters(),
        ensures
            self == other,
    {
        broadcast use vstd::array::group_array_axioms;

        let c = self.counters();
        assert(self.holds(c) && other.holds(c));
        assert(self.slot_key(0) == other.slot_key(0) && self.slot_key(1) == other.slot_key(1));
        lemma_packed_canonical(
            metadata_part(self.raw@),
            counter_part(self.raw@),
            metadata_part(other.raw@),
            counter_part(other.raw@),
            c,
        );
        lemma_line_parts(self.raw@, other.raw@);
        assert(self.raw =~= other.raw);
    }

    /// The block of slot `slot`.
    pub open spec fn block(self, slot: int) -> Counter_Block {
        let c = self.counters().subrange(32 * slot, 32 * slot + 32);
        Counter_Block {
            raw: line_with(
                self.raw@[slot],
                joined((32 + used(c)) as u32, used(c) as u32),
                c,
            ),
        }
    }

    /// The bucket has the block of each of its slots, and no other one there.
    #[verifier::rlimit(40)]
    pub proof fn lemma_block(self, slot: int, other: Counter_Block)
        requires
            self.wf(),
            slot == 0 || slot == 1,
        ensures
            self.has_block(slot, self.block(slot)),
            self.has_block(slot, other) ==> other == self.block(slot),
    {
        let c = self.counters();
        let a = c.subrange(32 * slot, 32 * slot + 32);
        assert(self.holds(c));
        assert(c =~= c.subrange(0, 32) + c.subrange(32, 64));
        lemma_fields_concat(c.subrange(0, 32), c.subrange(32, 64));
        let b = self.block(slot);
        lemma_line_with(
            self.raw@[slot],
            joined((32 + used(a)) as u32, used(a) as u32),
            a,
        );
        b.lemma_counters(a);
        if self.has_block(slot, other) {
            other.lemma_determined(b);
        }
    }

    /// Taking a bucket apart into its two blocks and putting those together again gives
    /// the bucket back: a bucket with the blocks of another is that other.
    pub proof fn lemma_split_then_merge(self, first: Counter_Block, second: Counter_Block, other: Self)
        requires
            self.wf(),
            self.has_block(0, first),
            self.has_block(1, second),
            other.wf(),
            other.has_block(0, first),
            other.has_block(1, second),
        ensures
            other == self,
    {
        let c = self.counters();
        let d = other.counters();
        assert(c =~= c.subrange(0, 32) + c.subrange(32, 64));
        assert(d =~= d.subrange(0, 32) + d.subrange(32, 64));
        assert forall|slot: int| 0 <= slot < 2 implies #[trigger] self.slot_key(slot)
            == other.slot_key(slot) && self.slot_pos(slot) == other.slot_pos(slot) by {
            assert(slot == 0 || slot == 1);
        }
        self.lemma_determined(other);
    }

    /// A bucket with two vacant pairs and all its counters zero.
    pub fn new() -> (r: Self)
        ensures
            r.wf(),
            r.slot_key(0) == 0,
            r.slot_pos(0) == DUMMY_POS,
            r.slot_key(1) == 0,
            r.slot_pos(1) == DUMMY_POS,
            r.counters() == Seq::new(64, |i: int| 0u64),
    {
        let r = Cacheline_Counter_Bucket {
            raw: [join(0, DUMMY_POS), join(0, DUMMY_POS), u64::MAX, 0, 0, 0, 0, 0],
        };
        proof {
            broadcast use crate::bits::group_bits;

            lemma_all_zero(64);
            lemma_fresh_line(r.raw@, 64);
            r.lemma_counters(Seq::new(64, |i: int| 0u64));
        }
        r
    }

    /// Becomes `other` exactly when `choice` holds.
    pub fn cmov(&mut self, other: &Self, choice: bool)
        ensures
            *final(self) == (if choice { *other } else { *old(self) }),
    {
        select_words(&mut self.raw, &other.raw, choice);
    }

    /// Exchanges the two exactly when `choice` holds.
    pub fn cxchg(&mut self, other: &mut Self, choice: bool)
        ensures
            *final(self) == (if choice { *old(other) } else { *old(self) }),
            *final(other) == (if choice { *old(self) } else { *old(other) }),
    {
        exchange_words(&mut self.raw, &mut other.raw, choice);
    }

    /// The two pairs as `[key0, pos0, key1, pos1]`.
    pub fn block_words(&self) -> (r: [u32; 4])
        ensures
            r@ == seq![self.slot_key(0), self.slot_pos(0), self.slot_key(1), self.slot_pos(1)],
    {
        [lower(self.raw[0]), upper(self.raw[0]), lower(self.raw[1]), upper(self.raw[1])]
    }

    /// Replaces the two pairs by `[key0, pos0, key1, pos1]`.
    pub fn set_block_words(&mut self, words: [u32; 4])
        ensures
            final(self).slot_key(0) == words@[0],
            final(self).slot_pos(0) == words@[1],
            final(self).slot_key(1) == words@[2],
            final(self).slot_pos(1) == words@[3],
            forall|c: Seq<u64>| #[trigger] final(self).holds(c) == old(self).holds(c),
            old(self).wf() ==> final(self).wf() && final(self).counters() == old(self).counters(),
    {
        let ghost before = *self;
        self.raw[0] = join(words[0], words[1]);
        self.raw[1] = join(words[2], words[3]);
        proof {
            assert(metadata_part(self.raw@) =~= metadata_part(before.raw@));
            assert(counter_part(self.raw@) =~= counter_part(before.raw@));
            if before.wf() {
                self.lemma_counters(before.counters());
            }
        }
    }

    /// The key in one of the two slots.
    pub fn key(&self, slot: usize) -> (r: u32)
        requires
            slot < CACHELINE_COUNTER_BUCKET_BLOCKS,
        ensures
            r == self.slot_key(slot as int),
    {
        self.block_words()[slot * 2]
    }

    /// The position in one of the two slots.
    pub fn pos(&self, slot: usize) -> (r: PositionType)
        requires
            slot < CACHELINE_COUNTER_BUCKET_BLOCKS,
        ensures
            r == self.slot_pos(slot as int),
    {
        self.block_words()[slot * 2 + 1]
    }

    /// Sets the key and the position in one of the two slots.
    pub fn set_key_pos(&mut self, slot: usize, key: u32, pos: PositionType)
        requires
            slot < CACHELINE_COUNTER_BUCKET_BLOCKS,
        ensures
            final(self).slot_key(slot as int) == key,
            final(self).slot_pos(slot as int) == pos,
            final(self).slot_key(1 - slot) == old(self).slot_key(1 - slot),
            final(self).slot_pos(1 - slot) == old(self).slot_pos(1 - slot),
            forall|c: Seq<u64>| #[trigger] final(self).holds(c) == old(self).holds(c),
            old(self).wf() ==> final(self).wf() && final(self).counters() == old(self).counters(),
    {
        let mut words: [u32; 4] = self.block_words();
        words[slot * 2] = key;
        words[slot * 2 + 1] = pos;
        self.set_block_words(words);
    }

    /// The two blocks of the bucket.
    pub fn split_into_blocks(&self) -> (r: [Counter_Block; 2])
        requires
            self.wf(),
        ensures
            self.has_block(0, r@[0]),
            self.has_block(1, r@[1]),
    {
        let ghost c = self.counters();
        let ghost a = c.subrange(0, 32);
        let ghost b = c.subrange(32, 64);
        let meta: [u64; 4] = metadata_of(&self.raw);
        let pay: [u64; 3] = counters_of(&self.raw);
        let first_bits: usize = payload_end_for_index(
            &meta,
            CACHELINE_COUNTER_BLOCK_COUNTERS,
            Ghost(c),
        );
        let total_bits: usize = payload_end_for_index(
            &meta,
            CACHELINE_COUNTER_BUCKET_COUNTERS,
            Ghost(c),
        );
        proof {
            assert(c =~= a + b);
            assert(c.take(32) =~= a);
            assert(c.take(64) =~= c);
            lemma_fields_concat(a, b);
            lemma_fields(a);
            lemma_fields(b);
            lemma_fields(c);
        }
        let second_bits: usize = total_bits - first_bits;
        let first_len: usize = CACHELINE_COUNTER_BLOCK_COUNTERS + first_bits;
        let second_len: usize = CACHELINE_COUNTER_BLOCK_COUNTERS + second_bits;
        let first_meta: [u64; 4] = prefix_bits(&meta, first_len);
        let first_pay: [u64; 3] = prefix_bits(&pay, first_bits);
        let second_meta: [u64; 4] = shr_words(&meta, first_len);
        let second_pay: [u64; 3] = shr_words(&pay, first_bits);
        proof {
            assert(word_bits(first_meta@) =~= padded(metadata(fields(a)), 256));
            assert(word_bits(first_pay@) =~= padded(payload(fields(a)), 192));
            assert(word_bits(second_meta@) =~= padded(metadata(fields(b)), 256));
            assert(word_bits(second_pay@) =~= padded(payload(fields(b)), 192));
        }
        let mut first = Counter_Block { raw: [0; 8] };
        first.raw[0] = self.raw[0];
        store_parts(&mut first.raw, first_meta, first_pay, Ghost(a));
        first.set_lengths(first_len, first_bits);
        let mut second = Counter_Block { raw: [0; 8] };
        second.raw[0] = self.raw[1];
        store_parts(&mut second.raw, second_meta, second_pay, Ghost(b));
        second.set_lengths(second_len, second_bits);
        proof {
            first.lemma_counters(a);
            second.lemma_counters(b);
        }
        [first, second]
    }

    /// The bucket made of two blocks whose payloads fit in it together.
    pub fn merge_blocks(blocks: [Counter_Block; 2]) -> (r: Self)
        requires
            blocks@[0].wf(),
            blocks@[1].wf(),
            used(blocks@[0].counters()) + used(blocks@[1].counters())
                <= CACHELINE_COUNTER_BUCKET_COUNTER_BITS,
        ensures
            r.wf(),
            r.has_block(0, blocks@[0]),
            r.has_block(1, blocks@[1]),
    {
        let first: Counter_Block = blocks[0];
        let second: Counter_Block = blocks[1];
        let ghost a = first.counters();
        let ghost b = second.counters();
        let first_len: usize = first.metadata_bits_len();
        let second_len: usize = second.metadata_bits_len();
        let first_bits: usize = first.counter_bits_len();
        let second_bits: usize = second.counter_bits_len();
        proof {
            lemma_fields_concat(a, b);
            lemma_fields(a);
            lemma_fields(b);
            lemma_fields(a + b);
        }
        let mut meta: [u64; 4] = metadata_of(&first.raw);
        copy_bits(&mut meta, first_len, &metadata_of(&second.raw), 0, second_len);
        let mut pay: [u64; 3] = counters_of(&first.raw);
        copy_bits(&mut pay, first_bits, &counters_of(&second.raw), 0, second_bits);
        proof {
            assert(word_bits(meta@) =~= padded(metadata(fields(a + b)), 256));
            assert(word_bits(pay@) =~= padded(payload(fields(a + b)), 192));
        }
        let mut bucket = Cacheline_Counter_Bucket { raw: first.raw };
        store_parts(&mut bucket.raw, meta, pay, Ghost(a + b));
        let ghost held = bucket;
        bucket.raw[1] = second.raw[0];
        proof {
            assert(metadata_part(bucket.raw@) =~= metadata_part(held.raw@));
            assert(counter_part(bucket.raw@) =~= counter_part(held.raw@));
            bucket.lemma_counters(a + b);
            assert((a + b).subrange(0, 32) =~= a);
            assert((a + b).subrange(32, 64) =~= b);
        }
        bucket
    }

    /// The value of counter `index`.
    pub fn get_counter(&self, index: usize) -> (r: u64)
        requires
            self.wf(),
            index < CACHELINE_COUNTER_BUCKET_COUNTERS,
        ensures
            r == self.counters()[index as int],
    {
        read_counter(
            &metadata_of(&self.raw),
            &counters_of(&self.raw),
            index,
            Ghost(self.counters()),
        )
    }

    /// The payload bits of the counters in `start_index..end_index`.
    pub fn get_counter_endpoints(&self, start_index: usize, end_index: usize) -> (r: (usize, usize))
        requires
            self.wf(),
            start_index <= end_index <= CACHELINE_COUNTER_BUCKET_COUNTERS,
        ensures
            r.0 == used(self.counters().take(start_index as int)),
            r.1 == used(self.counters().take(end_index as int)),
    {
        let words: [u64; 4] = metadata_of(&self.raw);
        (
            payload_end_for_index(&words, start_index, Ghost(self.counters())),
            payload_end_for_index(&words, end_index, Ghost(self.counters())),
        )
    }

    /// Counts counter `index` up. Without room for it, because the counter would need a
    /// 65th bit or because every payload bit is taken, the bucket stays as it is.
    pub fn increment_counter(&mut self, index: usize) -> (r: bool)
        requires
            old(self).wf(),
            index < CACHELINE_COUNTER_BUCKET_COUNTERS,
        ensures
            r == can_count(
                old(self).counters(),
                index as int,
                CACHELINE_COUNTER_BUCKET_COUNTER_BITS as nat,
            ),
            final(self).wf(),
            forall|slot: int|
                0 <= slot < 2 ==> #[trigger] final(self).slot_key(slot) == old(self).slot_key(slot)
                    && final(self).slot_pos(slot) == old(self).slot_pos(slot),
            r ==> final(self).counters() == counted(old(self).counters(), index as int),
            !r ==> *final(self) == *old(self),
    {
        let ghost c = self.counters();
        let ghost before = *self;
        let result: Counted<4, 3> = count_up(
            &metadata_of(&self.raw),
            &counters_of(&self.raw),
            index,
            CACHELINE_COUNTER_BUCKET_COUNTERS,
            CACHELINE_COUNTER_BUCKET_COUNTER_BITS,
            true,
            Ghost(c),
        );
        let ghost next = if result.counted {
            counted(c, index as int)
        } else {
            c
        };
        store_parts(&mut self.raw, result.meta, result.pay, Ghost(next));
        proof {
            self.lemma_counters(next);
            assert forall|slot: int| 0 <= slot < 2 implies #[trigger] self.slot_key(slot)
                == before.slot_key(slot) && self.slot_pos(slot) == before.slot_pos(slot) by {
                assert(slot == 0 || slot == 1);
            }
            if !result.counted {
                self.lemma_determined(before);
            }
        }
        result.counted
    }

    /// Where counter `index` stands.
    pub fn counter_location(&self, index: usize) -> (r: CounterLocation)
        requires
            self.wf(),
            index < CACHELINE_COUNTER_BUCKET_COUNTERS,
        ensures
            r.locates(self.counters(), index as int),
    {
        locate(
            &metadata_of(&self.raw),
            index,
            CACHELINE_COUNTER_BUCKET_COUNTERS,
            Ghost(self.counters()),
        )
    }

    /// The metadata words.
    pub fn metadata_words(&self) -> (r: [u64; 4])
        ensures
            r@ == metadata_part(self.raw@),
    {
        metadata_of(&self.raw)
    }

    /// Replaces the metadata words.
    pub fn set_metadata_words(&mut self, words: [u64; 4])
        ensures
            metadata_part(final(self).raw@) == words@.update(3, words@[3] & 0xffff_ffff),
            counter_part(final(self).raw@) == counter_part(old(self).raw@),
            final(self).raw@[0] == old(self).raw@[0],
            final(self).raw@[1] == old(self).raw@[1],
    {
        store_metadata(&mut self.raw, words);
    }

    /// Replaces the payload words.
    pub fn set_counter_words(&mut self, words: [u64; 3])
        ensures
            counter_part(final(self).raw@) == words@.update(2, words@[2] & 0xffff_ffff),
            metadata_part(final(self).raw@) == metadata_part(old(self).raw@),
            final(self).raw@[0] == old(self).raw@[0],
            final(self).raw@[1] == old(self).raw@[1],
    {
        store_counters(&mut self.raw, words);
    }
}

impl Default for Cacheline_Counter_Bucket {
    fn default() -> (r: Self)
        ensures
            r.wf(),
            r.slot_key(0) == 0,
            r.slot_pos(0) == DUMMY_POS,
            r.slot_key(1) == 0,
            r.slot_pos(1) == DUMMY_POS,
            r.counters() == Seq::new(64, |i: int| 0u64),
    {
        Cacheline_Counter_Bucket::new()
    }
}

} // verus!
