//! Counter blocks of one and a half cache lines.
//!
//! A [`Counter_Block_15`] is twelve words. It owns one `(key, pos)` pair in its first
//! word and 64 counters in the bits after that: 170 bits of metadata and then 532
//! bits of payload, with two bits to spare. A bucket is two such blocks.
//!
//! Every counter has five bits of payload to begin with. Each zero before its
//! delimiter gives it two more, up to a width of 63. Counters are written as they are.
use vstd::arithmetic::power2::{lemma_pow2_unfold, pow2};
use vstd::prelude::*;
use crate::bits::{
    add_bit, bit, bit_length, copy_bits, exchange_words, extract, high_half, insert_zero_bit, join,
    lemma_bit_length, lemma_pow2_le, lemma_value_injective, lemma_words_eq, low_bits_mask, low_half,
    lower, padded, select_u64, select_usize, select_words, upper, value, with_zero, word_bits,
    zeros,
};
use crate::oblivious::{both, either};
use crate::packing::{
    all_fit, delimiter_of, find_delimiter, find_last_delimiter, gaps, lemma_apart, lemma_count_up,
    lemma_lengths, lemma_same_gaps, lemma_same_stored, lemma_stored, lemma_widen_metadata,
    lemma_widen_payload, metadata, payload, widened, widths, Field,
};
use crate::prelude::{PositionType, DUMMY_POS};

verus! {

/// Blocks per bucket.
pub const COUNTER_15_BUCKET_BLOCKS: usize = 2;

/// Counters per block.
pub const COUNTER_15_BLOCK_COUNTERS: usize = 64;

/// Payload bits that every counter has.
pub const COUNTER_15_BASE_BITS: usize = 5;

/// Payload bits that one zero of metadata adds.
pub const COUNTER_15_CHUNK_BITS: usize = 2;

/// The widest that a counter gets.
pub const COUNTER_15_MAX_COUNTER_BITS: usize = 63;

/// Metadata bits per block.
pub const COUNTER_15_METADATA_BITS: usize = 170;

/// Payload bits per block.
pub const COUNTER_15_COUNTER_BITS: usize = 532;

/// Zeros of metadata that the counters of a block share.
pub const COUNTER_15_MAX_CHUNKS: usize = 106;

/// First metadata bit of a block.
const METADATA_BIT_OFFSET: usize = 64;

/// First payload bit of a block.
const COUNTER_BIT_OFFSET: usize = 234;

/// The zeros of metadata that a counter needs.
pub open spec fn chunks_of(c: u64) -> nat {
    if bit_length(c as nat) <= 5 {
        0
    } else {
        ((bit_length(c as nat) - 4) / 2) as nat
    }
}

/// How a counter is packed.
pub open spec fn field_of(c: u64) -> Field {
    Field { gap: chunks_of(c), width: 5 + 2 * chunks_of(c), stored: c as nat }
}

/// How an array of counters is packed.
pub open spec fn fields(c: Seq<u64>) -> Seq<Field> {
    Seq::new(c.len(), |i: int| field_of(c[i]))
}

/// The zeros of metadata that an array of counters needs.
pub open spec fn chunks(c: Seq<u64>) -> nat {
    gaps(fields(c))
}

/// Whether `h` is the least number of chunks that makes room for a counter.
pub open spec fn least_chunks(c: u64, h: nat) -> bool {
    &&& c < pow2(5 + 2 * h)
    &&& forall|g: nat| c < #[trigger] pow2(5 + 2 * g) ==> h <= g
}

/// The chunks that the counters need one by one, added up.
pub open spec fn chunk_sum(c: Seq<u64>) -> nat
    decreases c.len(),
{
    if c.len() == 0 {
        0
    } else {
        chunk_sum(c.drop_last()) + chunks_of(c.last())
    }
}

/// Whether counter `index` can be counted up.
pub open spec fn can_count(c: Seq<u64>, index: int) -> bool {
    &&& c[index] < 0x7fff_ffff_ffff_ffff
    &&& chunks_of((c[index] + 1) as u64) == chunks_of(c[index]) || chunks(c)
        < COUNTER_15_MAX_CHUNKS
}

/// The counters with counter `index` one higher.
pub open spec fn counted(c: Seq<u64>, index: int) -> Seq<u64> {
    c.update(index, (c[index] + 1) as u64)
}

/// Whether the bits of a block hold the counters `c` in their metadata and payload.
pub open spec fn bits_hold(meta: Seq<bool>, pay: Seq<bool>, c: Seq<u64>) -> bool {
    &&& chunks(c) <= COUNTER_15_MAX_CHUNKS
    &&& forall|i: int| 0 <= i < c.len() ==> #[trigger] c[i] <= 0x7fff_ffff_ffff_ffff
    &&& meta == padded(metadata(fields(c)), COUNTER_15_METADATA_BITS as int)
    &&& pay == padded(payload(fields(c)), COUNTER_15_COUNTER_BITS as int)
}

/// A number of zeros that makes room for a counter, while one fewer does not, is the
/// number that it needs.
proof fn lemma_chunks_is(c: u64, z: nat)
    requires
        c < pow2(5 + 2 * z),
        z > 0 ==> c >= pow2((3 + 2 * z) as nat),
    ensures
        chunks_of(c) == z,
{
    lemma_bit_length(c as nat);
    let b = bit_length(c as nat);
    if b > 5 + 2 * z {
        lemma_pow2_le(5 + 2 * z, (b - 1) as nat);
    }
    if z > 0 && b < 4 + 2 * z {
        lemma_pow2_le(b, (3 + 2 * z) as nat);
    }
}

/// A counter fits in its width, and needs its last chunk.
proof fn lemma_field(c: u64)
    ensures
        field_of(c).fits(),
        chunks_of(c) > 0 ==> c >= pow2((3 + 2 * chunks_of(c)) as nat),
        c <= 0x7fff_ffff_ffff_ffff ==> field_of(c).width <= 63,
{
    vstd::arithmetic::power2::lemma2_to64();
    vstd::arithmetic::power2::lemma2_to64_rest();
    lemma_bit_length(c as nat);
    let b = bit_length(c as nat);
    let z = chunks_of(c);
    lemma_pow2_le(b, 5 + 2 * z);
    if z > 0 {
        lemma_pow2_le((3 + 2 * z) as nat, (b - 1) as nat);
    }
    if c <= 0x7fff_ffff_ffff_ffff && b > 63 {
        lemma_pow2_le(63, (b - 1) as nat);
    }
}

/// A counter needs the least number of chunks that makes room for it.
proof fn lemma_least_chunks(c: u64)
    ensures
        least_chunks(c, chunks_of(c)),
{
    let h = chunks_of(c);
    lemma_field(c);
    assert forall|g: nat| c < #[trigger] pow2(5 + 2 * g) implies h <= g by {
        if g < h {
            lemma_pow2_le(5 + 2 * g, (3 + 2 * h) as nat);
        }
    }
}

/// Counters need as many chunks as each needs by itself.
proof fn lemma_chunk_sum(c: Seq<u64>)
    ensures
        chunks(c) == chunk_sum(c),
    decreases c.len(),
{
    if c.len() > 0 {
        lemma_chunk_sum(c.drop_last());
        assert(fields(c).drop_last() =~= fields(c.drop_last()));
    }
}

/// Counting up keeps the width until the counter is all ones, and then takes one chunk
/// more.
proof fn lemma_field_step(c: u64)
    requires
        c < 0x7fff_ffff_ffff_ffff,
    ensures
        ({
            let next = field_of((c + 1) as u64);
            let w = field_of(c).width;
            if c == pow2(w) - 1 {
                next == (Field {
                    stored: (c + 1) as nat,
                    ..widened(widened(field_of(c), 1, 1), 0, 1)
                }) && w + 2 <= 63
            } else {
                c + 1 < pow2(w) && next == (Field { stored: (c + 1) as nat, ..field_of(c) })
            }
        }),
{
    lemma_field(c);
    let z = chunks_of(c);
    let w = field_of(c).width;
    if c == pow2(w) - 1 {
        lemma_pow2_unfold(w + 1);
        lemma_pow2_unfold(w + 2);
        lemma_pow2_le(1, w);
        vstd::arithmetic::power2::lemma2_to64();
        vstd::arithmetic::power2::lemma2_to64_rest();
        lemma_chunks_is((c + 1) as u64, z + 1);
        if w > 61 {
            assert(w == 63);
        }
    } else {
        lemma_chunks_is((c + 1) as u64, z);
    }
}

/// Every counter fits, and the payload follows from the number of chunks.
proof fn lemma_fields(c: Seq<u64>)
    ensures
        all_fit(fields(c)),
        widths(fields(c)) == 5 * c.len() + 2 * chunks(c),
        metadata(fields(c)).len() == c.len() + chunks(c),
        payload(fields(c)).len() == widths(fields(c)),
    decreases c.len(),
{
    assert forall|i: int| 0 <= i < fields(c).len() implies (#[trigger] fields(c)[i]).fits() by {
        lemma_field(c[i]);
    }
    lemma_lengths(fields(c));
    if c.len() > 0 {
        lemma_fields(c.drop_last());
        assert(fields(c).drop_last() =~= fields(c.drop_last()));
    }
}

/// Bits hold at most one array of counters of a given length.
proof fn lemma_bits_hold_unique(meta: Seq<bool>, pay: Seq<bool>, a: Seq<u64>, b: Seq<u64>)
    requires
        bits_hold(meta, pay, a),
        bits_hold(meta, pay, b),
        a.len() == b.len(),
        a.len() == COUNTER_15_BLOCK_COUNTERS,
    ensures
        a == b,
{
    lemma_fields(a);
    lemma_fields(b);
    lemma_same_gaps(fields(a), fields(b), 170);
    assert forall|i: int| 0 <= i < a.len() implies (#[trigger] fields(a)[i]).width == fields(
        b,
    )[i].width by {
        assert(fields(a)[i].gap == fields(b)[i].gap);
    }
    lemma_same_stored(fields(a), fields(b), 532);
    assert forall|i: int| 0 <= i < a.len() implies a[i] == b[i] by {
        assert(fields(a)[i].stored == fields(b)[i].stored);
    }
    assert(a =~= b);
}

/// Widening a field by two bits of payload puts two zeros in at its end.
proof fn lemma_widen_twice(f: Seq<Field>, i: int, p: int)
    requires
        0 <= i < f.len(),
        all_fit(f),
        widths(f) + 2 <= p,
    ensures
        ({
            let g = f.update(i, widened(widened(f[i], 1, 1), 0, 1));
            let e = (widths(f.take(i)) + f[i].width) as int;
            &&& padded(payload(g), p) == with_zero(
                with_zero(padded(payload(f), p), e).take(p),
                e,
            ).take(p)
            &&& all_fit(g)
            &&& widths(g) == widths(f) + 2
            &&& g.take(i) == f.take(i)
        }),
{
    let h = f.update(i, widened(f[i], 1, 1));
    let g = f.update(i, widened(widened(f[i], 1, 1), 0, 1));
    assert(g =~= h.update(i, widened(h[i], 0, 1)));
    assert(h.take(i) =~= f.take(i));
    assert(g.take(i) =~= f.take(i));
    let e = (widths(f.take(i)) + f[i].width) as int;
    lemma_lengths(f);
    lemma_stored(f, i, p);
    lemma_widen_payload(f, i, 1, p);
    lemma_widen_payload(h, i, 0, p);
    let s = with_zero(padded(payload(f), p), e).take(p);
    assert(padded(payload(h), p) == s);
    assert(padded(payload(g), p) == with_zero(s, e + 1).take(p));
    assert(with_zero(s, e).take(p) =~= with_zero(s, e + 1).take(p));
}

/// The strings of an array whose counter `i` is counted up, in `m` bits of metadata and
/// `p` bits of payload.
proof fn lemma_counted(c: Seq<u64>, i: int, m: int, p: int)
    requires
        0 <= i < c.len(),
        c[i] < 0x7fff_ffff_ffff_ffff,
        c.len() + chunks(c) <= m,
        widths(fields(c)) <= p,
    ensures
        ({
            let f = fields(c);
            let w = f[i].width;
            let start = widths(f.take(i));
            let next = fields(counted(c, i));
            if c[i] == pow2(w) - 1 {
                let wide = padded(
                    payload(f.update(i, widened(widened(f[i], 1, 1), 0, 1))),
                    p,
                );
                let e = (start + w) as int;
                &&& chunks(counted(c, i)) == chunks(c) + 1
                &&& chunks_of((c[i] + 1) as u64) == chunks_of(c[i]) + 1
                &&& c.len() + chunks(c) < m ==> padded(metadata(next), m) == with_zero(
                    padded(metadata(f), m),
                    delimiter_of(f, i),
                ).take(m)
                &&& widths(f) + 2 <= p ==> wide == with_zero(
                    with_zero(padded(payload(f), p), e).take(p),
                    e,
                ).take(p) && start < p && value(padded(payload(next), p)) == value(wide) + pow2(
                    start,
                ) && value(wide) + pow2(start) < pow2(p as nat)
            } else {
                &&& chunks(counted(c, i)) == chunks(c)
                &&& chunks_of((c[i] + 1) as u64) == chunks_of(c[i])
                &&& padded(metadata(next), m) == padded(metadata(f), m)
                &&& start < p
                &&& value(padded(payload(next), p)) == value(padded(payload(f), p)) + pow2(start)
                &&& value(padded(payload(f), p)) + pow2(start) < pow2(p as nat)
            }
        }),
{
    let f = fields(c);
    let w = f[i].width;
    let next = fields(counted(c, i));
    lemma_fields(c);
    lemma_fields(counted(c, i));
    lemma_field_step(c[i]);
    if c[i] == pow2(w) - 1 {
        let h = f.update(i, widened(f[i], 1, 1));
        let g = f.update(i, widened(widened(f[i], 1, 1), 0, 1));
        assert(metadata(next) == metadata(h) && gaps(next) == gaps(h)) by {
            lemma_apart(h, i);
            lemma_apart(next, i);
            assert(next.take(i) =~= h.take(i) && next.skip(i + 1) =~= h.skip(i + 1));
        }
        assert(gaps(h) == gaps(f) + 1) by {
            lemma_widen_metadata(f, i, 1, metadata(f).len() as int + 1);
        }
        if c.len() + chunks(c) < m {
            lemma_widen_metadata(f, i, 1, m);
        }
        if widths(f) + 2 <= p {
            lemma_widen_twice(f, i, p);
            lemma_pow2_unfold(w + 1);
            lemma_pow2_unfold(w + 2);
            lemma_count_up(g, i, p);
            assert(next =~= g.update(i, Field { stored: g[i].stored + 1, ..g[i] }));
        }
    } else {
        lemma_count_up(f, i, p);
        assert(next =~= f.update(i, Field { stored: f[i].stored + 1, ..f[i] }));
    }
}

/// Counts counter `index`, which is `width` bits from payload bit `start` on, up when
/// `enable` holds and there is room for it. Gives the words afterwards, the counter
/// before and whether there was room.
fn count_up(
    meta: &[u64; 3],
    pay: &[u64; 9],
    index: usize,
    start: usize,
    width: usize,
    enable: bool,
    Ghost(c): Ghost<Seq<u64>>,
) -> (r: ([u64; 3], [u64; 9], u64, bool))
    requires
        c.len() == COUNTER_15_BLOCK_COUNTERS,
        index < COUNTER_15_BLOCK_COUNTERS,
        chunks(c) <= COUNTER_15_MAX_CHUNKS,
        c[index as int] <= 0x7fff_ffff_ffff_ffff,
        word_bits(meta@) == padded(metadata(fields(c)), 192),
        word_bits(pay@) == padded(payload(fields(c)), 576),
        start == widths(fields(c).take(index as int)),
        width == field_of(c[index as int]).width,
    ensures
        r.2 == c[index as int],
        r.3 == can_count(c, index as int),
        ({
            let next = if enable && r.3 {
                counted(c, index as int)
            } else {
                c
            };
            &&& word_bits(r.0@) == padded(metadata(fields(next)), 192)
            &&& word_bits(r.1@) == padded(payload(fields(next)), 576)
            &&& chunks(next) <= COUNTER_15_MAX_CHUNKS
        }),
{
    let ghost f = fields(c);
    let ghost i = index as int;
    proof {
        lemma_fields(c);
        lemma_field(c[i]);
        lemma_stored(f, i, 576);
        vstd::arithmetic::power2::lemma2_to64();
        vstd::arithmetic::power2::lemma2_to64_rest();
    }
    let mark: usize = find_delimiter(meta, index, Ghost(f));
    let last: usize = find_last_delimiter(meta, Ghost(f));
    let used_chunks: usize = last - (COUNTER_15_BLOCK_COUNTERS - 1);
    let end: usize = start + width;
    let counter: u64 = extract(pay, start, width);
    let grow: bool = counter == low_bits_mask(width);
    let can_grow: bool = both(
        used_chunks < COUNTER_15_MAX_CHUNKS,
        width + COUNTER_15_CHUNK_BITS <= COUNTER_15_MAX_COUNTER_BITS,
    );
    let can_increment: bool = either(!grow, can_grow);
    let grow_enabled: bool = both(both(grow, can_increment), enable);
    let add_enabled: bool = both(can_increment, enable);
    proof {
        if c[i] < 0x7fff_ffff_ffff_ffff {
            lemma_field_step(c[i]);
            lemma_counted(c, i, 192, 576);
        } else {
            lemma_pow2_le(width as nat, 63);
            if width < 63 {
                lemma_pow2_le(width as nat, 62);
            }
            assert(grow && !can_grow);
        }
        assert(can_increment == can_count(c, i));
    }
    let new_meta: [u64; 3] = insert_zero_bit(meta, mark, grow_enabled);
    let once: [u64; 9] = insert_zero_bit(pay, end, grow_enabled);
    let twice: [u64; 9] = insert_zero_bit(&once, end, grow_enabled);
    let new_pay: [u64; 9] = add_bit(&twice, start, add_enabled);
    proof {
        if add_enabled {
            let next = fields(counted(c, i));
            lemma_fields(counted(c, i));
            lemma_value_injective(word_bits(new_pay@), padded(payload(next), 576));
        }
    }
    (new_meta, new_pay, counter, can_increment)
}

/// A block that holds one `(key, pos)` pair and 64 counters.
#[allow(non_camel_case_types)]
#[derive(Clone, Copy, Debug, PartialEq, Eq)]
pub struct Counter_Block_15 {
    /// The twelve words.
    pub raw: [u64; 12],
}

impl Counter_Block_15 {
    /// The metadata bits.
    pub open spec fn metadata_bits(self) -> Seq<bool> {
        word_bits(self.raw@).subrange(64, 234)
    }

    /// The payload bits.
    pub open spec fn counter_bits(self) -> Seq<bool> {
        word_bits(self.raw@).subrange(234, 766)
    }

    /// Whether the block holds the counters `c`.
    pub open spec fn holds(self, c: Seq<u64>) -> bool {
        &&& c.len() == COUNTER_15_BLOCK_COUNTERS
        &&& bits_hold(self.metadata_bits(), self.counter_bits(), c)
    }

    /// Whether the block holds counters at all.
    pub open spec fn wf(self) -> bool {
        exists|c: Seq<u64>| self.holds(c)
    }

    /// The counters of the block.
    pub open spec fn counters(self) -> Seq<u64> {
        choose|c: Seq<u64>| self.holds(c)
    }

    /// The key of the block.
    pub open spec fn block_key(self) -> u32 {
        low_half(self.raw@[0])
    }

    /// The position of the block.
    pub open spec fn block_pos(self) -> PositionType {
        high_half(self.raw@[0])
    }

    /// The counters that a block holds are the only ones it holds.
    pub proof fn lemma_counters(self, c: Seq<u64>)
        requires
            self.holds(c),
        ensures
            self.wf(),
            self.counters() == c,
    {
        lemma_bits_hold_unique(self.metadata_bits(), self.counter_bits(), c, self.counters());
    }

    /// A counter has five bits and two for each of the least number of chunks that makes
    /// room for it. It cannot be counted up exactly if all its bits are ones and there is
    /// no chunk to be had: it has the 29 that a counter can get, or the counters of the
    /// block have all 106 between them.
    pub proof fn lemma_counting(self, index: int)
        requires
            self.wf(),
            0 <= index < COUNTER_15_BLOCK_COUNTERS,
        ensures
            ({
                let c = self.counters();
                let h = chunks_of(c[index]);
                &&& forall|j: int|
                    0 <= j < COUNTER_15_BLOCK_COUNTERS ==> least_chunks(
                        #[trigger] c[j],
                        chunks_of(c[j]),
                    )
                &&& chunks(c) == chunk_sum(c)
                &&& !can_count(c, index) <==> c[index] == pow2(5 + 2 * h) - 1 && (h == 29
                    || chunk_sum(c) == COUNTER_15_MAX_CHUNKS)
                &&& can_count(c, index) ==> counted(c, index)[index] == c[index] + 1
                &&& forall|j: int|
                    0 <= j < COUNTER_15_BLOCK_COUNTERS && j != index ==> #[trigger] counted(
                        c,
                        index,
                    )[j] == c[j]
            }),
    {
        let c = self.counters();
        let h = chunks_of(c[index]);
        assert forall|j: int| 0 <= j < COUNTER_15_BLOCK_COUNTERS implies least_chunks(
            #[trigger] c[j],
            chunks_of(c[j]),
        ) by {
            lemma_least_chunks(c[j]);
        }
        lemma_chunk_sum(c);
        vstd::arithmetic::power2::lemma2_to64();
        vstd::arithmetic::power2::lemma2_to64_rest();
        if c[index] < 0x7fff_ffff_ffff_ffff {
            lemma_field_step(c[index]);
        } else {
            lemma_chunks_is(c[index], 29);
        }
    }

    /// A vacant block with all its counters zero.
    pub fn new() -> (r: Self)
        ensures
            r.wf(),
            r.block_key() == 0,
            r.block_pos() == DUMMY_POS,
            r.counters() == Seq::new(64, |i: int| 0u64),
    {
        let r = Counter_Block_15 {
            raw: [join(0, DUMMY_POS), u64::MAX, 0, 0, 0, 0, 0, 0, 0, 0, 0, 0],
        };
        proof {
            broadcast use crate::bits::group_bits;

            let c = Seq::new(64, |i: int| 0u64);
            lemma_all_zero(64);
            assert forall|k: int| 64 <= k < 768 implies word_bits(r.raw@)[k] == (k < 128) by {
                if k < 128 {
                    assert(k / 64 == 1);
                } else {
                    assert(r.raw@[k / 64] == 0);
                }
            }
            assert(r.metadata_bits() =~= padded(metadata(fields(c)), 170));
            assert(r.counter_bits() =~= padded(payload(fields(c)), 532));
            r.lemma_counters(c);
        }
        r
    }
    /// Becomes `other` exactly when `choice` holds.
    pub fn cmov(&mut self, other: &Self, choice: bool)
        ensures
            *final(self) == (if choice { *other } else { *old(self) }),
    {
        select_words(&mut self.raw, &other.raw, choice);
    }

    /// Exchanges the two exactly when `choice` holds.
    pub fn cxchg(&mut self, other: &mut Self, choice: bool)
        ensures
            *final(self) == (if choice { *old(other) } else { *old(self) }),
            *final(other) == (if choice { *old(self) } else { *old(other) }),
    {
        exchange_words(&mut self.raw, &mut other.raw, choice);
    }

    /// The block's key.
    pub fn key(&self) -> (r: u32)
        ensures
            r == self.block_key(),
    {
        lower(self.raw[0])
    }

    /// The block's position.
    pub fn pos(&self) -> (r: PositionType)
        ensures
            r == self.block_pos(),
    {
        upper(self.raw[0])
    }

    /// Two blocks that differ in their first word alone hold the same counters.
    proof fn lemma_same_counters(self, other: Self)
        requires
            forall|i: int| 1 <= i < 12 ==> self.raw@[i] == #[trigger] other.raw@[i],
        ensures
            forall|c: Seq<u64>| #[trigger] self.holds(c) == other.holds(c),
            other.wf() ==> self.wf() && self.counters() == other.counters(),
    {
        assert forall|k: int| 64 <= k < 768 implies word_bits(self.raw@)[k] == word_bits(
            other.raw@,
        )[k] by {
            assert(1 <= k / 64 < 12);
            assert(self.raw@[k / 64] == other.raw@[k / 64]);
        }
        assert(self.metadata_bits() =~= other.metadata_bits());
        assert(self.counter_bits() =~= other.counter_bits());
        if other.wf() {
            self.lemma_counters(other.counters());
        }
    }

    /// Sets the block's key and position.
    pub fn set_key_pos(&mut self, key: u32, pos: PositionType)
        ensures
            final(self).block_key() == key,
            final(self).block_pos() == pos,
            forall|c: Seq<u64>| #[trigger] final(self).holds(c) == old(self).holds(c),
            old(self).wf() ==> final(self).wf() && final(self).counters() == old(self).counters(),
    {
        let ghost before = *self;
        self.raw[0] = join(key, pos);
        proof {
            self.lemma_same_counters(before);
        }
    }

    /// Makes the block vacant exactly when `choice` holds, by its position alone.
    pub fn cmov_empty(&mut self, choice: bool)
        ensures
            final(self).block_key() == old(self).block_key(),
            final(self).block_pos() == (if choice { DUMMY_POS } else { old(self).block_pos() }),
            forall|c: Seq<u64>| #[trigger] final(self).holds(c) == old(self).holds(c),
            old(self).wf() ==> final(self).wf() && final(self).counters() == old(self).counters(),
    {
        let ghost before = *self;
        let emptied: u64 = join(lower(self.raw[0]), DUMMY_POS);
        self.raw[0] = select_u64(self.raw[0], emptied, choice);
        proof {
            self.lemma_same_counters(before);
        }
    }

    /// Whether the block is vacant.
    pub fn is_empty(&self) -> (r: bool)
        ensures
            r == (self.block_pos() == DUMMY_POS),
    {
        self.pos() == DUMMY_POS
    }

    /// The value of counter `index`.
    pub fn get_counter(&self, index: usize) -> (r: u64)
        requires
            self.wf(),
            index < COUNTER_15_BLOCK_COUNTERS,
        ensures
            r == self.counters()[index as int],
    {
        let (start, width): (usize, usize) = self.counter_start_width(index);
        let pay: [u64; 9] = self.counter_words();
        proof {
            let c = self.counters();
            lemma_fields(c);
            lemma_field(c[index as int]);
            lemma_stored(fields(c), index as int, 576);
            assert(word_bits(pay@) =~= padded(payload(fields(c)), 576));
        }
        extract(&pay, start, width)
    }

    /// Counts counter `index` up, and tells whether there was room for it.
    pub fn increment_counter(&mut self, index: usize) -> (r: bool)
        requires
            old(self).wf(),
            index < COUNTER_15_BLOCK_COUNTERS,
        ensures
            r == can_count(old(self).counters(), index as int),
            final(self).wf(),
            final(self).block_key() == old(self).block_key(),
            final(self).block_pos() == old(self).block_pos(),
            r ==> final(self).counters() == counted(old(self).counters(), index as int),
            !r ==> *final(self) == *old(self),
    {
        self.get_and_increment_counter(index).1
    }

    /// Gives the value of counter `index` and counts it up; the second part of the
    /// result tells whether there was room for it.
    pub fn get_and_increment_counter(&mut self, index: usize) -> (r: (u64, bool))
        requires
            old(self).wf(),
            index < COUNTER_15_BLOCK_COUNTERS,
        ensures
            r.0 == old(self).counters()[index as int],
            r.1 == can_count(old(self).counters(), index as int),
            final(self).wf(),
            final(self).block_key() == old(self).block_key(),
            final(self).block_pos() == old(self).block_pos(),
            r.1 ==> final(self).counters() == counted(old(self).counters(), index as int),
            !r.1 ==> *final(self) == *old(self),
    {
        self.get_and_increment_counter_if(index, true)
    }

    /// Gives the value of counter `selected_index`, and counts it up when `increment`
    /// holds and there is room for it.
    pub fn access_counter_oblivious(&mut self, selected_index: usize, increment: bool) -> (r: u64)
        requires
            old(self).wf(),
            selected_index < COUNTER_15_BLOCK_COUNTERS,
        ensures
            r == old(self).counters()[selected_index as int],
            final(self).wf(),
            final(self).block_key() == old(self).block_key(),
            final(self).block_pos() == old(self).block_pos(),
            final(self).counters() == (if increment && can_count(
                old(self).counters(),
                selected_index as int,
            ) {
                counted(old(self).counters(), selected_index as int)
            } else {
                old(self).counters()
            }),
    {
        if increment {
            self.get_and_increment_counter(selected_index).0
        } else {
            self.get_counter(selected_index)
        }
    }

    fn get_and_increment_counter_if(&mut self, index: usize, enable: bool) -> (r: (u64, bool))
        requires
            old(self).wf(),
            index < COUNTER_15_BLOCK_COUNTERS,
        ensures
            r.0 == old(self).counters()[index as int],
            r.1 == can_count(old(self).counters(), index as int),
            final(self).wf(),
            final(self).block_key() == old(self).block_key(),
            final(self).block_pos() == old(self).block_pos(),
            enable && r.1 ==> final(self).counters() == counted(
                old(self).counters(),
                index as int,
            ),
            !enable || !r.1 ==> *final(self) == *old(self),
    {
        let ghost c = self.counters();
        let ghost before = *self;
        let meta: [u64; 3] = self.metadata_words();
        let pay: [u64; 9] = self.counter_words();
        let (start, width): (usize, usize) = self.counter_start_width(index);
        proof {
            lemma_fields(c);
            assert(word_bits(meta@) =~= padded(metadata(fields(c)), 192));
            assert(word_bits(pay@) =~= padded(payload(fields(c)), 576));
        }
        let (new_meta, new_pay, counter, done): ([u64; 3], [u64; 9], u64, bool) = count_up(
            &meta,
            &pay,
            index,
            start,
            width,
            enable,
            Ghost(c),
        );
        self.set_metadata_words(new_meta);
        self.set_counter_words(new_pay);
        proof {
            let next = if enable && done {
                counted(c, index as int)
            } else {
                c
            };
            lemma_fields(next);
            assert(self.metadata_bits() =~= padded(metadata(fields(next)), 170));
            assert(self.counter_bits() =~= padded(payload(fields(next)), 532));
            self.lemma_counters(next);
            if !(enable && done) {
                Self::lemma_same_bits(*self, before);
            }
            Self::lemma_header(*self, before);
        }
        (counter, done)
    }

    /// The first word follows from the first 64 bits.
    proof fn lemma_header(a: Self, b: Self)
        requires
            word_bits(a.raw@).take(64) == word_bits(b.raw@).take(64),
        ensures
            a.raw@[0] == b.raw@[0],
    {
        broadcast use vstd::array::group_array_axioms;

        let (s, t) = (word_bits(a.raw@), word_bits(b.raw@));
        assert(s.len() == 768 && t.len() == 768);
        assert forall|j: int| 0 <= j < 64 implies bit(a.raw@[0], j) == bit(b.raw@[0], j) by {
            assert(s.take(64)[j] == s[j]);
            assert(t.take(64)[j] == t[j]);
            assert(j / 64 == 0 && j % 64 == j);
            assert(s[j] == bit(a.raw@[j / 64], j % 64));
            assert(t[j] == bit(b.raw@[j / 64], j % 64));
        }
        crate::bits::lemma_word_eq(a.raw@[0], b.raw@[0]);
    }

    /// A block is made up of its header, its metadata, its payload and the spare bits.
    proof fn lemma_same_bits(a: Self, b: Self)
        requires
            a.metadata_bits() == b.metadata_bits(),
            a.counter_bits() == b.counter_bits(),
            word_bits(a.raw@).take(64) == word_bits(b.raw@).take(64),
            word_bits(a.raw@).skip(766) == word_bits(b.raw@).skip(766),
        ensures
            a == b,
    {
        broadcast use vstd::array::group_array_axioms;

        let (s, t) = (word_bits(a.raw@), word_bits(b.raw@));
        assert(s =~= s.take(64) + s.subrange(64, 234) + s.subrange(234, 766) + s.skip(766));
        assert(t =~= t.take(64) + t.subrange(64, 234) + t.subrange(234, 766) + t.skip(766));
        lemma_words_eq(a.raw@, b.raw@);
        assert(a.raw =~= b.raw);
    }

    /// The first payload bit and the width of counter `index`.
    fn counter_start_width(&self, index: usize) -> (r: (usize, usize))
        requires
            self.wf(),
            index < COUNTER_15_BLOCK_COUNTERS,
        ensures
            r.0 == widths(fields(self.counters()).take(index as int)),
            r.1 == field_of(self.counters()[index as int]).width,
    {
        let meta: [u64; 3] = self.metadata_words();
        let ghost c = self.counters();
        let ghost f = fields(c);
        let ghost i = index as int;
        proof {
            lemma_fields(c);
            lemma_field(c[i]);
            lemma_apart(f, i);
            assert(word_bits(meta@) =~= padded(metadata(f), 192));
            lemma_fields(c.take(i));
            assert(f.take(i) =~= fields(c.take(i)));
            assert(f.take(0) =~= Seq::<Field>::empty());
        }
        let rank: usize = select_usize(index.wrapping_sub(1), 0, index == 0);
        let previous: usize = find_delimiter(&meta, rank, Ghost(f));
        let before: usize = select_usize(previous.wrapping_sub(rank), 0, index == 0);
        let mark: usize = find_delimiter(&meta, index, Ghost(f));
        let chunk_count: usize = mark - index - before;
        (
            index * COUNTER_15_BASE_BITS + before * COUNTER_15_CHUNK_BITS,
            COUNTER_15_BASE_BITS + chunk_count * COUNTER_15_CHUNK_BITS,
        )
    }

    /// The metadata, followed by zeros.
    pub fn metadata_words(&self) -> (r: [u64; 3])
        ensures
            word_bits(r@) == padded(self.metadata_bits(), 192),
    {
        let mut r: [u64; 3] = [0; 3];
        proof {
            lemma_no_bits(r@);
        }
        copy_bits(&mut r, 0, &self.raw, METADATA_BIT_OFFSET, COUNTER_15_METADATA_BITS);
        proof {
            assert(word_bits(r@) =~= padded(self.metadata_bits(), 192));
        }
        r
    }

    /// Replaces the metadata.
    pub fn set_metadata_words(&mut self, words: [u64; 3])
        ensures
            final(self).metadata_bits() == word_bits(words@).take(170),
            final(self).counter_bits() == old(self).counter_bits(),
            word_bits(final(self).raw@).take(64) == word_bits(old(self).raw@).take(64),
            word_bits(final(self).raw@).skip(766) == word_bits(old(self).raw@).skip(766),
    {
        copy_bits(&mut self.raw, METADATA_BIT_OFFSET, &words, 0, COUNTER_15_METADATA_BITS);
    }

    /// The payload, followed by zeros.
    pub fn counter_words(&self) -> (r: [u64; 9])
        ensures
            word_bits(r@) == padded(self.counter_bits(), 576),
    {
        let mut r: [u64; 9] = [0; 9];
        proof {
            lemma_no_bits(r@);
        }
        copy_bits(&mut r, 0, &self.raw, COUNTER_BIT_OFFSET, COUNTER_15_COUNTER_BITS);
        proof {
            assert(word_bits(r@) =~= padded(self.counter_bits(), 576));
        }
        r
    }

    /// Replaces the payload.
    pub fn set_counter_words(&mut self, words: [u64; 9])
        ensures
            final(self).counter_bits() == word_bits(words@).take(532),
            final(self).metadata_bits() == old(self).metadata_bits(),
            word_bits(final(self).raw@).take(64) == word_bits(old(self).raw@).take(64),
            word_bits(final(self).raw@).skip(766) == word_bits(old(self).raw@).skip(766),
    {
        copy_bits(&mut self.raw, COUNTER_BIT_OFFSET, &words, 0, COUNTER_15_COUNTER_BITS);
    }
}

impl Default for Counter_Block_15 {
    fn default() -> (r: Self)
        ensures
            r.wf(),
            r.block_key() == 0,
            r.block_pos() == DUMMY_POS,
            r.counters() == Seq::new(64, |i: int| 0u64),
    {
        Counter_Block_15::new()
    }
}

/// Zero words hold zero bits.
proof fn lemma_no_bits(words: Seq<u64>)
    requires
        forall|i: int| 0 <= i < words.len() ==> words[i] == 0,
    ensures
        word_bits(words) == zeros(64 * words.len() as int),
{
    broadcast use crate::bits::group_bits;

    assert(word_bits(words) =~= zeros(64 * words.len() as int)) by {
        assert forall|k: int| 0 <= k < 64 * words.len() implies !word_bits(words)[k] by {
            assert(words[k / 64] == 0);
        }
    }
}

/// Counters that are all zero take one delimiter each and five zeros of payload.
proof fn lemma_all_zero(n: nat)
    ensures
        metadata(fields(Seq::new(n, |i: int| 0u64))) == Seq::new(n, |i: int| true),
        payload(fields(Seq::new(n, |i: int| 0u64))) == zeros(5 * n as int),
        chunks(Seq::new(n, |i: int| 0u64)) == 0,
    decreases n,
{
    let c = Seq::new(n, |i: int| 0u64);
    if n > 0 {
        let m = (n - 1) as nat;
        lemma_all_zero(m);
        assert(fields(c).drop_last() =~= fields(Seq::new(m, |i: int| 0u64)));
        assert(fields(c).last() == field_of(0));
        assert(crate::bits::bits_of(0, 5) =~= zeros(5)) by {
            vstd::arithmetic::power2::lemma2_to64();
            crate::bits::lemma_bits_of(0, 5);
            crate::bits::lemma_value_zeros(5);
            lemma_value_injective(crate::bits::bits_of(0, 5), zeros(5));
        }
        assert(crate::packing::unary(0) =~= seq![true]);
        assert(Seq::new(n, |i: int| true) =~= Seq::new(m, |i: int| true) + seq![true]);
        assert(zeros(5 * m as int) + zeros(5) =~= zeros(5 * n as int));
    } else {
        assert(Seq::<bool>::empty() =~= zeros(0));
    }
}

/// An oblivious RAM bucket of two blocks.
#[allow(non_camel_case_types)]
#[derive(Clone, Copy, Debug, PartialEq, Eq)]
pub struct Cacheline_Counter_Bucket_15 {
    /// The two blocks.
    pub blocks: [Counter_Block_15; 2],
}

impl Default for Cacheline_Counter_Bucket_15 {
    fn default() -> (r: Self)
        ensures
            forall|i: int|
                0 <= i < 2 ==> (#[trigger] r.blocks@[i]).wf() && r.blocks@[i].block_key() == 0
                    && r.blocks@[i].block_pos() == DUMMY_POS && r.blocks@[i].counters() == Seq::new(
                    64,
                    |j: int| 0u64,
                ),
    {
        Cacheline_Counter_Bucket_15 { blocks: [Counter_Block_15::new(), Counter_Block_15::new()] }
    }
}

} // verus!
