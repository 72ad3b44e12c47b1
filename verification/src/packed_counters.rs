//! Counters packed at the least width that holds them.
//!
//! A counter of value zero takes no payload. Any other counter `c` is written as
//! `c - 1` in the fewest bits that hold it, at least one and at most 64; the run
//! of zeros before its delimiter is as long as its payload.
use vstd::arithmetic::power2::{lemma_pow2_unfold, pow2};
use vstd::prelude::*;
use crate::bits::{
    add_bit, bit_length, extract, insert_zero_bit, lemma_bit_length, lemma_bit_length_is,
    lemma_pow2_le, lemma_value_injective, lemma_words_eq, low_bits_mask, ones, padded, select_u64,
    select_usize, value, with_zero, word_bits,
};
use crate::oblivious::{both, either};
use crate::packing::{
    all_fit, delimiter_of, find_delimiter, find_last_delimiter, gaps, lemma_apart, lemma_concat,
    lemma_count_up, lemma_lengths, lemma_same_gaps, lemma_same_stored, lemma_stored,
    lemma_widen_metadata, lemma_widen_payload, metadata, payload, widened, widths, Field,
};

verus! {

/// The payload bits of a counter.
pub open spec fn width_of(c: u64) -> nat {
    if c == 0 {
        0
    } else if c == 1 {
        1
    } else {
        bit_length((c - 1) as nat)
    }
}

/// How a counter is packed.
pub open spec fn field_of(c: u64) -> Field {
    Field {
        gap: width_of(c),
        width: width_of(c),
        stored: if c == 0 {
            0
        } else {
            (c - 1) as nat
        },
    }
}

/// How an array of counters is packed.
pub open spec fn fields(c: Seq<u64>) -> Seq<Field> {
    Seq::new(c.len(), |i: int| field_of(c[i]))
}

/// The payload bits of an array of counters.
pub open spec fn used(c: Seq<u64>) -> nat {
    widths(fields(c))
}

/// Whether the metadata words and the payload words hold the counters `c`, and zeros
/// after them.
pub open spec fn packed(meta: Seq<u64>, pay: Seq<u64>, c: Seq<u64>) -> bool {
    &&& c.len() + used(c) <= 64 * meta.len()
    &&& used(c) <= 64 * pay.len()
    &&& word_bits(meta) == padded(metadata(fields(c)), 64 * meta.len() as int)
    &&& word_bits(pay) == padded(payload(fields(c)), 64 * pay.len() as int)
}

/// Whether counter `index` can be counted up with at most `limit` payload bits in use.
pub open spec fn can_count(c: Seq<u64>, index: int, limit: nat) -> bool {
    &&& c[index] < u64::MAX
    &&& width_of((c[index] + 1) as u64) == width_of(c[index]) || used(c) < limit
}

/// The counters with counter `index` one higher.
pub open spec fn counted(c: Seq<u64>, index: int) -> Seq<u64> {
    c.update(index, (c[index] + 1) as u64)
}

/// A counter fits in its width, and its width is at most 64.
pub proof fn lemma_field(c: u64)
    ensures
        field_of(c).fits(),
        width_of(c) <= 64,
        width_of(c) == 0 <==> c == 0,
{
    vstd::arithmetic::power2::lemma2_to64();
    vstd::arithmetic::power2::lemma2_to64_rest();
    if c > 1 {
        let v = (c - 1) as nat;
        lemma_bit_length(v);
        if bit_length(v) > 64 {
            lemma_pow2_le(64, (bit_length(v) - 1) as nat);
        }
    }
}

/// Counting up keeps the width until the stored number is all ones, and then takes one
/// bit more.
pub proof fn lemma_field_step(c: u64)
    requires
        c < u64::MAX,
    ensures
        ({
            let next = field_of((c + 1) as u64);
            let w = width_of(c);
            if c == 0 {
                next == widened(field_of(c), 1, 1)
            } else if c == pow2(w) {
                next == (Field { stored: c as nat, ..widened(field_of(c), 1, 1) })
            } else {
                c < pow2(w) && next == (Field { stored: c as nat, ..field_of(c) })
            }
        }),
{
    vstd::arithmetic::power2::lemma2_to64();
    lemma_field(c);
    if c > 0 {
        let w = width_of(c);
        let v = c as nat;
        lemma_pow2_unfold(w + 1);
        if v == pow2(w) {
            lemma_bit_length_is(v, w + 1);
        } else if c == 1 {
            lemma_bit_length_is(1, 1);
        } else {
            lemma_bit_length((c - 1) as nat);
            lemma_bit_length_is(v, w);
        }
    }
}

/// Every counter fits, and an array takes as many zeros of metadata as payload bits.
pub proof fn lemma_fields(c: Seq<u64>)
    ensures
        all_fit(fields(c)),
        gaps(fields(c)) == used(c),
        metadata(fields(c)).len() == c.len() + used(c),
        payload(fields(c)).len() == used(c),
        ones(metadata(fields(c))) == c.len(),
    decreases c.len(),
{
    assert forall|i: int| 0 <= i < fields(c).len() implies (#[trigger] fields(c)[i]).fits() by {
        lemma_field(c[i]);
    }
    lemma_lengths(fields(c));
    if c.len() > 0 {
        lemma_fields(c.drop_last());
        assert(fields(c).drop_last() =~= fields(c.drop_last()));
    }
}

/// The packed strings of two arrays, one after the other.
pub proof fn lemma_fields_concat(a: Seq<u64>, b: Seq<u64>)
    ensures
        metadata(fields(a + b)) == metadata(fields(a)) + metadata(fields(b)),
        payload(fields(a + b)) == payload(fields(a)) + payload(fields(b)),
        used(a + b) == used(a) + used(b),
{
    assert(fields(a + b) =~= fields(a) + fields(b));
    lemma_concat(fields(a), fields(b));
}

/// The payload bits up to a counter are at most those of the whole array.
pub proof fn lemma_used_take(c: Seq<u64>, i: int)
    requires
        0 <= i <= c.len(),
    ensures
        widths(fields(c).take(i)) == used(c.take(i)),
        used(c.take(i)) <= used(c),
        i < c.len() ==> used(c.take(i + 1)) == used(c.take(i)) + width_of(c[i]),
{
    assert(fields(c).take(i) =~= fields(c.take(i)));
    assert(c.take(i) + c.skip(i) =~= c);
    lemma_fields_concat(c.take(i), c.skip(i));
    if i < c.len() {
        assert(fields(c.take(i + 1)).drop_last() =~= fields(c.take(i)));
    }
}

/// Words hold at most one array of counters of a given length.
pub proof fn lemma_packed_unique(meta: Seq<u64>, pay: Seq<u64>, a: Seq<u64>, b: Seq<u64>)
    requires
        packed(meta, pay, a),
        packed(meta, pay, b),
        a.len() == b.len(),
    ensures
        a == b,
{
    lemma_fields(a);
    lemma_fields(b);
    lemma_same_gaps(fields(a), fields(b), 64 * meta.len() as int);
    assert forall|i: int| 0 <= i < a.len() implies (#[trigger] fields(a)[i]).width == fields(
        b,
    )[i].width by {
        assert(fields(a)[i].gap == fields(b)[i].gap);
    }
    lemma_same_stored(fields(a), fields(b), 64 * pay.len() as int);
    assert forall|i: int| 0 <= i < a.len() implies a[i] == b[i] by {
        assert(fields(a)[i].gap == fields(b)[i].gap);
        assert(fields(a)[i].stored == fields(b)[i].stored);
        lemma_field(a[i]);
        lemma_field(b[i]);
    }
    assert(a =~= b);
}

/// An array of counters is held by one choice of words only.
pub proof fn lemma_packed_canonical(
    meta: Seq<u64>,
    pay: Seq<u64>,
    meta2: Seq<u64>,
    pay2: Seq<u64>,
    c: Seq<u64>,
)
    requires
        packed(meta, pay, c),
        packed(meta2, pay2, c),
        meta.len() == meta2.len(),
        pay.len() == pay2.len(),
    ensures
        meta == meta2,
        pay == pay2,
{
    lemma_words_eq(meta, meta2);
    lemma_words_eq(pay, pay2);
}

/// Where a counter stands.
#[derive(Clone, Copy, Debug, PartialEq, Eq, Structural)]
pub struct CounterLocation {
    /// First payload bit of the counter.
    pub start: usize,
    /// Number of payload bits of the counter.
    pub width: usize,
    /// Place of the counter's delimiter in the metadata.
    pub delimiter: usize,
    /// Payload bits of all the counters together.
    pub used_bits: usize,
}

impl CounterLocation {
    /// Whether this is where counter `index` of `c` stands.
    pub open spec fn locates(self, c: Seq<u64>, index: int) -> bool {
        &&& self.start == used(c.take(index))
        &&& self.width == width_of(c[index])
        &&& self.delimiter == used(c.take(index + 1)) + index
        &&& self.used_bits == used(c)
    }
}

/// The place of the delimiter of counter `index`.
fn delimiter<const M: usize>(meta: &[u64; M], index: usize, Ghost(c): Ghost<Seq<u64>>) -> (r: usize)
    requires
        64 * M < usize::MAX,
        index < c.len(),
        c.len() + used(c) <= 64 * M,
        word_bits(meta@) == padded(metadata(fields(c)), 64 * M as int),
    ensures
        r == used(c.take(index + 1)) + index,
        r < 64 * M,
{
    proof {
        lemma_fields(c);
        lemma_used_take(c, index + 1);
        lemma_fields(c.take(index + 1));
        assert(fields(c).take(index + 1) =~= fields(c.take(index + 1)));
    }
    find_delimiter(meta, index, Ghost(fields(c)))
}

/// The payload bits of the counters before counter `index`.
pub(crate) fn payload_end_for_index<const M: usize>(
    meta: &[u64; M],
    index: usize,
    Ghost(c): Ghost<Seq<u64>>,
) -> (r: usize)
    requires
        64 * M < usize::MAX,
        0 < c.len(),
        index <= c.len(),
        c.len() + used(c) <= 64 * M,
        word_bits(meta@) == padded(metadata(fields(c)), 64 * M as int),
    ensures
        r == used(c.take(index as int)),
{
    let rank: usize = select_usize(index.wrapping_sub(1), 0, index == 0);
    let end: usize = delimiter(meta, rank, Ghost(c));
    proof {
        assert(c.take(0) =~= Seq::empty());
    }
    select_usize(end.wrapping_sub(rank), 0, index == 0)
}

/// Where counter `index` of `count` counters stands.
pub(crate) fn locate<const M: usize>(
    meta: &[u64; M],
    index: usize,
    count: usize,
    Ghost(c): Ghost<Seq<u64>>,
) -> (r: CounterLocation)
    requires
        64 * M < usize::MAX,
        index < c.len(),
        count == c.len(),
        c.len() + used(c) <= 64 * M,
        word_bits(meta@) == padded(metadata(fields(c)), 64 * M as int),
    ensures
        r.locates(c, index as int),
{
    let start: usize = payload_end_for_index(meta, index, Ghost(c));
    let mark: usize = delimiter(meta, index, Ghost(c));
    proof {
        lemma_fields(c);
        lemma_used_take(c, index as int);
    }
    let last: usize = find_last_delimiter(meta, Ghost(fields(c)));
    CounterLocation {
        start,
        width: mark - index - start,
        delimiter: mark,
        used_bits: last - (count - 1),
    }
}

/// What the payload holds for a counter, turned into the counter.
fn counter_from(stored: u64, width: usize) -> (r: u64)
    requires
        width > 0 ==> stored < u64::MAX,
    ensures
        r == (if width == 0 { 0 } else { stored + 1 }),
{
    select_u64(0, stored.wrapping_add(1), width != 0)
}

/// The payload of a counter.
fn stored_at<const P: usize>(
    pay: &[u64; P],
    start: usize,
    width: usize,
    index: usize,
    Ghost(c): Ghost<Seq<u64>>,
) -> (r: u64)
    requires
        index < c.len(),
        used(c) <= 64 * P,
        word_bits(pay@) == padded(payload(fields(c)), 64 * P as int),
        start == used(c.take(index as int)),
        width == width_of(c[index as int]),
    ensures
        r == field_of(c[index as int]).stored,
{
    proof {
        lemma_fields(c);
        lemma_used_take(c, index as int);
        lemma_used_take(c, index + 1);
        lemma_stored(fields(c), index as int, 64 * P as int);
        lemma_field(c[index as int]);
    }
    extract(pay, start, width)
}

/// The value of counter `index`.
pub(crate) fn read_counter<const M: usize, const P: usize>(
    meta: &[u64; M],
    pay: &[u64; P],
    index: usize,
    Ghost(c): Ghost<Seq<u64>>,
) -> (r: u64)
    requires
        64 * M < usize::MAX,
        index < c.len(),
        packed(meta@, pay@, c),
    ensures
        r == c[index as int],
{
    let start: usize = payload_end_for_index(meta, index, Ghost(c));
    let end: usize = payload_end_for_index(meta, index + 1, Ghost(c));
    proof {
        lemma_used_take(c, index as int);
        lemma_field(c[index as int]);
    }
    let width: usize = end - start;
    let stored: u64 = stored_at(pay, start, width, index, Ghost(c));
    counter_from(stored, width)
}

/// What counting up a packed counter gives.
pub(crate) struct Counted<const M: usize, const P: usize> {
    /// The metadata afterwards.
    pub meta: [u64; M],
    /// The payload afterwards.
    pub pay: [u64; P],
    /// The counter before.
    pub old_value: u64,
    /// Whether there was room to count up.
    pub counted: bool,
    /// Whether a payload bit was taken.
    pub grew: bool,
}

/// The strings of an array whose counter `i` is counted up.
proof fn lemma_counted(c: Seq<u64>, i: int, m: int, p: int)
    requires
        0 <= i < c.len(),
        c[i] < u64::MAX,
        c.len() + used(c) <= m,
        used(c) <= p,
    ensures
        ({
            let f = fields(c);
            let w = width_of(c[i]);
            let start = used(c.take(i));
            let next = fields(counted(c, i));
            if c[i] == 0 || c[i] == pow2(w) {
                let wide = padded(payload(f.update(i, widened(f[i], 1, 1))), p);
                &&& used(counted(c, i)) == used(c) + 1
                &&& width_of((c[i] + 1) as u64) == w + 1
                &&& c.len() + used(c) < m ==> padded(metadata(next), m) == with_zero(
                    padded(metadata(f), m),
                    used(c.take(i + 1)) + i,
                ).take(m)
                &&& used(c) < p ==> wide == with_zero(padded(payload(f), p), (start + w) as int).take(
                    p,
                )
                &&& c[i] == 0 ==> padded(payload(next), p) == wide
                &&& c[i] > 0 && used(c) < p ==> start < p && value(padded(payload(next), p))
                    == value(wide) + pow2(start) && value(wide) + pow2(start) < pow2(p as nat)
            } else {
                &&& used(counted(c, i)) == used(c)
                &&& width_of((c[i] + 1) as u64) == w
                &&& padded(metadata(next), m) == padded(metadata(f), m)
                &&& start < p
                &&& value(padded(payload(next), p)) == value(padded(payload(f), p)) + pow2(start)
                &&& value(padded(payload(f), p)) + pow2(start) < pow2(p as nat)
            }
        }),
{
    let f = fields(c);
    let w = width_of(c[i]);
    let next = fields(counted(c, i));
    lemma_fields(c);
    lemma_fields(counted(c, i));
    lemma_field_step(c[i]);
    lemma_used_take(c, i);
    lemma_used_take(c, i + 1);
    lemma_fields(c.take(i + 1));
    assert(f.take(i + 1) =~= fields(c.take(i + 1)));
    assert(delimiter_of(f, i) == used(c.take(i + 1)) + i);
    if c[i] == 0 || c[i] == pow2(w) {
        let g = f.update(i, widened(f[i], 1, 1));
        lemma_apart(f, i);
        lemma_apart(g, i);
        lemma_apart(next, i);
        assert(g.take(i) =~= f.take(i));
        assert(g.skip(i + 1) =~= f.skip(i + 1));
        assert(next.take(i) =~= f.take(i));
        assert(next.skip(i + 1) =~= f.skip(i + 1));
        assert(metadata(next) == metadata(g));
        if c.len() + used(c) < m {
            lemma_widen_metadata(f, i, 1, m);
        }
        if c[i] == 0 {
            assert(next =~= g);
        }
        if used(c) < p {
            lemma_widen_payload(f, i, 1, p);
            if c[i] > 0 {
                lemma_pow2_unfold(w + 1);
                lemma_count_up(g, i, p);
                assert(next =~= g.update(i, Field { stored: g[i].stored + 1, ..g[i] }));
            }
        }
    } else {
        lemma_count_up(f, i, p);
        assert(next =~= f.update(i, Field { stored: f[i].stored + 1, ..f[i] }));
    }
}

/// Counting up takes one payload bit more when the width of the counter changes, and
/// none otherwise.
pub proof fn lemma_used_counted(c: Seq<u64>, i: int)
    requires
        0 <= i < c.len(),
        c[i] < u64::MAX,
    ensures
        used(counted(c, i)) == used(c) + (if width_of((c[i] + 1) as u64) == width_of(c[i]) {
            0int
        } else {
            1
        }),
{
    lemma_counted(c, i, (c.len() + used(c)) as int, used(c) as int);
}

/// Counts counter `index` up when `enable` holds and there is room for it within
/// `limit` payload bits.
pub(crate) fn count_up<const M: usize, const P: usize>(
    meta: &[u64; M],
    pay: &[u64; P],
    index: usize,
    count: usize,
    limit: usize,
    enable: bool,
    Ghost(c): Ghost<Seq<u64>>,
) -> (r: Counted<M, P>)
    requires
        64 * M < usize::MAX,
        64 * P < usize::MAX,
        count == c.len(),
        index < count,
        packed(meta@, pay@, c),
        count + limit <= 64 * M,
        limit <= 64 * P,
    ensures
        r.old_value == c[index as int],
        r.counted == can_count(c, index as int, limit as nat),
        enable && r.counted ==> packed(r.meta@, r.pay@, counted(c, index as int)),
        !enable || !r.counted ==> r.meta == meta && r.pay == pay,
        r.grew == (enable && r.counted && width_of((c[index as int] + 1) as u64) != width_of(
            c[index as int],
        )),
        enable && r.counted ==> used(counted(c, index as int)) == used(c) + r.grew as int,
{
    let at: CounterLocation = locate(meta, index, count, Ghost(c));
    let ghost i = index as int;
    let ghost value_before = c[i];
    proof {
        lemma_used_take(c, i);
        lemma_used_take(c, i + 1);
        lemma_field(c[i]);
        lemma_fields(c);
        vstd::arithmetic::power2::lemma2_to64();
        vstd::arithmetic::power2::lemma2_to64_rest();
    }
    let end: usize = at.start + at.width;
    let stored: u64 = stored_at(pay, at.start, at.width, index, Ghost(c));
    let old_value: u64 = counter_from(stored, at.width);
    let grow: bool = either(at.width == 0, stored == low_bits_mask(at.width));
    let has_free_bit: bool = at.used_bits < limit;
    let can_grow: bool = both(has_free_bit, at.width < 64);
    let would_overflow: bool = both(at.width == 64, stored >= u64::MAX - 1);
    let can_increment: bool = both(either(!grow, can_grow), !would_overflow);
    let grow_enabled: bool = both(both(grow, can_increment), enable);
    let add_enabled: bool = both(both(can_increment, at.width != 0), enable);
    proof {
        assert(grow == (c[i] == 0 || c[i] == pow2(width_of(c[i]))));
        if c[i] < u64::MAX {
            lemma_counted(c, i, 64 * M as int, 64 * P as int);
            if width_of(c[i]) == 64 {
                assert(!grow);
            }
        } else {
            lemma_bit_length((c[i] - 1) as nat);
            if width_of(c[i]) < 64 {
                lemma_pow2_le(width_of(c[i]), 63);
            }
            assert(would_overflow);
        }
        assert(can_increment == can_count(c, i, limit as nat));
    }
    let new_meta: [u64; M] = insert_zero_bit(meta, at.delimiter, grow_enabled);
    let wide: [u64; P] = insert_zero_bit(pay, end, grow_enabled);
    let new_pay: [u64; P] = add_bit(&wide, at.start, add_enabled);
    proof {
        if enable && can_increment {
            let next = fields(counted(c, i));
            lemma_fields(counted(c, i));
            if add_enabled {
                assert(value(word_bits(new_pay@)) == value(padded(payload(next), 64 * P as int)));
                lemma_value_injective(word_bits(new_pay@), padded(payload(next), 64 * P as int));
            }
            assert(packed(new_meta@, new_pay@, counted(c, i)));
        }
    }
    Counted {
        meta: new_meta,
        pay: new_pay,
        old_value,
        counted: can_increment,
        grew: grow_enabled,
    }
}

} // verus!
