//! Bit strings held in arrays of 64-bit words, lowest bit first.
//!
//! Every operation touches all the words it is given and selects with masks, so
//! the words that it reads do not depend on the bit positions it is asked about.
use vstd::arithmetic::power2::{lemma_pow2_adds, lemma_pow2_pos, lemma_pow2_unfold, pow2};
use vstd::prelude::*;
use crate::oblivious::{both, cmov_usize};

verus! {

/// Bit `j` of `w`, counted from the lowest.
pub closed spec fn bit(w: u64, j: int) -> bool {
    (w >> (j as u64)) & 1 == 1
}

/// The bits of the words, the lowest bit of the first word first.
pub open spec fn word_bits(words: Seq<u64>) -> Seq<bool> {
    Seq::new(64 * words.len(), |i: int| bit(words[i / 64], i % 64))
}

/// Bit `i` of the words, zero past their end.
pub open spec fn bit_at(words: Seq<u64>, i: int) -> bool {
    0 <= i < 64 * words.len() && bit(words[i / 64], i % 64)
}

/// `n` zero bits.
pub open spec fn zeros(n: int) -> Seq<bool> {
    Seq::new(
        if n > 0 {
            n as nat
        } else {
            0
        },
        |i: int| false,
    )
}

/// The bits `s` followed by zeros up to length `n`.
pub open spec fn padded(s: Seq<bool>, n: int) -> Seq<bool> {
    s + zeros(n - s.len())
}

/// The number that the bits stand for.
pub open spec fn value(s: Seq<bool>) -> nat
    decreases s.len(),
{
    if s.len() == 0 {
        0
    } else {
        (if s[0] { 1nat } else { 0nat }) + 2 * value(s.drop_first())
    }
}

/// The lowest `w` bits of `v`.
pub open spec fn bits_of(v: nat, w: nat) -> Seq<bool>
    decreases w,
{
    if w == 0 {
        Seq::empty()
    } else {
        seq![v % 2 == 1] + bits_of(v / 2, (w - 1) as nat)
    }
}

/// The number of bits needed to write `v`.
pub open spec fn bit_length(v: nat) -> nat
    decreases v,
{
    if v == 0 {
        0
    } else {
        1 + bit_length(v / 2)
    }
}

/// The number of one bits.
pub open spec fn ones(s: Seq<bool>) -> nat
    decreases s.len(),
{
    if s.len() == 0 {
        0
    } else {
        ones(s.drop_last()) + (if s.last() { 1nat } else { 0nat })
    }
}

/// The bits with one zero put in before bit `at`.
pub open spec fn with_zero(s: Seq<bool>, at: int) -> Seq<bool> {
    s.take(at) + seq![false] + s.skip(at)
}

pub broadcast proof fn lemma_bit_and(a: u64, b: u64, j: int)
    requires
        0 <= j < 64,
    ensures
        #[trigger] bit(a & b, j) == (bit(a, j) && bit(b, j)),
{
    let k = j as u64;
    assert((((a & b) >> k) & 1 == 1) == ((a >> k) & 1 == 1 && (b >> k) & 1 == 1)) by (bit_vector);
}

pub broadcast proof fn lemma_bit_or(a: u64, b: u64, j: int)
    requires
        0 <= j < 64,
    ensures
        #[trigger] bit(a | b, j) == (bit(a, j) || bit(b, j)),
{
    let k = j as u64;
    assert((((a | b) >> k) & 1 == 1) == ((a >> k) & 1 == 1 || (b >> k) & 1 == 1)) by (bit_vector);
}

pub broadcast proof fn lemma_bit_not(a: u64, j: int)
    requires
        0 <= j < 64,
    ensures
        #[trigger] bit(!a, j) == !bit(a, j),
{
    let k = j as u64;
    assert((((!a) >> k) & 1 == 1) == !((a >> k) & 1 == 1)) by (bit_vector)
        requires
            k < 64,
    ;
}

pub broadcast proof fn lemma_bit_shl(a: u64, s: u64, j: int)
    requires
        0 <= j < 64,
        s < 64,
    ensures
        #[trigger] bit(a << s, j) == (j >= s && bit(a, j - s)),
{
    let k = j as u64;
    if j >= s {
        let d = (j - s) as u64;
        assert((((a << s) >> k) & 1 == 1) == ((a >> d) & 1 == 1)) by (bit_vector)
            requires
                k < 64,
                s <= k,
                d == k - s,
        ;
    } else {
        assert(!(((a << s) >> k) & 1 == 1)) by (bit_vector)
            requires
                k < s,
                s < 64,
        ;
    }
}

pub broadcast proof fn lemma_bit_shr(a: u64, s: u64, j: int)
    requires
        0 <= j < 64,
        s < 64,
    ensures
        #[trigger] bit(a >> s, j) == (j + s < 64 && bit(a, j + s)),
{
    let k = j as u64;
    let d = (j + s) as u64;
    assert((((a >> s) >> k) & 1 == 1) == (d < 64 && (a >> d) & 1 == 1)) by (bit_vector)
        requires
            k < 64,
            s < 64,
            d == k + s,
    ;
}

pub broadcast proof fn lemma_bit_constant(j: int)
    requires
        0 <= j < 64,
    ensures
        #![trigger bit(0, j)]
        #![trigger bit(u64::MAX, j)]
        !bit(0, j),
        bit(u64::MAX, j),
{
    let k = j as u64;
    assert(!((0u64 >> k) & 1 == 1) && (0xffff_ffff_ffff_ffffu64 >> k) & 1 == 1) by (bit_vector)
        requires
            k < 64,
    ;
}

pub broadcast group group_bits {
    lemma_bit_and,
    lemma_bit_or,
    lemma_bit_not,
    lemma_bit_shl,
    lemma_bit_shr,
    lemma_bit_constant,
}

/// The value of a string of bits is below two to its length.
pub proof fn lemma_value_bound(s: Seq<bool>)
    ensures
        value(s) < pow2(s.len()),
    decreases s.len(),
{
    if s.len() > 0 {
        lemma_value_bound(s.drop_first());
        lemma_pow2_unfold(s.len());
    } else {
        lemma_pow2_pos(0);
    }
}

/// The value of a concatenation.
pub proof fn lemma_value_concat(a: Seq<bool>, b: Seq<bool>)
    ensures
        value(a + b) == value(a) + pow2(a.len()) * value(b),
    decreases a.len(),
{
    if a.len() == 0 {
        assert(a + b =~= b);
        assert(pow2(0) == 1) by {
            vstd::arithmetic::power2::lemma2_to64();
        }
    } else {
        let s = a + b;
        assert(s.drop_first() =~= a.drop_first() + b);
        lemma_value_concat(a.drop_first(), b);
        lemma_pow2_unfold(a.len());
        let p = pow2((a.len() - 1) as nat);
        let v = value(b);
        assert(2 * (p * v) == (2 * p) * v) by (nonlinear_arith);
    }
}

/// Zero bits have the value zero.
pub proof fn lemma_value_zeros(n: int)
    ensures
        value(zeros(n)) == 0,
    decreases n,
{
    if n > 0 {
        assert(zeros(n).drop_first() =~= zeros(n - 1));
        lemma_value_zeros(n - 1);
    }
}

/// Padding with zeros keeps the value.
pub proof fn lemma_value_padded(s: Seq<bool>, n: int)
    ensures
        value(padded(s, n)) == value(s),
{
    lemma_value_concat(s, zeros(n - s.len()));
    lemma_value_zeros(n - s.len());
    assert(pow2(s.len()) * 0 == 0) by (nonlinear_arith);
}

/// Strings of one length with the same value are the same.
pub proof fn lemma_value_injective(a: Seq<bool>, b: Seq<bool>)
    requires
        a.len() == b.len(),
        value(a) == value(b),
    ensures
        a == b,
    decreases a.len(),
{
    if a.len() > 0 {
        lemma_value_injective(a.drop_first(), b.drop_first());
        assert(a =~= seq![a[0]] + a.drop_first());
        assert(b =~= seq![b[0]] + b.drop_first());
    }
}

/// A number below two to the `w` is the value of its lowest `w` bits.
pub proof fn lemma_bits_of(v: nat, w: nat)
    requires
        v < pow2(w),
    ensures
        bits_of(v, w).len() == w,
        value(bits_of(v, w)) == v,
    decreases w,
{
    if w == 0 {
        vstd::arithmetic::power2::lemma2_to64();
    } else {
        lemma_pow2_unfold(w);
        lemma_bits_of(v / 2, (w - 1) as nat);
        assert(bits_of(v, w).drop_first() =~= bits_of(v / 2, (w - 1) as nat));
    }
}

/// The lowest bits of a number are the leading part of any longer string of them.
pub proof fn lemma_bits_of_wider(v: nat, w: nat, n: nat)
    requires
        v < pow2(w),
    ensures
        bits_of(v, w + n) == bits_of(v, w) + zeros(n as int),
{
    lemma_pow2_adds(w, n);
    lemma_pow2_pos(n);
    assert(pow2(w) <= pow2(w) * pow2(n)) by (nonlinear_arith)
        requires
            pow2(n) >= 1,
    ;
    lemma_bits_of(v, w);
    lemma_bits_of(v, w + n);
    lemma_value_padded(bits_of(v, w), (w + n) as int);
    lemma_value_injective(bits_of(v, w + n), bits_of(v, w) + zeros(n as int));
}

/// A number fits in its length, and no shorter length holds it.
pub proof fn lemma_bit_length(v: nat)
    ensures
        v < pow2(bit_length(v)),
        v > 0 ==> bit_length(v) > 0 && pow2((bit_length(v) - 1) as nat) <= v,
    decreases v,
{
    vstd::arithmetic::power2::lemma2_to64();
    if v > 0 {
        lemma_bit_length(v / 2);
        lemma_pow2_unfold(bit_length(v));
        if v / 2 > 0 {
            lemma_pow2_unfold((bit_length(v) - 1) as nat);
        }
    }
}

/// Powers of two keep the order of their exponents.
pub proof fn lemma_pow2_le(a: nat, b: nat)
    requires
        a <= b,
    ensures
        pow2(a) <= pow2(b),
{
    if a < b {
        vstd::arithmetic::power2::lemma_pow2_strictly_increases(a, b);
    }
}

/// A length that holds a number, and whose predecessor does not, is its length.
pub proof fn lemma_bit_length_is(v: nat, w: nat)
    requires
        v > 0,
        w > 0,
        pow2((w - 1) as nat) <= v < pow2(w),
    ensures
        bit_length(v) == w,
{
    lemma_bit_length(v);
    if bit_length(v) < w {
        lemma_pow2_le(bit_length(v), (w - 1) as nat);
    } else if bit_length(v) > w {
        lemma_pow2_le(w, (bit_length(v) - 1) as nat);
    }
}

/// The value of the bits of one word, taken from its lowest `n` bits.
proof fn lemma_low_bits_value(w: u64, n: nat)
    requires
        n <= 64,
    ensures
        value(Seq::new(n, |j: int| bit(w, j))) == w as nat % pow2(n),
    decreases n,
{
    broadcast use group_bits;

    let s = Seq::new(n, |j: int| bit(w, j));
    if n == 0 {
        vstd::arithmetic::power2::lemma2_to64();
    } else {
        let half = w >> 1u64;
        assert(half == w / 2 && (((w >> 0u64) & 1 == 1) == (w % 2 == 1))) by (bit_vector)
            requires
                half == w >> 1u64,
        ;
        assert(s[0] == (w % 2 == 1));
        lemma_low_bits_value(half, (n - 1) as nat);
        assert(s.drop_first() =~= Seq::new((n - 1) as nat, |j: int| bit(half, j)));
        lemma_pow2_unfold(n);
        let p = pow2((n - 1) as nat) as int;
        lemma_pow2_pos((n - 1) as nat);
        let q = w as int;
        assert(q % (2 * p) == q % 2 + 2 * ((q / 2) % p)) by {
            vstd::arithmetic::div_mod::lemma_mod_breakdown(q, 2, p);
        }
    }
}

/// A word is the value of its bits.
pub proof fn lemma_word_value(w: u64)
    ensures
        value(word_bits(seq![w])) == w,
{
    lemma_low_bits_value(w, 64);
    vstd::arithmetic::power2::lemma2_to64();
    vstd::arithmetic::power2::lemma2_to64_rest();
    assert(word_bits(seq![w]) =~= Seq::new(64, |j: int| bit(w, j)));
}

/// Words with the same bits are the same.
pub proof fn lemma_word_eq(a: u64, b: u64)
    requires
        forall|j: int| 0 <= j < 64 ==> bit(a, j) == bit(b, j),
    ensures
        a == b,
{
    lemma_word_value(a);
    lemma_word_value(b);
    assert(word_bits(seq![a]) =~= word_bits(seq![b]));
}

/// Arrays of words with the same bits are the same.
pub proof fn lemma_words_eq(a: Seq<u64>, b: Seq<u64>)
    requires
        word_bits(a) == word_bits(b),
    ensures
        a == b,
{
    assert(word_bits(a).len() == 64 * a.len() && word_bits(b).len() == 64 * b.len());
    assert(a.len() == b.len());
    assert forall|i: int| 0 <= i < a.len() implies a[i] == b[i] by {
        assert forall|j: int| 0 <= j < 64 implies bit(a[i], j) == bit(b[i], j) by {
            let k = 64 * i + j;
            assert(k / 64 == i && k % 64 == j);
            assert(word_bits(a)[k] == bit(a[k / 64], k % 64));
            assert(word_bits(b)[k] == bit(b[k / 64], k % 64));
        }
        lemma_word_eq(a[i], b[i]);
    }
    assert(a =~= b);
}

/// The words that hold a string of bits.
pub open spec fn words_of(s: Seq<bool>) -> Seq<u64> {
    Seq::new(s.len() / 64, |i: int| value(s.subrange(64 * i, 64 * i + 64)) as u64)
}

/// Words of a string of bits have those bits.
pub proof fn lemma_words_of(s: Seq<bool>)
    requires
        s.len() % 64 == 0,
    ensures
        word_bits(words_of(s)) == s,
{
    let words = words_of(s);
    vstd::arithmetic::power2::lemma2_to64_rest();
    assert forall|k: int| 0 <= k < s.len() implies word_bits(words)[k] == s[k] by {
        let i = k / 64;
        let t = s.subrange(64 * i, 64 * i + 64);
        let w = words[i];
        lemma_value_bound(t);
        assert(w == value(t));
        lemma_word_value(w);
        lemma_value_injective(word_bits(seq![w]), t);
        assert(word_bits(seq![w])[k % 64] == t[k % 64]);
    }
    assert(word_bits(words) =~= s);
}

/// The value of words with one more word on top.
proof fn lemma_value_push(words: Seq<u64>, w: u64)
    ensures
        value(word_bits(words.push(w))) == value(word_bits(words)) + pow2(64 * words.len()) * w,
{
    assert(word_bits(words.push(w)) =~= word_bits(words) + word_bits(seq![w]));
    lemma_value_concat(word_bits(words), word_bits(seq![w]));
    lemma_word_value(w);
}

/// The one bits of a concatenation.
pub proof fn lemma_ones_concat(a: Seq<bool>, b: Seq<bool>)
    ensures
        ones(a + b) == ones(a) + ones(b),
    decreases b.len(),
{
    if b.len() == 0 {
        assert(a + b =~= a);
    } else {
        assert((a + b).drop_last() =~= a + b.drop_last());
        lemma_ones_concat(a, b.drop_last());
    }
}

/// Zero bits hold no one bit.
pub proof fn lemma_ones_zeros(n: int)
    ensures
        ones(zeros(n)) == 0,
    decreases n,
{
    if n > 0 {
        assert(zeros(n).drop_last() =~= zeros(n - 1));
        lemma_ones_zeros(n - 1);
    }
}

/// A one bit with a given number of one bits before it stands in one place only.
pub proof fn lemma_nth_one_unique(s: Seq<bool>, p: int, q: int)
    requires
        0 <= p < s.len(),
        0 <= q < s.len(),
        s[p],
        s[q],
        ones(s.take(p)) == ones(s.take(q)),
    ensures
        p == q,
{
    if p < q {
        lemma_ones_later(s, p, q);
    } else if q < p {
        lemma_ones_later(s, q, p);
    }
}

proof fn lemma_ones_later(s: Seq<bool>, p: int, q: int)
    requires
        0 <= p < q <= s.len(),
        s[p],
    ensures
        ones(s.take(q)) > ones(s.take(p)),
{
    assert(s.take(p + 1).drop_last() =~= s.take(p));
    assert(s.take(q) =~= s.take(p + 1) + s.subrange(p + 1, q));
    lemma_ones_concat(s.take(p + 1), s.subrange(p + 1, q));
}

/// The mask that keeps everything when `choice` holds and nothing otherwise.
fn mask_u64(choice: bool) -> (r: u64)
    ensures
        r == (if choice { u64::MAX } else { 0 }),
{
    0u64.wrapping_sub(choice as u64)
}

/// `new` when `choice` holds and `old_word` otherwise.
pub fn select_u64(old_word: u64, new: u64, choice: bool) -> (r: u64)
    ensures
        r == (if choice { new } else { old_word }),
{
    let mask: u64 = mask_u64(choice);
    assert((old_word & !mask) | (new & mask) == (if choice { new } else { old_word })) by (bit_vector)
        requires
            mask == (if choice { 0xffff_ffff_ffff_ffffu64 } else { 0u64 }),
    ;
    (old_word & !mask) | (new & mask)
}

/// `new` when `choice` holds and `old_word` otherwise.
pub fn select_usize(old_word: usize, new: usize, choice: bool) -> (r: usize)
    ensures
        r == (if choice { new } else { old_word }),
{
    let mut r: usize = old_word;
    cmov_usize(&mut r, new, choice);
    r
}

/// The value of `n` one bits.
proof fn lemma_value_all_ones(n: nat)
    ensures
        value(Seq::new(n, |j: int| true)) == pow2(n) - 1,
    decreases n,
{
    if n == 0 {
        vstd::arithmetic::power2::lemma2_to64();
    } else {
        let m = (n - 1) as nat;
        lemma_value_all_ones(m);
        lemma_pow2_unfold(n);
        assert(Seq::new(n, |j: int| true).drop_first() =~= Seq::new(m, |j: int| true));
    }
}

/// The word whose lowest `n` bits are ones.
proof fn lemma_low_ones(w: u64, n: int)
    requires
        0 <= n <= 64,
        forall|j: int| 0 <= j < 64 ==> #[trigger] bit(w, j) == (j < n),
    ensures
        w == pow2(n as nat) - 1,
{
    let s = Seq::new(n as nat, |j: int| true);
    lemma_value_all_ones(n as nat);
    lemma_value_padded(s, 64);
    lemma_word_value(w);
    assert(word_bits(seq![w]) =~= padded(s, 64));
}

/// The word whose lowest `bits` bits are ones, all of them from 64 on.
pub fn low_bits_mask(bits: usize) -> (r: u64)
    ensures
        forall|j: int| 0 <= j < 64 ==> #[trigger] bit(r, j) == (j < bits),
        r == pow2(if bits < 64 { bits as nat } else { 64 }) - 1,
{
    broadcast use group_bits;

    let k: u64 = (bits % 64) as u64;
    let low: u64 = (1u64 << k).wrapping_sub(1);
    assert(1u64 << k >= 1) by (bit_vector)
        requires
            k < 64,
    ;
    let r = select_u64(low, u64::MAX, bits >= 64);
    proof {
        assert forall|j: int| 0 <= j < 64 implies #[trigger] bit(r, j) == (j < bits) by {
            if bits < 64 {
                let i = j as u64;
                assert(((low >> i) & 1 == 1) == (i < k)) by (bit_vector)
                    requires
                        low == (1u64 << k) - 1,
                        k < 64,
                        i < 64,
                ;
            }
        }
        lemma_low_ones(r, if bits < 64 { bits as int } else { 64 });
    }
    r
}

/// Word `index`, zero past the end.
fn word_or_zero<const N: usize>(words: &[u64; N], index: usize) -> (r: u64)
    ensures
        r == (if index < N { words@[index as int] } else { 0 }),
{
    let mut r: u64 = 0;
    let mut i: usize = 0;
    while i < N
        invariant
            i <= N,
            r == (if index < i { words@[index as int] } else { 0 }),
        decreases N - i,
    {
        r = select_u64(r, words[i], i == index);
        i += 1;
    }
    r
}

/// The 64 bits from bit `start` on, zero past the end.
fn window<const N: usize>(words: &[u64; N], start: usize) -> (r: u64)
    ensures
        forall|j: int| 0 <= j < 64 ==> #[trigger] bit(r, j) == bit_at(words@, start + j),
{
    broadcast use group_bits;

    let shift: u64 = (start % 64) as u64;
    let index: usize = start / 64;
    let low: u64 = word_or_zero(words, index);
    let high: u64 = word_or_zero(words, index + 1);
    let back: u64 = (64 - shift) % 64;
    let r: u64 = (low >> shift) | select_u64(0, high << back, shift != 0);
    proof {
        assert forall|j: int| 0 <= j < 64 implies #[trigger] bit(r, j) == bit_at(
            words@,
            start + j,
        ) by {
            let i = start + j;
            if j + shift < 64 {
                assert(i / 64 == index && i % 64 == j + shift);
            } else {
                assert(i / 64 == index + 1 && i % 64 == j + shift - 64);
            }
        }
    }
    r
}

/// The number that `width` bits from bit `start` on stand for.
pub fn extract<const N: usize>(words: &[u64; N], start: usize, width: usize) -> (r: u64)
    requires
        width <= 64,
        start + width <= 64 * N,
    ensures
        r == value(word_bits(words@).subrange(start as int, start + width)),
        forall|j: int|
            0 <= j < 64 ==> #[trigger] bit(r, j) == (j < width && bit_at(words@, start + j)),
{
    broadcast use group_bits;

    let r: u64 = window(words, start) & low_bits_mask(width);
    proof {
        let s = word_bits(words@).subrange(start as int, start + width);
        lemma_word_value(r);
        lemma_value_padded(s, 64);
        assert(word_bits(seq![r]) =~= padded(s, 64));
    }
    r
}

/// The mask of the bits of word `index` that stand before bit `at`.
fn low_mask_for_word(at: usize, index: usize) -> (r: u64)
    requires
        64 * index <= usize::MAX,
    ensures
        forall|j: int| 0 <= j < 64 ==> #[trigger] bit(r, j) == (64 * index + j < at),
{
    let first: usize = index * 64;
    low_bits_mask(select_usize(0, at.wrapping_sub(first), at >= first))
}

/// Puts a zero in before bit `at` when `enable` holds; the highest bit drops out.
pub fn insert_zero_bit<const N: usize>(
    words: &[u64; N],
    at: usize,
    enable: bool,
) -> (r: [u64; N])
    requires
        64 * N <= usize::MAX,
        at <= 64 * N,
    ensures
        enable ==> word_bits(r@) == with_zero(word_bits(words@), at as int).take(64 * N),
        !enable ==> r == words,
{
    broadcast use group_bits;

    let mut r: [u64; N] = *words;
    let mut carry: u64 = 0;
    let mut i: usize = 0;
    let ghost inserted = with_zero(word_bits(words@), at as int);
    while i < N
        invariant
            64 * N <= usize::MAX,
            i <= N,
            at <= 64 * N,
            inserted == with_zero(word_bits(words@), at as int),
            forall|j: int| i <= j < N ==> r@[j] == words@[j],
            !enable ==> forall|j: int| 0 <= j < N ==> r@[j] == words@[j],
            enable ==> forall|k: int|
                0 <= k < 64 * i ==> #[trigger] bit(r@[k / 64], k % 64) == inserted[k],
            forall|k: int|
                0 <= k < 64 ==> #[trigger] bit(carry, k) == (k == 0 && at < 64 * i && bit_at(
                    words@,
                    64 * i - 1,
                )),
        decreases N - i,
    {
        let keep: u64 = low_mask_for_word(at, i);
        let upper: u64 = words[i] & !keep;
        let shifted: u64 = (words[i] & keep) | ((upper << 1u64) | carry);
        let ghost before = r@;
        r[i] = select_u64(words[i], shifted, enable);
        proof {
            broadcast use group_bits;

            if enable {
                assert forall|k: int| 0 <= k < 64 * (i + 1) implies #[trigger] bit(
                    r@[k / 64],
                    k % 64,
                ) == inserted[k] by {
                    if k < 64 * i {
                        assert(r@[k / 64] == before[k / 64]);
                    } else {
                        let j = k - 64 * i;
                        assert(k / 64 == i && k % 64 == j);
                        assert(bit(shifted, j) == (bit(words@[i as int], j) && bit(keep, j) || (j >= 1
                            && bit(words@[i as int], j - 1) && !bit(keep, j - 1)) || bit(carry, j)));
                        if k > at {
                            assert(inserted[k] == word_bits(words@)[k - 1]);
                            if j > 0 {
                                assert((k - 1) / 64 == i && (k - 1) % 64 == j - 1);
                            }
                        }
                    }
                }
            }
            assert forall|k: int| 0 <= k < 64 implies #[trigger] bit(upper >> 63u64, k) == (k == 0
                && at < 64 * (i + 1) && bit_at(words@, 64 * (i + 1) - 1)) by {
                let last = 64 * (i + 1) - 1;
                assert(last / 64 == i && last % 64 == 63);
                assert(bit(upper, 63) == (bit(words@[i as int], 63) && !bit(keep, 63)));
            }
        }
        carry = upper >> 63u64;
        i += 1;
    }
    proof {
        if enable {
            assert(word_bits(r@) =~= inserted.take(64 * N));
        } else {
            assert(r@ =~= words@);
            assert(r =~= *words);
        }
    }
    r
}

/// Adds two to the `at` when `enable` holds.
pub fn add_bit<const N: usize>(words: &[u64; N], at: usize, enable: bool) -> (r: [u64; N])
    requires
        64 * N <= usize::MAX,
        enable ==> at < 64 * N && value(word_bits(words@)) + pow2(at as nat) < pow2(
            (64 * N) as nat,
        ),
    ensures
        enable ==> value(word_bits(r@)) == value(word_bits(words@)) + pow2(at as nat),
        !enable ==> r == words,
{
    let index: usize = at / 64;
    let one: u64 = 1u64 << ((at % 64) as u64);
    let mut r: [u64; N] = *words;
    let mut carry: u64 = 0;
    let mut i: usize = 0;
    proof {
        assert(words@.take(0) =~= Seq::<u64>::empty());
        assert(one == pow2((at % 64) as nat)) by {
            vstd::arithmetic::power2::lemma2_to64();
            vstd::arithmetic::power2::lemma2_to64_rest();
            lemma_pow2_le((at % 64) as nat, 63);
            vstd::bits::lemma_u64_shl_is_mul(1, (at % 64) as u64);
        }
    }
    while i < N
        invariant
            i <= N,
            enable ==> at < 64 * N,
            index == at / 64,
            one == pow2((at % 64) as nat),
            carry <= 1,
            !enable ==> carry == 0,
            index >= i ==> carry == 0,
            forall|j: int| i <= j < N ==> r@[j] == words@[j],
            !enable ==> forall|j: int| 0 <= j < N ==> r@[j] == words@[j],
            enable ==> value(word_bits(r@.take(i as int))) + pow2((64 * i) as nat) * carry == value(
                word_bits(words@.take(i as int)),
            ) + (if index < i {
                pow2(at as nat)
            } else {
                0
            }),
        decreases N - i,
    {
        let step: u64 = select_u64(carry, one, i == index);
        let plus: u64 = select_u64(0, step, enable);
        let w: u64 = words[i];
        let sum: u64 = w.wrapping_add(plus);
        let ghost before = r@;
        let ghost p = pow2((64 * i) as nat);
        let ghost c = carry;
        r[i] = sum;
        carry = (sum < w) as u64;
        proof {
            assert(r@.take(i + 1) =~= before.take(i as int).push(sum));
            assert(words@.take(i + 1) =~= words@.take(i as int).push(w));
            lemma_value_push(before.take(i as int), sum);
            lemma_value_push(words@.take(i as int), w);
            assert(pow2(64) == 0x1_0000_0000_0000_0000) by {
                vstd::arithmetic::power2::lemma2_to64_rest();
            }
            lemma_pow2_adds((64 * i) as nat, 64);
            let top = carry as int;
            assert(sum + 0x1_0000_0000_0000_0000 * top == w + plus);
            assert(p * sum + p * 0x1_0000_0000_0000_0000 * top == p * w + p * plus)
                by (nonlinear_arith)
                requires
                    sum + 0x1_0000_0000_0000_0000 * top == w + plus,
            ;
            if enable && i == index {
                lemma_pow2_adds((64 * i) as nat, (at % 64) as nat);
                assert(p * c == 0) by (nonlinear_arith)
                    requires
                        c == 0,
                ;
            }
            if i < index {
                assert(plus == 0);
                assert(p * plus == 0 && p * c == 0) by (nonlinear_arith)
                    requires
                        plus == 0,
                        c == 0,
                ;
            }
        }
        i += 1;
    }
    proof {
        assert(r@.take(N as int) =~= r@);
        assert(words@.take(N as int) =~= words@);
        if enable {
            lemma_value_bound(word_bits(r@));
            let p = pow2((64 * N) as nat);
            assert(p * carry < p ==> carry == 0) by (nonlinear_arith)
                requires
                    carry <= 1,
                    p >= 0,
            ;
            assert(carry == 0 ==> p * carry == 0) by (nonlinear_arith);
        } else {
            assert(r@ =~= words@);
            assert(r =~= *words);
        }
    }
    r
}

/// The first `len` bits, with zeros in place of the others.
pub fn prefix_bits<const N: usize>(words: &[u64; N], len: usize) -> (r: [u64; N])
    requires
        64 * N <= usize::MAX,
        len <= 64 * N,
    ensures
        word_bits(r@) == padded(word_bits(words@).take(len as int), 64 * N),
{
    let mut r: [u64; N] = *words;
    let mut i: usize = 0;
    while i < N
        invariant
            64 * N <= usize::MAX,
            i <= N,
            forall|j: int| i <= j < N ==> r@[j] == words@[j],
            forall|k: int|
                0 <= k < 64 * i ==> #[trigger] bit(r@[k / 64], k % 64) == (k < len && bit_at(
                    words@,
                    k,
                )),
        decreases N - i,
    {
        let ghost before = r@;
        let keep: u64 = low_mask_for_word(len, i);
        r[i] = words[i] & keep;
        proof {
            broadcast use group_bits;

            assert forall|k: int| 0 <= k < 64 * (i + 1) implies #[trigger] bit(r@[k / 64], k % 64)
                == (k < len && bit_at(words@, k)) by {
                if k < 64 * i {
                    assert(r@[k / 64] == before[k / 64]);
                } else {
                    assert(k / 64 == i && k % 64 == k - 64 * i);
                    assert(bit(keep, k - 64 * i) == (k < len));
                }
            }
        }
        i += 1;
    }
    proof {
        assert(word_bits(r@) =~= padded(word_bits(words@).take(len as int), 64 * N));
    }
    r
}

/// The bits from bit `shift` on, followed by zeros.
pub fn shr_words<const N: usize>(words: &[u64; N], shift: usize) -> (r: [u64; N])
    requires
        128 * N <= usize::MAX,
        shift <= 64 * N,
    ensures
        word_bits(r@) == padded(word_bits(words@).skip(shift as int), 64 * N),
{
    let mut r: [u64; N] = *words;
    let mut i: usize = 0;
    while i < N
        invariant
            128 * N <= usize::MAX,
            shift <= 64 * N,
            i <= N,
            forall|k: int|
                0 <= k < 64 * i ==> #[trigger] bit(r@[k / 64], k % 64) == bit_at(words@, shift + k),
        decreases N - i,
    {
        let ghost before = r@;
        let moved: u64 = window(words, i * 64 + shift);
        r[i] = moved;
        proof {
            assert forall|k: int| 0 <= k < 64 * (i + 1) implies #[trigger] bit(r@[k / 64], k % 64)
                == bit_at(words@, shift + k) by {
                if k < 64 * i {
                    assert(r@[k / 64] == before[k / 64]);
                } else {
                    assert(k / 64 == i && k % 64 == k - 64 * i);
                    assert(bit(moved, k - 64 * i) == bit_at(words@, i * 64 + shift + (k - 64 * i)));
                }
            }
        }
        i += 1;
    }
    proof {
        assert(word_bits(r@) =~= padded(word_bits(words@).skip(shift as int), 64 * N));
    }
    r
}

/// Overwrites `len` bits of `dst` from bit `dst_start` on by those of `src` from bit
/// `src_start` on.
pub fn copy_bits<const D: usize, const S: usize>(
    dst: &mut [u64; D],
    dst_start: usize,
    src: &[u64; S],
    src_start: usize,
    len: usize,
)
    requires
        64 * D <= usize::MAX,
        dst_start + len <= 64 * D,
        src_start + len <= 64 * S,
        src_start + 64 * D <= usize::MAX,
    ensures
        word_bits(final(dst)@) == word_bits(old(dst)@).take(dst_start as int) + word_bits(
            src@,
        ).subrange(src_start as int, src_start + len) + word_bits(old(dst)@).skip(dst_start + len),
{
    let dst_end: usize = dst_start + len;
    let ghost before = dst@;
    let mut i: usize = 0;
    while i < D
        invariant
            64 * D <= usize::MAX,
            dst_start + len <= 64 * D,
            src_start + len <= 64 * S,
            src_start + 64 * D <= usize::MAX,
            dst_end == dst_start + len,
            i <= D,
            dst@.len() == D,
            before.len() == D,
            forall|j: int| i <= j < D ==> dst@[j] == before[j],
            forall|k: int|
                0 <= k < 64 * i ==> #[trigger] bit(dst@[k / 64], k % 64) == (if dst_start <= k
                    < dst_end {
                    bit_at(src@, src_start + (k - dst_start))
                } else {
                    bit_at(before, k)
                }),
        decreases D - i,
    {
        let first: usize = i * 64;
        let from: usize = select_usize(first, dst_start, dst_start > first);
        let to: usize = select_usize(first + 64, dst_end, dst_end < first + 64);
        let overlap: bool = from < to;
        let width: usize = select_usize(0, to.wrapping_sub(from), overlap);
        let shift: usize = select_usize(0, from.wrapping_sub(first), overlap);
        let source: usize = select_usize(0, (src_start + from).wrapping_sub(dst_start), overlap);
        let moved: u64 = extract(src, source, width);
        let low: u64 = low_bits_mask(width);
        let s: u64 = shift as u64;
        let mask: u64 = low << s;
        let w: u64 = dst[i];
        let ghost held = dst@;
        dst[i] = (w & !mask) | ((moved << s) & mask);
        proof {
            broadcast use group_bits;

            assert forall|k: int| 0 <= k < 64 * (i + 1) implies #[trigger] bit(
                dst@[k / 64],
                k % 64,
            ) == (if dst_start <= k < dst_end {
                bit_at(src@, src_start + (k - dst_start))
            } else {
                bit_at(before, k)
            }) by {
                if k < 64 * i {
                    assert(dst@[k / 64] == held[k / 64]);
                } else {
                    let j = k - 64 * i;
                    assert(k / 64 == i && k % 64 == j);
                    assert(bit(mask, j) == (j >= s && bit(low, j - s)));
                    assert(bit(moved << s, j) == (j >= s && bit(moved, j - s)));
                    if dst_start <= k < dst_end {
                        assert(j >= s && j - s < width);
                        assert(source + (j - s) == src_start + (k - dst_start));
                    } else {
                        assert(!bit(mask, j));
                    }
                }
            }
        }
        i += 1;
    }
    proof {
        assert(word_bits(dst@) =~= word_bits(before).take(dst_start as int) + word_bits(
            src@,
        ).subrange(src_start as int, src_start + len) + word_bits(before).skip(dst_start + len));
    }
}

/// The place of the one bit that has `rank` one bits before it.
pub fn select_delimiter<const N: usize>(words: &[u64; N], rank: usize) -> (r: usize)
    requires
        64 * N < usize::MAX,
        rank < ones(word_bits(words@)),
    ensures
        r < 64 * N,
        word_bits(words@)[r as int],
        ones(word_bits(words@).take(r as int)) == rank,
{
    let mut r: usize = 0;
    let mut seen: usize = 0;
    let mut i: usize = 0;
    let ghost s = word_bits(words@);
    while i < N * 64
        invariant
            64 * N < usize::MAX,
            i <= N * 64,
            s == word_bits(words@),
            seen == ones(s.take(i as int)),
            seen <= i,
            rank < seen ==> r < i && s[r as int] && ones(s.take(r as int)) == rank,
        decreases N * 64 - i,
    {
        let one: bool = (words[i / 64] >> ((i % 64) as u64)) & 1 == 1;
        proof {
            assert(s[i as int] == one);
            assert(s.take(i + 1).drop_last() =~= s.take(i as int));
        }
        r = select_usize(r, i, both(one, seen == rank));
        seen = seen + one as usize;
        i += 1;
    }
    proof {
        assert(s.take(64 * N) =~= s);
    }
    r
}

/// The place of the last one bit.
pub fn last_delimiter<const N: usize>(words: &[u64; N]) -> (r: usize)
    requires
        64 * N < usize::MAX,
        exists|j: int| 0 <= j < 64 * N && word_bits(words@)[j],
    ensures
        r < 64 * N,
        word_bits(words@)[r as int],
        forall|j: int| r < j < 64 * N ==> !word_bits(words@)[j],
{
    let mut r: usize = 0;
    let mut i: usize = 0;
    let ghost s = word_bits(words@);
    while i < N * 64
        invariant
            64 * N < usize::MAX,
            i <= N * 64,
            s == word_bits(words@),
            r < i || r == 0,
            forall|j: int| r < j < i ==> !s[j],
            (exists|j: int| 0 <= j < i && s[j]) ==> r < i && s[r as int],
        decreases N * 64 - i,
    {
        let one: bool = (words[i / 64] >> ((i % 64) as u64)) & 1 == 1;
        assert(s[i as int] == one);
        r = select_usize(r, i, one);
        i += 1;
    }
    r
}

/// The lower half of a word.
pub open spec fn low_half(w: u64) -> u32 {
    (w % 0x1_0000_0000) as u32
}

/// The upper half of a word.
pub open spec fn high_half(w: u64) -> u32 {
    (w / 0x1_0000_0000) as u32
}

/// The word with the given halves.
pub open spec fn joined(low: u32, high: u32) -> u64 {
    (low + high * 0x1_0000_0000) as u64
}

/// The lower half of a word.
pub fn lower(w: u64) -> (r: u32)
    ensures
        r == low_half(w),
{
    assert(w & 0xffff_ffff == w % 0x1_0000_0000) by (bit_vector);
    (w & 0xffff_ffff) as u32
}

/// The upper half of a word.
pub fn upper(w: u64) -> (r: u32)
    ensures
        r == high_half(w),
{
    assert(w >> 32u64 == w / 0x1_0000_0000) by (bit_vector);
    (w >> 32u64) as u32
}

/// The word with the given halves.
pub fn join(low: u32, high: u32) -> (r: u64)
    ensures
        r == joined(low, high),
        low_half(r) == low,
        high_half(r) == high,
{
    let a: u64 = low as u64;
    let b: u64 = high as u64;
    assert(a | (b << 32u64) == a + b * 0x1_0000_0000) by (bit_vector)
        requires
            a <= 0xffff_ffff,
            b <= 0xffff_ffff,
    ;
    a | (b << 32u64)
}

/// The word whose lower half is ones.
pub proof fn lemma_low_mask()
    ensures
        forall|j: int| 0 <= j < 64 ==> #[trigger] bit(0xffff_ffff, j) == (j < 32),
{
    let m = 0xffff_ffffu64;
    assert forall|j: int| 0 <= j < 64 implies #[trigger] bit(0xffff_ffff, j) == (j < 32) by {
        let k = j as u64;
        assert((m >> k) & 1 == 1 <==> k < 32) by (bit_vector)
            requires
                m == 0xffff_ffffu64,
                k < 64,
        ;
    }
}

/// A word whose upper half is zero is its own lower half.
pub proof fn lemma_low_word(w: u64)
    requires
        forall|j: int| 32 <= j < 64 ==> !#[trigger] bit(w, j),
    ensures
        w & 0xffff_ffff == w,
{
    broadcast use group_bits;

    lemma_low_mask();
    lemma_word_eq(w & 0xffff_ffff, w);
}

/// Becomes `src` exactly when `choice` holds.
pub fn select_words<const N: usize>(dst: &mut [u64; N], src: &[u64; N], choice: bool)
    ensures
        *final(dst) == (if choice { *src } else { *old(dst) }),
{
    broadcast use vstd::array::group_array_axioms;

    let mut i: usize = 0;
    let ghost before = *dst;
    while i < N
        invariant
            i <= N,
            before == *old(dst),
            forall|j: int|
                0 <= j < N ==> dst@[j] == (if choice && j < i { src@[j] } else { before@[j] }),
        decreases N - i,
    {
        dst[i] = select_u64(dst[i], src[i], choice);
        i += 1;
    }
    proof {
        if choice {
            assert(dst@ =~= src@);
            assert(*dst =~= *src);
        } else {
            assert(dst@ =~= before@);
            assert(*dst =~= before);
        }
    }
}

/// Exchanges `a` and `b` exactly when `choice` holds.
pub fn exchange_words<const N: usize>(a: &mut [u64; N], b: &mut [u64; N], choice: bool)
    ensures
        *final(a) == (if choice { *old(b) } else { *old(a) }),
        *final(b) == (if choice { *old(a) } else { *old(b) }),
{
    let held: [u64; N] = *a;
    select_words(a, b, choice);
    select_words(b, &held, choice);
}

} // verus!
