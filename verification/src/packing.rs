//! Arrays of numbers packed at varying widths.
//!
//! A packed array is two strings of bits. The metadata string holds, for each
//! number in turn, a run of zeros and then a one bit, its delimiter; the length
//! of the run tells how wide the number is written. The payload string holds the
//! numbers themselves, lowest bit first, one after the other.
use vstd::arithmetic::power2::{lemma_pow2_adds, pow2};
use vstd::prelude::*;
use crate::bits::{
    bits_of, last_delimiter, lemma_bits_of, lemma_bits_of_wider, lemma_ones_concat,
    lemma_ones_zeros, lemma_nth_one_unique, lemma_value_bound, lemma_value_concat, ones, padded,
    select_delimiter, value, with_zero, word_bits, zeros,
};

verus! {

/// One number of a packed array: the run of zeros before its delimiter, and what is
/// written in the payload and how wide.
pub struct Field {
    /// Zeros before the delimiter.
    pub gap: nat,
    /// Bits in the payload.
    pub width: nat,
    /// The number in the payload.
    pub stored: nat,
}

impl Field {
    /// Whether the stored number fits in its width.
    pub open spec fn fits(self) -> bool {
        self.stored < pow2(self.width)
    }
}

/// Whether every number fits in its width.
pub open spec fn all_fit(f: Seq<Field>) -> bool {
    forall|i: int| 0 <= i < f.len() ==> (#[trigger] f[i]).fits()
}

/// The zeros of the metadata.
pub open spec fn gaps(f: Seq<Field>) -> nat
    decreases f.len(),
{
    if f.len() == 0 {
        0
    } else {
        gaps(f.drop_last()) + f.last().gap
    }
}

/// The bits of the payload.
pub open spec fn widths(f: Seq<Field>) -> nat
    decreases f.len(),
{
    if f.len() == 0 {
        0
    } else {
        widths(f.drop_last()) + f.last().width
    }
}

/// The metadata of one number.
pub open spec fn unary(gap: nat) -> Seq<bool> {
    zeros(gap as int).push(true)
}

/// The metadata string.
pub open spec fn metadata(f: Seq<Field>) -> Seq<bool>
    decreases f.len(),
{
    if f.len() == 0 {
        Seq::empty()
    } else {
        metadata(f.drop_last()) + unary(f.last().gap)
    }
}

/// The payload string.
pub open spec fn payload(f: Seq<Field>) -> Seq<bool>
    decreases f.len(),
{
    if f.len() == 0 {
        Seq::empty()
    } else {
        payload(f.drop_last()) + bits_of(f.last().stored, f.last().width)
    }
}

/// The strings of a concatenation.
pub proof fn lemma_concat(a: Seq<Field>, b: Seq<Field>)
    ensures
        metadata(a + b) == metadata(a) + metadata(b),
        payload(a + b) == payload(a) + payload(b),
        gaps(a + b) == gaps(a) + gaps(b),
        widths(a + b) == widths(a) + widths(b),
    decreases b.len(),
{
    if b.len() == 0 {
        assert(a + b =~= a);
        assert(metadata(a) + metadata(b) =~= metadata(a));
        assert(payload(a) + payload(b) =~= payload(a));
    } else {
        assert((a + b).drop_last() =~= a + b.drop_last());
        lemma_concat(a, b.drop_last());
        assert((metadata(a) + metadata(b.drop_last())) + unary(b.last().gap) =~= metadata(a) + (
        metadata(b.drop_last()) + unary(b.last().gap)));
        let w = bits_of(b.last().stored, b.last().width);
        assert((payload(a) + payload(b.drop_last())) + w =~= payload(a) + (payload(b.drop_last())
            + w));
    }
}

/// The lengths of the two strings, and the number of delimiters.
pub proof fn lemma_lengths(f: Seq<Field>)
    requires
        all_fit(f),
    ensures
        metadata(f).len() == gaps(f) + f.len(),
        payload(f).len() == widths(f),
        ones(metadata(f)) == f.len(),
    decreases f.len(),
{
    if f.len() > 0 {
        assert forall|i: int| 0 <= i < f.drop_last().len() implies (
        #[trigger] f.drop_last()[i]).fits() by {
            assert(f[i].fits());
        }
        lemma_lengths(f.drop_last());
        let g = f.last().gap;
        lemma_ones_concat(metadata(f.drop_last()), unary(g));
        assert(unary(g).drop_last() =~= zeros(g as int));
        lemma_ones_zeros(g as int);
        assert(f[f.len() - 1].fits());
        lemma_bits_of(f.last().stored, f.last().width);
    }
}

/// One field on its own.
proof fn lemma_single(g: Field)
    ensures
        metadata(seq![g]) == unary(g.gap),
        payload(seq![g]) == bits_of(g.stored, g.width),
        gaps(seq![g]) == g.gap,
        widths(seq![g]) == g.width,
{
    let s = seq![g];
    assert(s.drop_last() =~= Seq::empty());
    assert(Seq::<bool>::empty() + unary(g.gap) =~= unary(g.gap));
    assert(Seq::<bool>::empty() + bits_of(g.stored, g.width) =~= bits_of(g.stored, g.width));
    assert(metadata(s.drop_last()) =~= Seq::<bool>::empty());
    assert(payload(s.drop_last()) =~= Seq::<bool>::empty());
    assert(gaps(s.drop_last()) == 0 && widths(s.drop_last()) == 0);
}

/// The strings of an array taken apart at one number.
pub proof fn lemma_apart(f: Seq<Field>, i: int)
    requires
        0 <= i < f.len(),
    ensures
        metadata(f) == metadata(f.take(i)) + unary(f[i].gap) + metadata(f.skip(i + 1)),
        payload(f) == payload(f.take(i)) + bits_of(f[i].stored, f[i].width) + payload(
            f.skip(i + 1),
        ),
        gaps(f) == gaps(f.take(i)) + f[i].gap + gaps(f.skip(i + 1)),
        widths(f) == widths(f.take(i)) + f[i].width + widths(f.skip(i + 1)),
        gaps(f.take(i + 1)) == gaps(f.take(i)) + f[i].gap,
        widths(f.take(i + 1)) == widths(f.take(i)) + f[i].width,
{
    assert(f.take(i) + seq![f[i]] + f.skip(i + 1) =~= f);
    assert(f.take(i + 1).drop_last() =~= f.take(i));
    lemma_concat(f.take(i) + seq![f[i]], f.skip(i + 1));
    lemma_concat(f.take(i), seq![f[i]]);
    lemma_single(f[i]);
}

/// Where the delimiter of number `i` stands in the metadata.
pub open spec fn delimiter_of(f: Seq<Field>, i: int) -> int {
    gaps(f.take(i + 1)) + i
}

/// The delimiter of number `i` is the one bit with `i` one bits before it, also when
/// zeros follow the metadata.
pub proof fn lemma_delimiter(f: Seq<Field>, i: int, n: int)
    requires
        0 <= i < f.len(),
        all_fit(f),
        metadata(f).len() <= n,
    ensures
        0 <= delimiter_of(f, i) < metadata(f).len(),
        padded(metadata(f), n)[delimiter_of(f, i)],
        ones(padded(metadata(f), n).take(delimiter_of(f, i))) == i,
        ones(padded(metadata(f), n)) == f.len(),
{
    lemma_apart(f, i);
    lemma_fit_parts(f, i);
    lemma_lengths(f);
    lemma_lengths(f.take(i));
    lemma_lengths(f.skip(i + 1));
    let p = delimiter_of(f, i);
    let g = f[i].gap;
    let s = padded(metadata(f), n);
    assert(p == metadata(f.take(i)).len() + g);
    assert(s[p] == metadata(f)[p]);
    assert(metadata(f)[p] == unary(g)[g as int]);
    assert(s.take(p) =~= metadata(f.take(i)) + zeros(g as int));
    lemma_ones_concat(metadata(f.take(i)), zeros(g as int));
    lemma_ones_zeros(g as int);
    lemma_ones_concat(metadata(f), zeros(n - metadata(f).len()));
    lemma_ones_zeros(n - metadata(f).len());
}

/// A one bit of the padded metadata with `i` one bits before it is the delimiter of
/// number `i`.
pub proof fn lemma_is_delimiter(f: Seq<Field>, i: int, n: int, p: int)
    requires
        0 <= i < f.len(),
        all_fit(f),
        metadata(f).len() <= n,
        0 <= p < n,
        padded(metadata(f), n)[p],
        ones(padded(metadata(f), n).take(p)) == i,
    ensures
        p == delimiter_of(f, i),
{
    lemma_delimiter(f, i, n);
    lemma_nth_one_unique(padded(metadata(f), n), p, delimiter_of(f, i));
}

/// The last one bit of the padded metadata is the delimiter of the last number.
pub proof fn lemma_is_last_delimiter(f: Seq<Field>, n: int, p: int)
    requires
        f.len() > 0,
        all_fit(f),
        metadata(f).len() <= n,
        0 <= p < n,
        padded(metadata(f), n)[p],
        forall|j: int| p < j < n ==> !padded(metadata(f), n)[j],
    ensures
        p == gaps(f) + f.len() - 1,
{
    let i = f.len() - 1;
    lemma_delimiter(f, i, n);
    lemma_lengths(f);
    assert(f.take(i + 1) =~= f);
    let q = delimiter_of(f, i);
    assert(q == metadata(f).len() - 1);
    assert(p < metadata(f).len());
}

proof fn lemma_fit_parts(f: Seq<Field>, i: int)
    requires
        0 <= i < f.len(),
        all_fit(f),
    ensures
        all_fit(f.take(i)),
        all_fit(f.take(i + 1)),
        all_fit(f.skip(i + 1)),
        f[i].fits(),
{
    assert forall|j: int| 0 <= j < f.skip(i + 1).len() implies (
    #[trigger] f.skip(i + 1)[j]).fits() by {
        assert(f[i + 1 + j].fits());
    }
    assert forall|j: int| 0 <= j < f.take(i).len() implies (#[trigger] f.take(i)[j]).fits() by {
        assert(f[j].fits());
    }
    assert forall|j: int| 0 <= j < f.take(i + 1).len() implies (
    #[trigger] f.take(i + 1)[j]).fits() by {
        assert(f[j].fits());
    }
}

/// The bits between the payload ends of two neighbours are the number between them.
pub proof fn lemma_stored(f: Seq<Field>, i: int, n: int)
    requires
        0 <= i < f.len(),
        all_fit(f),
        widths(f) <= n,
    ensures
        widths(f.take(i)) + f[i].width <= widths(f),
        value(
            padded(payload(f), n).subrange(
                widths(f.take(i)) as int,
                (widths(f.take(i)) + f[i].width) as int,
            ),
        ) == f[i].stored,
{
    lemma_apart(f, i);
    lemma_fit_parts(f, i);
    lemma_lengths(f);
    lemma_lengths(f.take(i));
    lemma_lengths(f.skip(i + 1));
    lemma_bits_of(f[i].stored, f[i].width);
    assert(padded(payload(f), n).subrange(
        widths(f.take(i)) as int,
        (widths(f.take(i)) + f[i].width) as int,
    ) =~= bits_of(f[i].stored, f[i].width));
}

/// A wider field: the run of zeros grows by `more` and the payload by `bits`.
pub open spec fn widened(g: Field, more: nat, bits: nat) -> Field {
    Field { gap: g.gap + more, width: g.width + bits, stored: g.stored }
}

/// Widening a field by one zero of metadata puts a zero in before its delimiter.
pub proof fn lemma_widen_metadata(f: Seq<Field>, i: int, bits: nat, n: int)
    requires
        0 <= i < f.len(),
        all_fit(f),
        metadata(f).len() < n,
    ensures
        padded(metadata(f.update(i, widened(f[i], 1, bits))), n) == with_zero(
            padded(metadata(f), n),
            delimiter_of(f, i),
        ).take(n),
        gaps(f.update(i, widened(f[i], 1, bits))) == gaps(f) + 1,
{
    let g = widened(f[i], 1, bits);
    let h = f.update(i, g);
    lemma_apart(f, i);
    lemma_apart(h, i);
    assert(h.take(i) =~= f.take(i));
    assert(h.skip(i + 1) =~= f.skip(i + 1));
    lemma_fit_parts(f, i);
    lemma_lengths(f);
    lemma_lengths(f.take(i));
    assert(padded(metadata(h), n) =~= with_zero(padded(metadata(f), n), delimiter_of(f, i)).take(
        n,
    ));
}

/// Widening a field by one bit of payload puts a zero in at its end.
pub proof fn lemma_widen_payload(f: Seq<Field>, i: int, more: nat, n: int)
    requires
        0 <= i < f.len(),
        all_fit(f),
        widths(f) < n,
    ensures
        padded(payload(f.update(i, widened(f[i], more, 1))), n) == with_zero(
            padded(payload(f), n),
            (widths(f.take(i)) + f[i].width) as int,
        ).take(n),
        widths(f.update(i, widened(f[i], more, 1))) == widths(f) + 1,
        all_fit(f.update(i, widened(f[i], more, 1))),
{
    let g = widened(f[i], more, 1);
    let h = f.update(i, g);
    lemma_apart(f, i);
    lemma_apart(h, i);
    assert(h.take(i) =~= f.take(i));
    assert(h.skip(i + 1) =~= f.skip(i + 1));
    lemma_fit_parts(f, i);
    lemma_lengths(f);
    lemma_lengths(f.take(i));
    lemma_bits_of(f[i].stored, f[i].width);
    lemma_bits_of_wider(f[i].stored, f[i].width, 1);
    assert(padded(payload(h), n) =~= with_zero(
        padded(payload(f), n),
        (widths(f.take(i)) + f[i].width) as int,
    ).take(n));
    lemma_pow2_adds(f[i].width, 1);
    vstd::arithmetic::power2::lemma2_to64();
    assert forall|j: int| 0 <= j < h.len() implies (#[trigger] h[j]).fits() by {
        assert(f[j].fits());
    }
}

/// Counting a stored number up by one adds two to the place where it starts.
pub proof fn lemma_count_up(f: Seq<Field>, i: int, n: int)
    requires
        0 <= i < f.len(),
        all_fit(f),
        widths(f) <= n,
        f[i].stored + 1 < pow2(f[i].width),
    ensures
        ({
            let g = Field { stored: f[i].stored + 1, ..f[i] };
            &&& value(padded(payload(f.update(i, g)), n)) == value(padded(payload(f), n)) + pow2(
                widths(f.take(i)),
            )
            &&& value(padded(payload(f), n)) + pow2(widths(f.take(i))) < pow2(n as nat)
            &&& payload(f.update(i, g)).len() == payload(f).len()
            &&& metadata(f.update(i, g)) == metadata(f)
            &&& gaps(f.update(i, g)) == gaps(f)
            &&& widths(f.update(i, g)) == widths(f)
            &&& widths(f.take(i)) < n
            &&& all_fit(f.update(i, g))
        }),
{
    let g = Field { stored: f[i].stored + 1, ..f[i] };
    let h = f.update(i, g);
    lemma_apart(f, i);
    lemma_apart(h, i);
    assert(h.take(i) =~= f.take(i));
    assert(h.skip(i + 1) =~= f.skip(i + 1));
    lemma_fit_parts(f, i);
    lemma_lengths(f);
    lemma_lengths(f.take(i));
    lemma_lengths(f.skip(i + 1));
    assert forall|j: int| 0 <= j < h.len() implies (#[trigger] h[j]).fits() by {
        assert(f[j].fits());
    }
    lemma_lengths(h);
    let a = payload(f.take(i));
    let c = payload(f.skip(i + 1)) + zeros(n - widths(f));
    let w = f[i].width;
    let x = bits_of(f[i].stored, w);
    let y = bits_of(g.stored, w);
    lemma_bits_of(f[i].stored, w);
    lemma_bits_of(g.stored, w);
    assert(padded(payload(f), n) =~= a + (x + c));
    assert(padded(payload(h), n) =~= a + (y + c));
    lemma_value_concat(a, x + c);
    lemma_value_concat(a, y + c);
    lemma_value_concat(x, c);
    lemma_value_concat(y, c);
    let p = pow2(a.len());
    let rest = pow2(w) * value(c);
    assert(p * (g.stored + rest) == p * (f[i].stored + rest) + p) by (nonlinear_arith)
        requires
            g.stored == f[i].stored + 1,
    ;
    lemma_value_bound(padded(payload(h), n));
    if w == 0 {
        vstd::arithmetic::power2::lemma2_to64();
    }
}

/// Two arrays of one length with the same padded metadata have the same runs of zeros.
pub proof fn lemma_same_gaps(a: Seq<Field>, b: Seq<Field>, n: int)
    requires
        a.len() == b.len(),
        all_fit(a),
        all_fit(b),
        metadata(a).len() <= n,
        metadata(b).len() <= n,
        padded(metadata(a), n) == padded(metadata(b), n),
    ensures
        forall|i: int| 0 <= i < a.len() ==> (#[trigger] a[i]).gap == b[i].gap,
{
    assert forall|i: int| 0 <= i < a.len() implies (#[trigger] a[i]).gap == b[i].gap by {
        lemma_delimiter(b, i, n);
        lemma_is_delimiter(a, i, n, delimiter_of(b, i));
        lemma_apart(a, i);
        lemma_apart(b, i);
        if i > 0 {
            lemma_delimiter(b, i - 1, n);
            lemma_is_delimiter(a, i - 1, n, delimiter_of(b, i - 1));
        } else {
            assert(a.take(0) =~= Seq::empty());
            assert(b.take(0) =~= Seq::empty());
        }
    }
}

/// Arrays with the same widths add up to the same widths.
pub proof fn lemma_same_widths(a: Seq<Field>, b: Seq<Field>)
    requires
        a.len() == b.len(),
        forall|i: int| 0 <= i < a.len() ==> (#[trigger] a[i]).width == b[i].width,
    ensures
        widths(a) == widths(b),
    decreases a.len(),
{
    if a.len() > 0 {
        assert(a[a.len() - 1].width == b[b.len() - 1].width);
        assert forall|i: int| 0 <= i < a.drop_last().len() implies (
        #[trigger] a.drop_last()[i]).width == b.drop_last()[i].width by {
            assert(a[i].width == b[i].width);
        }
        lemma_same_widths(a.drop_last(), b.drop_last());
    }
}

/// Two arrays with the same widths and the same padded payload hold the same numbers.
pub proof fn lemma_same_stored(a: Seq<Field>, b: Seq<Field>, n: int)
    requires
        a.len() == b.len(),
        all_fit(a),
        all_fit(b),
        widths(a) <= n,
        forall|i: int| 0 <= i < a.len() ==> (#[trigger] a[i]).width == b[i].width,
        padded(payload(a), n) == padded(payload(b), n),
    ensures
        forall|i: int| 0 <= i < a.len() ==> (#[trigger] a[i]).stored == b[i].stored,
{
    lemma_same_widths(a, b);
    assert forall|i: int| 0 <= i < a.len() implies (#[trigger] a[i]).stored == b[i].stored by {
        lemma_stored(a, i, n);
        lemma_stored(b, i, n);
        assert forall|j: int| 0 <= j < a.take(i).len() implies (#[trigger] a.take(i)[j]).width
            == b.take(i)[j].width by {
            assert(a[j].width == b[j].width);
        }
        lemma_same_widths(a.take(i), b.take(i));
    }
}

/// The place of the delimiter of number `index` in metadata that is followed by zeros.
pub(crate) fn find_delimiter<const M: usize>(
    meta: &[u64; M],
    index: usize,
    Ghost(f): Ghost<Seq<Field>>,
) -> (r: usize)
    requires
        64 * M < usize::MAX,
        index < f.len(),
        all_fit(f),
        metadata(f).len() <= 64 * M,
        word_bits(meta@) == padded(metadata(f), 64 * M as int),
    ensures
        r == delimiter_of(f, index as int),
        r < metadata(f).len(),
{
    proof {
        lemma_delimiter(f, index as int, 64 * M as int);
    }
    let r: usize = select_delimiter(meta, index);
    proof {
        lemma_is_delimiter(f, index as int, 64 * M as int, r as int);
    }
    r
}

/// The place of the last delimiter in metadata that is followed by zeros.
pub(crate) fn find_last_delimiter<const M: usize>(
    meta: &[u64; M],
    Ghost(f): Ghost<Seq<Field>>,
) -> (r: usize)
    requires
        64 * M < usize::MAX,
        f.len() > 0,
        all_fit(f),
        metadata(f).len() <= 64 * M,
        word_bits(meta@) == padded(metadata(f), 64 * M as int),
    ensures
        r == gaps(f) + f.len() - 1,
{
    proof {
        lemma_delimiter(f, 0, 64 * M as int);
    }
    let r: usize = last_delimiter(meta);
    proof {
        lemma_is_last_delimiter(f, 64 * M as int, r as int);
    }
    r
}

} // verus!
