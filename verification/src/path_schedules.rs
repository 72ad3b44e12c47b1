//! Deterministic orders in which the paths of a tree are evicted.
//!
//! The leaves come in the order of their reversed digits, so that paths that follow one
//! another share as little as they can.
use vstd::arithmetic::power2::is_pow2;
use vstd::prelude::*;
use crate::circuit::flat;
use crate::heap_tree::{full_width, lemma_full_width, lemma_full_width_grows};

verus! {

/// The `digits` lowest base-`b` digits of `value`, lowest first.
pub open spec fn reversed(value: int, b: int, digits: int) -> int
    decreases digits,
{
    if digits <= 0 {
        0
    } else {
        reversed(value, b, digits - 1) * b + (value / full_width(digits - 1, b)) % b
    }
}

/// The number of whole base-`b` digits below `n`.
pub open spec fn digits_of(n: int, b: int) -> int
    decreases n,
{
    if n < b || b < 2 {
        0
    } else {
        proof {
            assert(0 <= n / b < n) by (nonlinear_arith)
                requires
                    2 <= b <= n,
            ;
        }
        1 + digits_of(n / b, b)
    }
}

/// The leaf that comes after `step` others, over and over, in a tree with `n` leaves and
/// branching factor `b`.
pub open spec fn leaf_at(step: int, n: int, b: int) -> int {
    reversed(step % n, b, digits_of(n, b))
}

/// A number lies between the powers of `b` that its digits count.
pub proof fn lemma_digits_of(n: int, b: int)
    requires
        1 <= n,
        2 <= b,
    ensures
        0 <= digits_of(n, b),
        full_width(digits_of(n, b), b) <= n < full_width(digits_of(n, b) + 1, b),
    decreases n,
{
    lemma_full_width(0, b);
    if n >= b {
        let q = n / b;
        assert(q * b <= n < (q + 1) * b && 1 <= q < n) by (nonlinear_arith)
            requires
                q == n / b,
                2 <= b <= n,
        ;
        lemma_digits_of(q, b);
        let d = digits_of(q, b);
        lemma_full_width(d, b);
        lemma_full_width(d + 1, b);
        let w = full_width(d, b);
        let v = full_width(d + 1, b);
        assert(w * b <= q * b) by (nonlinear_arith)
            requires
                w <= q,
                b >= 0,
        ;
        assert((q + 1) * b <= v * b) by (nonlinear_arith)
            requires
                q + 1 <= v,
                b >= 0,
        ;
    }
}

/// An exact power of `b` has as many digits as its exponent says.
pub proof fn lemma_digits_of_power(k: int, b: int)
    requires
        0 <= k,
        2 <= b,
    ensures
        digits_of(full_width(k, b), b) == k,
    decreases k,
{
    lemma_full_width(0, b);
    if k > 0 {
        lemma_digits_of_power(k - 1, b);
        lemma_full_width(k - 1, b);
        let w = full_width(k - 1, b);
        vstd::arithmetic::div_mod::lemma_div_by_multiple(w, b);
        assert(w * b >= b) by (nonlinear_arith)
            requires
                w >= 1,
                b >= 2,
        ;
    }
}

/// Reversed digits are below the power of `b` that has one more digit.
pub proof fn lemma_reversed_bound(value: int, b: int, digits: int)
    requires
        0 <= value,
        2 <= b,
        0 <= digits,
    ensures
        0 <= reversed(value, b, digits) < full_width(digits, b),
    decreases digits,
{
    lemma_full_width(0, b);
    if digits > 0 {
        lemma_reversed_bound(value, b, digits - 1);
        lemma_full_width(digits - 1, b);
        let w = full_width(digits - 1, b);
        let r = reversed(value, b, digits - 1);
        let d = (value / w) % b;
        assert(0 <= d < b) by {
            vstd::arithmetic::div_mod::lemma_mod_bound(value / w, b);
        }
        assert(0 <= r * b && r * b + b <= w * b) by (nonlinear_arith)
            requires
                0 <= r,
                r + 1 <= w,
                0 < b,
        ;
    }
}

/// Only the reversed digits matter.
proof fn lemma_reversed_low(value: int, b: int, digits: int, m: int)
    requires
        0 <= value,
        2 <= b,
        0 <= digits <= m,
    ensures
        reversed(value, b, digits) == reversed(value % full_width(m, b), b, digits),
    decreases digits,
{
    if digits > 0 {
        lemma_reversed_low(value, b, digits - 1, m);
        let low = full_width(digits - 1, b);
        let all = full_width(m, b);
        let high = full_width(m - digits, b);
        lemma_full_width(digits - 1, b);
        lemma_full_width(m - digits, b);
        lemma_full_width(m, b);
        vstd::arithmetic::power::lemma_pow_adds(b, (digits - 1) as nat, (m - digits + 1) as nat);
        let rest = full_width(m - digits + 1, b);
        assert(rest == high * b);
        assert(low * rest == all);
        let v = value % all;
        let q = value / all;
        vstd::arithmetic::div_mod::lemma_fundamental_div_mod(value, all);
        vstd::arithmetic::div_mod::lemma_mod_bound(value, all);
        assert(value == low * (rest * q) + v) by (nonlinear_arith)
            requires
                value == all * q + v,
                low * rest == all,
        ;
        vstd::arithmetic::div_mod::lemma_hoist_over_denominator(v, rest * q, low as nat);
        assert(value / low == v / low + rest * q) by {
            assert(low * (rest * q) == (rest * q) * low) by (nonlinear_arith);
        }
        assert(rest * q == b * (high * q)) by (nonlinear_arith)
            requires
                rest == high * b,
        ;
        vstd::arithmetic::div_mod::lemma_mod_multiples_vanish(high * q, v / low, b);
    }
}

/// The reversed digits of a number start with its lowest digit.
pub proof fn lemma_reversed_top(value: int, b: int, digits: int)
    requires
        0 <= value,
        2 <= b,
        0 < digits,
    ensures
        reversed(value, b, digits) == (value % b) * full_width(digits - 1, b) + reversed(
            value / b,
            b,
            digits - 1,
        ),
    decreases digits,
{
    lemma_full_width(0, b);
    if digits == 1 {
        assert(value / 1 == value);
        assert(reversed(value, b, 0) == 0);
        assert(0 * b == 0);
        assert((value % b) * 1 == value % b);
        assert(reversed(value / b, b, 0) == 0);
    } else {
        lemma_reversed_top(value, b, digits - 1);
        lemma_full_width(digits - 2, b);
        let w = full_width(digits - 2, b);
        let r = reversed(value / b, b, digits - 2);
        let m = value % b;
        vstd::arithmetic::div_mod::lemma_div_denominator(value, b, w);
        assert(w * b == b * w) by (nonlinear_arith);
        assert((m * w + r) * b == m * (w * b) + r * b) by (nonlinear_arith);
    }
}

/// Reversing the digits twice gives a number back: every leaf comes up once in each
/// round, at the step that its own reversed digits name.
pub proof fn lemma_reversal_undoes_itself(value: int, b: int, digits: int)
    requires
        2 <= b,
        0 <= digits,
        0 <= value < full_width(digits, b),
    ensures
        reversed(reversed(value, b, digits), b, digits) == value,
    decreases digits,
{
    lemma_full_width(0, b);
    if digits > 0 {
        lemma_full_width(digits - 1, b);
        let w = full_width(digits - 1, b);
        let q = value / b;
        let r = value % b;
        vstd::arithmetic::div_mod::lemma_fundamental_div_mod(value, b);
        vstd::arithmetic::div_mod::lemma_mod_bound(value, b);
        assert(0 <= q < w) by (nonlinear_arith)
            requires
                value == b * q + r,
                0 <= r < b,
                0 <= value < w * b,
        ;
        lemma_reversed_top(value, b, digits);
        lemma_reversed_bound(q, b, digits - 1);
        let low = reversed(q, b, digits - 1);
        let x = reversed(value, b, digits);
        assert(x == r * w + low);
        vstd::arithmetic::div_mod::lemma_fundamental_div_mod_converse(x, w, r, low);
        assert(0 <= r * w) by (nonlinear_arith)
            requires
                0 <= r,
                1 <= w,
        ;
        lemma_reversed_low(x, b, digits - 1, digits - 1);
        lemma_reversal_undoes_itself(q, b, digits - 1);
        vstd::arithmetic::div_mod::lemma_small_mod(r as nat, b as nat);
        assert(q * b == b * q) by (nonlinear_arith);
    }
}

/// Over the steps of one round every leaf comes up, at one step alone.
pub proof fn lemma_round_visits_every_leaf(leaf: int, step: int, k: int, b: int)
    requires
        2 <= b,
        0 <= k,
        0 <= leaf < full_width(k, b),
        0 <= step < full_width(k, b),
    ensures
        0 <= reversed(leaf, b, k) < full_width(k, b),
        leaf_at(step, full_width(k, b), b) == leaf <==> step == reversed(leaf, b, k),
{
    let n = full_width(k, b);
    lemma_digits_of_power(k, b);
    lemma_reversed_bound(leaf, b, k);
    lemma_reversal_undoes_itself(leaf, b, k);
    lemma_reversal_undoes_itself(step, b, k);
    vstd::arithmetic::div_mod::lemma_small_mod(step as nat, n as nat);
}

/// The child of the root that a leaf lies under is the lowest digit of its step.
pub proof fn lemma_leaf_under_root_child(step: int, k: int, b: int)
    requires
        2 <= b,
        0 < k,
        0 <= step,
    ensures
        leaf_at(step, full_width(k, b), b) / full_width(k - 1, b) == step % b,
{
    let n = full_width(k, b);
    let w = full_width(k - 1, b);
    lemma_digits_of_power(k, b);
    lemma_full_width(k - 1, b);
    let v = step % n;
    vstd::arithmetic::div_mod::lemma_mod_bound(step, n);
    lemma_reversed_top(v, b, k);
    lemma_reversed_bound(v / b, b, k - 1);
    vstd::arithmetic::div_mod::lemma_fundamental_div_mod_converse(
        reversed(v, b, k),
        w,
        v % b,
        reversed(v / b, b, k - 1),
    );
    assert(n == b * w) by (nonlinear_arith)
        requires
            n == w * b,
    ;
    vstd::arithmetic::div_mod::lemma_mod_mod(step, b, w);
}

/// Reverses the `bits` lowest bits of `value`.
pub fn reverse_path_bits(value: usize, bits: u32) -> (r: u32)
    requires
        bits <= 32,
    ensures
        r == reversed(value as int, 2, bits as int),
{
    proof {
        vstd::arithmetic::power2::lemma2_to64();
        lemma_full_width_grows(bits as int, 32, 2);
        vstd::arithmetic::power2::lemma_pow2(32);
        lemma_reversed_bound(value as int, 2, bits as int);
    }
    reverse_digits(value, 2, bits) as u32
}

/// Reverses the `digits` lowest base-`b` digits of `value`.
pub fn reverse_digits(value: usize, b: usize, digits: u32) -> (r: usize)
    requires
        2 <= b,
        full_width(digits as int, b as int) <= usize::MAX + 1,
    ensures
        r == reversed(value as int, b as int, digits as int),
{
    let ghost f = b as int;
    let ghost v = value as int;
    let mut rest: usize = value;
    let mut result: usize = 0;
    let mut i: u32 = 0;
    proof {
        lemma_full_width(0, f);
        assert(v / 1 == v);
    }
    while i < digits
        invariant
            f == b,
            2 <= f,
            v == value,
            i <= digits,
            full_width(digits as int, f) <= usize::MAX + 1,
            rest == v / full_width(i as int, f),
            result == reversed(v, f, i as int),
            0 <= result < full_width(i as int, f),
        decreases digits - i,
    {
        proof {
            let w = full_width(i as int, f);
            lemma_full_width(i as int, f);
            lemma_full_width_grows(i + 1, digits as int, f);
            lemma_reversed_bound(v, f, i + 1);
            vstd::arithmetic::div_mod::lemma_div_denominator(v, w, f);
            vstd::arithmetic::div_mod::lemma_mod_bound(v / w, f);
            assert(0 <= result * f) by (nonlinear_arith)
                requires
                    2 <= f,
                    0 <= result,
            ;
        }
        result = result * b + rest % b;
        rest = rest / b;
        i += 1;
    }
    result
}

/// Counts the whole base-`b` digits below `n`.
pub fn count_digits(n: usize, b: usize) -> (r: u32)
    requires
        1 <= n,
        2 <= b,
    ensures
        r == digits_of(n as int, b as int),
{
    let mut rest: usize = n;
    let mut digits: u32 = 0;
    proof {
        vstd::arithmetic::power2::lemma2_to64();
    }
    let ghost mut bound: int = 0x1_0000_0000_0000_0000;
    while rest >= b
        invariant
            1 <= rest,
            2 <= b,
            digits + digits_of(rest as int, b as int) == digits_of(n as int, b as int),
            digits as int <= 64,
            rest < bound,
            bound == vstd::arithmetic::power2::pow2((64 - digits) as nat),
        decreases rest,
    {
        proof {
            let e = (64 - digits) as nat;
            if digits == 64 {
                vstd::arithmetic::power2::lemma2_to64();
            }
            vstd::arithmetic::power2::lemma_pow2_unfold(e);
            assert(1 <= rest / b && 2 * (rest / b) <= rest && rest / b < rest) by (nonlinear_arith)
                requires
                    2 <= b <= rest,
            ;
            bound = bound / 2;
        }
        rest = rest / b;
        digits += 1;
    }
    digits
}

/// Reverses the base-`b` digits of `value`, as many as a leaf of `n` has.
pub fn reverse_path_digits(value: usize, n: usize, b: usize) -> (r: u32)
    requires
        2 <= b,
        is_pow2(b as int),
        is_pow2(n as int),
        1 <= n <= 0x1_0000_0000,
    ensures
        r == reversed(value as int, b as int, digits_of(n as int, b as int)),
{
    proof {
        lemma_digits_of(n as int, b as int);
        lemma_reversed_bound(value as int, b as int, digits_of(n as int, b as int));
    }
    let digits: u32 = count_digits(n, b);
    reverse_digits(value, b, digits) as u32
}

/// The path of one eviction per timestep.
pub fn one_deterministic_path(timestep: u64, n: usize, b: usize) -> (r: u32)
    requires
        2 <= b,
        is_pow2(b as int),
        is_pow2(n as int),
        1 <= n <= 0x1_0000_0000,
    ensures
        r == leaf_at(timestep as int, n as int, b as int),
{
    reverse_path_digits((timestep % (n as u64)) as usize, n, b)
}

/// The two paths, one in each half of a binary tree, of one timestep.
pub fn paper_deterministic_paths(timestep: u64, n: usize) -> (r: [u32; 2])
    requires
        2 <= n <= 0x1_0000_0000,
        is_pow2(n as int),
    ensures
        r[0] == leaf_at(2 * timestep, n as int, 2),
        r[1] == leaf_at(2 * timestep + 1, n as int, 2),
{
    let step: u64 = timestep % (n as u64);
    let even: usize = ((step * 2) % (n as u64)) as usize;
    proof {
        let m = n as int;
        let t = timestep as int;
        vstd::arithmetic::div_mod::lemma_mul_mod_noop_right(2, t, m);
        let e = (2 * t) % m;
        assert(even == e);
        vstd::arithmetic::div_mod::lemma_mod_bound(2 * t, m);
        let h = m / 2;
        reveal(is_pow2);
        assert(is_pow2(2)) by {
            assert(is_pow2(1));
        }
        assert(m == 2 * h);
        vstd::arithmetic::div_mod::lemma_mod_mod(2 * t, 2, h);
        assert(e % 2 == 0);
        vstd::arithmetic::div_mod::lemma_add_mod_noop(2 * t, 1, m);
        vstd::arithmetic::div_mod::lemma_small_mod(1, m as nat);
        vstd::arithmetic::div_mod::lemma_small_mod((e + 1) as nat, m as nat);
    }
    [reverse_path_digits(even, n, 2), reverse_path_digits(even + 1, n, 2)]
}

/// The `count` paths of one timestep that follow those of the timestep before.
pub fn deterministic_path_group(timestep: u64, n: usize, b: usize, count: usize, paths: &mut Vec<u32>)
    requires
        2 <= b,
        is_pow2(b as int),
        is_pow2(n as int),
        is_pow2(count as int),
        1 <= count <= n <= 0x1_0000_0000,
    ensures
        final(paths)@.len() == count,
        forall|i: int|
            0 <= i < count ==> #[trigger] final(paths)@[i] == leaf_at(
                timestep * count + i,
                n as int,
                b as int,
            ),
{
    paths.clear();
    let step: u64 = timestep % (n as u64);
    proof {
        let m = n as int;
        assert(step * count <= 0xffff_ffff * 0x1_0000_0000) by (nonlinear_arith)
            requires
                0 <= step <= 0xffff_ffff,
                0 <= count <= 0x1_0000_0000,
        ;
    }
    let first: u64 = (step * (count as u64)) % (n as u64);
    proof {
        vstd::arithmetic::div_mod::lemma_mul_mod_noop_left(timestep as int, count as int, n as int);
    }
    let mut offset: usize = 0;
    while offset < count
        invariant
            offset <= count,
            2 <= b,
            is_pow2(b as int),
            is_pow2(n as int),
            1 <= count <= n <= 0x1_0000_0000,
            first < n,
            first == (timestep * count) % n as int,
            paths@.len() == offset,
            forall|i: int|
                0 <= i < offset ==> #[trigger] paths@[i] == leaf_at(
                    timestep * count + i,
                    n as int,
                    b as int,
                ),
        decreases count - offset,
    {
        proof {
            vstd::arithmetic::div_mod::lemma_add_mod_noop_right(
                offset as int,
                timestep * count,
                n as int,
            );
        }
        paths.push(reverse_path_digits(((first + offset as u64) % (n as u64)) as usize, n, b));
        offset += 1;
    }
}

/// One path below each child of the root.
pub fn radix_deterministic_paths(timestep: u64, n: usize, b: usize, paths: &mut Vec<u32>)
    requires
        2 <= b <= n <= 0x1_0000_0000,
        is_pow2(b as int),
        is_pow2(n as int),
    ensures
        final(paths)@.len() == b,
        forall|i: int|
            0 <= i < b ==> #[trigger] final(paths)@[i] == leaf_at(
                timestep * b + i,
                n as int,
                b as int,
            ),
{
    deterministic_path_group(timestep, n, b, b, paths);
}

/// How many paths come before timestep `timestep` at a rate of `numerator` in
/// `denominator` timesteps.
pub open spec fn paths_before(timestep: int, numerator: int, denominator: int) -> int {
    timestep * numerator / denominator
}

/// The paths of a timestep at a rate of `numerator` paths in `denominator` timesteps: they
/// go on in the sequence of leaves where those of the timesteps before ended.
pub open spec fn due_at_rate(
    paths: Seq<u32>,
    timestep: int,
    n: int,
    b: int,
    numerator: int,
    denominator: int,
) -> bool {
    let first = paths_before(timestep, numerator, denominator);
    &&& paths.len() == paths_before(timestep + 1, numerator, denominator) - first
    &&& forall|i: int| 0 <= i < paths.len() ==> #[trigger] paths[i] == leaf_at(first + i, n, b)
}

/// The paths of one timestep at a rate of `numerator` paths in `denominator` timesteps.
pub fn rate_deterministic_paths(
    timestep: u64,
    n: usize,
    b: usize,
    numerator: usize,
    denominator: usize,
    paths: &mut Vec<u32>,
)
    requires
        2 <= b,
        is_pow2(b as int),
        is_pow2(n as int),
        1 <= n <= 0x1_0000_0000,
        1 <= denominator,
    ensures
        due_at_rate(
            final(paths)@,
            timestep as int,
            n as int,
            b as int,
            numerator as int,
            denominator as int,
        ),
{
    let ghost t = timestep as int;
    let ghost p = numerator as int;
    let ghost q = denominator as int;
    proof {
        assert(0 <= t * p <= (t + 1) * p <= 0x1_0000_0000_0000_0000 * 0xffff_ffff_ffff_ffff)
            by (nonlinear_arith)
            requires
                0 <= t <= 0xffff_ffff_ffff_ffff,
                0 <= p <= 0xffff_ffff_ffff_ffff,
        ;
        vstd::arithmetic::div_mod::lemma_div_is_ordered(t * p, (t + 1) * p, q);
        vstd::arithmetic::div_mod::lemma_div_pos_is_pos(t * p, q);
    }
    let first: u128 = (timestep as u128) * (numerator as u128) / (denominator as u128);
    let end: u128 = (timestep as u128 + 1) * (numerator as u128) / (denominator as u128);
    paths.clear();
    let mut sequence: u128 = first;
    while sequence < end
        invariant
            first <= sequence <= end,
            2 <= b,
            is_pow2(b as int),
            is_pow2(n as int),
            1 <= n <= 0x1_0000_0000,
            paths@.len() == sequence - first,
            forall|i: int|
                0 <= i < paths@.len() ==> #[trigger] paths@[i] == leaf_at(
                    first + i,
                    n as int,
                    b as int,
                ),
        decreases end - sequence,
    {
        paths.push(reverse_path_digits((sequence % (n as u128)) as usize, n, b));
        sequence += 1;
    }
}

/// The timesteps of a rate leave no gap: after any number of them as many paths have
/// come as the rate says, each where the one before it ended.
pub proof fn lemma_rate_leaves_no_gap(timestep: int, numerator: int, denominator: int)
    requires
        0 <= timestep,
        0 <= numerator,
        1 <= denominator,
    ensures
        paths_before(0, numerator, denominator) == 0,
        0 <= paths_before(timestep, numerator, denominator) <= paths_before(
            timestep + 1,
            numerator,
            denominator,
        ),
        paths_before(timestep * denominator, numerator, denominator) == timestep * numerator,
{
    assert(0 * numerator == 0);
    vstd::arithmetic::div_mod::lemma_basic_div(0, denominator);
    assert(0 <= timestep * numerator <= (timestep + 1) * numerator) by (nonlinear_arith)
        requires
            0 <= timestep,
            0 <= numerator,
    ;
    vstd::arithmetic::div_mod::lemma_div_pos_is_pos(timestep * numerator, denominator);
    vstd::arithmetic::div_mod::lemma_div_is_ordered(
        timestep * numerator,
        (timestep + 1) * numerator,
        denominator,
    );
    assert(timestep * denominator * numerator == (timestep * numerator) * denominator)
        by (nonlinear_arith);
    vstd::arithmetic::div_mod::lemma_div_by_multiple(timestep * numerator, denominator);
}

/// The paths of the timesteps from 0 on, one after another, are the sequence of leaves from
/// its start: no step of it is left out, and none comes twice.
pub proof fn lemma_rate_follows_the_leaves(
    timesteps: Seq<Seq<u32>>,
    n: int,
    b: int,
    numerator: int,
    denominator: int,
)
    requires
        0 <= numerator,
        1 <= denominator,
        forall|t: int|
            0 <= t < timesteps.len() ==> due_at_rate(
                #[trigger] timesteps[t],
                t,
                n,
                b,
                numerator,
                denominator,
            ),
    ensures
        flat(timesteps).len() == paths_before(timesteps.len() as int, numerator, denominator),
        forall|i: int|
            0 <= i < flat(timesteps).len() ==> #[trigger] flat(timesteps)[i] == leaf_at(i, n, b),
    decreases timesteps.len(),
{
    lemma_rate_leaves_no_gap(0, numerator, denominator);
    if timesteps.len() > 0 {
        let t = timesteps.len() - 1;
        let front = timesteps.drop_last();
        assert forall|k: int| 0 <= k < front.len() implies due_at_rate(
            #[trigger] front[k],
            k,
            n,
            b,
            numerator,
            denominator,
        ) by {
            assert(front[k] == timesteps[k]);
        }
        lemma_rate_follows_the_leaves(front, n, b, numerator, denominator);
        assert(due_at_rate(timesteps[t], t, n, b, numerator, denominator));
        assert forall|i: int| 0 <= i < flat(timesteps).len() implies #[trigger] flat(timesteps)[i]
            == leaf_at(i, n, b) by {
            let first = flat(front).len() as int;
            if i < first {
                assert(flat(timesteps)[i] == flat(front)[i]);
            } else {
                assert(flat(timesteps)[i] == timesteps[t][i - first]);
            }
        }
    }
}

/// Among as many consecutive steps as there are leaves, every leaf comes up at exactly one.
pub proof fn lemma_consecutive_leaves(start: int, leaf: int, k: int, b: int)
    requires
        2 <= b,
        0 <= k,
        0 <= start,
        0 <= leaf < full_width(k, b),
    ensures
        forall|i: int|
            0 <= #[trigger] leaf_at(i, full_width(k, b), b) < full_width(k, b),
        exists|i: int|
            start <= i < start + full_width(k, b) && #[trigger] leaf_at(i, full_width(k, b), b)
                == leaf,
        forall|i: int, j: int|
            start <= i < start + full_width(k, b) && start <= j < start + full_width(k, b)
                && #[trigger] leaf_at(i, full_width(k, b), b) == leaf && #[trigger] leaf_at(
                j,
                full_width(k, b),
                b,
            ) == leaf ==> i == j,
{
    let n = full_width(k, b);
    let r = reversed(leaf, b, k);
    lemma_full_width(k, b);
    lemma_digits_of_power(k, b);
    assert forall|i: int| 0 <= #[trigger] leaf_at(i, n, b) < n && (leaf_at(i, n, b) == leaf <==> i
        % n == r) && leaf_at(i, n, b) == leaf_at(i % n, n, b) by {
        vstd::arithmetic::div_mod::lemma_mod_bound(i, n);
        vstd::arithmetic::div_mod::lemma_small_mod((i % n) as nat, n as nat);
        lemma_reversed_bound(i % n, b, k);
        lemma_round_visits_every_leaf(leaf, i % n, k, b);
    }
    lemma_reversed_bound(leaf, b, k);
    vstd::arithmetic::div_mod::lemma_fundamental_div_mod(start, n);
    vstd::arithmetic::div_mod::lemma_mod_bound(start, n);
    let q = start / n;
    let c = if r >= start % n {
        q
    } else {
        q + 1
    };
    let i = c * n + r;
    assert(n * q == q * n && (q + 1) * n == q * n + n) by (nonlinear_arith);
    vstd::arithmetic::div_mod::lemma_fundamental_div_mod_converse(i, n, c, r);
    assert(leaf_at(i, n, b) == leaf);
    assert forall|i: int, j: int|
        start <= i < start + n && start <= j < start + n && #[trigger] leaf_at(i, n, b) == leaf
            && #[trigger] leaf_at(j, n, b) == leaf implies i == j by {
        let (u, v) = (i / n, j / n);
        vstd::arithmetic::div_mod::lemma_fundamental_div_mod(i, n);
        vstd::arithmetic::div_mod::lemma_fundamental_div_mod(j, n);
        assert(u == v) by (nonlinear_arith)
            requires
                i == n * u + r,
                j == n * v + r,
                -n < i - j < n,
                1 <= n,
        ;
    }
}

} // verus!
