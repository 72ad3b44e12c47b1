//! How many low bits two positions share.
//!
//! In a binary heap tree two paths meet down to the depth at which their lowest
//! bits stop to agree.
use vstd::arithmetic::power2::lemma_pow2;
use vstd::bits::{lemma_u32_shr_is_div, lemma_u64_shr_is_div};
use vstd::prelude::*;
use crate::heap_tree::{full_width, lemma_full_width};
use crate::heap_tree::lemma_paths_meet_above;

verus! {

/// Whether the lowest `i` bits of `a` and `b` agree.
pub open spec fn meets(a: int, b: int, i: int) -> bool {
    a % full_width(i, 2) == b % full_width(i, 2)
}

/// The largest `i` up to `n` for which the lowest `i` bits of `a` and `b` agree.
pub open spec fn shared_bits(a: int, b: int, n: int) -> int
    decreases n,
{
    if n <= 0 {
        0
    } else if meets(a, b, n) {
        n
    } else {
        shared_bits(a, b, n - 1)
    }
}

/// `a` and `b` share their lowest `i` bits exactly up to [`shared_bits`].
pub proof fn lemma_shared_bits(a: int, b: int, n: int)
    requires
        0 <= a,
        0 <= b,
        0 <= n,
    ensures
        0 <= shared_bits(a, b, n) <= n,
        forall|i: int| 0 <= i <= n ==> (i <= shared_bits(a, b, n) <==> #[trigger] meets(a, b, i)),
    decreases n,
{
    lemma_full_width(0, 2);
    if n > 0 {
        lemma_shared_bits(a, b, n - 1);
        if meets(a, b, n) {
            assert forall|i: int| 0 <= i <= n implies #[trigger] meets(a, b, i) by {
                lemma_paths_meet_above(a, b, n, i, 2);
            }
        }
    }
}

/// Numbers whose bits agree below `r` and differ at `r` share exactly `r` low bits.
proof fn lemma_bits_decide(a: int, b: int, r: int, n: int)
    requires
        0 <= a < full_width(n, 2),
        0 <= b < full_width(n, 2),
        0 <= r <= n,
        forall|j: int|
            0 <= j < r ==> #[trigger] (a / full_width(j, 2)) % 2 == (b / full_width(j, 2)) % 2,
        r < n ==> (a / full_width(r, 2)) % 2 != (b / full_width(r, 2)) % 2,
    ensures
        shared_bits(a, b, n) == r,
{
    lemma_bits_agree(a, b, r);
    lemma_shared_bits(a, b, n);
    if r < n {
        let w = full_width(r, 2);
        lemma_full_width(r, 2);
        vstd::arithmetic::div_mod::lemma_mod_breakdown(a, w, 2);
        vstd::arithmetic::div_mod::lemma_mod_breakdown(b, w, 2);
        let x = (a / w) % 2;
        let y = (b / w) % 2;
        assert(w * x != w * y) by (nonlinear_arith)
            requires
                x != y,
                w >= 1,
        ;
        assert(!meets(a, b, r + 1));
    }
    assert(meets(a, b, r));
}

proof fn lemma_bits_agree(a: int, b: int, r: int)
    requires
        0 <= a,
        0 <= b,
        0 <= r,
        forall|j: int|
            0 <= j < r ==> #[trigger] (a / full_width(j, 2)) % 2 == (b / full_width(j, 2)) % 2,
    ensures
        meets(a, b, r),
    decreases r,
{
    lemma_full_width(0, 2);
    if r > 0 {
        lemma_bits_agree(a, b, r - 1);
        let w = full_width(r - 1, 2);
        lemma_full_width(r - 1, 2);
        vstd::arithmetic::div_mod::lemma_mod_breakdown(a, w, 2);
        vstd::arithmetic::div_mod::lemma_mod_breakdown(b, w, 2);
        assert((a / full_width(r - 1, 2)) % 2 == (b / full_width(r - 1, 2)) % 2);
    }
}

/// The number of low bits that two 32-bit positions share.
pub fn common_suffix_length(a: u32, b: u32) -> (r: u32)
    ensures
        r == shared_bits(a as int, b as int, 32),
{
    let w: u32 = a ^ b;
    let r: u32 = w.trailing_zeros();
    proof {
        broadcast use vstd::std_specs::bits::axiom_u32_trailing_zeros;

        vstd::arithmetic::power2::lemma2_to64();
        lemma_pow2(32);
        assert forall|j: int| 0 <= j < r implies #[trigger] (a as int / full_width(j, 2)) % 2 == (
        b as int / full_width(j, 2)) % 2 by {
            let s = j as u32;
            assert((w >> s) & 1u32 == 0u32);
            lemma_bit_u32(a, b, s);
        }
        if r < 32 {
            assert((w >> r) & 1u32 == 1u32);
            lemma_bit_u32(a, b, r);
        }
        lemma_bits_decide(a as int, b as int, r as int, 32);
    }
    r
}

proof fn lemma_bit_u32(a: u32, b: u32, s: u32)
    requires
        s < 32,
    ensures
        ((a ^ b) >> s) & 1u32 == 0u32 || ((a ^ b) >> s) & 1u32 == 1u32,
        ((a ^ b) >> s) & 1u32 == 0u32 <==> (a as int / full_width(s as int, 2)) % 2 == (b as int
            / full_width(s as int, 2)) % 2,
{
    assert(((a ^ b) >> s) & 1u32 == 0u32 || ((a ^ b) >> s) & 1u32 == 1u32) by (bit_vector);
    assert(((a ^ b) >> s) & 1u32 == 0u32 <==> (a >> s) % 2 == (b >> s) % 2) by (bit_vector);
    lemma_u32_shr_is_div(a, s);
    lemma_u32_shr_is_div(b, s);
    lemma_pow2(s as nat);
}

/// The number of low bits that two 64-bit positions share.
pub fn common_suffix_length_u64(a: u64, b: u64) -> (r: u32)
    ensures
        r == shared_bits(a as int, b as int, 64),
{
    let w: u64 = a ^ b;
    let r: u32 = w.trailing_zeros();
    proof {
        broadcast use vstd::std_specs::bits::axiom_u64_trailing_zeros;

        vstd::arithmetic::power2::lemma2_to64();
        lemma_pow2(64);
        assert forall|j: int| 0 <= j < r implies #[trigger] (a as int / full_width(j, 2)) % 2 == (
        b as int / full_width(j, 2)) % 2 by {
            let s = j as u64;
            assert((w >> s) & 1u64 == 0u64);
            lemma_bit_u64(a, b, s);
        }
        if r < 64 {
            assert((w >> (r as u64)) & 1u64 == 1u64);
            lemma_bit_u64(a, b, r as u64);
        }
        lemma_bits_decide(a as int, b as int, r as int, 64);
    }
    r
}

proof fn lemma_bit_u64(a: u64, b: u64, s: u64)
    requires
        s < 64,
    ensures
        ((a ^ b) >> s) & 1u64 == 0u64 || ((a ^ b) >> s) & 1u64 == 1u64,
        ((a ^ b) >> s) & 1u64 == 0u64 <==> (a as int / full_width(s as int, 2)) % 2 == (b as int
            / full_width(s as int, 2)) % 2,
{
    assert(((a ^ b) >> s) & 1u64 == 0u64 || ((a ^ b) >> s) & 1u64 == 1u64) by (bit_vector);
    assert(((a ^ b) >> s) & 1u64 == 0u64 <==> (a >> s) % 2 == (b >> s) % 2) by (bit_vector);
    lemma_u64_shr_is_div(a, s);
    lemma_u64_shr_is_div(b, s);
    lemma_pow2(s as nat);
}

} // verus!
