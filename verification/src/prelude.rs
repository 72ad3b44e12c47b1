//! Types shared by the oblivious RAMs.
use vstd::prelude::*;
use crate::heap_tree::{
    full_width, lemma_binary_nodes, lemma_full_width, lemma_full_width_grows, level_start,
};

verus! {

/// A leaf of an oblivious RAM tree.
pub type PositionType = u32;

/// A logical block index.
pub type K = usize;

/// The position of a block that holds nothing.
pub const DUMMY_POS: PositionType = 0xffff_ffff;

/// The smallest power of two that is at least `n` and at least two to the `e`, for
/// `n` up to two to the 64.
pub open spec fn ceil_pow2_from(n: int, e: int) -> int
    decreases 64 - e,
{
    if e >= 64 || full_width(e, 2) >= n {
        full_width(e, 2)
    } else {
        ceil_pow2_from(n, e + 1)
    }
}

/// The smallest power of two that is at least `n`.
pub open spec fn ceil_pow2(n: int) -> int {
    ceil_pow2_from(n, 0)
}

/// The number of leaves of the smallest binary tree with at least `n` leaves, and its
/// height.
pub fn binary_shape(n: usize) -> (r: (usize, usize))
    requires
        1 <= n <= 0x8000_0000,
    ensures
        r.0 == ceil_pow2(n as int),
        n <= r.0 <= 0x8000_0000,
        r.0 == full_width(r.1 - 1, 2),
        1 <= r.1 <= 32,
        n > 1 ==> r.1 > 1,
        level_start(r.1 as int, 2, r.0 as int) <= usize::MAX,
{
    let mut h: usize = 1;
    let mut rounded: usize = 1;
    proof {
        lemma_full_width(0, 2);
    }
    while rounded < n
        invariant
            1 <= n <= 0x8000_0000,
            1 <= h <= 32,
            rounded == full_width(h - 1, 2),
            ceil_pow2(n as int) == ceil_pow2_from(n as int, h - 1),
            rounded <= 0x8000_0000,
        decreases 0x1_0000_0000 - rounded,
    {
        proof {
            lemma_full_width(h - 1, 2);
            vstd::arithmetic::power2::lemma2_to64();
            vstd::arithmetic::power2::lemma_pow2(31);
            if h == 32 {
                assert(rounded == 0x8000_0000);
            } else {
                lemma_full_width_grows(h as int, 31, 2);
            }
        }
        rounded = rounded * 2;
        h += 1;
    }
    proof {
        lemma_binary_nodes(h as int);
        lemma_full_width(h - 1, 2);
        lemma_full_width_grows(h as int, 32, 2);
        vstd::arithmetic::power2::lemma2_to64();
        vstd::arithmetic::power2::lemma_pow2(32);
    }
    (rounded, h)
}

/// A vector of `n` copies of `value`.
pub fn filled<T: Copy>(value: T, n: usize) -> (r: Vec<T>)
    ensures
        r@ == Seq::new(n as nat, |i: int| value),
{
    let mut r: Vec<T> = Vec::new();
    let mut i: usize = 0;
    while i < n
        invariant
            i <= n,
            r@ == Seq::new(i as nat, |j: int| value),
        decreases n - i,
    {
        r.push(value);
        i += 1;
    }
    r
}

/// Applies `update` to `data`.
pub fn apply_update<D, T, F: FnOnce(&mut D) -> T>(data: &mut D, update: F) -> (r: T)
    requires
        forall|d: &mut D| *d == *old(data) ==> #[trigger] call_requires(update, (d,)),
    ensures
        exists|d: &mut D| #[trigger]
            call_ensures(update, (d,), r) && *d == *old(data) && *final(d) == *final(data),
{
    update(data)
}

} // verus!
