//! Selection without a branch on the selector.
//!
//! The oblivious RAMs read and write every slot that an access could touch and
//! let these primitives decide which values change.
use vstd::prelude::*;

verus! {

/// `rostl_primitives::traits::Cmov::cmov` on `bool`: `dst` becomes `src` exactly
/// when `choice` holds.
#[verifier::external_body]
pub(crate) fn cmov_bool(dst: &mut bool, src: bool, choice: bool)
    ensures
        *final(dst) == (if choice { src } else { *old(dst) }),
{
    rostl_primitives::traits::Cmov::cmov(dst, &src, choice)
}

/// `rostl_primitives::traits::Cmov::cmov` on `u32`: `dst` becomes `src` exactly
/// when `choice` holds.
#[verifier::external_body]
pub(crate) fn cmov_u32(dst: &mut u32, src: u32, choice: bool)
    ensures
        *final(dst) == (if choice { src } else { *old(dst) }),
{
    rostl_primitives::traits::Cmov::cmov(dst, &src, choice)
}

/// `rostl_primitives::traits::Cmov::cmov` on `u64`: `dst` becomes `src` exactly
/// when `choice` holds.
#[verifier::external_body]
pub(crate) fn cmov_u64(dst: &mut u64, src: u64, choice: bool)
    ensures
        *final(dst) == (if choice { src } else { *old(dst) }),
{
    rostl_primitives::traits::Cmov::cmov(dst, &src, choice)
}

/// `rostl_primitives::traits::Cmov::cmov` on `i64`: `dst` becomes `src` exactly
/// when `choice` holds.
#[verifier::external_body]
pub(crate) fn cmov_i64(dst: &mut i64, src: i64, choice: bool)
    ensures
        *final(dst) == (if choice { src } else { *old(dst) }),
{
    rostl_primitives::traits::Cmov::cmov(dst, &src, choice)
}

/// `rostl_primitives::traits::Cmov::cmov` on `usize`: `dst` becomes `src` exactly
/// when `choice` holds.
#[verifier::external_body]
pub(crate) fn cmov_usize(dst: &mut usize, src: usize, choice: bool)
    ensures
        *final(dst) == (if choice { src } else { *old(dst) }),
{
    rostl_primitives::traits::Cmov::cmov(dst, &src, choice)
}

/// `rostl_primitives::traits::Cmov::cmov` on a byte slice, here the two arrays of
/// equal length: `dst` becomes `src` exactly when `choice` holds.
#[verifier::external_body]
pub(crate) fn cmov_bytes<const N: usize>(dst: &mut [u8; N], src: &[u8; N], choice: bool)
    ensures
        *final(dst) == (if choice { *src } else { *old(dst) }),
{
    rostl_primitives::traits::Cmov::cmov(dst.as_mut_slice(), src.as_slice(), choice)
}

/// Whether both hold, with both always evaluated.
pub fn both(a: bool, b: bool) -> (r: bool)
    ensures
        r == (a && b),
{
    let mut r: bool = false;
    cmov_bool(&mut r, a, b);
    r
}

/// Whether one of the two holds, with both always evaluated.
pub fn either(a: bool, b: bool) -> (r: bool)
    ensures
        r == (a || b),
{
    let mut r: bool = a;
    cmov_bool(&mut r, true, b);
    r
}

/// A plain value that can be selected.
pub trait ObliviousValue: Copy {
    /// The value to start from: zero for numbers.
    spec fn zero() -> Self;

    /// The value to start from.
    fn zeroed() -> (r: Self)
        ensures
            r == Self::zero(),
    ;

    /// Becomes `other` exactly when `choice` holds.
    fn assign_if(&mut self, other: &Self, choice: bool)
        ensures
            *final(self) == (if choice { *other } else { *old(self) }),
    ;
}

impl ObliviousValue for bool {
    open spec fn zero() -> Self {
        false
    }

    fn zeroed() -> (r: Self) {
        false
    }

    fn assign_if(&mut self, other: &Self, choice: bool) {
        cmov_bool(self, *other, choice);
    }
}

impl ObliviousValue for u32 {
    open spec fn zero() -> Self {
        0
    }

    fn zeroed() -> (r: Self) {
        0
    }

    fn assign_if(&mut self, other: &Self, choice: bool) {
        cmov_u32(self, *other, choice);
    }
}

impl ObliviousValue for u64 {
    open spec fn zero() -> Self {
        0
    }

    fn zeroed() -> (r: Self) {
        0
    }

    fn assign_if(&mut self, other: &Self, choice: bool) {
        cmov_u64(self, *other, choice);
    }
}

impl ObliviousValue for usize {
    open spec fn zero() -> Self {
        0
    }

    fn zeroed() -> (r: Self) {
        0
    }

    fn assign_if(&mut self, other: &Self, choice: bool) {
        cmov_usize(self, *other, choice);
    }
}

/// A slot of a bucket or of a stash: it is vacant or it holds one block.
pub trait ObliviousBlock: Copy {
    /// Whether the slot holds nothing.
    spec fn vacant(self) -> bool;

    /// What the slot becomes when its block is taken out.
    spec fn vacated(self) -> Self;

    /// The freshly made vacant slot.
    spec fn blank() -> Self;

    /// Taking a block out leaves a vacant slot, and a fresh slot is vacant.
    proof fn lemma_vacancy(self)
        ensures
            self.vacated().vacant(),
            Self::blank().vacant(),
    ;

    /// Whether the slot holds nothing.
    fn is_vacant(&self) -> (r: bool)
        ensures
            r == self.vacant(),
    ;

    /// A fresh vacant slot.
    fn fresh() -> (r: Self)
        ensures
            r == Self::blank(),
    ;

    /// Becomes `other` exactly when `choice` holds.
    fn select(&mut self, other: &Self, choice: bool)
        ensures
            *final(self) == (if choice { *other } else { *old(self) }),
    ;

    /// Takes the block out exactly when `choice` holds.
    fn vacate(&mut self, choice: bool)
        ensures
            *final(self) == (if choice { old(self).vacated() } else { *old(self) }),
    ;
}

/// Exchanges `a` and `b` exactly when `choice` holds.
pub fn exchange<B: ObliviousBlock>(a: &mut B, b: &mut B, choice: bool)
    ensures
        *final(a) == (if choice { *old(b) } else { *old(a) }),
        *final(b) == (if choice { *old(a) } else { *old(b) }),
{
    let held = *a;
    a.select(b, choice);
    b.select(&held, choice);
}

} // verus!
