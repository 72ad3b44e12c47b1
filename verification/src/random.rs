//! Numbers drawn at random.
use vstd::prelude::*;

verus! {

/// `rand::RngCore::next_u32` on the generator of the thread, `rand::rng()`. Nothing is
/// said of the number: any `u32` may come.
#[verifier::external_body]
pub(crate) fn random_u32() -> u32 {
    rand::RngCore::next_u32(&mut rand::rng())
}

/// `rand::Rng::random_range` over `0..n` on the generator of the thread, `rand::rng()`:
/// some number below `n`. It panics on an empty range.
#[verifier::external_body]
pub(crate) fn random_below(n: usize) -> (r: usize)
    requires
        0 < n,
    ensures
        r < n,
{
    rand::Rng::random_range(&mut rand::rng(), 0..n)
}

/// `rand::RngCore::fill_bytes` on the generator of the thread, `rand::rng()`. Nothing is
/// said of the bytes: any may come.
#[verifier::external_body]
pub(crate) fn random_bytes() -> [u8; 20] {
    let mut bytes = [0u8; 20];
    rand::RngCore::fill_bytes(&mut rand::rng(), &mut bytes);
    bytes
}

} // verus!
