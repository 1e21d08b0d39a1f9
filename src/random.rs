use rand::rngs::StdRng;
use rand::Rng;
use rand::RngCore;
use vstd::prelude::*;

verus! {

#[verifier::external_type_specification]
#[verifier::external_body]
pub struct ExStdRng(StdRng);

/// Relies on `RngCore::next_u64` of rand's `StdRng`: some 64-bit value.
#[verifier::external_body]
pub(crate) fn next_u64(rng: &mut StdRng) -> (r: u64) {
    rng.next_u64()
}

/// Relies on `Rng::gen_range` over `0..n`: a value below `n`; it panics only
/// on an empty range.
#[verifier::external_body]
pub(crate) fn below(rng: &mut StdRng, n: usize) -> (r: usize)
    requires
        n > 0,
    ensures
        r < n,
{
    rng.gen_range(0..n)
}

/// Relies on `Rng::gen_ratio`: true with probability `num / den`. It panics
/// when `num > den` or `den == 0`; a zero numerator never gives true and
/// `num == den` always does.
#[verifier::external_body]
pub(crate) fn chance(rng: &mut StdRng, num: u32, den: u32) -> (r: bool)
    requires
        num <= den,
        den > 0,
    ensures
        num == 0 ==> !r,
        num == den ==> r,
{
    rng.gen_ratio(num, den)
}

} // verus!
