use rand::Rng;
use vstd::prelude::*;

verus! {

/// Relies on `rand::Rng::gen_range` over the operating system's generator: a
/// value drawn from `0..bound` (it panics on an empty range).
#[verifier::external_body]
pub(crate) fn random_below(bound: usize) -> (r: usize)
    requires
        bound > 0,
    ensures
        r < bound,
{
    let mut rng = rand::rngs::OsRng;
    rng.gen_range(0..bound)
}

/// Relies on `rand::Rng::gen_ratio` over the operating system's generator: true
/// with probability `numerator / denominator`, always for a ratio of one and
/// never for a numerator of zero (it panics on a zero denominator or a ratio
/// above one).
#[verifier::external_body]
pub(crate) fn random_ratio(numerator: u32, denominator: u32) -> (r: bool)
    requires
        0 < denominator,
        numerator <= denominator,
    ensures
        numerator == 0 ==> !r,
        numerator == denominator ==> r,
{
    let mut rng = rand::rngs::OsRng;
    rng.gen_ratio(numerator, denominator)
}

} // verus!
