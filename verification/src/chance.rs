//! The one place where chance enters: a generator of random numbers that
//! the caller hands in, and the draw of a number below a bound.

use rand::rngs::SmallRng;
use rand::Rng;
use vstd::prelude::*;

verus! {

/// The generator `rand::rngs::SmallRng`. The library carries it about and
/// draws from it; it knows nothing of its state.
#[verifier::external_type_specification]
#[verifier::external_body]
pub struct ExSmallRng(rand::rngs::SmallRng);

/// Calls `Rng::gen_range` with the range from 0 up to, not including, `n`.
/// Trusted: that the number drawn lies in that range. Which number it is
/// depends on the generator.
#[verifier::external_body]
pub(crate) fn random_below(rng: &mut SmallRng, n: usize) -> (r: usize)
    requires
        n > 0,
    ensures
        r < n,
{
    rng.gen_range(0..n)
}

} // verus!
