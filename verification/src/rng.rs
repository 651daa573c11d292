//! The random source: a seedable generator from the `rand` crate, behind
//! trusted wrappers that state only what holds of every draw.

use vstd::prelude::*;
use rand::RngExt;

verus! {

#[verifier::external_type_specification]
#[verifier::external_body]
pub struct ExStdRng(rand::rngs::StdRng);

/// Relies on rand::RngExt::random_range over `0..bound`: every draw lies
/// below `bound`; the call panics only on an empty range, which the
/// `requires` rules out.
#[verifier::external_body]
pub(crate) fn rng_below(rng: &mut rand::rngs::StdRng, bound: u64) -> (r: u64)
    requires
        bound >= 1,
    ensures
        r < bound,
{
    rng.random_range(0..bound)
}

} // verus!
