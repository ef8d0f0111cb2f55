//! The random index source used to scatter mines at construction.

use vstd::prelude::*;

verus! {

/// Relies on `rand::thread_rng` and `rand::Rng::gen_range`: a value drawn
/// from the half-open range `min..max` lies in that range. Nothing more is
/// assumed of the draw: the mine-placement loop is verified for every value
/// the source may hand back. `gen_range` panics on an empty range, so an
/// empty range is excluded here.
#[verifier::external_body]
pub fn random_range(min: usize, max: usize) -> (r: usize)
    requires
        min < max,
    ensures
        min <= r < max,
{
    rand::Rng::gen_range(&mut rand::thread_rng(), min..max)
}

} // verus!
