use rand::rngs::StdRng;
use rand::Rng;
use vstd::prelude::*;

verus! {

/// The random source handed to every sampling call.
#[verifier::external_type_specification]
#[verifier::external_body]
pub struct ExStdRng(StdRng);

/// Relies on `rand::Rng::random_range` on the range `0..bound`: it returns a value
/// of that range (drawn uniformly) and panics only when the range is empty.
#[verifier::external_body]
pub(crate) fn draw_below(rng: &mut StdRng, bound: u128) -> (r: u128)
    requires
        bound > 0,
    ensures
        r < bound,
{
    rng.random_range(0..bound)
}

} // verus!
