//! The random source used by the graph generators: a seeded ChaCha stream
//! cipher generator, drawn from through bounded-range calls.

use vstd::prelude::*;

verus! {

use rand::RngExt;
use rand_chacha::ChaCha8Rng;

#[verifier::external_type_specification]
#[verifier::external_body]
pub struct ExChaCha8Rng(ChaCha8Rng);

/// Relies on `Rng::random_range`: a value drawn from the half-open range,
/// so always strictly below the bound. The range must not be empty.
#[verifier::external_body]
pub fn rand_below(rng: &mut ChaCha8Rng, bound: usize) -> (r: usize)
    requires
        bound >= 1,
    ensures
        r < bound,
{
    rng.random_range(0..bound)
}

} // verus!
