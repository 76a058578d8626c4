use vstd::prelude::*;

use rand::Rng;
use rand::rngs::ThreadRng;

verus! {

#[verifier::external_type_specification]
#[verifier::external_body]
pub struct ExThreadRng(ThreadRng);

/// Relies on rand's `Rng::gen_range`: a draw from the non-empty range `0..n`
/// lies strictly below `n`.
#[verifier::external_body]
pub fn rand_below(rng: &mut ThreadRng, n: usize) -> (r: usize)
    requires
        n > 0,
    ensures
        r < n,
{
    rng.gen_range(0..n)
}

/// Relies on rand's `Rng::gen_range`: a draw from the non-empty range `0..n`
/// lies strictly below `n`.
#[verifier::external_body]
pub fn rand_below_u64(rng: &mut ThreadRng, n: u64) -> (r: u64)
    requires
        n > 0,
    ensures
        r < n,
{
    rng.gen_range(0..n)
}

} // verus!
