//! The uniform random draw that rollouts use.

use rand::distributions::Distribution;
use vstd::prelude::*;

verus! {

/// Relies on rand's `Uniform` distribution over `0..n`, sampled with
/// `rand::thread_rng`: `Uniform` samples from the half-open range `[low,
/// high)`, so the draw is below `n`. `Uniform::new` panics on an empty
/// range, which `n >= 1` rules out.
#[verifier::external_body]
pub(crate) fn draw_uniform_index(n: usize) -> (r: usize)
    requires
        n >= 1,
    ensures
        r < n,
{
    let mut rng = rand::thread_rng();
    rand::distributions::Uniform::from(0..n).sample(&mut rng)
}

} // verus!
