//! Randomness, behind trusted wrappers.  Nothing is assumed about which value
//! comes back beyond its range, so every caller is verified for every outcome.

use vstd::prelude::*;

verus! {

/// Sum of a sequence of sampling weights.
pub open spec fn weight_sum(s: Seq<u64>) -> int
    decreases s.len(),
{
    if s.len() == 0 {
        0
    } else {
        weight_sum(s.drop_last()) + s.last()
    }
}

/// Relies on rand's `Uniform::new(0, n)` and `sample`: a sample from the
/// half-open range `[0, n)` is below `n`.  Requires `n > 0`, since the range
/// must be non-empty.
#[verifier::external_body]
pub fn random_below(n: usize) -> (r: usize)
    requires
        n > 0,
    ensures
        r < n,
{
    let range = rand::distributions::Uniform::new(0, n);
    rand::distributions::Distribution::sample(&range, &mut rand::thread_rng())
}

/// Relies on rand's `WeightedIndex::new` and `sample`: with every weight at
/// least one and a total that fits the weight type, construction succeeds
/// (no zero total, no overflow of the running total) and a sample is the
/// index of one of the weights.
#[verifier::external_body]
pub fn weighted_choice(weights: &Vec<u64>) -> (r: usize)
    requires
        weights@.len() > 0,
        forall|i: int| 0 <= i < weights@.len() ==> #[trigger] weights@[i] >= 1,
        weight_sum(weights@) <= u64::MAX,
    ensures
        r < weights@.len(),
{
    let dist = rand::distributions::WeightedIndex::new(weights.iter()).unwrap();
    rand::distributions::Distribution::sample(&dist, &mut rand::thread_rng())
}

} // verus!
