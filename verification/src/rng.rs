//! Randomness, behind trusted wrappers.
//!
//! Event IDs are random 64-bit tokens, and distribution facets choose a
//! child by weighted sampling. Nothing downstream depends on *which*
//! value comes back, only on the bounds stated here, so the rest of the
//! engine is verified for every possible outcome.

use crate::facets::valid_weights;
use crate::state::EventId;
use rand::distributions::Distribution;
use vstd::prelude::*;

verus! {

/// Relies on `rand::random`: a fresh 64-bit value from the thread-local
/// RNG. Nothing is promised of the result.
#[verifier::external_body]
pub(crate) fn random_u64() -> u64 {
    rand::random::<u64>()
}

/// Relies on `rand::distributions::WeightedIndex`: built over a valid
/// weight list and sampled once, it yields the index of a weight,
/// chosen with probability proportional to that weight; in particular
/// the index is in range and its weight is positive. `WeightedIndex::new`
/// refuses an empty or all-zero list and sums the weights as it goes,
/// so those lists and overflowing totals are excluded here.
#[verifier::external_body]
pub(crate) fn sample_weighted(weights: &Vec<u64>) -> (idx: usize)
    requires
        valid_weights(weights@),
    ensures
        idx < weights@.len(),
        weights@[idx as int] > 0,
{
    let sampler = rand::distributions::WeightedIndex::new(weights.iter().copied()).unwrap();
    sampler.sample(&mut rand::thread_rng())
}

impl EventId {
    /// A fresh event ID: a random 64-bit token. Uniqueness among the
    /// concurrently active instances is statistical, not promised.
    pub fn new() -> EventId {
        EventId(random_u64())
    }
}

} // verus!
