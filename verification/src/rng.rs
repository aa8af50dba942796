//! Trusted access to the process random number generator.
//!
//! Nothing can be promised about which value a draw produces, so every
//! contract here states only what holds of every outcome: a drawn index is
//! in range, and a weighted draw lands on an entry with positive weight.

use vstd::prelude::*;
use rand::Rng;
use rand::distributions::Distribution;

verus! {

/// The sum of a list of weights.
pub open spec fn weight_sum(s: Seq<u64>) -> int
    decreases s.len(),
{
    if s.len() == 0 {
        0
    } else {
        weight_sum(s.drop_last()) + s.last()
    }
}

/// A reusable discrete-distribution sampler over a fixed list of weights,
/// built once at validation time.  The sampler itself is
/// `rand::distributions::WeightedIndex`, which Verus cannot look into; its
/// contents are reflected by [`weights_of`].
#[verifier::external_body]
pub struct WeightedSampler {
    inner: rand::distributions::WeightedIndex<u64>,
}

/// The weights a sampler was built from.
pub uninterp spec fn weights_of(w: WeightedSampler) -> Seq<u64>;

impl WeightedSampler {
    /// Relies on rand::distributions::WeightedIndex::new: it returns `Err`
    /// exactly on an empty weight list or an all-zero total (a `u64` weight
    /// is never negative), and the sampler it returns draws over the given
    /// weights.  Its running total would overflow on a sum beyond
    /// `u64::MAX`, so such lists are kept out.
    #[verifier::external_body]
    pub fn new(weights: &Vec<u64>) -> (r: Option<WeightedSampler>)
        requires
            weight_sum(weights@) <= u64::MAX,
        ensures
            r is Some <==> (weights@.len() > 0 && weight_sum(weights@) > 0),
            r is Some ==> weights_of(r->Some_0) == weights@,
    {
        match rand::distributions::WeightedIndex::new(weights) {
            Ok(inner) => Some(WeightedSampler { inner }),
            Err(_) => None,
        }
    }

    /// Relies on rand::distributions::WeightedIndex::sample (with
    /// rand::thread_rng): the drawn index always lies within the weight list
    /// and an index with weight zero is never drawn.
    #[verifier::external_body]
    pub fn sample(&self) -> (r: usize)
        ensures
            r < weights_of(*self).len(),
            weights_of(*self)[r as int] > 0,
    {
        self.inner.sample(&mut rand::thread_rng())
    }
}

/// Relies on rand::Rng::gen_range (with rand::thread_rng): the drawn value
/// lies within the given non-empty range.
#[verifier::external_body]
pub(crate) fn rand_below(n: usize) -> (r: usize)
    requires
        1 <= n,
    ensures
        r < n,
{
    rand::thread_rng().gen_range(0..n)
}

} // verus!
