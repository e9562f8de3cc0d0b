//! Trusted boundary to the `fastrand` random number generator.
//!
//! Mine placement is the only randomized step of the engine. The generator
//! type is opaque; the one sampling call is wrapped with a contract that
//! states only what holds of every outcome.

use vstd::prelude::*;

verus! {

#[verifier::external_type_specification]
#[verifier::external_body]
pub struct ExRng(fastrand::Rng);

/// Relies on `fastrand::Rng::with_seed`: constructs a generator from a seed.
/// Nothing is assumed about the values it will later produce.
#[verifier::external_body]
pub(crate) fn rng_with_seed(seed: u64) -> fastrand::Rng {
    fastrand::Rng::with_seed(seed)
}

/// Relies on `fastrand::Rng::choose_multiple`: reservoir-samples `amount`
/// items of `0..n` without replacement, so the result holds
/// `min(amount, n)` distinct indices, each below `n`. Which indices come
/// back depends on the generator's state, so nothing more is assumed.
#[verifier::external_body]
pub(crate) fn choose_indices(rng: &mut fastrand::Rng, n: usize, amount: usize) -> (r: Vec<usize>)
    ensures
        r@.len() == if amount <= n { amount as int } else { n as int },
        forall|k: int| 0 <= k < r@.len() ==> r@[k] < n,
        r@.no_duplicates(),
{
    rng.choose_multiple(0..n, amount)
}

} // verus!
