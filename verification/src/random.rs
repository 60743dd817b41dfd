//! The random source of the engine and the two draws it makes from it.
//!
//! The generator is `rand`'s `StdRng`, handed in by the caller, so that a run
//! under a fixed seed can be repeated. Nothing here is proved: the contracts
//! state what `rand`'s source shows of every outcome of a draw.

use rand::distributions::{Distribution, WeightedError, WeightedIndex};
use rand::rngs::StdRng;
use rand::Rng;
use vstd::prelude::*;

verus! {

/// `rand::rngs::StdRng`, the generator that every random step draws from.
#[verifier::external_type_specification]
#[verifier::external_body]
pub struct ExStdRng(rand::rngs::StdRng);

/// `rand::distributions::WeightedError`, the reason why a list of weights
/// admits no draw.
#[verifier::external_type_specification]
#[verifier::external_body]
pub struct ExWeightedError(rand::distributions::WeightedError);

/// Draws an index with a chance proportional to its weight:
/// `WeightedIndex::new` on the weights, widened to `u64` so that their sum
/// cannot overflow, then `Distribution::sample`.
///
/// Trusted: `WeightedIndex::new` fails only on an empty list or on one whose
/// sum is zero, and `sample` returns the index at which the running sum of
/// the weights first exceeds a number drawn below their total, which is the
/// index of a weight that is not zero.
#[verifier::external_body]
pub(crate) fn draw_weighted(weights: &Vec<u32>, rng: &mut StdRng) -> (drawn: Result<usize, WeightedError>)
    requires
        weights.len() <= u32::MAX,
    ensures
        match drawn {
            Ok(k) => k < weights.len() && weights[k as int] > 0,
            Err(_) => forall|i: int| 0 <= i < weights.len() ==> weights[i] == 0,
        },
{
    let wide: Vec<u64> = weights.iter().map(|w| u64::from(*w)).collect();
    match WeightedIndex::new(wide) {
        Ok(distribution) => Ok(distribution.sample(rng)),
        Err(e) => Err(e),
    }
}

/// Draws a coordinate below `limit`: `Rng::gen_range` on `0..limit`.
///
/// Trusted: `gen_range` panics on an empty range and otherwise returns a
/// value of the range.
#[verifier::external_body]
pub(crate) fn draw_below(limit: i32, rng: &mut StdRng) -> (drawn: i32)
    requires
        limit > 0,
    ensures
        0 <= drawn < limit,
{
    rng.gen_range(0..limit)
}

} // verus!
