//! Drawing an index at random, by weight.

use rand::distr::weighted::WeightedIndex;
use rand::distr::Distribution;
use rand::rngs::ThreadRng;
use vstd::prelude::*;

verus! {

/// A distribution over the indices of a list of 32-bit weights: holds a
/// `rand::distr::weighted::WeightedIndex`.
#[verifier::external_body]
pub struct WeightedChoice {
    index: WeightedIndex<u32>,
}

/// `rand::distr::weighted::Error`, the reason why weights make no distribution.
#[verifier::external_type_specification]
#[verifier::external_body]
pub struct ExWeightError(rand::distr::weighted::Error);

/// `rand::rngs::ThreadRng`, the random number generator of the current thread.
#[verifier::external_type_specification]
#[verifier::external_body]
pub struct ExThreadRng(ThreadRng);

/// The weights that a `WeightedChoice` was made of.
pub uninterp spec fn choice_weights(choice: WeightedChoice) -> Seq<u32>;

/// The sum of the weights `ws`.
pub open spec fn weight_sum(ws: Seq<u32>) -> int
    decreases ws.len(),
{
    if ws.len() == 0 {
        0
    } else {
        weight_sum(ws.drop_last()) + ws.last() as int
    }
}

/// `WeightedIndex::new` on 32-bit weights gives a distribution exactly when
/// there is a weight, the weights are not all zero, and their sum fits in 32
/// bits; the distribution is over these weights.
#[verifier::external_body]
pub(crate) fn weighted_choice(weights: &Vec<u32>) -> (r: Result<
    WeightedChoice,
    rand::distr::weighted::Error,
>)
    ensures
        r is Ok <==> (weights@.len() > 0 && 0 < weight_sum(weights@) <= u32::MAX),
        r matches Ok(choice) ==> choice_weights(choice) == weights@,
{
    match WeightedIndex::new(weights) {
        Ok(index) => Ok(WeightedChoice { index }),
        Err(e) => Err(e),
    }
}

/// `rand::rng` hands out the generator of the current thread.
#[verifier::external_body]
pub(crate) fn thread_rng() -> ThreadRng {
    rand::rng()
}

/// `WeightedIndex::sample` draws the index of one of the weights, and never
/// that of a weight of zero.
#[verifier::external_body]
pub(crate) fn sample_index(choice: &WeightedChoice, rng: &mut ThreadRng) -> (picked: usize)
    ensures
        picked < choice_weights(*choice).len(),
        choice_weights(*choice)[picked as int] > 0,
{
    choice.index.sample(rng)
}

} // verus!
