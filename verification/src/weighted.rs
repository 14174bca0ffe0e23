//! Drawing an index at random, by weights.

use crate::number::{evaluates, sum_formula, sum_of, values, Real};
use rand::distr::weighted::{Error, WeightedIndex};
use rand::distr::Distribution;
use vstd::prelude::*;

verus! {

/// Why no index can be drawn.
#[derive(Clone, Copy, Debug, PartialEq, Eq, Structural)]
pub enum WeightError {
    /// There are no weights.
    InvalidInput,
    /// A weight is negative or no finite number.
    InvalidWeight,
    /// All weights are zero.
    InsufficientNonZero,
    /// The weights add up to more than fits.
    Overflow,
}

/// The sum of whole weights.
pub open spec fn weight_sum(weights: Seq<u64>) -> nat
    decreases weights.len(),
{
    if weights.len() == 0 {
        0
    } else {
        weight_sum(weights.drop_last()) + weights.last() as nat
    }
}

/// `r` is an answer to a draw with whole weights: the error that the weights call for, or else
/// an index of positive weight.
pub open spec fn drawn(weights: Seq<u64>, r: Result<usize, WeightError>) -> bool {
    if weights.len() == 0 {
        r == Err::<usize, WeightError>(WeightError::InvalidInput)
    } else if weight_sum(weights) > u64::MAX {
        r == Err::<usize, WeightError>(WeightError::Overflow)
    } else if weight_sum(weights) == 0 {
        r == Err::<usize, WeightError>(WeightError::InsufficientNonZero)
    } else {
        r is Ok && r->Ok_0 < weights.len() && weights[r->Ok_0 as int] > 0
    }
}

/// Builds rand's `WeightedIndex` over the weights and has it `sample` one index from the
/// generator of `rand::rng`. What is claimed: `WeightedIndex::new` fails exactly where there are
/// no weights, where their sum exceeds a `u64`, or where it is zero, with the error that stands
/// for each; otherwise the index that comes back is in range and its weight is not zero. How
/// often an index comes back is a matter of chance, and nothing is said of it. Nor is it said that
/// `rand::rng` can be had: it panics on a system without a source of randomness.
#[verifier::external_body]
fn weighted_index(weights: &Vec<u64>) -> (r: Result<usize, WeightError>)
    ensures
        drawn(weights@, r),
{
    match WeightedIndex::new(weights) {
        Ok(distribution) => Ok(distribution.sample(&mut rand::rng())),
        Err(Error::InvalidInput) => Err(WeightError::InvalidInput),
        Err(Error::InvalidWeight) => Err(WeightError::InvalidWeight),
        Err(Error::InsufficientNonZero) => Err(WeightError::InsufficientNonZero),
        Err(_) => Err(WeightError::Overflow),
    }
}

/// `r` is what came back when exactly these weights were handed to `weighted_index`.
pub closed spec fn handed_over(weights: Seq<u64>, r: Result<usize, WeightError>) -> bool {
    exists|list: Vec<u64>|
        list@ == weights && #[trigger] call_ensures(weighted_index, (&list,), r)
}

/// `portions` are the shares that `R` gives the weights of their sum.
pub open spec fn shares<R: Real>(weights: Seq<R>, portions: Seq<Option<u64>>) -> bool {
    &&& portions.len() == weights.len()
    &&& exists|total: R|
        {
            &&& #[trigger] evaluates(sum_formula(values(weights)), total)
            &&& forall|i: int|
                0 <= i < weights.len() ==> #[trigger] call_ensures(
                    R::portion,
                    (weights[i], total),
                    portions[i],
                )
        }
}

/// The shares as whole weights.
pub open spec fn share_weights(portions: Seq<Option<u64>>) -> Seq<u64> {
    Seq::new(portions.len(), |i: int| portions[i]->0)
}

/// `r` is an answer to a draw in which the `i`-th index has the share `portions[i]`. The shares
/// themselves are the weights that are handed over, and what comes back is the answer.
pub open spec fn drawn_by_share(
    portions: Seq<Option<u64>>,
    r: Result<usize, WeightError>,
) -> bool {
    if exists|i: int| 0 <= i < portions.len() && #[trigger] portions[i] is None {
        r == Err::<usize, WeightError>(WeightError::InvalidWeight)
    } else {
        &&& handed_over(share_weights(portions), r)
        &&& drawn(share_weights(portions), r)
    }
}

/// Draws an index with the given shares as weights.
pub fn draw_by_share(portions: &Vec<Option<u64>>) -> (r: Result<usize, WeightError>)
    ensures
        drawn_by_share(portions@, r),
{
    let mut weights: Vec<u64> = Vec::new();
    let mut i: usize = 0;
    while i < portions.len()
        invariant
            i <= portions@.len(),
            weights@.len() == i,
            forall|j: int|
                0 <= j < i ==> #[trigger] portions@[j] is Some && portions@[j]->0 == weights@[j],
        decreases portions@.len() - i,
    {
        match portions[i] {
            Some(weight) => weights.push(weight),
            None => {
                assert(portions@[i as int] is None);
                return Err(WeightError::InvalidWeight);
            },
        }
        i += 1;
    }
    assert(weights@ =~= share_weights(portions@));
    let r = weighted_index(&weights);
    assert(call_ensures(weighted_index, (&weights,), r));
    r
}

/// Draws an index by the shares that the weights have of their sum.
pub fn draw<R: Real>(weights: &Vec<R>) -> (r: Result<usize, WeightError>)
    ensures
        exists|portions: Seq<Option<u64>>| #[trigger]
            shares(weights@, portions) && drawn_by_share(portions, r),
{
    let total = sum_of(weights, Ghost(values(weights@)));
    let mut portions: Vec<Option<u64>> = Vec::new();
    let mut i: usize = 0;
    while i < weights.len()
        invariant
            i <= weights@.len(),
            portions@.len() == i,
            forall|j: int|
                0 <= j < i ==> #[trigger] call_ensures(
                    R::portion,
                    (weights@[j], total),
                    portions@[j],
                ),
        decreases weights@.len() - i,
    {
        portions.push(weights[i].portion(total));
        i += 1;
    }
    let r = draw_by_share(&portions);
    assert(shares(weights@, portions@) && drawn_by_share(portions@, r));
    r
}

/// What is drawn is drawn by rand from a list in which every index stands with its own share.
proof fn law_shares_handed_over(portions: Seq<Option<u64>>, r: Result<usize, WeightError>)
    requires
        drawn_by_share(portions, r),
        forall|i: int| 0 <= i < portions.len() ==> #[trigger] portions[i] is Some,
    ensures
        exists|list: Vec<u64>|
            {
                &&& #[trigger] call_ensures(weighted_index, (&list,), r)
                &&& list@.len() == portions.len()
                &&& forall|i: int|
                    0 <= i < list@.len() ==> portions[i] == Some(#[trigger] list@[i])
            },
{
    let list = choose|list: Vec<u64>|
        list@ == share_weights(portions) && #[trigger] call_ensures(weighted_index, (&list,), r);
    assert(call_ensures(weighted_index, (&list,), r));
}

} // verus!
