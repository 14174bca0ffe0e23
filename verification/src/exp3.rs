//! The strategy that picks among the moves of a side.

use crate::arm::MoveNode;
use crate::node::Node;
use crate::number::{
    add_up, evaluates, fraction, law_one_value, lemma_binary, lemma_unary, max_formula, quotient,
    single_valued, sum_formula, sum_of, Expr, Fun, Op, Real, Single,
};
use crate::weighted::{draw, drawn_by_share, shares, WeightError};
use vstd::prelude::*;

verus! {

/// The estimated scores of the moves.
pub open spec fn est_scores<C, S: Single>(side_map: Seq<MoveNode<C, S>>) -> Seq<S::Wide> {
    Seq::new(side_map.len(), |i: int| side_map[i].est_score)
}

/// The weight of a move whose estimated score is `x`, where `xs` are those of all moves:
/// exponential in how far `x` falls behind the largest.
pub open spec fn exp_weight<R>(xs: Seq<R>, gamma: R, x: R) -> Expr<R> {
    Expr::Value(gamma).over(Expr::Count(xs.len() as u64)).times(
        Expr::Value(x).minus(max_formula(xs)),
    ).exp()
}

pub open spec fn exp_weights<R>(xs: Seq<R>, gamma: R) -> Seq<Expr<R>> {
    Seq::new(xs.len(), |i: int| exp_weight(xs, gamma, xs[i]))
}

/// The probability of the `i`-th move: its part of the exponential weights, mixed with the even
/// chance of `gamma` among all moves.
pub open spec fn strategy_formula<R>(xs: Seq<R>, gamma: R, i: int) -> Expr<R> {
    Expr::Count(1).minus(Expr::Value(gamma)).times(
        exp_weights(xs, gamma)[i].over(sum_formula(exp_weights(xs, gamma))),
    ).plus(Expr::Value(gamma).over(Expr::Count(xs.len() as u64)))
}

/// `strategy` gives each move of `side_map` its probability.
pub open spec fn is_exp3_strategy<C, S: Single>(
    side_map: Seq<MoveNode<C, S>>,
    gamma: S::Wide,
    strategy: Seq<S::Wide>,
) -> bool {
    &&& strategy.len() == side_map.len()
    &&& forall|i: int|
        0 <= i < side_map.len() ==> evaluates(
            strategy_formula(est_scores(side_map), gamma, i),
            #[trigger] strategy[i],
        )
}

fn largest<C, S: Single>(side_map: &[MoveNode<C, S>]) -> (r: S::Wide)
    ensures
        evaluates(max_formula(est_scores(side_map@)), r),
{
    let ghost xs = est_scores(side_map@);
    let mut max_score = S::Wide::neg_infinity();
    let mut i: usize = 0;
    assert(evaluates(max_formula(xs.take(0)), max_score));
    while i < side_map.len()
        invariant
            i <= side_map@.len(),
            xs == est_scores(side_map@),
            evaluates(max_formula(xs.take(i as int)), max_score),
        decreases side_map@.len() - i,
    {
        let ghost before = max_score;
        let x = side_map[i].est_score;
        max_score = max_score.larger(x);
        proof {
            let upto = xs.take(i as int);
            assert(xs.take(i + 1).drop_last() =~= upto);
            lemma_binary(Op::Larger, max_formula(upto), Expr::Value(x), before, x, max_score);
        }
        i += 1;
    }
    assert(xs.take(i as int) =~= xs);
    max_score
}

/// The share of the strategy that is spread evenly over all moves.
pub open spec fn gamma_formula<R>() -> Expr<R> {
    fraction(1, 10)
}

pub(crate) fn gamma<R: Real>() -> (r: R)
    ensures
        evaluates(gamma_formula::<R>(), r),
{
    quotient(1, 10)
}

/// `new` is the move `old` with `p` noted as its current probability and added to the sum.
pub open spec fn probability_noted<C, S: Single>(
    old: MoveNode<C, S>,
    p: S::Wide,
    new: MoveNode<C, S>,
) -> bool {
    &&& new.move_choice == old.move_choice
    &&& new.total_score == old.total_score
    &&& new.visits == old.visits
    &&& new.est_score == old.est_score
    &&& new.curr_strat == p
    &&& evaluates(Expr::Value(old.cum_strat).plus(Expr::Value(p)), new.cum_strat)
}

/// `new` is `old` with `strategy` noted as the current one and added to the sums.
pub open spec fn strategy_noted<C, S: Single>(
    old: Seq<MoveNode<C, S>>,
    strategy: Seq<S::Wide>,
    new: Seq<MoveNode<C, S>>,
) -> bool {
    &&& new.len() == old.len()
    &&& forall|i: int|
        0 <= i < old.len() ==> probability_noted(old[i], strategy[i], #[trigger] new[i])
}

/// Notes `strategy` as the current one, and adds it to the sums.
pub fn note_strategy<C, S: Single>(side_map: &mut [MoveNode<C, S>], strategy: &Vec<S::Wide>)
    requires
        strategy@.len() == old(side_map)@.len(),
    ensures
        strategy_noted(old(side_map)@, strategy@, final(side_map)@),
{
    let ghost before = side_map@;
    let mut i: usize = 0;
    while i < strategy.len()
        invariant
            i <= strategy@.len() == before.len() == side_map@.len(),
            before == old(side_map)@,
            forall|j: int|
                0 <= j < i ==> probability_noted(before[j], strategy@[j], #[trigger] side_map@[j]),
            forall|j: int| i <= j < before.len() ==> #[trigger] side_map@[j] == before[j],
        decreases strategy@.len() - i,
    {
        let p = strategy[i];
        let cum = side_map[i].cum_strat;
        let sum = add_up(cum, p, Ghost(Expr::Value(cum)), Ghost(Expr::Value(p)));
        side_map[i].curr_strat = p;
        side_map[i].cum_strat = sum;
        i += 1;
    }
}

/// `new` is `old` after one draw: its strategy is noted, and `r` answers a draw by it.
pub open spec fn exp3_drawn<C, S: Single>(
    old: Seq<MoveNode<C, S>>,
    new: Seq<MoveNode<C, S>>,
    r: Result<usize, WeightError>,
) -> bool {
    exists|gamma: S::Wide, strategy: Seq<S::Wide>, portions: Seq<Option<u64>>|
        {
            &&& evaluates(gamma_formula(), gamma)
            &&& #[trigger] is_exp3_strategy(old, gamma, strategy)
            &&& strategy_noted(old, strategy, new)
            &&& #[trigger] shares(strategy, portions)
            &&& drawn_by_share(portions, r)
        }
}

impl<C, I, S: Single> Node<C, I, S> {
    /// The probability of each move: exponential in its estimated score, with a share of `gamma`
    /// spread evenly over all moves.
    pub fn exp3_strategy(side_map: &[MoveNode<C, S>], gamma: S::Wide) -> (r: Vec<S::Wide>)
        ensures
            is_exp3_strategy(side_map@, gamma, r@),
    {
        let ghost xs = est_scores(side_map@);
        let ghost g = Expr::Value(gamma);
        let ghost count = Expr::<S::Wide>::Count(xs.len() as u64);
        let k = S::Wide::from_count(side_map.len() as u64);
        let lr = gamma.over(k);
        let exploration = gamma.over(k);
        proof {
            lemma_binary(Op::Over, g, count, gamma, k, lr);
            lemma_binary(Op::Over, g, count, gamma, k, exploration);
        }
        let max_score = largest(side_map);
        let mut weights: Vec<S::Wide> = Vec::new();
        let mut i: usize = 0;
        while i < side_map.len()
            invariant
                i <= side_map@.len(),
                xs == est_scores(side_map@),
                g == Expr::Value(gamma),
                count == Expr::<S::Wide>::Count(xs.len() as u64),
                evaluates(g.over(count), lr),
                evaluates(max_formula(xs), max_score),
                weights@.len() == i,
                forall|j: int|
                    #![trigger exp_weights(xs, gamma)[j]]
                    0 <= j < i ==> evaluates(exp_weights(xs, gamma)[j], weights@[j]),
            decreases side_map@.len() - i,
        {
            let x = side_map[i].est_score;
            let gap = x.minus(max_score);
            let scaled = lr.times(gap);
            let weight = scaled.exp();
            proof {
                let e = Expr::Value(x);
                lemma_binary(Op::Minus, e, max_formula(xs), x, max_score, gap);
                lemma_binary(Op::Times, g.over(count), e.minus(max_formula(xs)), lr, gap, scaled);
                lemma_unary(
                    Fun::Exp,
                    g.over(count).times(e.minus(max_formula(xs))),
                    scaled,
                    weight,
                );
                assert(exp_weights(xs, gamma)[i as int] == exp_weight(xs, gamma, xs[i as int]));
            }
            weights.push(weight);
            i += 1;
        }
        let denom = sum_of(&weights, Ghost(exp_weights(xs, gamma)));
        let ghost es = exp_weights(xs, gamma);
        let one = S::Wide::from_count(1);
        let rest = one.minus(gamma);
        proof {
            lemma_binary(Op::Minus, Expr::Count(1), g, one, gamma, rest);
        }
        let mut strategy: Vec<S::Wide> = Vec::new();
        let mut n: usize = 0;
        while n < weights.len()
            invariant
                n <= weights@.len(),
                weights@.len() == xs.len() == es.len(),
                es == exp_weights(xs, gamma),
                g == Expr::Value(gamma),
                count == Expr::<S::Wide>::Count(xs.len() as u64),
                evaluates(Expr::<S::Wide>::Count(1).minus(g), rest),
                evaluates(g.over(count), exploration),
                evaluates(sum_formula(es), denom),
                forall|j: int|
                    #![trigger es[j]]
                    0 <= j < es.len() ==> evaluates(es[j], weights@[j]),
                strategy@.len() == n,
                forall|j: int|
                    0 <= j < n ==> evaluates(
                        strategy_formula(xs, gamma, j),
                        #[trigger] strategy@[j],
                    ),
            decreases weights@.len() - n,
        {
            let weight = weights[n];
            let part = weight.over(denom);
            let scaled = rest.times(part);
            let ghost e = es[n as int];
            proof {
                lemma_binary(Op::Over, e, sum_formula(es), weight, denom, part);
                lemma_binary(
                    Op::Times,
                    Expr::Count(1).minus(g),
                    e.over(sum_formula(es)),
                    rest,
                    part,
                    scaled,
                );
            }
            let p = add_up(
                scaled,
                exploration,
                Ghost(Expr::Count(1).minus(g).times(e.over(sum_formula(es)))),
                Ghost(g.over(count)),
            );
            strategy.push(p);
            n += 1;
        }
        strategy
    }

    /// Draws a move by the strategy, which is noted as the current one and added to the sums.
    pub fn exp3_selection(side_map: &mut [MoveNode<C, S>]) -> (r: Result<usize, WeightError>)
        ensures
            exp3_drawn(old(side_map)@, final(side_map)@, r),
    {
        let gamma: S::Wide = gamma();
        let strategy = Self::exp3_strategy(side_map, gamma);
        note_strategy(side_map, &strategy);
        let r = draw(&strategy);
        proof {
            let portions = choose|portions: Seq<Option<u64>>| #[trigger]
                shares(strategy@, portions) && drawn_by_share(portions, r);
            assert(is_exp3_strategy(old(side_map)@, gamma, strategy@));
            assert(shares(strategy@, portions));
        }
        r
    }
}

/// The strategy depends on the estimated scores and on `gamma` alone: moves with the same
/// estimated scores get the same strategy, whatever else is known of them.
pub proof fn law_strategy_by_scores<C, S: Single>(
    a: Seq<MoveNode<C, S>>,
    b: Seq<MoveNode<C, S>>,
    gamma: S::Wide,
    p: Seq<S::Wide>,
    q: Seq<S::Wide>,
)
    requires
        single_valued::<S::Wide>(),
        a.len() == b.len(),
        forall|i: int| 0 <= i < a.len() ==> (#[trigger] a[i]).est_score == b[i].est_score,
        is_exp3_strategy(a, gamma, p),
        is_exp3_strategy(b, gamma, q),
    ensures
        p == q,
{
    assert(est_scores(a) =~= est_scores(b));
    assert forall|i: int| 0 <= i < a.len() implies p[i] == q[i] by {
        law_one_value(strategy_formula(est_scores(a), gamma, i), p[i], q[i]);
    }
    assert(p =~= q);
}

} // verus!
