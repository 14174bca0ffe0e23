//! What scores and strategies come to, in real numbers.

use crate::arm::MoveNode;
use crate::average::{
    average_strategy, excess, excesses, is_average_strategy, is_even, is_proportional, narrowed,
    visit_sum,
};
use crate::battle::Battle;
use crate::exact::{
    law_worth, lemma_sum_positive, lemma_sum_scaled, lemma_sum_worth, lemma_worth_fraction,
    lemma_worth_larger, lemma_worth_minus, lemma_worth_over, lemma_worth_plus, lemma_worth_times,
    linked_readings, max_real, readings, sum_real, Reading,
};
use crate::exp3::{
    est_scores, exp3_drawn, exp_weight, exp_weights, gamma_formula, is_exp3_strategy,
    probability_noted, strategy_formula, strategy_noted,
};
use crate::iteration::{compared_to_root, final_score, rolled_out, sigmoid, sigmoid_formula};
use crate::node::Node;
use crate::number::{
    at_most_answer, equal_answer, evaluates, fraction, max_formula, op_gives, sum_formula, values,
    Expr, Op, Real, Single,
};
use crate::report::{avg_strats, reports, MctsResult, MctsSideResult};
use crate::tally::lemma_visit_sum;
use crate::tree::{counted, Tree};
use crate::weighted::{draw, drawn_by_share, share_weights, shares, weight_sum, WeightError};
use vstd::prelude::*;

verus! {

/// The mean score of a move, times its visits, is its total score.
pub proof fn law_average_score<C, S: Single>(v: Reading<S>, arm: MoveNode<C, S>, r: S)
    requires
        v.exact(),
        v.has(arm.total_score),
        arm.visits > 0,
        call_ensures(MoveNode::<C, S>::average_score, (&arm,), r),
    ensures
        v.has(r),
        v.at(r) * (arm.visits as int as real) == v.at(arm.total_score),
{
    reveal_with_fuel(Reading::worth, 3);
    law_worth(v, arm.mean_formula(), r);
    let (a, b, c) = (v.at(r), arm.visits as int as real, v.at(arm.total_score));
    assert(a * b == c) by (nonlinear_arith)
        requires
            a == c / b,
            b > 0 as real,
    ;
}

/// The mean score that is reported of a move, times its visits, is its total score. A move without
/// visits is reported with a mean of zero.
pub proof fn law_reported_score<C, S: Single>(v: Reading<S>, side: MctsSideResult<C, S>, r: S)
    requires
        v.exact(),
        v.has(side.total_score),
        call_ensures(MctsSideResult::<C, S>::average_score, (&side,), r),
    ensures
        v.has(r),
        side.visits == 0 ==> v.at(r) == 0 as real,
        side.visits > 0 ==> v.at(r) * (side.visits as int as real) == v.at(side.total_score),
{
    reveal_with_fuel(Reading::worth, 3);
    if side.visits == 0 {
        law_worth(v, Expr::Count(0), r);
    } else {
        law_worth(v, Expr::Value(side.total_score).over(Expr::Count(side.visits as u64)), r);
        let (a, b, c) = (v.at(r), side.visits as int as real, v.at(side.total_score));
        assert(a * b == c) by (nonlinear_arith)
            requires
                a == c / b,
                b > 0 as real,
        ;
    }
}

/// The upper confidence bound of a move is its mean score and, on top of it, a width whose square
/// is twice the logarithm of the parent's visits for each visit of its own. A move without visits
/// is put at infinity.
pub proof fn law_ucb1<C, S: Single>(v: Reading<S>, arm: MoveNode<C, S>, parent: u32, r: S)
    requires
        v.exact(),
        v.has(arm.total_score),
        parent > 0,
        call_ensures(MoveNode::<C, S>::ucb1, (&arm, parent), r),
    ensures
        arm.visits == 0 ==> call_ensures(S::infinity, (), r),
        arm.visits > 0 ==> {
            let n = arm.visits as int as real;
            let mean = v.at(arm.total_score) / n;
            &&& v.has(r)
            &&& v.at(r) >= mean
            &&& (v.at(r) - mean) * (v.at(r) - mean) * n == 2 as real * (v.ln)(
                parent as int as real,
            )
        },
{
    if arm.visits > 0 {
        let n = arm.visits as int as real;
        let m = parent as int as real;
        let l = (v.ln)(m);
        assert(l >= 0 as real) by {
            if m > 1 as real {
                assert((v.ln)(1 as real) < l);
            } else {
                assert(m == 1 as real);
            }
        }
        let spread = (2 as real * l) / n;
        assert(spread >= 0 as real && spread * n == 2 as real * l) by (nonlinear_arith)
            requires
                spread == (2 as real * l) / n,
                n > 0 as real,
                l >= 0 as real,
        ;
        let width = (v.sqrt)(spread);
        assert(width >= 0 as real && width * width == spread);
        lemma_ucb1_worth(v, arm, parent);
        law_worth(v, arm.ucb1_formula(parent), r);
        let mean = v.at(arm.total_score) / n;
        assert(v.at(r) - mean == width);
    } else {
        assert(evaluates(Expr::<S>::Infinity, r));
    }
}

proof fn lemma_ucb1_worth<C, S: Single>(v: Reading<S>, arm: MoveNode<C, S>, parent: u32)
    requires
        v.has(arm.total_score),
        arm.visits > 0,
        parent > 0,
        (2 as real * (v.ln)(parent as int as real)) / (arm.visits as int as real) >= 0 as real,
    ensures
        v.worth(arm.ucb1_formula(parent)) == Some(
            v.at(arm.total_score) / (arm.visits as int as real) + (v.sqrt)(
                (2 as real * (v.ln)(parent as int as real)) / (arm.visits as int as real),
            ),
        ),
{
    let n = arm.visits as int as real;
    let l = (v.ln)(parent as int as real);
    let count = Expr::<S>::Count(arm.visits as u64);
    let log = Expr::<S>::Count(parent as u64).ln();
    assert(v.worth(log) == Some(l)) by {
        assert(v.worth(Expr::<S>::Count(parent as u64)) == Some(parent as int as real));
    }
    lemma_worth_over(v, Expr::Value(arm.total_score), count, v.at(arm.total_score), n);
    lemma_worth_times(v, Expr::Count(2), log, 2 as real, l);
    let twice = Expr::<S>::Count(2).times(log);
    lemma_worth_over(v, twice, count, 2 as real * l, n);
    let width = (v.sqrt)((2 as real * l) / n);
    assert(v.worth(twice.over(count).sqrt()) == Some(width));
    lemma_worth_plus(
        v,
        arm.mean_formula(),
        twice.over(count).sqrt(),
        v.at(arm.total_score) / n,
        width,
    );
}

/// The exponential of zero is one.
proof fn lemma_exp_zero<R: Real>(v: Reading<R>)
    requires
        v.lawful(),
    ensures
        (v.exp)(0 as real) == 1 as real,
{
    let e = (v.exp)(0 as real);
    assert((v.exp)(0 as real + 0 as real) == e * e);
    assert(0 as real + 0 as real == 0 as real);
    assert(e == 1 as real) by (nonlinear_arith)
        requires
            e > 0 as real,
            e == e * e,
    ;
}

/// Squeezing gives odds that are exponential in the number: the part that is missing to one is
/// the squeezed number times the exponential of minus an eightieth of the number. So the squeezed
/// number lies between zero and one, on the same side of one half as the number of zero.
pub proof fn law_sigmoid<R: Real>(v: Reading<R>, x: R, r: R)
    requires
        v.exact(),
        v.has(x),
        -(v.at(x) / 80 as real) <= v.limit,
        call_ensures(sigmoid::<R>, (x,), r),
    ensures
        v.has(r),
        v.at(r) * (v.exp)(-(v.at(x) / 80 as real)) == 1 as real - v.at(r),
        v.at(r) > 0 as real,
        v.at(r) < 1 as real,
        v.at(x) < 0 as real ==> v.at(r) < 1 as real / 2 as real,
        v.at(x) == 0 as real ==> v.at(r) == 1 as real / 2 as real,
        v.at(x) > 0 as real ==> v.at(r) > 1 as real / 2 as real,
{
    assert(evaluates(sigmoid_formula(Expr::Value(x)), r));
    lemma_squeezed(v, x, r);
}

/// What law_sigmoid says, of the formula.
proof fn lemma_squeezed<R: Real>(v: Reading<R>, x: R, r: R)
    requires
        v.exact(),
        v.has(x),
        -(v.at(x) / 80 as real) <= v.limit,
        evaluates(sigmoid_formula(Expr::Value(x)), r),
    ensures
        v.has(r),
        v.at(r) * (v.exp)(-(v.at(x) / 80 as real)) == 1 as real - v.at(r),
        v.at(r) > 0 as real,
        v.at(r) < 1 as real,
        v.at(x) < 0 as real ==> v.at(r) < 1 as real / 2 as real,
        v.at(x) == 0 as real ==> v.at(r) == 1 as real / 2 as real,
        v.at(x) > 0 as real ==> v.at(r) > 1 as real / 2 as real,
{
    let a = v.at(x);
    let y = -(a / 80 as real);
    let e = (v.exp)(y);
    assert(e > 0 as real);
    lemma_sigmoid_worth(v, x);
    law_worth(v, sigmoid_formula(Expr::Value(x)), r);
    let q = v.at(r);
    lemma_exp_zero(v);
    if a < 0 as real {
        assert((v.exp)(0 as real) < e);
    } else if a > 0 as real {
        assert(e < (v.exp)(0 as real));
    } else {
        assert(y == 0 as real);
    }
    assert(q * e == 1 as real - q && q > 0 as real && q < 1 as real) by (nonlinear_arith)
        requires
            q == 1 as real / (1 as real + e),
            e > 0 as real,
    ;
    let half = 1 as real / 2 as real;
    assert(e < 1 as real ==> q > half) by (nonlinear_arith)
        requires
            q * e == 1 as real - q,
            q > 0 as real,
            half == 1 as real / 2 as real,
    ;
    assert(e > 1 as real ==> q < half) by (nonlinear_arith)
        requires
            q * e == 1 as real - q,
            q > 0 as real,
            half == 1 as real / 2 as real,
    ;
    assert(e == 1 as real ==> q == half) by (nonlinear_arith)
        requires
            q * e == 1 as real - q,
            half == 1 as real / 2 as real,
    ;
}

proof fn lemma_sigmoid_worth<R: Real>(v: Reading<R>, x: R)
    requires
        v.has(x),
        -(v.at(x) / 80 as real) <= v.limit,
        (v.exp)(-(v.at(x) / 80 as real)) > 0 as real,
    ensures
        v.worth(sigmoid_formula(Expr::Value(x))) == Some(
            1 as real / (1 as real + (v.exp)(-(v.at(x) / 80 as real))),
        ),
{
    let a = v.at(x);
    let y = -(a / 80 as real);
    let one = Expr::<R>::Count(1);
    let slope = fraction::<R>(1, 80);
    lemma_worth_fraction(v, 1, 80);
    let s = 1 as real / 80 as real;
    lemma_worth_minus(v, Expr::Count(0), slope, 0 as real, s);
    let falling = Expr::<R>::Count(0).minus(slope);
    lemma_worth_times(v, falling, Expr::Value(x), 0 as real - s, a);
    assert((0 as real - s) * a == y) by (nonlinear_arith)
        requires
            s == 1 as real / 80 as real,
            y == -(a / 80 as real),
    ;
    let odds = falling.times(Expr::Value(x)).exp();
    assert(v.worth(odds) == Some((v.exp)(y)));
    lemma_worth_plus(v, one, odds, 1 as real, (v.exp)(y));
    lemma_worth_over(v, one, one.plus(odds), 1 as real, 1 as real + (v.exp)(y));
}

/// Every answer of the engine on the state `s` has a reading.
pub open spec fn readable<B: Battle>(v: Reading<B::Score>, s: B) -> bool {
    &&& forall|x: B::Score| #[trigger] call_ensures(B::battle_is_over, (&s,), x) ==> v.has(x)
    &&& forall|x: B::Score| #[trigger] call_ensures(B::evaluate, (&s,), x) ==> v.has(x)
}

/// The battle goes on in state `s`: the engine answers zero.
pub open spec fn goes_on<B: Battle>(v: Reading<B::Score>, s: B) -> bool {
    forall|x: B::Score| #[trigger]
        call_ensures(B::battle_is_over, (&s,), x) ==> (v.of)(x) == Some(0 as real)
}

/// However the engine evaluates the state `s`, an exponential of that size has a reading.
pub open spec fn in_range<B: Battle>(v: Reading<B::Score>, s: B, root_eval: B::Score) -> bool {
    forall|x: B::Score| #[trigger]
        call_ensures(B::evaluate, (&s,), x) ==> -((v.at(x) - v.at(root_eval)) / 80 as real)
            <= v.limit
}

/// `r` is the score of state `s` for side one. Where the battle has ended it is what the engine
/// answers, but zero where that is minus one. Where it goes on the score has odds exponential in
/// how far the evaluation is above that of the root.
pub open spec fn fair_score<B: Battle>(
    v: Reading<B::Score>,
    s: B,
    root_eval: B::Score,
    r: B::Score,
) -> bool {
    &&& v.has(r)
    &&& exists|x: B::Score|
        {
            &&& #[trigger] call_ensures(B::battle_is_over, (&s,), x)
            &&& v.at(x) == -(1 as real) ==> v.at(r) == 0 as real
            &&& v.at(x) != 0 as real && v.at(x) != -(1 as real) ==> v.at(r) == v.at(x)
            &&& v.at(x) == 0 as real ==> exists|eval: B::Score|
                {
                    let gap = v.at(eval) - v.at(root_eval);
                    &&& #[trigger] call_ensures(B::evaluate, (&s,), eval)
                    &&& v.at(r) * (v.exp)(-(gap / 80 as real)) == 1 as real - v.at(r)
                    &&& v.at(r) > 0 as real
                    &&& v.at(r) < 1 as real
                    &&& gap < 0 as real ==> v.at(r) < 1 as real / 2 as real
                    &&& gap == 0 as real ==> v.at(r) == 1 as real / 2 as real
                    &&& gap > 0 as real ==> v.at(r) > 1 as real / 2 as real
                }
        }
}

/// Battles are scored fairly.
pub proof fn law_rollout<C, I, S: Single, B: Battle<Choice = C, Instruction = I, Score = S>>(
    v: Reading<S>,
    s: B,
    root_eval: S,
    r: S,
)
    requires
        v.exact(),
        readable(v, s),
        v.has(root_eval),
        in_range(v, s, root_eval),
        call_ensures(Node::<C, I, S>::rollout::<B>, (&s, root_eval), r),
    ensures
        fair_score(v, s, root_eval, r),
{
    lemma_fair_score(v, s, root_eval, r);
}

pub proof fn lemma_fair_score<B: Battle>(
    v: Reading<B::Score>,
    s: B,
    root_eval: B::Score,
    r: B::Score,
)
    requires
        v.exact(),
        readable(v, s),
        v.has(root_eval),
        in_range(v, s, root_eval),
        rolled_out(s, root_eval, r),
    ensures
        fair_score(v, s, root_eval, r),
{
    let (x, going) = choose|x: B::Score, going: bool|
        {
            &&& #[trigger] call_ensures(B::battle_is_over, (&s,), x)
            &&& #[trigger] equal_answer(Expr::Value(x), Expr::Count(0), going)
            &&& if going {
                compared_to_root(s, root_eval, r)
            } else {
                final_score(x, r)
            }
        };
    lemma_equal_answer(v, Expr::Value(x), Expr::Count(0), going, v.at(x), 0 as real);
    if going {
        let (eval, gap) = choose|eval: B::Score, gap: B::Score|
            {
                &&& #[trigger] call_ensures(B::evaluate, (&s,), eval)
                &&& #[trigger] evaluates(Expr::Value(eval).minus(Expr::Value(root_eval)), gap)
                &&& evaluates(sigmoid_formula(Expr::Value(gap)), r)
            };
        let e = Expr::Value(eval).minus(Expr::Value(root_eval));
        lemma_worth_minus(
            v,
            Expr::Value(eval),
            Expr::Value(root_eval),
            v.at(eval),
            v.at(root_eval),
        );
        law_worth(v, e, gap);
        lemma_squeezed(v, gap, r);
        assert(call_ensures(B::evaluate, (&s,), eval));
    } else {
        let minus_one = Expr::<B::Score>::Count(0).minus(Expr::Count(1));
        let lost = choose|lost: bool|
            {
                &&& #[trigger] equal_answer(Expr::Value(x), minus_one, lost)
                &&& if lost {
                    evaluates(Expr::Count(0), r)
                } else {
                    r == x
                }
            };
        lemma_worth_minus(v, Expr::Count(0), Expr::Count(1), 0 as real, 1 as real);
        lemma_equal_answer(v, Expr::Value(x), minus_one, lost, v.at(x), 0 as real - 1 as real);
        if lost {
            law_worth(v, Expr::Count(0), r);
        }
    }
    assert(call_ensures(B::battle_is_over, (&s,), x));
}

/// An answer on equality is the truth.
pub proof fn lemma_equal_answer<R: Real>(
    v: Reading<R>,
    a: Expr<R>,
    b: Expr<R>,
    answer: bool,
    x: real,
    y: real,
)
    requires
        v.exact(),
        equal_answer(a, b, answer),
        v.worth(a) == Some(x),
        v.worth(b) == Some(y),
    ensures
        answer == (x == y),
{
    let (p, q) = choose|p: R, q: R|
        evaluates(a, p) && evaluates(b, q) && #[trigger] call_ensures(R::equals, (p, q), answer);
    law_worth(v, a, p);
    law_worth(v, b, q);
}

/// Of two battles that go on, the one with the larger evaluation has the larger score.
pub proof fn law_rollout_order<C, I, S: Single, B: Battle<Choice = C, Instruction = I, Score = S>>(
    v: Reading<S>,
    s: B,
    t: B,
    root_eval: S,
    p: S,
    q: S,
)
    requires
        v.exact(),
        readable(v, s),
        readable(v, t),
        goes_on(v, s),
        goes_on(v, t),
        v.has(root_eval),
        in_range(v, s, root_eval),
        in_range(v, t, root_eval),
        forall|x: S, y: S| #[trigger]
            call_ensures(B::evaluate, (&s,), x) && #[trigger] call_ensures(B::evaluate, (&t,), y)
                ==> v.at(x) < v.at(y),
        call_ensures(Node::<C, I, S>::rollout::<B>, (&s, root_eval), p),
        call_ensures(Node::<C, I, S>::rollout::<B>, (&t, root_eval), q),
    ensures
        v.at(p) < v.at(q),
{
    law_rollout::<C, I, S, B>(v, s, root_eval, p);
    law_rollout::<C, I, S, B>(v, t, root_eval, q);
    let x = choose|x: S|
        {
            let gap = v.at(x) - v.at(root_eval);
            &&& #[trigger] call_ensures(B::evaluate, (&s,), x)
            &&& v.at(p) * (v.exp)(-(gap / 80 as real)) == 1 as real - v.at(p)
            &&& v.at(p) > 0 as real
        };
    let y = choose|y: S|
        {
            let gap = v.at(y) - v.at(root_eval);
            &&& #[trigger] call_ensures(B::evaluate, (&t,), y)
            &&& v.at(q) * (v.exp)(-(gap / 80 as real)) == 1 as real - v.at(q)
            &&& v.at(q) > 0 as real
        };
    let a = -((v.at(x) - v.at(root_eval)) / 80 as real);
    let b = -((v.at(y) - v.at(root_eval)) / 80 as real);
    assert(b < a);
    let (d, e) = ((v.exp)(a), (v.exp)(b));
    assert(e < d);
    let (m, n) = (v.at(p), v.at(q));
    assert(m < n) by (nonlinear_arith)
        requires
            m * d == 1 as real - m,
            n * e == 1 as real - n,
            m > 0 as real,
            n > 0 as real,
            e > 0 as real,
            e < d,
    ;
}

/// `p` is a distribution over moves whose estimated scores are `e`, with a share of `g` spread
/// evenly: the probabilities add up to one, and what they are above their part of that share is in
/// the ratio of the exponentials of the scores, each scaled by that part.
pub open spec fn softmax_mixed<R: Real>(
    v: Reading<R>,
    e: Seq<real>,
    g: real,
    p: Seq<real>,
) -> bool {
    let part = g / (e.len() as int as real);
    &&& p.len() == e.len()
    &&& sum_real(p) == 1 as real
    &&& forall|i: int| 0 <= i < p.len() ==> part <= #[trigger] p[i]
    &&& forall|i: int, j: int|
        #![trigger p[i], p[j]]
        0 <= i < p.len() && 0 <= j < p.len() ==> (p[i] - part) * (v.exp)(part * e[j]) == (p[j]
            - part) * (v.exp)(part * e[i])
    &&& forall|i: int, j: int|
        #![trigger p[i], p[j]]
        0 <= i < p.len() && 0 <= j < p.len() && g > 0 as real && g < 1 as real && e[i] < e[j]
            ==> p[i] < p[j]
}

/// The largest of numbers that all have a reading has one, and none of them is larger.
proof fn lemma_max_worth<R: Real>(v: Reading<R>, xs: Seq<R>)
    requires
        xs.len() > 0,
        forall|i: int| 0 <= i < xs.len() ==> v.has(#[trigger] xs[i]),
    ensures
        v.worth(max_formula(xs)) is Some,
        forall|i: int| 0 <= i < xs.len() ==> v.at(#[trigger] xs[i]) <= v.worth(max_formula(xs))->0,
    decreases xs.len(),
{
    let rest = xs.drop_last();
    let x = xs.last();
    assert(x == xs[xs.len() - 1]);
    assert(v.has(x));
    assert(v.worth(Expr::Value(x)) == Some(v.at(x)));
    if rest.len() > 0 {
        assert forall|i: int| 0 <= i < rest.len() implies v.has(#[trigger] rest[i]) by {
            assert(rest[i] == xs[i]);
        }
        lemma_max_worth(v, rest);
        let m = v.worth(max_formula(rest))->0;
        lemma_worth_larger(v, max_formula(rest), Expr::Value(x), m, v.at(x));
        assert forall|i: int| 0 <= i < xs.len() implies v.at(#[trigger] xs[i]) <= v.worth(
            max_formula(xs),
        )->0 by {
            if i < rest.len() {
                assert(rest[i] == xs[i]);
            }
        }
    } else {
        assert(max_formula(rest) == Expr::<R>::NegInfinity);
        assert(v.worth(max_formula(xs)) == Some(v.at(x)));
    }
}

/// What a weight of the strategy comes to.
proof fn lemma_exp_weight_worth<R: Real>(v: Reading<R>, xs: Seq<R>, gamma: R, x: R, m: real)
    requires
        0 < xs.len() <= u64::MAX,
        v.has(gamma),
        v.at(gamma) >= 0 as real,
        v.has(x),
        v.worth(max_formula(xs)) == Some(m),
        v.at(x) <= m,
        v.limit >= 0 as real,
    ensures
        v.worth(exp_weight(xs, gamma, x)) == Some(
            (v.exp)((v.at(gamma) / (xs.len() as int as real)) * (v.at(x) - m)),
        ),
{
    let k = xs.len() as int as real;
    let (g, a) = (v.at(gamma), v.at(x));
    let count = Expr::<R>::Count(xs.len() as u64);
    lemma_worth_over(v, Expr::Value(gamma), count, g, k);
    lemma_worth_minus(v, Expr::Value(x), max_formula(xs), a, m);
    let rate = Expr::Value(gamma).over(count);
    let gap = Expr::Value(x).minus(max_formula(xs));
    lemma_worth_times(v, rate, gap, g / k, a - m);
    assert((g / k) * (a - m) <= 0 as real) by (nonlinear_arith)
        requires
            k > 0 as real,
            g >= 0 as real,
            a <= m,
    ;
    assert(v.worth(rate.times(gap).exp()) == Some((v.exp)((g / k) * (a - m))));
}

/// Weights in the ratio of exponentials, scaled to add up to what the even share leaves, make a
/// distribution.
proof fn lemma_softmax<R: Real>(
    v: Reading<R>,
    e: Seq<real>,
    g: real,
    m: real,
    w: Seq<real>,
    p: Seq<real>,
)
    requires
        v.lawful(),
        e.len() > 0,
        w.len() == e.len(),
        p.len() == e.len(),
        g >= 0 as real,
        g <= 1 as real,
        forall|i: int|
            0 <= i < e.len() ==> #[trigger] w[i] == (v.exp)((g / (e.len() as int as real)) * (e[i]
                - m)),
        forall|i: int|
            0 <= i < e.len() ==> #[trigger] p[i] == (1 as real - g) * (w[i] / sum_real(w)) + g / (
            e.len() as int as real),
    ensures
        softmax_mixed(v, e, g, p),
{
    let k = e.len() as int as real;
    let part = g / k;
    let total = sum_real(w);
    let shift = (v.exp)(-(part * m));
    assert forall|i: int| 0 <= i < e.len() implies #[trigger] w[i] > 0 as real && w[i] == (v.exp)(
        part * e[i],
    ) * shift by {
        let (a, b) = (part * e[i], -(part * m));
        assert(part * (e[i] - m) == a + b) by (nonlinear_arith)
            requires
                a == part * e[i],
                b == -(part * m),
        ;
        assert((v.exp)(a + b) == (v.exp)(a) * (v.exp)(b));
    }
    lemma_sum_positive(w);
    assert(w[0] > 0 as real && w[0] <= total);
    let scale = (1 as real - g) / total;
    assert forall|i: int| 0 <= i < e.len() implies #[trigger] p[i] == scale * w[i] + part by {
        let x = w[i];
        assert((1 as real - g) * (x / total) == scale * x) by (nonlinear_arith)
            requires
                scale == (1 as real - g) / total,
                total > 0 as real,
        ;
    }
    assert(scale >= 0 as real && scale * total == 1 as real - g) by (nonlinear_arith)
        requires
            scale == (1 as real - g) / total,
            total > 0 as real,
            g <= 1 as real,
    ;
    lemma_sum_scaled(w, p, scale, part);
    assert(k * part == g) by (nonlinear_arith)
        requires
            part == g / k,
            k > 0 as real,
    ;
    assert forall|i: int| 0 <= i < p.len() implies part <= #[trigger] p[i] by {
        let x = w[i];
        assert(scale * x >= 0 as real) by (nonlinear_arith)
            requires
                scale >= 0 as real,
                x > 0 as real,
        ;
    }
    assert forall|i: int, j: int|
        #![trigger p[i], p[j]]
        0 <= i < p.len() && 0 <= j < p.len() implies (p[i] - part) * (v.exp)(part * e[j]) == (p[j]
        - part) * (v.exp)(part * e[i]) by {
        let (x, y) = ((v.exp)(part * e[i]), (v.exp)(part * e[j]));
        assert(w[i] == x * shift);
        assert(w[j] == y * shift);
        let (a, b) = (p[i] - part, p[j] - part);
        assert(a * y == b * x) by (nonlinear_arith)
            requires
                a == scale * (x * shift),
                b == scale * (y * shift),
        ;
    }
    assert forall|i: int, j: int|
        #![trigger p[i], p[j]]
        0 <= i < p.len() && 0 <= j < p.len() && g > 0 as real && g < 1 as real && e[i]
            < e[j] implies p[i] < p[j] by {
        let (a, b) = (part * (e[i] - m), part * (e[j] - m));
        let (c, d) = (e[i], e[j]);
        assert(a < b) by (nonlinear_arith)
            requires
                a == part * (c - m),
                b == part * (d - m),
                c < d,
                k * part == g,
                g > 0 as real,
                k > 0 as real,
        ;
        assert((v.exp)(a) < (v.exp)(b));
        assert(w[i] == (v.exp)(a) && w[j] == (v.exp)(b));
        let (x, y) = (w[i], w[j]);
        assert(scale * x < scale * y) by (nonlinear_arith)
            requires
                x < y,
                scale * total == 1 as real - g,
                total > 0 as real,
                g < 1 as real,
        ;
    }
}

/// The Exp3 strategy is a distribution over the moves that favours those with larger estimated
/// scores and gives every move its part of `gamma`.
pub proof fn law_exp3_strategy<C, I, S: Single>(
    w: Reading<S::Wide>,
    side_map: &[MoveNode<C, S>],
    gamma: S::Wide,
    r: Vec<S::Wide>,
)
    requires
        w.exact(),
        side_map@.len() > 0,
        forall|i: int| 0 <= i < side_map@.len() ==> w.has((#[trigger] side_map@[i]).est_score),
        w.has(gamma),
        w.at(gamma) >= 0 as real,
        w.at(gamma) <= 1 as real,
        call_ensures(Node::<C, I, S>::exp3_strategy, (side_map, gamma), r),
    ensures
        r@.len() == side_map@.len(),
        forall|i: int| 0 <= i < r@.len() ==> w.has(#[trigger] r@[i]),
        softmax_mixed(
            w,
            Seq::new(side_map@.len(), |i: int| w.at(side_map@[i].est_score)),
            w.at(gamma),
            readings(w, r@),
        ),
{
    assert(side_map.len() <= usize::MAX);
    lemma_strategy_distribution(w, side_map@, gamma, r@);
}

pub proof fn lemma_strategy_distribution<C, S: Single>(
    w: Reading<S::Wide>,
    side_map: Seq<MoveNode<C, S>>,
    gamma: S::Wide,
    p: Seq<S::Wide>,
)
    requires
        w.exact(),
        0 < side_map.len() <= usize::MAX,
        forall|i: int| 0 <= i < side_map.len() ==> w.has((#[trigger] side_map[i]).est_score),
        w.has(gamma),
        w.at(gamma) >= 0 as real,
        w.at(gamma) <= 1 as real,
        is_exp3_strategy(side_map, gamma, p),
    ensures
        forall|i: int| 0 <= i < p.len() ==> w.has(#[trigger] p[i]),
        softmax_mixed(
            w,
            Seq::new(side_map.len(), |i: int| w.at(side_map[i].est_score)),
            w.at(gamma),
            readings(w, p),
        ),
{
    let xs = est_scores(side_map);
    let e = Seq::new(side_map.len(), |i: int| w.at(side_map[i].est_score));
    let g = w.at(gamma);
    let k = xs.len() as int as real;
    assert forall|i: int| 0 <= i < xs.len() implies w.has(#[trigger] xs[i]) by {
        assert(w.has(side_map[i].est_score));
    }
    lemma_max_worth(w, xs);
    let m = w.worth(max_formula(xs))->0;
    let ws = Seq::new(xs.len(), |i: int| (w.exp)((g / k) * (e[i] - m)));
    let es = exp_weights(xs, gamma);
    assert forall|i: int| 0 <= i < es.len() implies w.worth(#[trigger] es[i]) == Some(ws[i]) by {
        lemma_exp_weight_worth(w, xs, gamma, xs[i], m);
    }
    lemma_sum_worth(w, es, ws);
    let total = sum_real(ws);
    assert(total > 0 as real) by {
        assert forall|i: int| 0 <= i < ws.len() implies #[trigger] ws[i] >= 0 as real by {
            assert((w.exp)((g / k) * (e[i] - m)) > 0 as real);
        }
        lemma_sum_positive(ws);
        assert((w.exp)((g / k) * (e[0] - m)) > 0 as real);
        assert(ws[0] <= total);
    }
    assert forall|i: int| 0 <= i < p.len() implies (w.of)(#[trigger] p[i]) == Some(
        (1 as real - g) * (ws[i] / total) + g / k,
    ) by {
        lemma_strategy_worth(w, xs, gamma, i, ws[i], total);
        assert(evaluates(strategy_formula(xs, gamma, i), p[i]));
        law_worth(w, strategy_formula(xs, gamma, i), p[i]);
    }
    lemma_softmax(w, e, g, m, ws, readings(w, p));
}

proof fn lemma_strategy_worth<R: Real>(
    v: Reading<R>,
    xs: Seq<R>,
    gamma: R,
    i: int,
    x: real,
    total: real,
)
    requires
        0 < xs.len() <= u64::MAX,
        0 <= i < xs.len(),
        v.has(gamma),
        v.worth(exp_weights(xs, gamma)[i]) == Some(x),
        v.worth(sum_formula(exp_weights(xs, gamma))) == Some(total),
        total > 0 as real,
    ensures
        v.worth(strategy_formula(xs, gamma, i)) == Some(
            (1 as real - v.at(gamma)) * (x / total) + v.at(gamma) / (xs.len() as int as real),
        ),
{
    let g = v.at(gamma);
    let k = xs.len() as int as real;
    let es = exp_weights(xs, gamma);
    let ge = Expr::Value(gamma);
    let count = Expr::<R>::Count(xs.len() as u64);
    lemma_worth_minus(v, Expr::Count(1), ge, 1 as real, g);
    lemma_worth_over(v, es[i], sum_formula(es), x, total);
    let rest = Expr::Count(1).minus(ge);
    let part = es[i].over(sum_formula(es));
    lemma_worth_times(v, rest, part, 1 as real - g, x / total);
    lemma_worth_over(v, ge, count, g, k);
    lemma_worth_plus(v, rest.times(part), ge.over(count), (1 as real - g) * (x / total), g / k);
}

/// By how much the mean probability of the `i`-th move exceeds its part of `g`, where `cum` are the
/// probabilities of all moves added up over `t` rounds.
pub open spec fn surplus(cum: Seq<real>, t: real, g: real, i: int) -> real {
    cum[i] / t - g / (cum.len() as int as real)
}

/// `avg` is the strategy on average, for moves with the given sums of probabilities and visits.
///
/// Before any visit, and where no move has a surplus over its part of `g`, it is even. Else it is a
/// distribution in which moves without surplus have no part, and all others parts in the ratio of
/// their surpluses.
pub open spec fn fair_average(cum: Seq<real>, visits: Seq<real>, g: real, avg: Seq<real>) -> bool {
    let k = cum.len() as int as real;
    let t = sum_real(visits);
    &&& avg.len() == cum.len()
    &&& t == 0 as real || (forall|i: int|
        0 <= i < cum.len() ==> #[trigger] surplus(cum, t, g, i) <= 0 as real) ==> (forall|i: int|
        0 <= i < avg.len() ==> #[trigger] avg[i] == 1 as real / k)
    &&& t > 0 as real && (exists|i: int|
        0 <= i < cum.len() && #[trigger] surplus(cum, t, g, i) > 0 as real) ==> {
        &&& sum_real(avg) == 1 as real
        &&& forall|i: int|
            #![trigger avg[i]]
            0 <= i < avg.len() ==> if surplus(cum, t, g, i) <= 0 as real {
                avg[i] == 0 as real
            } else {
                avg[i] > 0 as real
            }
        &&& forall|i: int, j: int|
            #![trigger avg[i], avg[j]]
            0 <= i < avg.len() && 0 <= j < avg.len() && surplus(cum, t, g, i) > 0 as real
                && surplus(cum, t, g, j) > 0 as real ==> avg[i] * surplus(cum, t, g, j) == avg[j]
                * surplus(cum, t, g, i)
        &&& forall|i: int, j: int|
            #![trigger avg[i], avg[j]]
            0 <= i < avg.len() && 0 <= j < avg.len() && surplus(cum, t, g, j) > 0 as real
                && surplus(cum, t, g, i) < surplus(cum, t, g, j) ==> avg[i] < avg[j]
    }
}

/// The probabilities of the moves, added up, as real numbers.
pub open spec fn cum_strats<C, S: Single>(
    w: Reading<S::Wide>,
    options: Seq<MoveNode<C, S>>,
) -> Seq<real> {
    Seq::new(options.len(), |i: int| w.at(options[i].cum_strat))
}

/// The visits of the moves, as real numbers.
pub open spec fn visit_counts<C, S: Single>(options: Seq<MoveNode<C, S>>) -> Seq<real> {
    Seq::new(options.len(), |i: int| options[i].visits as int as real)
}

pub proof fn lemma_visit_counts<C, S: Single>(options: Seq<MoveNode<C, S>>)
    ensures
        sum_real(visit_counts(options)) == visit_sum(options) as int as real,
    decreases options.len(),
{
    let counts = visit_counts(options);
    if options.len() > 0 {
        lemma_visit_counts(options.drop_last());
        assert(counts.drop_last() =~= visit_counts(options.drop_last()));
        assert(counts.last() == options.last().visits as int as real);
    }
}

proof fn lemma_excess_worth<C, S: Single>(
    w: Reading<S::Wide>,
    side_map: Seq<MoveNode<C, S>>,
    gamma: S::Wide,
    t: nat,
    i: int,
)
    requires
        0 <= i < side_map.len() <= u64::MAX,
        0 < t <= u64::MAX,
        w.has(gamma),
        w.has(side_map[i].cum_strat),
    ensures
        w.worth(excess(side_map, gamma, t, i)) == Some(
            max_real(
                surplus(cum_strats(w, side_map), t as int as real, w.at(gamma), i),
                0 as real,
            ),
        ),
{
    let n = t as int as real;
    let k = side_map.len() as int as real;
    let c = w.at(side_map[i].cum_strat);
    let g = w.at(gamma);
    let cum = Expr::Value(side_map[i].cum_strat);
    let rounds = Expr::<S::Wide>::Count(t as u64);
    let count = Expr::<S::Wide>::Count(side_map.len() as u64);
    lemma_worth_over(w, cum, rounds, c, n);
    lemma_worth_over(w, Expr::Value(gamma), count, g, k);
    lemma_worth_minus(w, cum.over(rounds), Expr::Value(gamma).over(count), c / n, g / k);
    lemma_worth_larger(
        w,
        cum.over(rounds).minus(Expr::Value(gamma).over(count)),
        Expr::Count(0),
        c / n - g / k,
        0 as real,
    );
}

/// Parts in the ratio of surpluses.
proof fn lemma_proportional(cum: Seq<real>, t: real, g: real, b: Seq<real>, avg: Seq<real>)
    requires
        b.len() == cum.len(),
        avg.len() == cum.len(),
        forall|i: int|
            0 <= i < b.len() ==> #[trigger] b[i] == max_real(surplus(cum, t, g, i), 0 as real),
        sum_real(b) > 0 as real,
        forall|i: int| 0 <= i < b.len() ==> #[trigger] avg[i] == b[i] / sum_real(b),
    ensures
        sum_real(avg) == 1 as real,
        forall|i: int|
            #![trigger avg[i]]
            0 <= i < avg.len() ==> if surplus(cum, t, g, i) <= 0 as real {
                avg[i] == 0 as real
            } else {
                avg[i] > 0 as real
            },
        forall|i: int, j: int|
            #![trigger avg[i], avg[j]]
            0 <= i < avg.len() && 0 <= j < avg.len() && surplus(cum, t, g, i) > 0 as real
                && surplus(cum, t, g, j) > 0 as real ==> avg[i] * surplus(cum, t, g, j) == avg[j]
                * surplus(cum, t, g, i),
        forall|i: int, j: int|
            #![trigger avg[i], avg[j]]
            0 <= i < avg.len() && 0 <= j < avg.len() && surplus(cum, t, g, j) > 0 as real
                && surplus(cum, t, g, i) < surplus(cum, t, g, j) ==> avg[i] < avg[j],
{
    let total = sum_real(b);
    let scale = 1 as real / total;
    assert forall|i: int| 0 <= i < b.len() implies (#[trigger] avg[i]) == scale * b[i]
        + 0 as real by {
        let x = b[i];
        assert(x / total == scale * x) by (nonlinear_arith)
            requires
                scale == 1 as real / total,
                total > 0 as real,
        ;
    }
    assert(scale > 0 as real && scale * total == 1 as real) by (nonlinear_arith)
        requires
            scale == 1 as real / total,
            total > 0 as real,
    ;
    lemma_sum_scaled(b, avg, scale, 0 as real);
    assert((b.len() as int as real) * (0 as real) == 0 as real) by (nonlinear_arith);
    assert forall|i: int|
        #![trigger avg[i]]
        0 <= i < avg.len() implies if surplus(cum, t, g, i) <= 0 as real {
        avg[i] == 0 as real
    } else {
        avg[i] > 0 as real
    } by {
        let x = b[i];
        assert(x == 0 as real ==> scale * x == 0 as real) by (nonlinear_arith);
        assert(x > 0 as real ==> scale * x > 0 as real) by (nonlinear_arith)
            requires
                scale > 0 as real,
        ;
    }
    assert forall|i: int, j: int|
        #![trigger avg[i], avg[j]]
        0 <= i < avg.len() && 0 <= j < avg.len() && surplus(cum, t, g, i) > 0 as real && surplus(
            cum,
            t,
            g,
            j,
        ) > 0 as real implies avg[i] * surplus(cum, t, g, j) == avg[j] * surplus(cum, t, g, i) by {
        let (x, y) = (b[i], b[j]);
        assert((scale * x) * y == (scale * y) * x) by (nonlinear_arith);
    }
    assert forall|i: int, j: int|
        #![trigger avg[i], avg[j]]
        0 <= i < avg.len() && 0 <= j < avg.len() && surplus(cum, t, g, j) > 0 as real && surplus(
            cum,
            t,
            g,
            i,
        ) < surplus(cum, t, g, j) implies avg[i] < avg[j] by {
        let (x, y) = (b[i], b[j]);
        assert(scale * x < scale * y) by (nonlinear_arith)
            requires
                x < y,
                scale > 0 as real,
        ;
    }
}

/// An answer on order is the truth.
proof fn lemma_at_most_answer<R: Real>(
    v: Reading<R>,
    a: Expr<R>,
    b: Expr<R>,
    answer: bool,
    x: real,
    y: real,
)
    requires
        v.exact(),
        at_most_answer(a, b, answer),
        v.worth(a) == Some(x),
        v.worth(b) == Some(y),
    ensures
        answer == (x <= y),
{
    let (p, q) = choose|p: R, q: R|
        evaluates(a, p) && evaluates(b, q) && #[trigger] call_ensures(R::at_most, (p, q), answer);
    law_worth(v, a, p);
    law_worth(v, b, q);
}

proof fn lemma_even<S: Real>(v: Reading<S>, r: Seq<S>)
    requires
        v.exact(),
        is_even(r),
        0 < r.len() <= u64::MAX,
    ensures
        forall|i: int|
            0 <= i < r.len() ==> (v.of)(#[trigger] r[i]) == Some(
                1 as real / (r.len() as int as real),
            ),
{
    assert forall|i: int| 0 <= i < r.len() implies (v.of)(#[trigger] r[i]) == Some(
        1 as real / (r.len() as int as real),
    ) by {
        lemma_worth_fraction(v, 1, r.len() as u64);
        law_worth(v, fraction(1, r.len() as u64), r[i]);
    }
}

/// The average strategy is fair.
pub proof fn lemma_average_fair<C, S: Single>(
    v: Reading<S>,
    w: Reading<S::Wide>,
    side_map: Seq<MoveNode<C, S>>,
    gamma: S::Wide,
    r: Seq<S>,
)
    requires
        v.exact(),
        w.exact(),
        linked_readings(v, w),
        0 < side_map.len() <= u64::MAX,
        visit_sum(side_map) <= u64::MAX,
        w.has(gamma),
        forall|i: int| 0 <= i < side_map.len() ==> w.has((#[trigger] side_map[i]).cum_strat),
        is_average_strategy(side_map, gamma, r),
    ensures
        forall|i: int| 0 <= i < r.len() ==> v.has(#[trigger] r[i]),
        fair_average(
            cum_strats(w, side_map),
            visit_counts(side_map),
            w.at(gamma),
            readings(v, r),
        ),
{
    let n = visit_sum(side_map);
    let t = n as int as real;
    let g = w.at(gamma);
    let cum = cum_strats(w, side_map);
    lemma_visit_counts(side_map);
    if n == 0 {
        lemma_even(v, r);
    } else {
        let es = excesses(side_map, gamma, n);
        let b = Seq::new(side_map.len(), |i: int| max_real(surplus(cum, t, g, i), 0 as real));
        assert forall|i: int| 0 <= i < es.len() implies w.worth(#[trigger] es[i]) == Some(b[i]) by {
            assert(w.has(side_map[i].cum_strat));
            lemma_excess_worth(w, side_map, gamma, n, i);
        }
        lemma_sum_worth(w, es, b);
        let total = sum_real(b);
        lemma_sum_positive(b);
        let flat = choose|flat: bool|
            {
                &&& #[trigger] at_most_answer(sum_formula(es), Expr::Count(0), flat)
                &&& if flat {
                    is_even(r)
                } else {
                    is_proportional(side_map, gamma, n, r)
                }
            };
        lemma_at_most_answer(w, sum_formula(es), Expr::Count(0), flat, total, 0 as real);
        if flat {
            lemma_even(v, r);
            assert forall|i: int| 0 <= i < cum.len() implies #[trigger] surplus(cum, t, g, i)
                <= 0 as real by {
                assert(b[i] <= total);
            }
        } else {
            assert forall|i: int| 0 <= i < r.len() implies (v.of)(#[trigger] r[i]) == Some(
                b[i] / total,
            ) by {
                let e = es[i].over(sum_formula(es));
                assert(narrowed(e, r[i]));
                let x = choose|x: S::Wide|
                    evaluates(e, x) && #[trigger] call_ensures(S::narrow, (x,), r[i]);
                lemma_worth_over(w, es[i], sum_formula(es), b[i], total);
                law_worth(w, e, x);
            }
            lemma_proportional(cum, t, g, b, readings(v, r));
            if forall|i: int| 0 <= i < cum.len() ==> #[trigger] surplus(cum, t, g, i) <= 0 as real {
                lemma_all_zero(b);
                assert(false);
            }
        }
    }
}

pub proof fn lemma_all_zero(xs: Seq<real>)
    requires
        forall|i: int| 0 <= i < xs.len() ==> #[trigger] xs[i] == 0 as real,
    ensures
        sum_real(xs) == 0 as real,
    decreases xs.len(),
{
    if xs.len() > 0 {
        assert forall|i: int| 0 <= i < xs.drop_last().len() implies #[trigger] xs.drop_last()[i]
            == 0 as real by {
            assert(xs.drop_last()[i] == xs[i]);
        }
        lemma_all_zero(xs.drop_last());
        assert(xs.last() == xs[xs.len() - 1]);
    }
}

/// The average strategy is fair: even before any visit and where no move has a surplus over its
/// part of `gamma`, and else in the ratio of the surpluses.
pub proof fn law_average_strategy<C, S: Single>(
    v: Reading<S>,
    w: Reading<S::Wide>,
    side_map: &[MoveNode<C, S>],
    gamma: S::Wide,
    r: Vec<S>,
)
    requires
        v.exact(),
        w.exact(),
        linked_readings(v, w),
        side_map@.len() > 0,
        visit_sum(side_map@) <= u64::MAX,
        w.has(gamma),
        forall|i: int| 0 <= i < side_map@.len() ==> w.has((#[trigger] side_map@[i]).cum_strat),
        call_ensures(average_strategy::<C, S>, (side_map, gamma), r),
    ensures
        forall|i: int| 0 <= i < r@.len() ==> v.has(#[trigger] r@[i]),
        fair_average(
            cum_strats(w, side_map@),
            visit_counts(side_map@),
            w.at(gamma),
            readings(v, r@),
        ),
{
    assert(side_map.len() <= usize::MAX);
    lemma_average_fair(v, w, side_map@, gamma, r@);
}

/// `results` report the moves `options`, in the same order: what they are, their scores and visits
/// as they stand, and a strategy that is fair with a share of one tenth.
pub open spec fn fairly_reported<C, S: Single>(
    v: Reading<S>,
    w: Reading<S::Wide>,
    options: Seq<MoveNode<C, S>>,
    results: Seq<MctsSideResult<C, S>>,
) -> bool {
    &&& results.len() == options.len()
    &&& forall|i: int|
        #![trigger results[i]]
        0 <= i < results.len() ==> {
            &&& results[i].move_choice == options[i].move_choice
            &&& results[i].total_score == options[i].total_score
            &&& results[i].visits == options[i].visits
            &&& v.has(results[i].avg_strat)
        }
    &&& options.len() > 0 ==> fair_average(
        cum_strats(w, options),
        visit_counts(options),
        1 as real / 10 as real,
        Seq::new(results.len(), |i: int| v.at(results[i].avg_strat)),
    )
}

proof fn lemma_gamma<R: Real>(w: Reading<R>, gamma: R)
    requires
        w.exact(),
        evaluates(gamma_formula(), gamma),
    ensures
        (w.of)(gamma) == Some(1 as real / 10 as real),
{
    lemma_worth_fraction(w, 1, 10);
    law_worth(w, gamma_formula(), gamma);
}

/// A side is reported fairly.
pub proof fn lemma_fairly_reported<C, S: Single>(
    v: Reading<S>,
    w: Reading<S::Wide>,
    options: Seq<MoveNode<C, S>>,
    results: Seq<MctsSideResult<C, S>>,
)
    requires
        v.exact(),
        w.exact(),
        linked_readings(v, w),
        options.len() <= u64::MAX,
        visit_sum(options) <= u64::MAX,
        forall|i: int| 0 <= i < options.len() ==> w.has((#[trigger] options[i]).cum_strat),
        reports(options, results),
    ensures
        fairly_reported(v, w, options, results),
{
    let gamma = choose|gamma: S::Wide| #[trigger]
        evaluates(gamma_formula(), gamma) && is_average_strategy(
            options,
            gamma,
            avg_strats(results),
        );
    lemma_gamma(w, gamma);
    if options.len() > 0 {
        lemma_average_fair(v, w, options, gamma, avg_strats(results));
        assert(readings(v, avg_strats(results)) =~= Seq::new(
            results.len(),
            |i: int| v.at(results[i].avg_strat),
        ));
        assert forall|i: int| 0 <= i < results.len() implies v.has(
            (#[trigger] results[i]).avg_strat,
        ) by {
            assert(v.has(avg_strats(results)[i]));
        }
    }
}

/// Both sides are reported fairly, and by the same rule. The number of rounds that is reported is
/// that of the visits of the root.
pub proof fn law_report<C, I, S: Single>(
    v: Reading<S>,
    w: Reading<S::Wide>,
    tree: Tree<C, I, S>,
    r: MctsResult<C, S>,
)
    requires
        v.exact(),
        w.exact(),
        linked_readings(v, w),
        tree.wf(),
        tree.nodes@[0].s1_options is Some,
        forall|i: int|
            0 <= i < tree.nodes@[0].s1_options->0@.len() ==> w.has(
                (#[trigger] tree.nodes@[0].s1_options->0@[i]).cum_strat,
            ),
        forall|i: int|
            0 <= i < tree.nodes@[0].s2_options->0@.len() ==> w.has(
                (#[trigger] tree.nodes@[0].s2_options->0@[i]).cum_strat,
            ),
        call_ensures(Tree::<C, I, S>::report, (tree,), r),
    ensures
        fairly_reported(v, w, tree.nodes@[0].s1_options->0@, r.s1@),
        fairly_reported(v, w, tree.nodes@[0].s2_options->0@, r.s2@),
        r.iteration_count == tree.nodes@[0].times_visited,
{
    let s1 = tree.nodes@[0].s1_options->0@;
    let s2 = tree.nodes@[0].s2_options->0@;
    lemma_visit_sum(tree.nodes@, 0);
    assert(counted(tree.nodes@, 0));
    assert(tree.nodes@[0].s1_options->0.len() <= usize::MAX);
    assert(tree.nodes@[0].s2_options->0.len() <= usize::MAX);
    lemma_fairly_reported(v, w, s1, r.s1@);
    lemma_fairly_reported(v, w, s2, r.s2@);
}

/// There is one fair average.
pub proof fn law_one_fair_average(
    cum: Seq<real>,
    visits: Seq<real>,
    g: real,
    p: Seq<real>,
    q: Seq<real>,
)
    requires
        forall|i: int| 0 <= i < visits.len() ==> #[trigger] visits[i] >= 0 as real,
        fair_average(cum, visits, g, p),
        fair_average(cum, visits, g, q),
    ensures
        p == q,
{
    let t = sum_real(visits);
    lemma_sum_positive(visits);
    if t > 0 as real && (exists|i: int|
        0 <= i < cum.len() && #[trigger] surplus(cum, t, g, i) > 0 as real) {
        let b = Seq::new(cum.len(), |i: int| max_real(surplus(cum, t, g, i), 0 as real));
        lemma_sum_positive(b);
        let total = sum_real(b);
        let top = choose|i: int| 0 <= i < cum.len() && #[trigger] surplus(cum, t, g, i) > 0 as real;
        assert(b[top] > 0 as real && b[top] <= total);
        assert forall|i: int| 0 <= i < cum.len() implies p[i] == q[i] by {
            lemma_part_fixed(cum, visits, g, p, b, i);
            lemma_part_fixed(cum, visits, g, q, b, i);
            let (x, y) = (p[i], q[i]);
            assert(x == y) by (nonlinear_arith)
                requires
                    x * total == y * total,
                    total > 0 as real,
            ;
        }
    } else {
        assert forall|i: int| 0 <= i < cum.len() implies p[i] == q[i] by {}
    }
    assert(p =~= q);
}

proof fn lemma_part_fixed(
    cum: Seq<real>,
    visits: Seq<real>,
    g: real,
    p: Seq<real>,
    b: Seq<real>,
    i: int,
)
    requires
        fair_average(cum, visits, g, p),
        sum_real(visits) > 0 as real,
        exists|i: int|
            0 <= i < cum.len() && #[trigger] surplus(cum, sum_real(visits), g, i) > 0 as real,
        b.len() == cum.len(),
        forall|j: int|
            0 <= j < b.len() ==> #[trigger] b[j] == max_real(
                surplus(cum, sum_real(visits), g, j),
                0 as real,
            ),
        0 <= i < cum.len(),
    ensures
        p[i] * sum_real(b) == b[i],
{
    let (x, y) = (p[i], b[i]);
    let zs = Seq::new(b.len(), |j: int| x * b[j]);
    assert forall|j: int| 0 <= j < b.len() implies #[trigger] zs[j] == x * b[j] + 0 as real by {}
    assert forall|j: int| 0 <= j < b.len() implies #[trigger] zs[j] == y * p[j] + 0 as real by {
        let (c, d) = (p[j], b[j]);
        assert(x * d == y * c) by (nonlinear_arith)
            requires
                x * d == c * y || x == 0 as real && y == 0 as real || c == 0 as real && d
                    == 0 as real,
        ;
    }
    lemma_sum_scaled(b, zs, x, 0 as real);
    lemma_sum_scaled(p, zs, y, 0 as real);
    assert((b.len() as int as real) * (0 as real) == 0 as real) by (nonlinear_arith);
    assert(y * (1 as real) == y) by (nonlinear_arith);
}

/// What is reported does not depend on the side: moves with the same visits and the same sums of
/// probabilities are reported with the same strategy.
pub proof fn law_report_blind_to_side<C, S: Single>(
    v: Reading<S>,
    w: Reading<S::Wide>,
    a: Seq<MoveNode<C, S>>,
    b: Seq<MoveNode<C, S>>,
    p: Seq<MctsSideResult<C, S>>,
    q: Seq<MctsSideResult<C, S>>,
)
    requires
        fairly_reported(v, w, a, p),
        fairly_reported(v, w, b, q),
        cum_strats(w, a) == cum_strats(w, b),
        visit_counts(a) == visit_counts(b),
    ensures
        p.len() == q.len(),
        forall|i: int|
            0 <= i < p.len() ==> v.at((#[trigger] p[i]).avg_strat) == v.at(q[i].avg_strat),
{
    assert(cum_strats(w, a).len() == cum_strats(w, b).len());
    if a.len() > 0 {
        let x = Seq::new(p.len(), |i: int| v.at(p[i].avg_strat));
        let y = Seq::new(q.len(), |i: int| v.at(q[i].avg_strat));
        law_one_fair_average(cum_strats(w, a), visit_counts(a), 1 as real / 10 as real, x, y);
        assert forall|i: int| 0 <= i < p.len() implies v.at((#[trigger] p[i]).avg_strat) == v.at(
            q[i].avg_strat,
        ) by {
            assert(x[i] == y[i]);
        }
    }
}

/// `r` is an answer to a draw in which each index stands with the part that its weight has of
/// `total`. Only an index with some part of it is drawn, and only where every weight has a part,
/// which may be none of it.
pub open spec fn drawn_from<R: Real>(
    weights: Seq<R>,
    total: R,
    r: Result<usize, WeightError>,
) -> bool {
    match r {
        Ok(i) => {
            &&& i < weights.len()
            &&& exists|q: u64| #[trigger]
                call_ensures(R::portion, (weights[i as int], total), Some(q)) && q > 0
            &&& forall|j: int|
                0 <= j < weights.len() ==> exists|q: u64| #[trigger]
                    call_ensures(R::portion, (#[trigger] weights[j], total), Some(q))
        },
        Err(WeightError::InvalidInput) => weights.len() == 0,
        Err(WeightError::InvalidWeight) => exists|j: int|
            0 <= j < weights.len() && #[trigger] call_ensures(
                R::portion,
                (weights[j], total),
                None::<u64>,
            ),
        Err(WeightError::InsufficientNonZero) => {
            &&& weights.len() > 0
            &&& forall|j: int|
                0 <= j < weights.len() ==> #[trigger] call_ensures(
                    R::portion,
                    (weights[j], total),
                    Some(0u64),
                )
        },
        Err(WeightError::Overflow) => weights.len() > 0,
    }
}

/// `r` is an answer to a draw by `weights`: each counts with its part of their sum.
pub open spec fn fairly_drawn<R: Real>(
    v: Reading<R>,
    weights: Seq<R>,
    r: Result<usize, WeightError>,
) -> bool {
    &&& weights.len() == 0 ==> r == Err::<usize, WeightError>(WeightError::InvalidInput)
    &&& exists|total: R|
        {
            &&& #[trigger] drawn_from(weights, total, r)
            &&& (forall|i: int| 0 <= i < weights.len() ==> v.has(#[trigger] weights[i])) ==> (
            v.of)(total) == Some(sum_real(readings(v, weights)))
        }
}

/// What a draw by shares comes to.
pub proof fn lemma_fairly_drawn<R: Real>(
    v: Reading<R>,
    weights: Seq<R>,
    portions: Seq<Option<u64>>,
    r: Result<usize, WeightError>,
)
    requires
        v.exact(),
        shares(weights, portions),
        drawn_by_share(portions, r),
    ensures
        fairly_drawn(v, weights, r),
{
    let total = choose|total: R|
        {
            &&& #[trigger] evaluates(sum_formula(values(weights)), total)
            &&& forall|i: int|
                0 <= i < weights.len() ==> #[trigger] call_ensures(
                    R::portion,
                    (weights[i], total),
                    portions[i],
                )
        };
    if forall|i: int| 0 <= i < weights.len() ==> v.has(#[trigger] weights[i]) {
        let es = values(weights);
        let xs = readings(v, weights);
        assert forall|i: int| 0 <= i < es.len() implies v.worth(#[trigger] es[i]) == Some(
            xs[i],
        ) by {
            assert(v.has(weights[i]));
        }
        lemma_sum_worth(v, es, xs);
        law_worth(v, sum_formula(es), total);
    }
    let ws = share_weights(portions);
    assert forall|j: int| 0 <= j < weights.len() && #[trigger] portions[j] is Some implies
        call_ensures(R::portion, (weights[j], total), Some(ws[j])) by {
        assert(call_ensures(R::portion, (weights[j], total), portions[j]));
    }
    if exists|i: int| 0 <= i < portions.len() && #[trigger] portions[i] is None {
        let j = choose|i: int| 0 <= i < portions.len() && #[trigger] portions[i] is None;
        assert(call_ensures(R::portion, (weights[j], total), portions[j]));
        assert(portions[j] == None::<u64>);
    } else {
        if r is Ok {
            let i = r->Ok_0 as int;
            assert(portions[i] is Some);
            assert(call_ensures(R::portion, (weights[i], total), Some(ws[i])));
            assert forall|j: int| 0 <= j < weights.len() implies exists|q: u64| #[trigger]
                call_ensures(R::portion, (#[trigger] weights[j], total), Some(q)) by {
                assert(portions[j] is Some);
                assert(call_ensures(R::portion, (weights[j], total), Some(ws[j])));
            }
        } else if r == Err::<usize, WeightError>(WeightError::InsufficientNonZero) {
            lemma_no_weight(ws);
            assert forall|j: int| 0 <= j < weights.len() implies #[trigger] call_ensures(
                R::portion,
                (weights[j], total),
                Some(0u64),
            ) by {
                assert(portions[j] is Some);
                assert(ws[j] == 0);
            }
        }
    }
    assert(drawn_from(weights, total, r));
}

proof fn lemma_no_weight(ws: Seq<u64>)
    requires
        weight_sum(ws) == 0,
    ensures
        forall|i: int| 0 <= i < ws.len() ==> #[trigger] ws[i] == 0,
    decreases ws.len(),
{
    if ws.len() > 0 {
        lemma_no_weight(ws.drop_last());
        assert forall|i: int| 0 <= i < ws.len() implies #[trigger] ws[i] == 0 by {
            if i < ws.len() - 1 {
                assert(ws.drop_last()[i] == ws[i]);
            }
        }
    }
}

/// A draw is fair.
pub proof fn law_draw<R: Real>(v: Reading<R>, weights: Vec<R>, r: Result<usize, WeightError>)
    requires
        v.exact(),
        call_ensures(draw::<R>, (&weights,), r),
    ensures
        fairly_drawn(v, weights@, r),
{
    let portions = choose|portions: Seq<Option<u64>>| #[trigger]
        shares(weights@, portions) && drawn_by_share(portions, r);
    lemma_fairly_drawn(v, weights@, portions, r);
}

/// The probabilities that the moves have now.
pub open spec fn curr_strats<C, S: Single>(options: Seq<MoveNode<C, S>>) -> Seq<S::Wide> {
    Seq::new(options.len(), |i: int| options[i].curr_strat)
}

/// `new` are the moves `old` after one was drawn, or none could be. Every move has a probability,
/// which has been added to its sum; of all else that is known of the moves nothing has changed. The
/// draw was by those probabilities, which are those of Exp3 with a share of one tenth.
pub open spec fn drawn_by_exp3<C, S: Single>(
    w: Reading<S::Wide>,
    old: Seq<MoveNode<C, S>>,
    new: Seq<MoveNode<C, S>>,
    r: Result<usize, WeightError>,
) -> bool {
    &&& new.len() == old.len()
    &&& forall|i: int|
        #![trigger new[i]]
        0 <= i < new.len() ==> {
            &&& new[i].move_choice == old[i].move_choice
            &&& new[i].total_score == old[i].total_score
            &&& new[i].visits == old[i].visits
            &&& new[i].est_score == old[i].est_score
            &&& call_ensures(
                <S::Wide as Real>::plus,
                (old[i].cum_strat, new[i].curr_strat),
                new[i].cum_strat,
            )
        }
    &&& fairly_drawn(w, curr_strats(new), r)
    &&& old.len() > 0 && (forall|i: int|
        0 <= i < old.len() ==> w.has((#[trigger] old[i]).est_score)) ==> {
        &&& forall|i: int| 0 <= i < new.len() ==> w.has((#[trigger] new[i]).curr_strat)
        &&& softmax_mixed(
            w,
            Seq::new(old.len(), |i: int| w.at(old[i].est_score)),
            1 as real / 10 as real,
            readings(w, curr_strats(new)),
        )
    }
}

/// Moves are drawn by Exp3.
pub proof fn law_move_drawn<C, S: Single>(
    w: Reading<S::Wide>,
    old: Seq<MoveNode<C, S>>,
    new: Seq<MoveNode<C, S>>,
    r: Result<usize, WeightError>,
)
    requires
        w.exact(),
        old.len() <= usize::MAX,
        exp3_drawn(old, new, r),
    ensures
        drawn_by_exp3(w, old, new, r),
{
    let (gamma, strategy, portions) = choose|
        gamma: S::Wide,
        strategy: Seq<S::Wide>,
        portions: Seq<Option<u64>>,
    |
        {
            &&& evaluates(gamma_formula(), gamma)
            &&& #[trigger] is_exp3_strategy(old, gamma, strategy)
            &&& strategy_noted(old, strategy, new)
            &&& #[trigger] shares(strategy, portions)
            &&& drawn_by_share(portions, r)
        };
    assert forall|i: int| 0 <= i < new.len() implies new[i].curr_strat == strategy[i]
        && call_ensures(
        <S::Wide as Real>::plus,
        (old[i].cum_strat, (#[trigger] new[i]).curr_strat),
        new[i].cum_strat,
    ) by {
        assert(probability_noted(old[i], strategy[i], new[i]));
        let (a, b) = (Expr::Value(old[i].cum_strat), Expr::Value(strategy[i]));
        let (x, y) = choose|x: S::Wide, y: S::Wide|
            evaluates(a, x) && evaluates(b, y) && #[trigger] op_gives(
                Op::Plus,
                x,
                y,
                new[i].cum_strat,
            );
        assert(op_gives(Op::Plus, x, y, new[i].cum_strat));
    }
    assert forall|i: int|
        #![trigger new[i]]
        0 <= i < new.len() implies {
        &&& new[i].move_choice == old[i].move_choice
        &&& new[i].total_score == old[i].total_score
        &&& new[i].visits == old[i].visits
        &&& new[i].est_score == old[i].est_score
    } by {
        assert(probability_noted(old[i], strategy[i], new[i]));
    }
    assert(curr_strats(new) =~= strategy);
    lemma_fairly_drawn(w, strategy, portions, r);
    lemma_gamma(w, gamma);
    if old.len() > 0 && (forall|i: int|
        0 <= i < old.len() ==> w.has((#[trigger] old[i]).est_score)) {
        lemma_strategy_distribution(w, old, gamma, strategy);
        assert forall|i: int| 0 <= i < new.len() implies w.has((#[trigger] new[i]).curr_strat) by {
            assert(w.has(strategy[i]));
        }
    }
}

} // verus!
