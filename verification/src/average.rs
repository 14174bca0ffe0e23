//! What a search reports of the moves of a side.

use crate::arm::MoveNode;
use crate::number::{
    at_most_answer, evaluates, fraction, lemma_binary, lemma_unary, quotient, sum_formula, sum_of,
    Expr, Fun, Op, Real, Single,
};
use vstd::prelude::*;

verus! {

/// The visits of all moves, added up.
pub open spec fn visit_sum<C, S: Single>(side_map: Seq<MoveNode<C, S>>) -> nat
    decreases side_map.len(),
{
    if side_map.len() == 0 {
        0
    } else {
        visit_sum(side_map.drop_last()) + side_map.last().visits as nat
    }
}

/// By how much the average probability of the `i`-th move in `t` rounds exceeds the share of
/// `gamma` that every move gets; zero where it does not.
pub open spec fn excess<C, S: Single>(
    side_map: Seq<MoveNode<C, S>>,
    gamma: S::Wide,
    t: nat,
    i: int,
) -> Expr<S::Wide> {
    Expr::Value(side_map[i].cum_strat).over(Expr::Count(t as u64)).minus(
        Expr::Value(gamma).over(Expr::Count(side_map.len() as u64)),
    ).larger(Expr::Count(0))
}

pub open spec fn excesses<C, S: Single>(
    side_map: Seq<MoveNode<C, S>>,
    gamma: S::Wide,
    t: nat,
) -> Seq<Expr<S::Wide>> {
    Seq::new(side_map.len(), |i: int| excess(side_map, gamma, t, i))
}

/// Every one of the numbers is one over their count.
pub open spec fn is_even<S: Real>(r: Seq<S>) -> bool {
    forall|i: int|
        0 <= i < r.len() ==> evaluates(fraction(1, r.len() as u64), #[trigger] r[i])
}

/// `r` is what narrowing gives for the formula `e`.
pub open spec fn narrowed<S: Single>(e: Expr<S::Wide>, r: S) -> bool {
    exists|x: S::Wide| evaluates(e, x) && #[trigger] call_ensures(S::narrow, (x,), r)
}

/// `r` gives each move its part of the excesses.
pub open spec fn is_proportional<C, S: Single>(
    side_map: Seq<MoveNode<C, S>>,
    gamma: S::Wide,
    t: nat,
    r: Seq<S>,
) -> bool {
    forall|i: int|
        0 <= i < r.len() ==> narrowed(
            excesses(side_map, gamma, t)[i].over(sum_formula(excesses(side_map, gamma, t))),
            #[trigger] r[i],
        )
}

/// `r` is the average strategy over all rounds: even while no move has been visited, or where no
/// move exceeds its share of `gamma`; else each move's part of the excesses.
pub open spec fn is_average_strategy<C, S: Single>(
    side_map: Seq<MoveNode<C, S>>,
    gamma: S::Wide,
    r: Seq<S>,
) -> bool {
    let t = visit_sum(side_map);
    &&& r.len() == side_map.len()
    &&& if t == 0 {
        is_even(r)
    } else {
        exists|flat: bool|
            {
                &&& #[trigger] at_most_answer(
                    sum_formula(excesses(side_map, gamma, t)),
                    Expr::Count(0),
                    flat,
                )
                &&& if flat {
                    is_even(r)
                } else {
                    is_proportional(side_map, gamma, t, r)
                }
            }
    }
}

proof fn lemma_visit_sum_grows<C, S: Single>(side_map: Seq<MoveNode<C, S>>, n: int)
    requires
        0 <= n <= side_map.len(),
    ensures
        visit_sum(side_map.take(n)) <= visit_sum(side_map),
    decreases side_map.len() - n,
{
    if n < side_map.len() {
        lemma_visit_sum_grows(side_map, n + 1);
        assert(side_map.take(n + 1).drop_last() =~= side_map.take(n));
    } else {
        assert(side_map.take(n) =~= side_map);
    }
}

/// The visits of all moves, added up: the number of rounds in which a move of the node was
/// played.
pub fn total_visits<C, S: Single>(side_map: &[MoveNode<C, S>]) -> (r: u64)
    requires
        visit_sum(side_map@) <= u64::MAX,
    ensures
        r == visit_sum(side_map@),
{
    let mut total: u64 = 0;
    let mut i: usize = 0;
    while i < side_map.len()
        invariant
            i <= side_map@.len(),
            visit_sum(side_map@) <= u64::MAX,
            total == visit_sum(side_map@.take(i as int)),
        decreases side_map@.len() - i,
    {
        proof {
            lemma_visit_sum_grows(side_map@, i + 1);
            assert(side_map@.take(i + 1).drop_last() =~= side_map@.take(i as int));
        }
        total = total + side_map[i].visits as u64;
        i += 1;
    }
    assert(side_map@.take(i as int) =~= side_map@);
    total
}

fn even_strategy<S: Single>(k: usize) -> (r: Vec<S>)
    ensures
        r@.len() == k,
        is_even(r@),
{
    let uniform: S = quotient(1, k as u64);
    let mut r: Vec<S> = Vec::new();
    let mut i: usize = 0;
    while i < k
        invariant
            i <= k,
            r@.len() == i,
            evaluates(fraction::<S>(1, k as u64), uniform),
            forall|j: int| 0 <= j < i ==> #[trigger] r@[j] == uniform,
        decreases k - i,
    {
        r.push(uniform);
        i += 1;
    }
    r
}

/// The average strategy over all rounds, without the share of `gamma` that every move got just
/// to be tried.
///
/// The sums of probabilities grow in every round that comes through the node. So they are divided
/// by the number of those rounds, which the visits of the moves add up to as long as there was
/// always a turn to play.
pub fn average_strategy<C, S: Single>(side_map: &[MoveNode<C, S>], gamma: S::Wide) -> (r: Vec<S>)
    requires
        visit_sum(side_map@) <= u64::MAX,
    ensures
        is_average_strategy(side_map@, gamma, r@),
{
    let rounds = total_visits(side_map);
    if rounds == 0 {
        return even_strategy(side_map.len());
    }
    let ghost es = excesses(side_map@, gamma, rounds as nat);
    let ghost g = Expr::Value(gamma);
    let ghost count = Expr::<S::Wide>::Count(side_map@.len() as u64);
    let t = S::Wide::from_count(rounds);
    let k = S::Wide::from_count(side_map.len() as u64);
    let floor = gamma.over(k);
    let zero = S::Wide::from_count(0);
    proof {
        lemma_binary(Op::Over, g, count, gamma, k, floor);
    }
    let mut unnormalized: Vec<S::Wide> = Vec::new();
    let mut i: usize = 0;
    while i < side_map.len()
        invariant
            i <= side_map@.len(),
            es == excesses(side_map@, gamma, rounds as nat),
            g == Expr::Value(gamma),
            count == Expr::<S::Wide>::Count(side_map@.len() as u64),
            evaluates(Expr::Count(rounds), t),
            evaluates(Expr::Count(0), zero),
            evaluates(g.over(count), floor),
            unnormalized@.len() == i,
            forall|j: int| #![trigger es[j]] 0 <= j < i ==> evaluates(es[j], unnormalized@[j]),
        decreases side_map@.len() - i,
    {
        let cum = side_map[i].cum_strat;
        let mean = cum.over(t);
        let above = mean.minus(floor);
        let kept = above.larger(zero);
        proof {
            let c = Expr::Value(cum);
            let rounds_e = Expr::Count(rounds);
            lemma_binary(Op::Over, c, rounds_e, cum, t, mean);
            lemma_binary(Op::Minus, c.over(rounds_e), g.over(count), mean, floor, above);
            lemma_binary(
                Op::Larger,
                c.over(rounds_e).minus(g.over(count)),
                Expr::Count(0),
                above,
                zero,
                kept,
            );
            assert(es[i as int] == excess(side_map@, gamma, rounds as nat, i as int));
        }
        unnormalized.push(kept);
        i += 1;
    }
    let sum = sum_of(&unnormalized, Ghost(es));
    let flat = sum.at_most(zero);
    assert(at_most_answer(sum_formula(es), Expr::Count(0), flat));
    if flat {
        return even_strategy(side_map.len());
    }
    let mut r: Vec<S> = Vec::new();
    let mut n: usize = 0;
    while n < unnormalized.len()
        invariant
            n <= unnormalized@.len() == es.len(),
            evaluates(sum_formula(es), sum),
            forall|j: int|
                #![trigger es[j]]
                0 <= j < es.len() ==> evaluates(es[j], unnormalized@[j]),
            r@.len() == n,
            forall|j: int|
                0 <= j < n ==> narrowed(es[j].over(sum_formula(es)), #[trigger] r@[j]),
        decreases unnormalized@.len() - n,
    {
        let part = unnormalized[n].over(sum);
        proof {
            lemma_binary(
                Op::Over,
                es[n as int],
                sum_formula(es),
                unnormalized@[n as int],
                sum,
                part,
            );
        }
        r.push(S::narrow(part));
        n += 1;
    }
    r
}

impl<C, S: Single> MoveNode<C, S> {
    /// The mean score of the visits plus how much is still to be learned, for a move that has
    /// been visited.
    pub open spec fn ucb1_formula(self, parent_visits: u32) -> Expr<S> {
        self.mean_formula().plus(
            Expr::Count(2).times(Expr::Count(parent_visits as u64).ln()).over(
                Expr::Count(self.visits as u64),
            ).sqrt(),
        )
    }

    pub open spec fn mean_formula(self) -> Expr<S> {
        Expr::Value(self.total_score).over(Expr::Count(self.visits as u64))
    }

    /// The upper confidence bound of the move, which balances what it has earned against how
    /// little it was tried.
    ///
    /// The first term is the mean score of the visits. The second grows with the visits of the
    /// parent and shrinks with those of the move. A move that was never visited is put above all
    /// others.
    pub fn ucb1(&self, parent_visits: u32) -> (r: S)
        ensures
            self.visits == 0 ==> evaluates(Expr::Infinity, r),
            self.visits != 0 ==> evaluates(self.ucb1_formula(parent_visits), r),
    {
        if self.visits == 0 {
            return S::infinity();
        }
        let visits = S::from_count(self.visits as u64);
        let mean = self.total_score.over(visits);
        let two = S::from_count(2);
        let parent = S::from_count(parent_visits as u64);
        let log = parent.ln();
        let twice = two.times(log);
        let spread = twice.over(visits);
        let width = spread.sqrt();
        let score = mean.plus(width);
        proof {
            let v = Expr::Count(self.visits as u64);
            let p = Expr::Count(parent_visits as u64);
            let sum = Expr::Value(self.total_score);
            lemma_binary(Op::Over, sum, v, self.total_score, visits, mean);
            lemma_unary(Fun::Ln, p, parent, log);
            lemma_binary(Op::Times, Expr::Count(2), p.ln(), two, log, twice);
            lemma_binary(Op::Over, Expr::Count(2).times(p.ln()), v, twice, visits, spread);
            lemma_unary(Fun::Sqrt, Expr::Count(2).times(p.ln()).over(v), spread, width);
            lemma_binary(
                Op::Plus,
                self.mean_formula(),
                Expr::Count(2).times(p.ln()).over(v).sqrt(),
                mean,
                width,
                score,
            );
        }
        score
    }

    /// The mean score of the visits.
    pub fn average_score(&self) -> (r: S)
        ensures
            evaluates(self.mean_formula(), r),
    {
        let visits = S::from_count(self.visits as u64);
        let score = self.total_score.over(visits);
        proof {
            lemma_binary(
                Op::Over,
                Expr::Value(self.total_score),
                Expr::Count(self.visits as u64),
                self.total_score,
                visits,
                score,
            );
        }
        score
    }
}

} // verus!
