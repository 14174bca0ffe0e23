//! What a search reports.

use crate::arm::MoveNode;
use crate::average::{average_strategy, is_average_strategy, visit_sum};
use crate::battle::MoveChoice;
use crate::exp3::{gamma, gamma_formula};
use crate::node::Node;
use crate::number::{evaluates, lemma_binary, Expr, Op, Real, Single};
use crate::tally::lemma_visit_sum;
use crate::tree::{counted, Tree};
use vstd::prelude::*;

verus! {

/// What has been learned of a move at the root.
#[derive(Clone, Debug)]
pub struct MctsSideResult<C, S> {
    pub move_choice: MoveChoice<C>,
    pub total_score: S,
    pub visits: u32,
    /// How likely the average strategy makes the move.
    pub avg_strat: S,
}

impl<C, S: Single> MctsSideResult<C, S> {
    /// The mean score of the visits; zero for a move that was never visited.
    pub fn average_score(&self) -> (r: S)
        ensures
            self.visits == 0 ==> evaluates(Expr::Count(0), r),
            self.visits != 0 ==> evaluates(
                Expr::Value(self.total_score).over(Expr::Count(self.visits as u64)),
                r,
            ),
    {
        if self.visits == 0 {
            return S::from_count(0);
        }
        let visits = S::from_count(self.visits as u64);
        let score = self.total_score.over(visits);
        proof {
            lemma_binary(
                Op::Over,
                Expr::Value(self.total_score),
                Expr::Count(self.visits as u64),
                self.total_score,
                visits,
                score,
            );
        }
        score
    }
}

/// What has been learned of the moves of both sides at the root.
#[derive(Debug)]
pub struct MctsResult<C, S> {
    pub s1: Vec<MctsSideResult<C, S>>,
    pub s2: Vec<MctsSideResult<C, S>>,
    pub iteration_count: u32,
}

/// The average strategy that is reported.
pub open spec fn avg_strats<C, S>(results: Seq<MctsSideResult<C, S>>) -> Seq<S> {
    Seq::new(results.len(), |i: int| results[i].avg_strat)
}

/// The visits that are reported, added up.
pub open spec fn reported_visits<C, S>(results: Seq<MctsSideResult<C, S>>) -> nat
    decreases results.len(),
{
    if results.len() == 0 {
        0
    } else {
        reported_visits(results.drop_last()) + results.last().visits as nat
    }
}

pub proof fn lemma_reported_visits<C, S: Single>(
    options: Seq<MoveNode<C, S>>,
    avg: Seq<S>,
    results: Seq<MctsSideResult<C, S>>,
)
    requires
        reports_with(options, avg, results),
    ensures
        reported_visits(results) == visit_sum(options),
    decreases results.len(),
{
    if results.len() > 0 {
        assert(results.last() == results[results.len() - 1]);
        assert forall|i: int|
            #![trigger results.drop_last()[i]]
            0 <= i < options.drop_last().len() implies {
            &&& results.drop_last()[i].move_choice == options.drop_last()[i].move_choice
            &&& results.drop_last()[i].total_score == options.drop_last()[i].total_score
            &&& results.drop_last()[i].visits == options.drop_last()[i].visits
            &&& results.drop_last()[i].avg_strat == avg[i]
        } by {
            assert(results.drop_last()[i] == results[i]);
        }
        lemma_reported_visits(options.drop_last(), avg, results.drop_last());
    }
}

/// `results` are the moves `options`, each with the probability that `avg` gives it.
pub open spec fn reports_with<C, S: Single>(
    options: Seq<MoveNode<C, S>>,
    avg: Seq<S>,
    results: Seq<MctsSideResult<C, S>>,
) -> bool {
    &&& results.len() == options.len()
    &&& forall|i: int|
        #![trigger results[i]]
        0 <= i < options.len() ==> {
            &&& results[i].move_choice == options[i].move_choice
            &&& results[i].total_score == options[i].total_score
            &&& results[i].visits == options[i].visits
            &&& results[i].avg_strat == avg[i]
        }
}

/// `results` report the moves `options`.
pub open spec fn reports<C, S: Single>(
    options: Seq<MoveNode<C, S>>,
    results: Seq<MctsSideResult<C, S>>,
) -> bool {
    &&& reports_with(options, avg_strats(results), results)
    &&& exists|gamma: S::Wide| #[trigger]
        evaluates(gamma_formula(), gamma) && is_average_strategy(
            options,
            gamma,
            avg_strats(results),
        )
}

/// `r` reports on the search whose root is `root`.
pub open spec fn reports_on<C, I, S: Single>(root: Node<C, I, S>, r: MctsResult<C, S>) -> bool {
    &&& root.s1_options is Some
    &&& root.s2_options is Some
    &&& reports(root.s1_options->0@, r.s1@)
    &&& reports(root.s2_options->0@, r.s2@)
    &&& r.iteration_count == root.times_visited
}

/// Sets each move beside its probability in the average strategy.
pub fn side_results<C, S: Single>(options: Vec<MoveNode<C, S>>, avg: &Vec<S>) -> (r: Vec<
    MctsSideResult<C, S>,
>)
    requires
        avg@.len() == options@.len(),
    ensures
        reports_with(options@, avg@, r@),
{
    let ghost all = options@;
    let mut r: Vec<MctsSideResult<C, S>> = Vec::new();
    let mut i: usize = 0;
    for option in it: options
        invariant
            it.seq() == all,
            i == it.index(),
            avg.len() == all.len(),
            r@.len() == i,
            forall|j: int|
                #![trigger r@[j]]
                0 <= j < i ==> {
                    &&& r@[j].move_choice == all[j].move_choice
                    &&& r@[j].total_score == all[j].total_score
                    &&& r@[j].visits == all[j].visits
                    &&& r@[j].avg_strat == avg@[j]
                },
    {
        r.push(
            MctsSideResult {
                move_choice: option.move_choice,
                total_score: option.total_score,
                visits: option.visits,
                avg_strat: avg[i],
            },
        );
        i += 1;
    }
    r
}

fn side_report<C, S: Single>(options: Vec<MoveNode<C, S>>) -> (r: Vec<MctsSideResult<C, S>>)
    requires
        visit_sum(options@) <= u64::MAX,
    ensures
        reports(options@, r@),
{
    let gamma: S::Wide = gamma();
    let avg = average_strategy(options.as_slice(), gamma);
    let r = side_results(options, &avg);
    assert(avg_strats(r@) =~= avg@);
    r
}

impl<C, I, S: Single> Tree<C, I, S> {
    /// Reports on the root.
    pub fn report(self) -> (r: MctsResult<C, S>)
        requires
            self.wf(),
            self.nodes@[0].s1_options is Some,
        ensures
            reports_on(self.nodes@[0], r),
    {
        proof {
            lemma_visit_sum(self.nodes@, 0);
            assert(counted(self.nodes@, 0));
            assert(self.nodes@[0].s1_options is Some <==> self.nodes@[0].s2_options is Some);
        }
        let mut nodes = self.nodes;
        let root = nodes.swap_remove(0);
        let s1 = side_report(root.s1_options.unwrap());
        let s2 = side_report(root.s2_options.unwrap());
        MctsResult { s1, s2, iteration_count: root.times_visited }
    }
}

} // verus!
