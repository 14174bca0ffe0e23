//! The search as a whole, and what it reports.

use crate::average::visit_sum;
use crate::backpropagate::SearchError;
use crate::battle::{undoes, Battle, MoveChoice, StateInstructions};
use crate::iteration::{cut_short, do_mcts, iterated};
use crate::laws::{
    always_moves, law_empty_side_fails, law_iteration_counts, law_iteration_restores,
    law_no_score_without_visit, law_round_needs_moves, same_moves,
};
use crate::node::{all_new, Bucket, Node};
use crate::number::{evaluates, Expr, Real, Single};
use crate::report::{
    avg_strats, lemma_reported_visits, reported_visits, reports_on, MctsResult, MctsSideResult,
};
use crate::tally::{lemma_tally_childless, lemma_visit_sum};
use crate::tree::{
    all_held, bucket_placed, counted, side_agrees, tally, well_formed, Tree, Via,
};
use crate::weighted::WeightError;
use vstd::prelude::*;

verus! {

/// The rounds that are played before the clock is looked at again.
pub const BATCH: u32 = 1000;

/// The rounds after which a search ends, whatever time is left.
pub const MAX_ITERATIONS: u32 = 10_000_000;

/// The root of a tree of which nothing else is known yet.
pub open spec fn is_fresh<C, I, S: Single>(
    nodes: Seq<Node<C, I, S>>,
    s1_options: Seq<MoveChoice<C>>,
    s2_options: Seq<MoveChoice<C>>,
) -> bool {
    &&& nodes.len() == 1
    &&& nodes[0].root
    &&& nodes[0].parent is None
    &&& nodes[0].children@ == Map::<u128, Bucket>::empty()
    &&& nodes[0].times_visited == 0
    &&& evaluates(Expr::Count(0), nodes[0].total_score)
    &&& nodes[0].depth == 0
    &&& evaluates(Expr::Count(100), nodes[0].instructions.percentage)
    &&& nodes[0].instructions.instruction_list@ == Seq::<I>::empty()
    &&& nodes[0].s1_choice == 0
    &&& nodes[0].s2_choice == 0
    &&& nodes[0].s1_options is Some
    &&& nodes[0].s2_options is Some
    &&& all_new(s1_options, nodes[0].s1_options->0@)
    &&& all_new(s2_options, nodes[0].s2_options->0@)
}

/// A root of which nothing else is known yet is a well-formed tree.
pub proof fn law_fresh_well_formed<C, I, S: Single>(
    nodes: Seq<Node<C, I, S>>,
    s1_options: Seq<MoveChoice<C>>,
    s2_options: Seq<MoveChoice<C>>,
)
    requires
        is_fresh(nodes, s1_options, s2_options),
    ensures
        well_formed(nodes),
        all_held(nodes),
{
    assert forall|n: int, a: usize, b: usize| 0 <= n < nodes.len() implies #[trigger] bucket_placed(
        nodes,
        n,
        a,
        b,
    ) by {
        assert(nodes[n].bucket(a, b) is None);
    }
    assert forall|via: Via| #[trigger] tally(nodes, 0, via) == 0 by {
        lemma_tally_childless(nodes, 0, via);
    }
    assert(side_agrees(nodes, 0, true));
    assert(side_agrees(nodes, 0, false));
    assert(counted(nodes, 0));
}

impl<C, I, S: Single> Tree<C, I, S> {
    /// A tree that holds the root alone, with the given moves of the two sides.
    pub fn new(s1_options: Vec<MoveChoice<C>>, s2_options: Vec<MoveChoice<C>>) -> (r: Self)
        ensures
            r.wf(),
            all_held(r.nodes@),
            is_fresh(r.nodes@, s1_options@, s2_options@),
    {
        let ghost (o1, o2) = (s1_options@, s2_options@);
        let nothing = StateInstructions {
            percentage: S::from_count(100),
            instruction_list: Vec::new(),
        };
        let mut root: Node<C, I, S> = Node::new(nothing);
        root.root = true;
        root.populate(s1_options, s2_options);
        let mut nodes: Vec<Node<C, I, S>> = Vec::new();
        nodes.push(root);
        let tree = Tree { nodes };
        proof {
            law_fresh_well_formed(tree.nodes@, o1, o2);
        }
        tree
    }
}

/// Figures on a search.
#[derive(Clone, Copy, Debug, PartialEq, Eq, Structural)]
pub struct SearchStats {
    /// The nodes that the rounds added, as each round counted them.
    pub nodes_expanded: u64,
    /// The depth of the deepest node that was scored.
    pub max_depth: u16,
    /// The depths of the nodes that were scored, added up.
    pub total_depth: u64,
}

impl SearchStats {
    pub open spec fn none() -> Self {
        SearchStats { nodes_expanded: 0, max_depth: 0, total_depth: 0 }
    }

    /// The figures after one more round.
    pub open spec fn with(self, leaf_depth: u16, added: u32) -> Self {
        SearchStats {
            nodes_expanded: (self.nodes_expanded + added) as u64,
            max_depth: if leaf_depth > self.max_depth {
                leaf_depth
            } else {
                self.max_depth
            },
            total_depth: (self.total_depth + leaf_depth) as u64,
        }
    }

    pub fn new() -> (r: Self)
        ensures
            r == Self::none(),
    {
        SearchStats { nodes_expanded: 0, max_depth: 0, total_depth: 0 }
    }

    /// Takes one more round into account.
    pub fn record(&mut self, leaf_depth: u16, added: u32)
        requires
            old(self).nodes_expanded + added <= u64::MAX,
            old(self).total_depth + leaf_depth <= u64::MAX,
        ensures
            *final(self) == old(self).with(leaf_depth, added),
    {
        self.nodes_expanded = self.nodes_expanded + added as u64;
        self.total_depth = self.total_depth + leaf_depth as u64;
        if leaf_depth > self.max_depth {
            self.max_depth = leaf_depth;
        }
    }
}

/// `k` rounds take the nodes `first` and the state `s` to `nodes` and `t`, with the given figures.
pub open spec fn searched<B: Battle>(
    first: Seq<Node<B::Choice, B::Instruction, B::Score>>,
    s: B,
    root_eval: B::Score,
    k: nat,
    nodes: Seq<Node<B::Choice, B::Instruction, B::Score>>,
    t: B,
    stats: SearchStats,
) -> bool
    decreases k,
{
    &&& nodes.len() <= usize::MAX
    &&& if k == 0 {
        &&& nodes == first
        &&& t == s
        &&& stats == SearchStats::none()
    } else {
        exists|
            before: Seq<Node<B::Choice, B::Instruction, B::Score>>,
            m: B,
            sofar: SearchStats,
            depth: u16,
            added: u32,
        |
            {
                &&& searched(first, s, root_eval, (k - 1) as nat, before, m, sofar)
                &&& #[trigger] iterated(before, m, root_eval, nodes, t, depth, added)
                &&& stats == #[trigger] sofar.with(depth, added)
            }
    }
}

/// The last round of a search, and what was before it.
pub proof fn lemma_last_round<B: Battle>(
    first: Seq<Node<B::Choice, B::Instruction, B::Score>>,
    s: B,
    root_eval: B::Score,
    k: nat,
    nodes: Seq<Node<B::Choice, B::Instruction, B::Score>>,
    t: B,
    stats: SearchStats,
) -> (r: (Seq<Node<B::Choice, B::Instruction, B::Score>>, B, SearchStats, u16, u32))
    requires
        k > 0,
        searched(first, s, root_eval, k, nodes, t, stats),
    ensures
        nodes.len() <= usize::MAX,
        searched(first, s, root_eval, (k - 1) as nat, r.0, r.1, r.2),
        iterated(r.0, r.1, root_eval, nodes, t, r.3, r.4),
        stats == r.2.with(r.3, r.4),
{
    choose|
        before: Seq<Node<B::Choice, B::Instruction, B::Score>>,
        m: B,
        sofar: SearchStats,
        depth: u16,
        added: u32,
    |
        {
            &&& searched(first, s, root_eval, (k - 1) as nat, before, m, sofar)
            &&& #[trigger] iterated(before, m, root_eval, nodes, t, depth, added)
            &&& stats == #[trigger] sofar.with(depth, added)
        }
}

/// What a search of `k` rounds from a root that was not visited yet comes to.
///
/// The tree is well-formed, and every node is held by its parent. The root has been visited once in
/// every round, and the moves there are the same as before. The moves of either side at the root
/// have together been visited at most once in every round, and exactly once where some side always
/// has a move. The figures stay in bounds. The battle is as it was, wherever the engine's reversal
/// takes back what was applied. Where a side has nothing to choose from, there are no rounds.
#[verifier::rlimit(40)]
pub proof fn law_searched<B: Battle>(
    first: Seq<Node<B::Choice, B::Instruction, B::Score>>,
    s: B,
    root_eval: B::Score,
    k: nat,
    nodes: Seq<Node<B::Choice, B::Instruction, B::Score>>,
    t: B,
    stats: SearchStats,
)
    requires
        well_formed(first),
        first[0].times_visited == 0,
        first[0].s1_options is Some,
        k <= u32::MAX,
        searched(first, s, root_eval, k, nodes, t, stats),
    ensures
        well_formed(nodes),
        all_held(first) ==> all_held(nodes),
        nodes[0].times_visited == k,
        same_moves(first[0].s1_options, nodes[0].s1_options),
        same_moves(first[0].s2_options, nodes[0].s2_options),
        visit_sum(nodes[0].s1_options->0@) == visit_sum(nodes[0].s2_options->0@),
        visit_sum(nodes[0].s1_options->0@) <= k,
        always_moves(first[0].s1_options->0@) || always_moves(first[0].s2_options->0@)
            ==> visit_sum(nodes[0].s1_options->0@) == k,
        stats.nodes_expanded <= k * u32::MAX,
        stats.total_depth <= k * stats.max_depth,
        undoes::<B>() ==> t == s,
        first[0].s1_options->0@.len() == 0 || first[0].s2_options->0@.len() == 0 ==> k == 0,
    decreases k,
{
    if k == 0 {
        assert(counted(nodes, 0));
    } else {
        let (before, m, sofar, depth, added) = lemma_last_round(
            first,
            s,
            root_eval,
            k,
            nodes,
            t,
            stats,
        );
        law_searched(first, s, root_eval, (k - 1) as nat, before, m, sofar);
        law_iteration_counts(before, m, root_eval, nodes, t, depth, added);
        law_round_needs_moves(before, m, root_eval, nodes, t, depth, added);
        if undoes::<B>() {
            law_iteration_restores(before, m, root_eval, nodes, t, depth, added);
        }
        lemma_visit_sum(before, 0);
        let (f1, b1) = (first[0].s1_options->0@, before[0].s1_options->0@);
        let (f2, b2) = (first[0].s2_options->0@, before[0].s2_options->0@);
        assert(always_moves(f1) ==> always_moves(b1)) by {
            assert(forall|i: int|
                0 <= i < b1.len() ==> (#[trigger] b1[i]).move_choice == f1[i].move_choice);
        }
        assert(always_moves(f2) ==> always_moves(b2)) by {
            assert(forall|i: int|
                0 <= i < b2.len() ==> (#[trigger] b2[i]).move_choice == f2[i].move_choice);
        }
        assert(sofar.nodes_expanded + added <= k * u32::MAX) by (nonlinear_arith)
            requires
                sofar.nodes_expanded <= (k - 1) * u32::MAX,
                added <= u32::MAX,
                k >= 1,
        ;
        assert(k * u32::MAX <= u64::MAX) by (nonlinear_arith)
            requires
                k <= u32::MAX,
        ;
        let deepest = stats.max_depth;
        assert(sofar.total_depth + depth <= k * deepest) by (nonlinear_arith)
            requires
                sofar.total_depth <= (k - 1) * sofar.max_depth,
                sofar.max_depth <= deepest,
                depth <= deepest,
                k >= 1,
        ;
        assert(k * deepest <= u64::MAX) by (nonlinear_arith)
            requires
                k <= u32::MAX,
                deepest <= u16::MAX,
        ;
    }
    lemma_visit_sum(nodes, 0);
}

/// The figures on a search that is within its limit can take in one more round.
proof fn lemma_figures_fit<B: Battle>(
    first: Seq<Node<B::Choice, B::Instruction, B::Score>>,
    s: B,
    root_eval: B::Score,
    k: nat,
    nodes: Seq<Node<B::Choice, B::Instruction, B::Score>>,
    t: B,
    stats: SearchStats,
)
    requires
        well_formed(first),
        first[0].times_visited == 0,
        first[0].s1_options is Some,
        k <= MAX_ITERATIONS,
        searched(first, s, root_eval, k, nodes, t, stats),
    ensures
        stats.nodes_expanded + u32::MAX <= u64::MAX,
        stats.total_depth + u16::MAX <= u64::MAX,
{
    law_searched(first, s, root_eval, k, nodes, t, stats);
    let deepest = stats.max_depth;
    assert(k * u32::MAX <= 0xffff_ffff_0000_0000) by (nonlinear_arith)
        requires
            k <= 10_000_000,
    ;
    assert(k * deepest <= 0xffff_ffff_0000_0000) by (nonlinear_arith)
        requires
            k <= 10_000_000,
            deepest <= u16::MAX,
    ;
}

/// One more round.
proof fn lemma_next_round<B: Battle>(
    first: Seq<Node<B::Choice, B::Instruction, B::Score>>,
    s: B,
    root_eval: B::Score,
    k: nat,
    before: Seq<Node<B::Choice, B::Instruction, B::Score>>,
    m: B,
    sofar: SearchStats,
    nodes: Seq<Node<B::Choice, B::Instruction, B::Score>>,
    t: B,
    depth: u16,
    added: u32,
)
    requires
        well_formed(first),
        first[0].times_visited == 0,
        first[0].s1_options is Some,
        k < u32::MAX,
        searched(first, s, root_eval, k, before, m, sofar),
        iterated(before, m, root_eval, nodes, t, depth, added),
        nodes.len() <= usize::MAX,
    ensures
        searched(first, s, root_eval, k + 1, nodes, t, sofar.with(depth, added)),
        nodes[0].times_visited == k + 1,
{
    assert(searched(first, s, root_eval, k + 1, nodes, t, sofar.with(depth, added)));
    law_searched(first, s, root_eval, k + 1, nodes, t, sofar.with(depth, added));
}

/// `results` report on the given moves, in the same order.
pub open spec fn reports_moves<C, S>(
    choices: Seq<MoveChoice<C>>,
    results: Seq<MctsSideResult<C, S>>,
) -> bool {
    &&& results.len() == choices.len()
    &&& forall|i: int|
        0 <= i < choices.len() ==> (#[trigger] results[i]).move_choice == choices[i]
}

/// A move that is reported without visits is reported with a total score of zero.
pub open spec fn reports_no_unearned<C, S: Single>(results: Seq<MctsSideResult<C, S>>) -> bool {
    forall|i: int|
        0 <= i < results.len() && (#[trigger] results[i]).visits == 0 ==> evaluates(
            Expr::Count(0),
            results[i].total_score,
        )
}

/// None of the choices is no move.
pub open spec fn never_idle<C>(choices: Seq<MoveChoice<C>>) -> bool {
    forall|i: int| 0 <= i < choices.len() ==> !(#[trigger] choices[i] is NoMove)
}

/// The clock said that there was time before every batch that was begun in the first `k` rounds.
/// It is asked with the number of rounds played so far.
pub open spec fn in_time<F: Fn(u32) -> bool>(within_time: F, k: int) -> bool {
    forall|n: u32| n < k && n % BATCH == 0 ==> #[trigger] within_time.ensures((n,), true)
}

/// A search by the clock ends after `k` rounds: these are whole batches, there was time before
/// each of them, and then there was none or the limit was reached.
pub open spec fn ends_after<F: Fn(u32) -> bool>(within_time: F, k: u32) -> bool {
    &&& k % BATCH == 0
    &&& k <= MAX_ITERATIONS
    &&& in_time(within_time, k as int)
    &&& k == MAX_ITERATIONS || within_time.ensures((k,), false)
}

/// Within a batch the clock is not asked again.
proof fn lemma_batch_in_time<F: Fn(u32) -> bool>(within_time: F, start: u32, k: int)
    requires
        start % BATCH == 0,
        in_time(within_time, start + 1),
        k <= start + BATCH,
    ensures
        in_time(within_time, k),
{
    assert forall|n: u32| n < k && n % BATCH == 0 implies #[trigger] within_time.ensures(
        (n,),
        true,
    ) by {
        assert(n <= start);
    }
}

/// Where there is time for `batches` batches of a thousand rounds and no more, the search plays
/// just those, or ten million rounds if that is fewer.
pub proof fn law_ends_by_clock<F: Fn(u32) -> bool>(within_time: F, k: u32, batches: nat)
    requires
        ends_after(within_time, k),
        forall|n: u32, answer: bool|
            n % 1000 == 0 && #[trigger] within_time.ensures((n,), answer) ==> answer == (n < 1000
                * batches),
    ensures
        k == if 1000 * batches <= 10_000_000 {
            1000 * batches
        } else {
            10_000_000
        },
{
    if k > 0 {
        let last = (k - BATCH) as u32;
        assert(within_time.ensures((last,), true));
    }
}

/// `k` rounds have been played from `first` and `s`, and the next one could not be finished. It
/// left the nodes `new`.
pub open spec fn search_failed<B: Battle>(
    first: Seq<Node<B::Choice, B::Instruction, B::Score>>,
    s: B,
    root_eval: B::Score,
    k: nat,
    new: Seq<Node<B::Choice, B::Instruction, B::Score>>,
    e: SearchError,
) -> bool {
    exists|
        nodes: Seq<Node<B::Choice, B::Instruction, B::Score>>,
        t: B,
        stats: SearchStats,
    |
        {
            &&& #[trigger] searched(first, s, root_eval, k, nodes, t, stats)
            &&& cut_short(nodes, t, root_eval, new, e)
        }
}

/// Plays rounds, a batch at a time, as long as there is time and the root has not been visited
/// often enough. The clock is asked before every batch, with the number of rounds played so far.
pub fn search<B: Battle, F: Fn(u32) -> bool>(
    tree: &mut Tree<B::Choice, B::Instruction, B::Score>,
    state: B,
    root_eval: B::Score,
    within_time: F,
) -> (r: Result<(B, SearchStats), SearchError>)
    requires
        old(tree).wf(),
        old(tree).nodes@[0].times_visited == 0,
        old(tree).nodes@[0].s1_options is Some,
        forall|n: u32| within_time.requires((n,)),
    ensures
        match r {
            Ok((t, stats)) => {
                let k = final(tree).nodes@[0].times_visited;
                &&& final(tree).wf()
                &&& all_held(old(tree).nodes@) ==> all_held(final(tree).nodes@)
                &&& searched(
                    old(tree).nodes@,
                    state,
                    root_eval,
                    k as nat,
                    final(tree).nodes@,
                    t,
                    stats,
                )
                &&& ends_after(within_time, k)
            },
            Err(e) => exists|k: nat|
                {
                    &&& #[trigger] search_failed(
                        old(tree).nodes@,
                        state,
                        root_eval,
                        k,
                        final(tree).nodes@,
                        e,
                    )
                    &&& k < MAX_ITERATIONS
                    &&& in_time(within_time, k as int + 1)
                },
        },
{
    let ghost first = tree.nodes@;
    let mut battle = state;
    let mut stats = SearchStats::new();
    let mut rounds: u32 = 0;
    loop
        invariant
            forall|n: u32| within_time.requires((n,)),
            well_formed(first),
            first == old(tree).nodes@,
            first[0].times_visited == 0,
            first[0].s1_options is Some,
            tree.wf(),
            tree.nodes@[0].times_visited == rounds,
            searched(first, state, root_eval, rounds as nat, tree.nodes@, battle, stats),
            all_held(first) ==> all_held(tree.nodes@),
            rounds % BATCH == 0,
            rounds < MAX_ITERATIONS,
            in_time(within_time, rounds as int),
        decreases MAX_ITERATIONS - rounds,
    {
        if !within_time(rounds) {
            return Ok((battle, stats));
        }
        let start = rounds;
        assert(in_time(within_time, start + 1));
        let mut i: u32 = 0;
        while i < BATCH
            invariant
                i <= BATCH,
                start % BATCH == 0,
                in_time(within_time, start + 1),
                well_formed(first),
                first == old(tree).nodes@,
                first[0].times_visited == 0,
                first[0].s1_options is Some,
                tree.wf(),
                start + BATCH <= MAX_ITERATIONS,
                rounds == start + i,
                tree.nodes@[0].times_visited == rounds,
                searched(first, state, root_eval, rounds as nat, tree.nodes@, battle, stats),
            decreases BATCH - i,
        {
            let ghost before = tree.nodes@;
            let ghost m = battle;
            let ghost sofar = stats;
            proof {
                lemma_figures_fit(first, state, root_eval, rounds as nat, before, m, sofar);
            }
            let (next, leaf_depth, added) = match do_mcts(tree, battle, root_eval) {
                Ok(done) => done,
                Err(e) => {
                    proof {
                        lemma_batch_in_time(within_time, start, rounds + 1);
                        assert(search_failed(
                            first,
                            state,
                            root_eval,
                            rounds as nat,
                            tree.nodes@,
                            e,
                        ));
                    }
                    return Err(e);
                },
            };
            assert(tree.nodes@.len() == tree.nodes.len());
            battle = next;
            stats.record(leaf_depth, added);
            rounds = rounds + 1;
            proof {
                lemma_next_round(
                    first,
                    state,
                    root_eval,
                    (rounds - 1) as nat,
                    before,
                    m,
                    sofar,
                    tree.nodes@,
                    battle,
                    leaf_depth,
                    added,
                );
            }
            i += 1;
        }
        proof {
            lemma_batch_in_time(within_time, start, rounds as int);
            law_searched(first, state, root_eval, rounds as nat, tree.nodes@, battle, stats);
        }
        if tree.nodes[0].times_visited >= MAX_ITERATIONS {
            return Ok((battle, stats));
        }
    }
}

/// A search of a battle in state `s` with the given moves ends in state `t` and with the given
/// report and figures.
pub open spec fn performed<B: Battle>(
    s: B,
    s1_options: Seq<MoveChoice<B::Choice>>,
    s2_options: Seq<MoveChoice<B::Choice>>,
    t: B,
    r: MctsResult<B::Choice, B::Score>,
    stats: SearchStats,
) -> bool {
    exists|
        first: Seq<Node<B::Choice, B::Instruction, B::Score>>,
        root_eval: B::Score,
        nodes: Seq<Node<B::Choice, B::Instruction, B::Score>>,
    |
        {
            &&& is_fresh(first, s1_options, s2_options)
            &&& well_formed(first)
            &&& all_held(first)
            &&& call_ensures(B::evaluate, (&s,), root_eval)
            &&& #[trigger] searched(
                first,
                s,
                root_eval,
                r.iteration_count as nat,
                nodes,
                t,
                stats,
            )
            &&& reports_on(nodes[0], r)
        }
}

/// A search of a battle in state `s` with the given moves comes, after `k` rounds, to one that
/// cannot be finished.
pub open spec fn failed<B: Battle>(
    s: B,
    s1_options: Seq<MoveChoice<B::Choice>>,
    s2_options: Seq<MoveChoice<B::Choice>>,
    k: nat,
    e: SearchError,
) -> bool {
    exists|
        first: Seq<Node<B::Choice, B::Instruction, B::Score>>,
        root_eval: B::Score,
        new: Seq<Node<B::Choice, B::Instruction, B::Score>>,
    |
        {
            &&& is_fresh(first, s1_options, s2_options)
            &&& well_formed(first)
            &&& all_held(first)
            &&& call_ensures(B::evaluate, (&s,), root_eval)
            &&& #[trigger] search_failed(first, s, root_eval, k, new, e)
        }
}

/// A search fails while the clock says that there is time. Where a side has nothing to choose from,
/// that is in the first round, and for want of a draw.
pub open spec fn failed_in_time<B: Battle, F: Fn(u32) -> bool>(
    s: B,
    s1_options: Seq<MoveChoice<B::Choice>>,
    s2_options: Seq<MoveChoice<B::Choice>>,
    within_time: F,
    e: SearchError,
) -> bool {
    exists|k: nat|
        {
            &&& #[trigger] failed(s, s1_options, s2_options, k, e)
            &&& k < MAX_ITERATIONS
            &&& in_time(within_time, k as int + 1)
            &&& s1_options.len() == 0 || s2_options.len() == 0 ==> k == 0
            &&& s1_options.len() == 0 ==> e == SearchError::Weights(WeightError::InvalidInput)
            &&& s2_options.len() == 0 ==> e is Weights
        }
}

/// Searches the battle from `state`, where the sides have the given moves, for as long as
/// `within_time` allows, and reports on those moves. The clock is asked before every batch of
/// rounds, with the number of rounds played so far.
pub fn perform_mcts_exp3<B: Battle, F: Fn(u32) -> bool>(
    state: B,
    side_one_options: Vec<MoveChoice<B::Choice>>,
    side_two_options: Vec<MoveChoice<B::Choice>>,
    within_time: F,
) -> (r: Result<(B, MctsResult<B::Choice, B::Score>, SearchStats), SearchError>)
    requires
        forall|n: u32| within_time.requires((n,)),
    ensures
        match r {
            Ok((t, result, stats)) => {
                let k = result.iteration_count;
                let visits = reported_visits(result.s1@);
                &&& performed(state, side_one_options@, side_two_options@, t, result, stats)
                &&& reports_moves(side_one_options@, result.s1@)
                &&& reports_moves(side_two_options@, result.s2@)
                &&& reports_no_unearned(result.s1@)
                &&& reports_no_unearned(result.s2@)
                &&& ends_after(within_time, k)
                &&& side_one_options@.len() == 0 || side_two_options@.len() == 0 ==> k == 0
                &&& reported_visits(result.s2@) == visits
                &&& visits <= k
                &&& never_idle(side_one_options@) || never_idle(side_two_options@) ==> visits == k
                &&& undoes::<B>() ==> t == state
            },
            Err(e) => failed_in_time(state, side_one_options@, side_two_options@, within_time, e),
        },
{
    let ghost (o1, o2) = (side_one_options@, side_two_options@);
    let mut tree: Tree<B::Choice, B::Instruction, B::Score> = Tree::new(
        side_one_options,
        side_two_options,
    );
    let ghost first = tree.nodes@;
    let root_eval = state.evaluate();
    let (battle, stats) = match search(&mut tree, state, root_eval, within_time) {
        Ok(done) => done,
        Err(e) => {
            proof {
                let left = tree.nodes@;
                let k = choose|k: nat|
                    {
                        &&& #[trigger] search_failed(first, state, root_eval, k, left, e)
                        &&& k < MAX_ITERATIONS
                        &&& in_time(within_time, k as int + 1)
                    };
                let (nodes, t, stats) = choose|
                    nodes: Seq<Node<B::Choice, B::Instruction, B::Score>>,
                    t: B,
                    stats: SearchStats,
                |
                    {
                        &&& #[trigger] searched(first, state, root_eval, k, nodes, t, stats)
                        &&& cut_short(nodes, t, root_eval, left, e)
                    };
                law_searched(first, state, root_eval, k, nodes, t, stats);
                if o1.len() == 0 || o2.len() == 0 {
                    law_empty_side_fails(nodes, t, root_eval, left, e);
                }
                assert(failed(state, o1, o2, k, e));
            }
            return Err(e);
        },
    };
    let ghost nodes = tree.nodes@;
    let ghost k = nodes[0].times_visited as nat;
    proof {
        law_searched(first, state, root_eval, k, nodes, battle, stats);
    }
    let result = tree.report();
    proof {
        assert(searched(
            first,
            state,
            root_eval,
            result.iteration_count as nat,
            nodes,
            battle,
            stats,
        ));
        let (f1, f2) = (first[0].s1_options->0@, first[0].s2_options->0@);
        let (n1, n2) = (nodes[0].s1_options->0@, nodes[0].s2_options->0@);
        assert(forall|i: int| 0 <= i < o1.len() ==> (#[trigger] f1[i]).is_new(o1[i]));
        assert(forall|i: int| 0 <= i < o2.len() ==> (#[trigger] f2[i]).is_new(o2[i]));
        assert forall|i: int| 0 <= i < o1.len() implies (
        #[trigger] result.s1@[i]).move_choice == o1[i] by {
            assert(n1[i].move_choice == f1[i].move_choice);
        }
        assert forall|i: int| 0 <= i < o2.len() implies (
        #[trigger] result.s2@[i]).move_choice == o2[i] by {
            assert(n2[i].move_choice == f2[i].move_choice);
        }
        assert(never_idle(o1) ==> always_moves(f1)) by {
            assert(forall|i: int| 0 <= i < o1.len() ==> (#[trigger] f1[i]).move_choice == o1[i]);
        }
        assert(never_idle(o2) ==> always_moves(f2)) by {
            assert(forall|i: int| 0 <= i < o2.len() ==> (#[trigger] f2[i]).move_choice == o2[i]);
        }
        law_no_score_without_visit(nodes, 0);
        assert forall|i: int|
            0 <= i < result.s1@.len() && (#[trigger] result.s1@[i]).visits == 0 implies evaluates(
            Expr::Count(0),
            result.s1@[i].total_score,
        ) by {
            assert(n1[i].visits == 0);
        }
        assert forall|i: int|
            0 <= i < result.s2@.len() && (#[trigger] result.s2@[i]).visits == 0 implies evaluates(
            Expr::Count(0),
            result.s2@[i].total_score,
        ) by {
            assert(n2[i].visits == 0);
        }
        lemma_reported_visits(n1, avg_strats(result.s1@), result.s1@);
        lemma_reported_visits(n2, avg_strats(result.s2@), result.s2@);
    }
    Ok((battle, result, stats))
}

} // verus!
