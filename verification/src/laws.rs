//! What holds of the search as a whole.

use crate::arm::MoveNode;
use crate::average::visit_sum;
use crate::backpropagate::{
    credited_with, lemma_credited_well_formed, node_credited, reversed_along, SearchError,
};
use crate::battle::{applies, ended, reverses, undoes, Battle, MoveChoice, StateInstructions};
use crate::exp3::{
    exp3_drawn, gamma_formula, is_exp3_strategy, probability_noted, strategy_noted,
};
use crate::expand::{
    branches, expanded, expanded_when, generated, is_child, lemma_grown_well_formed,
    nothing_to_play, played, played_with,
};
use crate::iteration::{cut_short, is_round, iterated, walk_stuck, Round};
use crate::node::{all_new, lemma_pair_key_injective, pair_key, Node};
use crate::number::{evaluates, lemma_binary, op_gives, Expr, Op, Single};
use crate::selection::{
    applied_between, between, descended, lemma_drawn_relists, lemma_relisted_well_formed, listed,
    outcome_drawn, passed, relisted, selected, stuck, turn_drawn, turn_stuck,
};
use crate::tally::{
    lemma_root_visited_most, lemma_tally_gained, lemma_tally_member, lemma_tally_same,
    lemma_tally_unvisited, lemma_visit_sum, same_visits, visited_once_more,
};
use crate::tree::{
    all_held, apart, bucket_placed, counted, deeper, held, holds, keyed, lemma_parents_before,
    lemma_path_frame, lemma_path_root, lemma_toward, linked, on_path, path_to, tally, toward,
    unvisited_unscored, well_formed, Via,
};
use crate::weighted::{drawn_by_share, shares, WeightError};
use vstd::prelude::*;

verus! {

/// `new` holds the same moves as `old`, in the same order.
pub open spec fn same_moves<C, S: Single>(
    old: Option<Vec<MoveNode<C, S>>>,
    new: Option<Vec<MoveNode<C, S>>>,
) -> bool {
    old is Some ==> {
        &&& new is Some
        &&& new->0@.len() == old->0@.len()
        &&& forall|i: int|
            0 <= i < old->0@.len() ==> (#[trigger] new->0@[i]).move_choice
                == old->0@[i].move_choice
    }
}

proof fn lemma_turn_relists<B: Battle>(
    old: Node<B::Choice, B::Instruction, B::Score>,
    s: B,
    new: Node<B::Choice, B::Instruction, B::Score>,
    i1: usize,
    i2: usize,
)
    requires
        turn_drawn(old, s, new, i1, i2),
        old.s1_options is Some <==> old.s2_options is Some,
    ensures
        relisted(old, new),
        same_moves(old.s1_options, new.s1_options),
        same_moves(old.s2_options, new.s2_options),
        i1 < new.s1_options->0@.len(),
        i2 < new.s2_options->0@.len(),
{
    let (s1, s2) = choose|
        s1: Seq<MoveNode<B::Choice, B::Score>>,
        s2: Seq<MoveNode<B::Choice, B::Score>>,
    |
        {
            &&& #[trigger] listed(old, s, s1, s2)
            &&& exp3_drawn(s1, new.s1_options->0@, Ok(i1))
            &&& exp3_drawn(s2, new.s2_options->0@, Ok(i2))
        };
    lemma_drawn_relists(s1, new.s1_options->0@, Ok(i1));
    lemma_drawn_relists(s2, new.s2_options->0@, Ok(i2));
}

/// What a walk leaves of every node.
pub proof fn lemma_selected<B: Battle>(
    old: Seq<Node<B::Choice, B::Instruction, B::Score>>,
    at: int,
    s: B,
    new: Seq<Node<B::Choice, B::Instruction, B::Score>>,
    n: int,
    i1: usize,
    i2: usize,
    t: B,
)
    requires
        well_formed(old),
        selected(old, at, s, new, n, i1, i2, t),
    ensures
        well_formed(new),
        all_held(old) ==> all_held(new),
        forall|x: int|
            #![trigger new[x]]
            0 <= x < old.len() ==> {
                &&& relisted(old[x], new[x])
                &&& same_moves(old[x].s1_options, new[x].s1_options)
                &&& same_moves(old[x].s2_options, new[x].s2_options)
            },
        new[n].s1_options is Some,
        new[n].s2_options is Some,
        i1 < new[n].s1_options->0@.len(),
        i2 < new[n].s2_options->0@.len(),
{
    lemma_turn_relists(old[n], t, new[n], i1, i2);
    assert forall|x: int|
        #![trigger new[x]]
        0 <= x < old.len() implies {
        &&& relisted(old[x], new[x])
        &&& same_moves(old[x].s1_options, new[x].s1_options)
        &&& same_moves(old[x].s2_options, new[x].s2_options)
    } by {
        assert(old[x].s1_options is Some <==> old[x].s2_options is Some);
        if x != n && between(old, at, n, x) {
            let c = toward(old, n, x);
            assert(passed(old, x, s, new[x], c));
            let (j1, j2) = choose|j1: usize, j2: usize|
                {
                    let bucket = old[x].bucket(j1, j2)->0;
                    &&& #[trigger] turn_drawn(old[x], s, new[x], j1, j2)
                    &&& old[x].bucket(j1, j2) is Some
                    &&& bucket.first <= c < bucket.first + bucket.count
                    &&& outcome_drawn(
                        crate::selection::percentages(old, bucket),
                        Ok((c - bucket.first) as usize),
                    )
                };
            lemma_turn_relists(old[x], s, new[x], j1, j2);
        }
    }
    lemma_relisted_well_formed(old, new);
}

/// What playing a turn leaves of every node, and where it leads.
pub proof fn lemma_expanded<B: Battle>(
    old: Seq<Node<B::Choice, B::Instruction, B::Score>>,
    at: int,
    i1: usize,
    i2: usize,
    s: B,
    new: Seq<Node<B::Choice, B::Instruction, B::Score>>,
    n: int,
    added: u32,
    t: B,
)
    requires
        well_formed(old),
        0 <= at < old.len(),
        old[at].s1_options is Some,
        i1 < old[at].s1_options->0@.len(),
        i2 < old[at].s2_options->0@.len(),
        new.len() <= usize::MAX,
        expanded(old, at, i1, i2, s, new, n, added, t),
    ensures
        well_formed(new),
        all_held(old) && old[at].bucket(i1, i2) is None ==> all_held(new),
        old.len() <= new.len(),
        forall|x: int|
            0 <= x < old.len() ==> #[trigger] new[x] == (Node {
                children: new[x].children,
                ..old[x]
            }),
        forall|x: int| old.len() <= x < new.len() ==> (#[trigger] new[x]).times_visited == 0,
        (new.len() - old.len()) % 0x1_0000_0000 == added,
        forall|x: int, a: usize, b: usize|
            0 <= x < old.len() && (x != at || a != i1 || b != i2) ==> #[trigger] new[x].bucket(a, b)
                == old[x].bucket(a, b),
        n == at && new == old && t == s || old.len() <= n < new.len() && new[n].parent == Some(
            at as usize,
        ),
        n == at ==> old[at].s1_options->0@[i1 as int].move_choice is NoMove
            && old[at].s2_options->0@[i2 as int].move_choice is NoMove || !old[at].root,
{
    let over = choose|over: bool| #[trigger]
        ended(s, over) && expanded_when(over, old, at, i1, i2, s, new, n, added, t);
    if !nothing_to_play(old[at], over, i1, i2) {
        let (m, outcomes) = choose|
            m: B,
            outcomes: Vec<StateInstructions<B::Instruction, B::Score>>,
        | #[trigger]
            generated(old, at, i1, i2, s, m, outcomes) && played_with(
                old,
                at,
                i1,
                i2,
                m,
                outcomes@,
                new,
                n,
                added,
                t,
            );
        lemma_grown_well_formed(old, at, i1, i2, outcomes@, new);
        assert forall|x: int, a: usize, b: usize|
            0 <= x < old.len() && (x != at || a != i1 || b != i2) implies #[trigger] new[x].bucket(
            a,
            b,
        ) == old[x].bucket(a, b) by {
            if x == at && pair_key(a, b) == pair_key(i1, i2) {
                lemma_pair_key_injective(a, b, i1, i2);
            }
        }
        assert forall|x: int| old.len() <= x < new.len() implies (
        #[trigger] new[x]).times_visited == 0 by {
            assert(is_child(old, at, i1, i2, outcomes@[x - old.len()], new[x]));
        }
        assert(is_child(old, at, i1, i2, outcomes@[n - old.len()], new[n]));
    }
}

/// Some side always has a move: none of the moves listed for it is no move.
pub open spec fn always_moves<C, S: Single>(options: Seq<MoveNode<C, S>>) -> bool {
    forall|i: int| 0 <= i < options.len() ==> !((#[trigger] options[i]).move_choice is NoMove)
}

/// Every round keeps the tree well-formed, and every node held by its parent. It visits the root
/// once, and keeps the order of the moves there. Unless both sides can be without a move at the
/// root, one move of each side there is visited once more.
pub proof fn law_iteration_counts<B: Battle>(
    old: Seq<Node<B::Choice, B::Instruction, B::Score>>,
    s: B,
    root_eval: B::Score,
    new: Seq<Node<B::Choice, B::Instruction, B::Score>>,
    t: B,
    depth: u16,
    added: u32,
)
    requires
        well_formed(old),
        new.len() <= usize::MAX,
        iterated(old, s, root_eval, new, t, depth, added),
    ensures
        well_formed(new),
        all_held(old) ==> all_held(new),
        new[0].times_visited == old[0].times_visited + 1,
        same_moves(old[0].s1_options, new[0].s1_options),
        same_moves(old[0].s2_options, new[0].s2_options),
        tally(new, 0, Via::Any) <= tally(old, 0, Via::Any) + 1,
        old[0].s1_options is Some && (always_moves(old[0].s1_options->0@) || always_moves(
            old[0].s2_options->0@,
        )) ==> tally(new, 0, Via::Any) == tally(old, 0, Via::Any) + 1,
{
    let round = choose|round: Round<B>| #[trigger]
        is_round(old, s, root_eval, round, new, t, depth, added);
    let (walked, n, i1, i2, m1) = (round.walked, round.n, round.i1, round.i2, round.reached);
    let (larger, leaf, m2, score) = (round.larger, round.leaf, round.scored, round.score);
    lemma_selected(old, 0, s, walked, n, i1, i2, m1);
    lemma_expanded(walked, n, i1, i2, m1, larger, leaf, added, m2);
    lemma_credited_well_formed(larger, leaf, score, new);
    lemma_parents_before(larger);
    lemma_path_root(larger, leaf);
    assert(relisted(old[n], walked[n]));
    assert(walked[n].bucket(i1, i2) is None);
    let lost = choose|lost: B::Score| #[trigger]
        credited_with(larger, leaf, score, lost, new);
    assert(relisted(old[0], walked[0]));
    assert(larger[0] == (Node { children: larger[0].children, ..walked[0] }));
    assert(node_credited(larger, leaf, score, lost, 0, new[0]));
    assert forall|x: int| 0 <= x < old.len() implies relisted(old[x], #[trigger] walked[x]) by {}
    assert(same_visits(old, walked));
    lemma_tally_same(old, walked, 0, Via::Any);
    let kept = larger.take(walked.len() as int);
    assert(same_visits(walked, kept));
    lemma_tally_same(walked, kept, 0, Via::Any);
    lemma_tally_unvisited(kept, larger, 0, Via::Any);
    assert(visited_once_more(larger, new, leaf));
    lemma_tally_gained(larger, new, leaf, 0, Via::Any);
    if leaf != 0 {
        lemma_toward(larger, leaf, 0);
    }
}

/// A draw that gives a move had moves to draw from.
proof fn lemma_walk_has_moves<B: Battle>(
    old: Seq<Node<B::Choice, B::Instruction, B::Score>>,
    s: B,
    new: Seq<Node<B::Choice, B::Instruction, B::Score>>,
    n: int,
    t: B,
)
    requires
        well_formed(old),
        old[0].s1_options is Some,
        descended(old, 0, s, new, n, t),
        n != 0 || exists|i1: usize, i2: usize| #[trigger] turn_drawn(old[n], t, new[n], i1, i2),
    ensures
        old[0].s1_options->0@.len() > 0,
        old[0].s2_options->0@.len() > 0,
{
    assert(old[0].s1_options is Some <==> old[0].s2_options is Some);
    if n == 0 {
        let (i1, i2) = choose|i1: usize, i2: usize| #[trigger]
            turn_drawn(old[n], t, new[n], i1, i2);
        lemma_turn_relists(old[0], t, new[0], i1, i2);
    } else {
        assert(on_path(old, 0, 0));
        assert(between(old, 0, n, 0));
        assert(passed(old, 0, s, new[0], toward(old, n, 0)));
        let (i1, i2) = choose|i1: usize, i2: usize| #[trigger]
            turn_drawn(old[0], s, new[0], i1, i2);
        lemma_turn_relists(old[0], s, new[0], i1, i2);
    }
}

/// No round can be finished where a side has nothing to choose from at the root.
pub proof fn law_round_needs_moves<B: Battle>(
    old: Seq<Node<B::Choice, B::Instruction, B::Score>>,
    s: B,
    root_eval: B::Score,
    new: Seq<Node<B::Choice, B::Instruction, B::Score>>,
    t: B,
    depth: u16,
    added: u32,
)
    requires
        well_formed(old),
        old[0].s1_options is Some,
        iterated(old, s, root_eval, new, t, depth, added),
    ensures
        old[0].s1_options->0@.len() > 0,
        old[0].s2_options->0@.len() > 0,
{
    let round = choose|round: Round<B>| #[trigger]
        is_round(old, s, root_eval, round, new, t, depth, added);
    lemma_walk_has_moves(old, s, round.walked, round.n, round.reached);
}

/// Where a side has nothing to choose from at the root, a round fails for want of a draw. Where
/// that is side one, the error is that there are no weights.
pub proof fn law_empty_side_fails<B: Battle>(
    old: Seq<Node<B::Choice, B::Instruction, B::Score>>,
    s: B,
    root_eval: B::Score,
    new: Seq<Node<B::Choice, B::Instruction, B::Score>>,
    e: SearchError,
)
    requires
        well_formed(old),
        old[0].s1_options is Some,
        old[0].s1_options->0@.len() == 0 || old[0].s2_options->0@.len() == 0,
        cut_short(old, s, root_eval, new, e),
    ensures
        e is Weights,
        old[0].s1_options->0@.len() == 0 ==> e == SearchError::Weights(WeightError::InvalidInput),
{
    if !walk_stuck(old, s, new, e) {
        let (walked, n, i1, i2, reached) = choose|
            walked: Seq<Node<B::Choice, B::Instruction, B::Score>>,
            n: int,
            i1: usize,
            i2: usize,
            reached: B,
        | #[trigger]
            selected(old, 0, s, walked, n, i1, i2, reached);
        lemma_walk_has_moves(old, s, walked, n, reached);
    } else {
        let (n, t) = choose|n: int, t: B|
            {
                &&& #[trigger] descended(old, 0, s, new, n, t)
                &&& e is Weights
                &&& stuck(old, n, t, new[n], e->Weights_0)
            };
        if n != 0 || !turn_stuck(old[n], t, new[n], e->Weights_0) {
            lemma_walk_has_moves(old, s, new, n, t);
        }
        let (s1, s2) = choose|
            s1: Seq<MoveNode<B::Choice, B::Score>>,
            s2: Seq<MoveNode<B::Choice, B::Score>>,
        |
            {
                &&& #[trigger] listed(old[0], t, s1, s2)
                &&& {
                    ||| exp3_drawn(s1, new[0].s1_options->0@, Err(e->Weights_0))
                        && new[0].s2_options->0@ == s2
                    ||| exists|i1: usize| #[trigger]
                        exp3_drawn(s1, new[0].s1_options->0@, Ok(i1)) && exp3_drawn(
                            s2,
                            new[0].s2_options->0@,
                            Err(e->Weights_0),
                        )
                }
            };
        assert(old[0].s1_options->0@ == s1);
    }
}

/// Reversing the way to a node takes the battle back to where it was before the way was taken.
pub proof fn law_path_undone<B: Battle>(
    nodes: Seq<Node<B::Choice, B::Instruction, B::Score>>,
    n: int,
    s: B,
    t: B,
    u: B,
)
    requires
        undoes::<B>(),
        0 <= n < nodes.len(),
        applied_between(nodes, 0, n, s, t),
        reversed_along(nodes, path_to(nodes, n), t, u),
    ensures
        u == s,
    decreases n,
{
    if n > 0 {
        let p = nodes[n].parent->0 as int;
        let list = nodes[n].instructions.instruction_list;
        let path = path_to(nodes, n);
        assert(path.drop_last() =~= path_to(nodes, p));
        let m = choose|m: B| #[trigger]
            applies(m, list, t) && applied_between(nodes, 0, p, s, m);
        let back = choose|back: B| #[trigger]
            reverses(t, list, back) && reversed_along(nodes, path.drop_last(), back, u);
        assert(back == m);
        law_path_undone(nodes, p, s, m, u);
    }
}

proof fn lemma_applied_frame<B: Battle>(
    a: Seq<Node<B::Choice, B::Instruction, B::Score>>,
    b: Seq<Node<B::Choice, B::Instruction, B::Score>>,
    at: int,
    n: int,
    s: B,
    t: B,
)
    requires
        a.len() <= b.len(),
        forall|x: int|
            #![trigger b[x]]
            0 <= x < a.len() ==> b[x].parent == a[x].parent && b[x].instructions
                == a[x].instructions,
        applied_between(a, at, n, s, t),
    ensures
        applied_between(b, at, n, s, t),
    decreases n,
{
    if n != at {
        let p = a[n].parent->0 as int;
        assert(b[n].parent == a[n].parent);
        let list = a[n].instructions.instruction_list;
        let m = choose|m: B| #[trigger] applies(m, list, t) && applied_between(a, at, p, s, m);
        lemma_applied_frame(a, b, at, p, s, m);
        assert(applies(m, b[n].instructions.instruction_list, t));
    }
}

/// A round leaves the battle as it found it, wherever the engine's reversal takes back what was
/// applied.
pub proof fn law_iteration_restores<B: Battle>(
    old: Seq<Node<B::Choice, B::Instruction, B::Score>>,
    s: B,
    root_eval: B::Score,
    new: Seq<Node<B::Choice, B::Instruction, B::Score>>,
    t: B,
    depth: u16,
    added: u32,
)
    requires
        undoes::<B>(),
        well_formed(old),
        new.len() <= usize::MAX,
        iterated(old, s, root_eval, new, t, depth, added),
    ensures
        t == s,
{
    let round = choose|round: Round<B>| #[trigger]
        is_round(old, s, root_eval, round, new, t, depth, added);
    let (walked, n, i1, i2, m1) = (round.walked, round.n, round.i1, round.i2, round.reached);
    let (larger, leaf, m2, score) = (round.larger, round.leaf, round.scored, round.score);
    lemma_selected(old, 0, s, walked, n, i1, i2, m1);
    lemma_expanded(walked, n, i1, i2, m1, larger, leaf, added, m2);
    assert forall|x: int|
        #![trigger larger[x]]
        0 <= x < old.len() implies larger[x].parent == old[x].parent && larger[x].instructions
        == old[x].instructions by {
        assert(relisted(old[x], walked[x]));
        assert(larger[x] == (Node { children: larger[x].children, ..walked[x] }));
    }
    lemma_applied_frame(old, larger, 0, n, s, m1);
    if leaf != n {
        lemma_played_applies(walked, n, i1, i2, m1, larger, leaf, added, m2);
        assert(applied_between(larger, 0, leaf, s, m2));
    }
    law_path_undone(larger, leaf, s, m2, t);
}

/// Where a turn has been played, its outcome has been applied to the state it was played in.
proof fn lemma_played_applies<B: Battle>(
    old: Seq<Node<B::Choice, B::Instruction, B::Score>>,
    at: int,
    i1: usize,
    i2: usize,
    s: B,
    new: Seq<Node<B::Choice, B::Instruction, B::Score>>,
    n: int,
    added: u32,
    t: B,
)
    requires
        undoes::<B>(),
        expanded(old, at, i1, i2, s, new, n, added, t),
        n != at || t != s,
    ensures
        applies(s, new[n].instructions.instruction_list, t),
{
    let over = choose|over: bool| #[trigger]
        ended(s, over) && expanded_when(over, old, at, i1, i2, s, new, n, added, t);
    let (m, outcomes) = choose|
        m: B,
        outcomes: Vec<StateInstructions<B::Instruction, B::Score>>,
    | #[trigger]
        generated(old, at, i1, i2, s, m, outcomes) && played_with(
            old,
            at,
            i1,
            i2,
            m,
            outcomes@,
            new,
            n,
            added,
            t,
        );
    assert(is_child(old, at, i1, i2, outcomes@[n - old.len()], new[n]));
}

/// At every node whose moves are listed, the visits of the moves of side one, those of side two,
/// and those of the children add up to the same. They are no more than the visits of the node.
pub proof fn law_visits_add_up<C, I, S: Single>(nodes: Seq<Node<C, I, S>>, n: int)
    requires
        well_formed(nodes),
        0 <= n < nodes.len(),
        nodes[n].s1_options is Some,
    ensures
        visit_sum(nodes[n].s1_options->0@) == tally(nodes, n, Via::Any),
        visit_sum(nodes[n].s2_options->0@) == tally(nodes, n, Via::Any),
        tally(nodes, n, Via::Any) <= nodes[n].times_visited,
{
    lemma_visit_sum(nodes, n);
    assert(counted(nodes, n));
}

/// At every node whose moves are listed, a move without visits still has a total score of zero.
pub proof fn law_no_score_without_visit<C, I, S: Single>(nodes: Seq<Node<C, I, S>>, n: int)
    requires
        well_formed(nodes),
        0 <= n < nodes.len(),
        nodes[n].s1_options is Some,
    ensures
        unvisited_unscored(nodes[n].s1_options->0@),
        unvisited_unscored(nodes[n].s2_options->0@),
{
    assert(counted(nodes, n));
    assert(nodes[n].s1_options is Some <==> nodes[n].s2_options is Some);
}

/// No node is visited more often than the root, and none more often than its parent.
pub proof fn law_visits_shrink_downwards<C, I, S: Single>(nodes: Seq<Node<C, I, S>>, n: int)
    requires
        well_formed(nodes),
        0 < n < nodes.len(),
    ensures
        nodes[n].times_visited <= nodes[nodes[n].parent->0 as int].times_visited,
        nodes[n].times_visited <= nodes[0].times_visited,
{
    assert(linked(nodes, n));
    let p = nodes[n].parent->0 as int;
    assert(counted(nodes, p));
    lemma_tally_member(nodes, p, Via::Any, n);
    lemma_root_visited_most(nodes, n);
}

/// The depth of a node is the number of steps from the root, as far as a `u16` can count.
pub proof fn law_depth_counts_steps<C, I, S: Single>(nodes: Seq<Node<C, I, S>>, n: int)
    requires
        well_formed(nodes),
        0 <= n < nodes.len(),
    ensures
        nodes[n].depth == if path_to(nodes, n).len() < u16::MAX {
            path_to(nodes, n).len() as int
        } else {
            u16::MAX as int
        },
    decreases n,
{
    if n > 0 {
        assert(linked(nodes, n));
        law_depth_counts_steps(nodes, nodes[n].parent->0 as int);
    }
}

/// Damage rolls are told apart on the first two levels of the tree, and only there.
pub proof fn law_branches_on_two_levels<C, I, S: Single>(nodes: Seq<Node<C, I, S>>, n: int)
    requires
        well_formed(nodes),
        0 <= n < nodes.len(),
    ensures
        branches(nodes, n) <==> nodes[n].depth <= 1,
{
    if n > 0 {
        assert(linked(nodes, n));
        let p = nodes[n].parent->0 as int;
        if p > 0 {
            assert(linked(nodes, p));
        }
    }
}

/// What a node holds for a pair of moves: moves that are listed there, and at least one child. Each
/// such child hangs below the node, one level deeper, and knows the moves that led to it, as far as
/// a `u8` can tell them apart.
pub proof fn law_child_knows_moves<C, I, S: Single>(
    nodes: Seq<Node<C, I, S>>,
    n: int,
    i1: usize,
    i2: usize,
    c: int,
)
    requires
        well_formed(nodes),
        0 <= n < nodes.len(),
        holds(nodes, n, i1, i2, c),
    ensures
        nodes[n].s1_options is Some,
        nodes[n].s2_options is Some,
        i1 < nodes[n].s1_options->0@.len(),
        i2 < nodes[n].s2_options->0@.len(),
        nodes[n].bucket(i1, i2)->0.count > 0,
        n < c < nodes.len(),
        nodes[c].parent == Some(n as usize),
        nodes[c].depth == deeper(nodes[n].depth),
        !nodes[c].root,
        i1 < 256 ==> nodes[c].s1_choice == i1,
        i2 < 256 ==> nodes[c].s2_choice == i2,
{
    assert(bucket_placed(nodes, n, i1, i2));
    assert(linked(nodes, c));
}

/// Every node but the root is held by its parent, for one pair of moves.
pub proof fn law_held_once<C, I, S: Single>(nodes: Seq<Node<C, I, S>>, c: int)
    requires
        well_formed(nodes),
        all_held(nodes),
        0 < c < nodes.len(),
    ensures
        exists|a: usize, b: usize|
            {
                &&& #[trigger] holds(nodes, nodes[c].parent->0 as int, a, b, c)
                &&& forall|p: int, d: usize, e: usize|
                    0 <= p < nodes.len() && #[trigger] holds(nodes, p, d, e, c) ==> p
                        == nodes[c].parent->0 && d == a && e == b
            },
{
    assert(held(nodes, c));
    assert(linked(nodes, c));
    let parent = nodes[c].parent->0 as int;
    assert(apart(nodes, parent));
    let (a, b) = choose|a: usize, b: usize| #[trigger] holds(nodes, parent, a, b, c);
    assert forall|p: int, d: usize, e: usize|
        0 <= p < nodes.len() && #[trigger] holds(nodes, p, d, e, c) implies p == parent && d == a
        && e == b by {
        assert(bucket_placed(nodes, p, d, e));
    }
}

/// What a node holds stands under the key of a pair of moves that are listed there.
pub proof fn law_keys_are_moves<C, I, S: Single>(nodes: Seq<Node<C, I, S>>, n: int, key: u128)
    requires
        well_formed(nodes),
        0 <= n < nodes.len(),
        nodes[n].children@.contains_key(key),
    ensures
        nodes[n].s1_options is Some,
        nodes[n].s2_options is Some,
        exists|a: usize, b: usize|
            {
                &&& key == #[trigger] pair_key(a, b)
                &&& a < nodes[n].s1_options->0@.len()
                &&& b < nodes[n].s2_options->0@.len()
            },
{
    assert(keyed(nodes[n]));
    let (a, b) = choose|a: usize, b: usize| key == #[trigger] pair_key(a, b);
    assert(bucket_placed(nodes, n, a, b));
}

/// There is one root.
pub proof fn law_one_root<C, I, S: Single>(nodes: Seq<Node<C, I, S>>, n: int)
    requires
        well_formed(nodes),
        0 <= n < nodes.len(),
    ensures
        nodes[n].root <==> n == 0,
{
    if n > 0 {
        assert(linked(nodes, n));
    }
}

/// A round adds one visit to the moves of each side at exactly those nodes that the walk came
/// through, where the turn that it ended with was played. Where there was no turn to play, the
/// node at which the walk ended gets none.
pub proof fn law_round_counts_passages<B: Battle>(
    old: Seq<Node<B::Choice, B::Instruction, B::Score>>,
    s: B,
    root_eval: B::Score,
    round: Round<B>,
    new: Seq<Node<B::Choice, B::Instruction, B::Score>>,
    t: B,
    depth: u16,
    added: u32,
    x: int,
)
    requires
        well_formed(old),
        new.len() <= usize::MAX,
        is_round(old, s, root_eval, round, new, t, depth, added),
        0 <= x < old.len(),
    ensures
        tally(new, x, Via::Any) == tally(old, x, Via::Any) + if on_path(old, round.n, x) && (
        round.leaf != round.n || x != round.n) {
            1nat
        } else {
            0
        },
        new[x].s1_options is Some ==> visit_sum(new[x].s1_options->0@) == tally(new, x, Via::Any),
        new[x].s1_options is Some ==> visit_sum(new[x].s2_options->0@) == tally(new, x, Via::Any),
        old[x].s1_options is Some ==> visit_sum(old[x].s1_options->0@) == tally(old, x, Via::Any),
        old[x].s1_options is Some ==> visit_sum(old[x].s2_options->0@) == tally(old, x, Via::Any),
{
    let (walked, n, i1, i2, m1) = (round.walked, round.n, round.i1, round.i2, round.reached);
    let (larger, leaf, m2, score) = (round.larger, round.leaf, round.scored, round.score);
    lemma_selected(old, 0, s, walked, n, i1, i2, m1);
    lemma_expanded(walked, n, i1, i2, m1, larger, leaf, added, m2);
    lemma_credited_well_formed(larger, leaf, score, new);
    lemma_parents_before(larger);
    let lost = choose|lost: B::Score| #[trigger]
        credited_with(larger, leaf, score, lost, new);
    assert(forall|y: int| 0 <= y < old.len() ==> relisted(old[y], #[trigger] walked[y]));
    assert(same_visits(old, walked));
    lemma_tally_same(old, walked, x, Via::Any);
    let kept = larger.take(walked.len() as int);
    assert(same_visits(walked, kept));
    lemma_tally_same(walked, kept, x, Via::Any);
    lemma_tally_unvisited(kept, larger, x, Via::Any);
    assert(visited_once_more(larger, new, leaf));
    lemma_tally_gained(larger, new, leaf, x, Via::Any);
    if on_path(larger, leaf, x) && x != leaf {
        lemma_toward(larger, leaf, x);
    }
    lemma_path_frame(old, larger, n, x);
    if new[x].s1_options is Some {
        lemma_visit_sum(new, x);
    }
    if old[x].s1_options is Some {
        lemma_visit_sum(old, x);
    }
}

/// `new` holds the moves `old`. Where the search came `through`, the probability that each move
/// has now has been added to its sum, which starts at zero where the moves were not listed before.
/// Else both are as they were.
pub open spec fn probabilities_added<C, S: Single>(
    old: Option<Vec<MoveNode<C, S>>>,
    new: Option<Vec<MoveNode<C, S>>>,
    through: bool,
) -> bool {
    if through {
        &&& new is Some
        &&& forall|i: int|
            0 <= i < new->0@.len() ==> evaluates(
                if old is Some {
                    Expr::Value(old->0@[i].cum_strat)
                } else {
                    Expr::Count(0)
                }.plus(Expr::Value(new->0@[i].curr_strat)),
                (#[trigger] new->0@[i]).cum_strat,
            )
    } else {
        &&& new is Some <==> old is Some
        &&& old is Some ==> new->0@.len() == old->0@.len()
        &&& old is Some ==> forall|i: int|
            0 <= i < new->0@.len() ==> (#[trigger] new->0@[i]).cum_strat == old->0@[i].cum_strat
                && new->0@[i].curr_strat == old->0@[i].curr_strat
    }
}

proof fn lemma_drawn_adds<C, S: Single>(
    choices: Seq<MoveChoice<C>>,
    listed_now: bool,
    old: Option<Vec<MoveNode<C, S>>>,
    before: Seq<MoveNode<C, S>>,
    new: Option<Vec<MoveNode<C, S>>>,
    r: Result<usize, WeightError>,
)
    requires
        if listed_now {
            old is None && all_new(choices, before)
        } else {
            old is Some && before == old->0@
        },
        new is Some,
        exp3_drawn(before, new->0@, r),
    ensures
        probabilities_added(old, new, true),
{
    let (gamma, strategy, portions) = choose|
        gamma: S::Wide,
        strategy: Seq<S::Wide>,
        portions: Seq<Option<u64>>,
    |
        {
            &&& evaluates(gamma_formula(), gamma)
            &&& #[trigger] is_exp3_strategy(before, gamma, strategy)
            &&& strategy_noted(before, strategy, new->0@)
            &&& #[trigger] shares(strategy, portions)
            &&& drawn_by_share(portions, r)
        };
    assert forall|i: int| 0 <= i < new->0@.len() implies evaluates(
        if old is Some {
            Expr::Value(old->0@[i].cum_strat)
        } else {
            Expr::Count(0)
        }.plus(Expr::Value(new->0@[i].curr_strat)),
        (#[trigger] new->0@[i]).cum_strat,
    ) by {
        let p = new->0@[i].curr_strat;
        assert(probability_noted(before[i], strategy[i], new->0@[i]));
        if listed_now {
            assert(before[i].is_new(choices[i]));
            let zero = before[i].cum_strat;
            let sum = Expr::Value(zero).plus(Expr::Value(p));
            let (x, y) = choose|x: S::Wide, y: S::Wide|
                evaluates(Expr::Value(zero), x) && evaluates(Expr::Value(p), y)
                    && #[trigger] op_gives(Op::Plus, x, y, new->0@[i].cum_strat);
            reveal_with_fuel(evaluates, 2);
            assert(evaluates(sum, new->0@[i].cum_strat));
            lemma_binary(
                Op::Plus,
                Expr::Count(0),
                Expr::Value(p),
                zero,
                p,
                new->0@[i].cum_strat,
            );
        }
    }
}

proof fn lemma_turn_adds<B: Battle>(
    old: Node<B::Choice, B::Instruction, B::Score>,
    s: B,
    new: Node<B::Choice, B::Instruction, B::Score>,
    i1: usize,
    i2: usize,
)
    requires
        turn_drawn(old, s, new, i1, i2),
        old.s1_options is Some <==> old.s2_options is Some,
    ensures
        probabilities_added(old.s1_options, new.s1_options, true),
        probabilities_added(old.s2_options, new.s2_options, true),
{
    let (s1, s2) = choose|
        s1: Seq<MoveNode<B::Choice, B::Score>>,
        s2: Seq<MoveNode<B::Choice, B::Score>>,
    |
        {
            &&& #[trigger] listed(old, s, s1, s2)
            &&& exp3_drawn(s1, new.s1_options->0@, Ok(i1))
            &&& exp3_drawn(s2, new.s2_options->0@, Ok(i2))
        };
    let fresh = old.s1_options is None;
    let (c1, c2) = choose|c1: Vec<MoveChoice<B::Choice>>, c2: Vec<MoveChoice<B::Choice>>|
        {
            &&& #[trigger] call_ensures(B::get_all_options, (&s,), (c1, c2))
            &&& all_new(c1@, s1)
            &&& all_new(c2@, s2)
        };
    lemma_drawn_adds(c1@, fresh, old.s1_options, s1, new.s1_options, Ok(i1));
    lemma_drawn_adds(c2@, fresh, old.s2_options, s2, new.s2_options, Ok(i2));
}

/// A round adds a strategy to the sums of the moves of each side at exactly those nodes that the
/// walk came through, the one where it ended among them. All moves of such a node get their part,
/// whichever was drawn.
pub proof fn law_round_adds_strategies<B: Battle>(
    old: Seq<Node<B::Choice, B::Instruction, B::Score>>,
    s: B,
    root_eval: B::Score,
    round: Round<B>,
    new: Seq<Node<B::Choice, B::Instruction, B::Score>>,
    t: B,
    depth: u16,
    added: u32,
    x: int,
)
    requires
        well_formed(old),
        new.len() <= usize::MAX,
        is_round(old, s, root_eval, round, new, t, depth, added),
        0 <= x < old.len(),
    ensures
        probabilities_added(old[x].s1_options, new[x].s1_options, on_path(old, round.n, x)),
        probabilities_added(old[x].s2_options, new[x].s2_options, on_path(old, round.n, x)),
{
    let (walked, n, i1, i2, m1) = (round.walked, round.n, round.i1, round.i2, round.reached);
    let (larger, leaf, m2, score) = (round.larger, round.leaf, round.scored, round.score);
    lemma_selected(old, 0, s, walked, n, i1, i2, m1);
    lemma_expanded(walked, n, i1, i2, m1, larger, leaf, added, m2);
    lemma_parents_before(old);
    lemma_path_root(old, x);
    let through = on_path(old, n, x);
    assert(old[x].s1_options is Some <==> old[x].s2_options is Some);
    assert(relisted(old[x], walked[x]));
    if x == n {
        lemma_turn_adds(old[n], m1, walked[n], i1, i2);
    } else if through {
        let c = toward(old, n, x);
        assert(between(old, 0, n, x));
        assert(passed(old, x, s, walked[x], c));
        let (j1, j2) = choose|j1: usize, j2: usize| #[trigger]
            turn_drawn(old[x], s, walked[x], j1, j2);
        lemma_turn_adds(old[x], s, walked[x], j1, j2);
    }
    let lost = choose|lost: B::Score| #[trigger]
        credited_with(larger, leaf, score, lost, new);
    assert(larger[x] == (Node { children: larger[x].children, ..walked[x] }));
    assert(node_credited(larger, leaf, score, lost, x, new[x]));
    assert(credit_keeps_probabilities(walked[x].s1_options, new[x].s1_options));
    assert(credit_keeps_probabilities(walked[x].s2_options, new[x].s2_options));
}

/// `new` holds the moves `old` with the same probabilities, now and in sum.
spec fn credit_keeps_probabilities<C, S: Single>(
    old: Option<Vec<MoveNode<C, S>>>,
    new: Option<Vec<MoveNode<C, S>>>,
) -> bool {
    &&& new is Some <==> old is Some
    &&& old is Some ==> {
        &&& new->0@.len() == old->0@.len()
        &&& forall|i: int|
            #![trigger new->0@[i]]
            #![trigger old->0@[i]]
            0 <= i < new->0@.len() ==> new->0@[i].cum_strat == old->0@[i].cum_strat
                && new->0@[i].curr_strat == old->0@[i].curr_strat
    }
}

/// What a round finds in the tree, it leaves there: every node keeps its place and the way that
/// leads to it, and a turn that has been played keeps its outcomes.
pub proof fn law_round_keeps_outcomes<B: Battle>(
    old: Seq<Node<B::Choice, B::Instruction, B::Score>>,
    s: B,
    root_eval: B::Score,
    new: Seq<Node<B::Choice, B::Instruction, B::Score>>,
    t: B,
    depth: u16,
    added: u32,
    x: int,
    a: usize,
    b: usize,
)
    requires
        well_formed(old),
        new.len() <= usize::MAX,
        iterated(old, s, root_eval, new, t, depth, added),
        0 <= x < old.len(),
    ensures
        new[x].parent == old[x].parent,
        new[x].depth == old[x].depth,
        new[x].instructions == old[x].instructions,
        new[x].s1_choice == old[x].s1_choice,
        new[x].s2_choice == old[x].s2_choice,
        old[x].bucket(a, b) is Some ==> new[x].bucket(a, b) == old[x].bucket(a, b),
{
    let round = choose|round: Round<B>| #[trigger]
        is_round(old, s, root_eval, round, new, t, depth, added);
    let (walked, n, i1, i2, m1) = (round.walked, round.n, round.i1, round.i2, round.reached);
    let (larger, leaf, m2, score) = (round.larger, round.leaf, round.scored, round.score);
    lemma_selected(old, 0, s, walked, n, i1, i2, m1);
    lemma_expanded(walked, n, i1, i2, m1, larger, leaf, added, m2);
    let lost = choose|lost: B::Score| #[trigger]
        credited_with(larger, leaf, score, lost, new);
    assert(relisted(old[x], walked[x]));
    assert(larger[x] == (Node { children: larger[x].children, ..walked[x] }));
    assert(node_credited(larger, leaf, score, lost, x, new[x]));
}

} // verus!
