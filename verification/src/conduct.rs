//! What the parts of a round do, node by node and call by call.

use crate::arm::MoveNode;
use crate::backpropagate::{
    credited, credited_with, finite_answer, floor_formula, move_credited, node_credited,
    side_credited,
};
use crate::battle::{applies, ended, Battle, MoveChoice, StateInstructions};
use crate::exact::{
    law_worth, lemma_worth_fraction, lemma_worth_larger, lemma_worth_over, lemma_worth_plus,
    linked_readings, max_real, Reading,
};
use crate::exp3::exp3_drawn;
use crate::expand::{
    expanded, expanded_when, generated, is_child, nothing_to_play, outcome_percentages, played,
    played_with,
};
use crate::laws::law_branches_on_two_levels;
use crate::node::{all_new, lemma_pair_key_injective, pair_key, Bucket, Node};
use crate::number::{equal_answer, evaluates, op_gives, Expr, Op, Real, Single};
use crate::payoffs::{drawn_by_exp3, fairly_drawn, goes_on, law_move_drawn, lemma_fairly_drawn};
use crate::selection::{
    applied_between, between, descended, listed, outcome_drawn, passed, percentages, selected,
    turn_drawn,
};
use crate::tree::{
    bucket_placed, lemma_parents_before, lemma_path_above, lemma_toward, lemma_toward_unique,
    linked, on_path, parents_before, toward, well_formed,
};
use crate::weighted::{drawn_by_share, shares, WeightError};
use vstd::prelude::*;

verus! {

/// `arms` are the given moves of a side, in that order, of which nothing has been learned.
pub open spec fn unexplored<C, S: Single>(
    choices: Seq<MoveChoice<C>>,
    arms: Seq<MoveNode<C, S>>,
) -> bool {
    &&& arms.len() == choices.len()
    &&& forall|i: int|
        #![trigger arms[i]]
        0 <= i < arms.len() ==> {
            &&& arms[i].move_choice == choices[i]
            &&& arms[i].visits == 0
            &&& call_ensures(S::from_count, (0,), arms[i].total_score)
            &&& call_ensures(<S::Wide as Real>::from_count, (0,), arms[i].cum_strat)
            &&& call_ensures(<S::Wide as Real>::from_count, (0,), arms[i].curr_strat)
            &&& call_ensures(<S::Wide as Real>::from_count, (0,), arms[i].est_score)
        }
}

/// The moves that the two sides choose from at a node, in state `s`: those known there, or else
/// those that the engine names for side one and for side two in that state.
pub open spec fn offered<B: Battle>(
    node: Node<B::Choice, B::Instruction, B::Score>,
    s: B,
    s1: Seq<MoveNode<B::Choice, B::Score>>,
    s2: Seq<MoveNode<B::Choice, B::Score>>,
) -> bool {
    match (node.s1_options, node.s2_options) {
        (Some(a), Some(b)) => s1 == a@ && s2 == b@,
        _ => exists|c1: Vec<MoveChoice<B::Choice>>, c2: Vec<MoveChoice<B::Choice>>|
            {
                &&& #[trigger] call_ensures(B::get_all_options, (&s,), (c1, c2))
                &&& unexplored(c1@, s1)
                &&& unexplored(c2@, s2)
            },
    }
}

/// `new` is the node `old` but for the moves of the two sides.
pub open spec fn moves_aside<C, I, S: Single>(old: Node<C, I, S>, new: Node<C, I, S>) -> bool {
    &&& new.root == old.root
    &&& new.parent == old.parent
    &&& new.children == old.children
    &&& new.times_visited == old.times_visited
    &&& new.total_score == old.total_score
    &&& new.depth == old.depth
    &&& new.instructions == old.instructions
    &&& new.s1_choice == old.s1_choice
    &&& new.s2_choice == old.s2_choice
}

/// `new` is the node `old` after each side has drawn one of the moves that it is offered in state
/// `s`: side one the move `i1`, side two the move `i2`.
pub open spec fn both_drew<B: Battle>(
    w: Reading<<B::Score as Single>::Wide>,
    old: Node<B::Choice, B::Instruction, B::Score>,
    s: B,
    new: Node<B::Choice, B::Instruction, B::Score>,
    i1: usize,
    i2: usize,
) -> bool {
    &&& moves_aside(old, new)
    &&& new.s1_options is Some
    &&& new.s2_options is Some
    &&& i1 < new.s1_options->0@.len()
    &&& i2 < new.s2_options->0@.len()
    &&& exists|
        s1: Seq<MoveNode<B::Choice, B::Score>>,
        s2: Seq<MoveNode<B::Choice, B::Score>>,
    |
        {
            &&& #[trigger] offered(old, s, s1, s2)
            &&& drawn_by_exp3(w, s1, new.s1_options->0@, Ok(i1))
            &&& drawn_by_exp3(w, s2, new.s2_options->0@, Ok(i2))
        }
}

pub proof fn lemma_unexplored<C, S: Single>(
    choices: Seq<MoveChoice<C>>,
    arms: Seq<MoveNode<C, S>>,
)
    requires
        all_new(choices, arms),
    ensures
        unexplored(choices, arms),
{
    assert forall|i: int|
        #![trigger arms[i]]
        0 <= i < arms.len() implies {
        &&& arms[i].move_choice == choices[i]
        &&& arms[i].visits == 0
        &&& call_ensures(S::from_count, (0,), arms[i].total_score)
        &&& call_ensures(<S::Wide as Real>::from_count, (0,), arms[i].cum_strat)
        &&& call_ensures(<S::Wide as Real>::from_count, (0,), arms[i].curr_strat)
        &&& call_ensures(<S::Wide as Real>::from_count, (0,), arms[i].est_score)
    } by {
        assert(arms[i].is_new(choices[i]));
        assert(evaluates(Expr::Count(0), arms[i].total_score));
        assert(evaluates(Expr::Count(0), arms[i].cum_strat));
        assert(evaluates(Expr::Count(0), arms[i].curr_strat));
        assert(evaluates(Expr::Count(0), arms[i].est_score));
    }
}

pub proof fn lemma_offered<B: Battle>(
    node: Node<B::Choice, B::Instruction, B::Score>,
    s: B,
    s1: Seq<MoveNode<B::Choice, B::Score>>,
    s2: Seq<MoveNode<B::Choice, B::Score>>,
)
    requires
        node.s1_options is Some <==> node.s2_options is Some,
        listed(node, s, s1, s2),
    ensures
        offered(node, s, s1, s2),
{
    if node.s1_options is None {
        let (c1, c2) = choose|c1: Vec<MoveChoice<B::Choice>>, c2: Vec<MoveChoice<B::Choice>>|
            {
                &&& #[trigger] call_ensures(B::get_all_options, (&s,), (c1, c2))
                &&& all_new(c1@, s1)
                &&& all_new(c2@, s2)
            };
        lemma_unexplored(c1@, s1);
        lemma_unexplored(c2@, s2);
        assert(call_ensures(B::get_all_options, (&s,), (c1, c2)));
    }
}

/// Where a turn is drawn, each side draws one of the moves that it is offered.
pub proof fn law_turn_drawn<B: Battle>(
    w: Reading<<B::Score as Single>::Wide>,
    old: Node<B::Choice, B::Instruction, B::Score>,
    s: B,
    new: Node<B::Choice, B::Instruction, B::Score>,
    i1: usize,
    i2: usize,
)
    requires
        w.exact(),
        old.s1_options is Some <==> old.s2_options is Some,
        turn_drawn(old, s, new, i1, i2),
    ensures
        both_drew(w, old, s, new, i1, i2),
{
    let (s1, s2) = choose|
        s1: Seq<MoveNode<B::Choice, B::Score>>,
        s2: Seq<MoveNode<B::Choice, B::Score>>,
    |
        {
            &&& #[trigger] listed(old, s, s1, s2)
            &&& exp3_drawn(s1, new.s1_options->0@, Ok(i1))
            &&& exp3_drawn(s2, new.s2_options->0@, Ok(i2))
        };
    lemma_offered(old, s, s1, s2);
    assert(new.s1_options->0.len() <= usize::MAX);
    assert(new.s2_options->0.len() <= usize::MAX);
    law_move_drawn(w, s1, new.s1_options->0@, Ok(i1));
    law_move_drawn(w, s2, new.s2_options->0@, Ok(i2));
    assert(offered(old, s, s1, s2));
}

/// A walk that comes to a node whose moves are not known yet lists them: for side one those that
/// the engine names first for the state reached there, for side two those that it names second.
pub proof fn law_walk_lists<B: Battle>(
    old: Seq<Node<B::Choice, B::Instruction, B::Score>>,
    at: int,
    s: B,
    new: Seq<Node<B::Choice, B::Instruction, B::Score>>,
    n: int,
    i1: usize,
    i2: usize,
    t: B,
)
    requires
        well_formed(old),
        selected(old, at, s, new, n, i1, i2, t),
        old[n].s1_options is None,
    ensures
        new[n].s1_options is Some,
        new[n].s2_options is Some,
        exists|c1: Vec<MoveChoice<B::Choice>>, c2: Vec<MoveChoice<B::Choice>>|
            {
                &&& #[trigger] call_ensures(B::get_all_options, (&t,), (c1, c2))
                &&& new[n].s1_options->0@.len() == c1@.len()
                &&& new[n].s2_options->0@.len() == c2@.len()
                &&& forall|i: int|
                    0 <= i < c1@.len() ==> (#[trigger] new[n].s1_options->0@[i]).move_choice
                        == c1@[i]
                &&& forall|i: int|
                    0 <= i < c2@.len() ==> (#[trigger] new[n].s2_options->0@[i]).move_choice
                        == c2@[i]
            },
{
    let (s1, s2) = choose|
        s1: Seq<MoveNode<B::Choice, B::Score>>,
        s2: Seq<MoveNode<B::Choice, B::Score>>,
    |
        {
            &&& #[trigger] listed(old[n], t, s1, s2)
            &&& exp3_drawn(s1, new[n].s1_options->0@, Ok(i1))
            &&& exp3_drawn(s2, new[n].s2_options->0@, Ok(i2))
        };
    let (c1, c2) = choose|c1: Vec<MoveChoice<B::Choice>>, c2: Vec<MoveChoice<B::Choice>>|
        {
            &&& #[trigger] call_ensures(B::get_all_options, (&t,), (c1, c2))
            &&& all_new(c1@, s1)
            &&& all_new(c2@, s2)
        };
    assert(call_ensures(B::get_all_options, (&t,), (c1, c2)));
    assert(forall|i: int| 0 <= i < c1@.len() ==> (#[trigger] s1[i]).is_new(c1@[i]));
    assert(forall|i: int| 0 <= i < c2@.len() ==> (#[trigger] s2[i]).is_new(c2@[i]));
    assert forall|i: int| 0 <= i < c1@.len() implies (
    #[trigger] new[n].s1_options->0@[i]).move_choice == c1@[i] by {
        assert(s1[i].is_new(c1@[i]));
    }
    assert forall|i: int| 0 <= i < c2@.len() implies (
    #[trigger] new[n].s2_options->0@[i]).move_choice == c2@[i] by {
        assert(s2[i].is_new(c2@[i]));
    }
}

/// `r` is an answer to a draw among outcomes of the given percentages, each counting with its part
/// of their sum.
pub open spec fn fairly_sampled<S: Single>(
    w: Reading<S::Wide>,
    percentages: Seq<S>,
    r: Result<usize, WeightError>,
) -> bool {
    exists|weights: Seq<S::Wide>|
        {
            &&& weights.len() == percentages.len()
            &&& forall|i: int|
                0 <= i < percentages.len() ==> call_ensures(
                    S::widen,
                    (percentages[i],),
                    #[trigger] weights[i],
                )
            &&& #[trigger] fairly_drawn(w, weights, r)
        }
}

/// Outcomes are drawn by their percentages.
pub proof fn law_outcome_drawn<S: Single>(
    w: Reading<S::Wide>,
    percentages: Seq<S>,
    r: Result<usize, WeightError>,
)
    requires
        w.exact(),
        outcome_drawn(percentages, r),
    ensures
        fairly_sampled(w, percentages, r),
{
    let (weights, portions) = choose|weights: Seq<S::Wide>, portions: Seq<Option<u64>>|
        {
            &&& weights.len() == percentages.len()
            &&& forall|i: int|
                0 <= i < percentages.len() ==> call_ensures(
                    S::widen,
                    (percentages[i],),
                    #[trigger] weights[i],
                )
            &&& #[trigger] shares(weights, portions)
            &&& drawn_by_share(portions, r)
        };
    lemma_fairly_drawn(w, weights, portions, r);
}

/// One step of a walk: at the node at `p`, in state `s`, both sides drew a turn that had been
/// played before. The node at `c` is one of its outcomes; it was drawn by the percentages of them
/// all, and the engine took its instructions from `s` to `t`.
pub open spec fn stepped<B: Battle>(
    w: Reading<<B::Score as Single>::Wide>,
    old: Seq<Node<B::Choice, B::Instruction, B::Score>>,
    p: int,
    s: B,
    new: Node<B::Choice, B::Instruction, B::Score>,
    c: int,
    t: B,
) -> bool {
    &&& 0 <= p < c < old.len()
    &&& old[c].parent == Some(p as usize)
    &&& old[p].s1_options is Some
    &&& call_ensures(B::apply_instructions, (s, &old[c].instructions.instruction_list), t)
    &&& exists|a: usize, b: usize|
        {
            let bucket = old[p].bucket(a, b)->0;
            &&& #[trigger] both_drew(w, old[p], s, new, a, b)
            &&& old[p].bucket(a, b) is Some
            &&& bucket.first <= c < bucket.first + bucket.count <= old.len()
            &&& fairly_sampled(
                w,
                Seq::new(
                    bucket.count as nat,
                    |k: int| old[bucket.first + k].instructions.percentage,
                ),
                Ok((c - bucket.first) as usize),
            )
        }
}

/// `path` and `states` are the nodes and states that a walk from `at` and `s` came through. At all
/// nodes but the last it went on to the next; no other node has changed, but the last, of which
/// nothing is said.
pub open spec fn walked<B: Battle>(
    w: Reading<<B::Score as Single>::Wide>,
    old: Seq<Node<B::Choice, B::Instruction, B::Score>>,
    at: int,
    s: B,
    new: Seq<Node<B::Choice, B::Instruction, B::Score>>,
    path: Seq<int>,
    states: Seq<B>,
) -> bool {
    &&& new.len() == old.len()
    &&& path.len() > 0
    &&& states.len() == path.len()
    &&& path[0] == at
    &&& states[0] == s
    &&& forall|k: int|
        #![trigger path[k]]
        0 <= k < path.len() - 1 ==> stepped(
            w,
            old,
            path[k],
            states[k],
            new[path[k]],
            path[k + 1],
            states[k + 1],
        )
    &&& forall|x: int|
        0 <= x < old.len() && !path.contains(x) ==> #[trigger] new[x] == old[x]
}

/// The way from one node down to another, with the states on it.
proof fn lemma_way<B: Battle>(
    nodes: Seq<Node<B::Choice, B::Instruction, B::Score>>,
    at: int,
    n: int,
    s: B,
    t: B,
) -> (r: (Seq<int>, Seq<B>))
    requires
        parents_before(nodes),
        0 <= at,
        0 <= n < nodes.len(),
        applied_between(nodes, at, n, s, t),
    ensures
        r.0.len() > 0,
        r.1.len() == r.0.len(),
        r.0[0] == at,
        r.1[0] == s,
        r.0.last() == n,
        r.1.last() == t,
        forall|k: int|
            #![trigger r.0[k]]
            0 <= k < r.0.len() ==> {
                &&& 0 <= r.0[k] < nodes.len()
                &&& on_path(nodes, n, r.0[k])
                &&& on_path(nodes, r.0[k], at)
            },
        forall|k: int|
            #![trigger r.0[k]]
            0 <= k < r.0.len() - 1 ==> {
                &&& nodes[r.0[k + 1]].parent == Some(r.0[k] as usize)
                &&& r.0[k] < r.0[k + 1]
                &&& applies(r.1[k], nodes[r.0[k + 1]].instructions.instruction_list, r.1[k + 1])
            },
        forall|x: int| #[trigger] between(nodes, at, n, x) ==> r.0.contains(x),
    decreases n,
{
    if n == at {
        let path = seq![n];
        let states = seq![s];
        assert(on_path(nodes, n, n));
        assert forall|x: int| #[trigger] between(nodes, at, n, x) implies path.contains(x) by {
            lemma_path_above(nodes, n, x);
            lemma_path_above(nodes, x, at);
            assert(path[0] == x);
        }
        (path, states)
    } else {
        let p = nodes[n].parent->0 as int;
        let list = nodes[n].instructions.instruction_list;
        let m = choose|m: B| #[trigger]
            applies(m, list, t) && applied_between(nodes, at, p, s, m);
        let (path, states) = lemma_way(nodes, at, p, s, m);
        let path2 = path.push(n);
        let states2 = states.push(t);
        assert forall|k: int|
            #![trigger path2[k]]
            0 <= k < path2.len() implies 0 <= path2[k] < nodes.len() && on_path(
            nodes,
            n,
            path2[k],
        ) && on_path(nodes, path2[k], at) by {
            if k < path.len() {
                assert(path2[k] == path[k]);
                assert(on_path(nodes, p, path[k]));
            } else {
                assert(path[path.len() - 1] == p);
                assert(on_path(nodes, p, at));
            }
        }
        assert forall|k: int|
            #![trigger path2[k]]
            0 <= k < path2.len() - 1 implies {
            &&& nodes[path2[k + 1]].parent == Some(path2[k] as usize)
            &&& path2[k] < path2[k + 1]
            &&& applies(
                states2[k],
                nodes[path2[k + 1]].instructions.instruction_list,
                states2[k + 1],
            )
        } by {
            assert(path2[k] == path[k]);
            if k + 1 < path.len() {
                assert(path2[k + 1] == path[k + 1]);
            }
        }
        assert forall|x: int| #[trigger] between(nodes, at, n, x) implies path2.contains(x) by {
            if x == n {
                assert(path2[path.len() as int] == x);
            } else {
                assert(between(nodes, at, p, x));
                let k = choose|k: int| 0 <= k < path.len() && path[k] == x;
                assert(path2[k] == x);
            }
        }
        (path2, states2)
    }
}

/// A walk goes from node to node, always to an outcome of the turn drawn.
proof fn lemma_descended_walked<B: Battle>(
    w: Reading<<B::Score as Single>::Wide>,
    old: Seq<Node<B::Choice, B::Instruction, B::Score>>,
    at: int,
    s: B,
    new: Seq<Node<B::Choice, B::Instruction, B::Score>>,
    n: int,
    t: B,
) -> (r: (Seq<int>, Seq<B>))
    requires
        w.exact(),
        well_formed(old),
        0 <= at < old.len(),
        descended(old, at, s, new, n, t),
    ensures
        walked(w, old, at, s, new, r.0, r.1),
        r.0.last() == n,
        r.1.last() == t,
{
    lemma_parents_before(old);
    let (path, states) = lemma_way(old, at, n, s, t);
    assert forall|k: int| #![trigger path[k]] 0 <= k < path.len() - 1 implies stepped(
        w,
        old,
        path[k],
        states[k],
        new[path[k]],
        path[k + 1],
        states[k + 1],
    ) by {
        let (p, c) = (path[k], path[k + 1]);
        assert(on_path(old, n, p) && on_path(old, p, at));
        assert(on_path(old, n, c));
        lemma_toward_unique(old, n, c, p);
        assert(between(old, at, n, p));
        assert(p != n) by {
            lemma_path_above(old, n, c);
        }
        assert(passed(old, p, s, new[p], c));
        let (a, b) = choose|a: usize, b: usize|
            {
                let bucket = old[p].bucket(a, b)->0;
                &&& #[trigger] turn_drawn(old[p], s, new[p], a, b)
                &&& old[p].bucket(a, b) is Some
                &&& bucket.first <= c < bucket.first + bucket.count
                &&& outcome_drawn(percentages(old, bucket), Ok((c - bucket.first) as usize))
            };
        let bucket = old[p].bucket(a, b)->0;
        assert(bucket_placed(old, p, a, b));
        assert(old[p].s1_options is Some <==> old[p].s2_options is Some);
        law_turn_drawn(w, old[p], s, new[p], a, b);
        lemma_state_aside(w, old[p], s, states[k], new[p], a, b);
        law_outcome_drawn(w, percentages(old, bucket), Ok((c - bucket.first) as usize));
        assert(percentages(old, bucket) =~= Seq::new(
            bucket.count as nat,
            |k: int| old[bucket.first + k].instructions.percentage,
        ));
        assert(both_drew(w, old[p], states[k], new[p], a, b));
    }
    assert forall|x: int| 0 <= x < old.len() && !path.contains(x) implies #[trigger] new[x]
        == old[x] by {
        if x == n {
            assert(path[path.len() - 1] == x);
        } else if between(old, at, n, x) {
            assert(path.contains(x));
        }
    }
    (path, states)
}

/// Where the moves are known, the state does not matter.
proof fn lemma_state_aside<B: Battle>(
    w: Reading<<B::Score as Single>::Wide>,
    old: Node<B::Choice, B::Instruction, B::Score>,
    s: B,
    t: B,
    new: Node<B::Choice, B::Instruction, B::Score>,
    i1: usize,
    i2: usize,
)
    requires
        old.s1_options is Some,
        old.s2_options is Some,
        both_drew(w, old, s, new, i1, i2),
    ensures
        both_drew(w, old, t, new, i1, i2),
{
    let (s1, s2) = choose|
        s1: Seq<MoveNode<B::Choice, B::Score>>,
        s2: Seq<MoveNode<B::Choice, B::Score>>,
    |
        {
            &&& #[trigger] offered(old, s, s1, s2)
            &&& drawn_by_exp3(w, s1, new.s1_options->0@, Ok(i1))
            &&& drawn_by_exp3(w, s2, new.s2_options->0@, Ok(i2))
        };
    assert(offered(old, t, s1, s2));
}

/// A walk goes from node to node, always to an outcome of the turn drawn there, as long as that
/// turn has been played before. It ends where both sides draw a turn that has not.
pub proof fn law_walk<B: Battle>(
    w: Reading<<B::Score as Single>::Wide>,
    old: Seq<Node<B::Choice, B::Instruction, B::Score>>,
    at: int,
    s: B,
    new: Seq<Node<B::Choice, B::Instruction, B::Score>>,
    n: int,
    i1: usize,
    i2: usize,
    t: B,
)
    requires
        w.exact(),
        well_formed(old),
        0 <= at < old.len(),
        selected(old, at, s, new, n, i1, i2, t),
    ensures
        old[n].bucket(i1, i2) is None,
        both_drew(w, old[n], t, new[n], i1, i2),
        exists|path: Seq<int>, states: Seq<B>|
            {
                &&& #[trigger] walked(w, old, at, s, new, path, states)
                &&& path.last() == n
                &&& states.last() == t
            },
{
    assert(old[n].s1_options is Some <==> old[n].s2_options is Some);
    law_turn_drawn(w, old[n], t, new[n], i1, i2);
    let (path, states) = lemma_descended_walked(w, old, at, s, new, n, t);
    assert(walked(w, old, at, s, new, path, states));
}

/// `node` is a child of the node at `at` that has just been added for one outcome of a turn.
pub open spec fn outcome_child<C, I, S: Single>(
    nodes: Seq<Node<C, I, S>>,
    at: int,
    i1: usize,
    i2: usize,
    outcome: StateInstructions<I, S>,
    node: Node<C, I, S>,
) -> bool {
    &&& !node.root
    &&& node.parent == Some(at as usize)
    &&& node.children@ == Map::<u128, Bucket>::empty()
    &&& node.times_visited == 0
    &&& call_ensures(S::from_count, (0,), node.total_score)
    &&& nodes[at].depth < u16::MAX ==> node.depth == nodes[at].depth + 1
    &&& nodes[at].depth == u16::MAX ==> node.depth == u16::MAX
    &&& node.instructions == outcome
    &&& node.s1_choice == i1 % 256
    &&& node.s2_choice == i2 % 256
    &&& node.s1_options is None
    &&& node.s2_options is None
}

/// The engine names `outcomes` for the turn in which the sides make the moves `i1` and `i2` at a
/// node, and takes `s` to `m` meanwhile. Damage is told apart down to depth one.
pub open spec fn outcomes_named<B: Battle>(
    node: Node<B::Choice, B::Instruction, B::Score>,
    i1: usize,
    i2: usize,
    s: B,
    m: B,
    outcomes: Vec<StateInstructions<B::Instruction, B::Score>>,
) -> bool {
    call_ensures(
        B::generate_instructions_from_move_pair,
        (
            s,
            &node.s1_options->0@[i1 as int].move_choice,
            &node.s2_options->0@[i2 as int].move_choice,
            node.depth <= 1,
        ),
        (m, outcomes),
    )
}

/// `new` are the nodes `old` after the turn was played in which the sides make the moves `i1` and
/// `i2` at the node at `at`, in state `s`. The engine named its outcomes. Each of them is a
/// child now; one, at `n`, was drawn by their percentages, and the engine took it to state `t`.
pub open spec fn turn_played<B: Battle>(
    w: Reading<<B::Score as Single>::Wide>,
    old: Seq<Node<B::Choice, B::Instruction, B::Score>>,
    at: int,
    i1: usize,
    i2: usize,
    s: B,
    new: Seq<Node<B::Choice, B::Instruction, B::Score>>,
    n: int,
    added: u32,
    t: B,
) -> bool {
    exists|m: B, outcomes: Vec<StateInstructions<B::Instruction, B::Score>>|
        {
            &&& #[trigger] outcomes_named(old[at], i1, i2, s, m, outcomes)
            &&& new.len() == old.len() + outcomes@.len()
            &&& old.len() <= n < new.len()
            &&& call_ensures(
                B::apply_instructions,
                (m, &outcomes@[n - old.len()].instruction_list),
                t,
            )
            &&& fairly_sampled(
                w,
                Seq::new(outcomes@.len(), |k: int| outcomes@[k].percentage),
                Ok((n - old.len()) as usize),
            )
            &&& added == outcomes@.len() % 0x1_0000_0000
            &&& forall|c: int|
                old.len() <= c < new.len() ==> outcome_child(
                    old,
                    at,
                    i1,
                    i2,
                    outcomes@[c - old.len()],
                    #[trigger] new[c],
                )
            &&& forall|x: int| 0 <= x < old.len() && x != at ==> #[trigger] new[x] == old[x]
            &&& new[at] == (Node { children: new[at].children, ..old[at] })
            &&& forall|a: usize, b: usize| #[trigger]
                new[at].bucket(a, b) == if a == i1 && b == i2 {
                    Some(Bucket { first: old.len() as usize, count: outcomes@.len() as usize })
                } else {
                    old[at].bucket(a, b)
                }
        }
}

/// Neither side has a move in the turn in which the sides make the moves `i1` and `i2`.
pub open spec fn both_idle<C, I, S: Single>(node: Node<C, I, S>, i1: usize, i2: usize) -> bool {
    node.s1_options->0@[i1 as int].move_choice is NoMove
        && node.s2_options->0@[i2 as int].move_choice is NoMove
}

/// What becomes of a turn rests on what the engine answers when asked whether the battle is over,
/// and on whether neither side has a move. Where neither has, and where the answer is not zero at
/// a node other than the root, nothing happens. Else the turn is played.
pub proof fn law_expand<B: Battle>(
    w: Reading<<B::Score as Single>::Wide>,
    old: Seq<Node<B::Choice, B::Instruction, B::Score>>,
    at: int,
    i1: usize,
    i2: usize,
    s: B,
    new: Seq<Node<B::Choice, B::Instruction, B::Score>>,
    n: int,
    added: u32,
    t: B,
)
    requires
        w.exact(),
        well_formed(old),
        0 <= at < old.len(),
        old[at].s1_options is Some,
        i1 < old[at].s1_options->0@.len(),
        i2 < old[at].s2_options->0@.len(),
        new.len() <= usize::MAX,
        expanded(old, at, i1, i2, s, new, n, added, t),
    ensures
        exists|x: B::Score, zero: B::Score, same: bool|
            {
                &&& call_ensures(B::battle_is_over, (&s,), x)
                &&& call_ensures(<B::Score as Real>::from_count, (0,), zero)
                &&& #[trigger] call_ensures(<B::Score as Real>::equals, (x, zero), same)
                &&& if both_idle(old[at], i1, i2) || !same && !old[at].root {
                    new == old && n == at && added == 0 && t == s
                } else {
                    turn_played(w, old, at, i1, i2, s, new, n, added, t)
                }
            },
{
    let over = choose|over: bool| #[trigger]
        ended(s, over) && expanded_when(over, old, at, i1, i2, s, new, n, added, t);
    let same = !over;
    let x = choose|x: B::Score| #[trigger]
        call_ensures(B::battle_is_over, (&s,), x) && equal_answer(
            Expr::Value(x),
            Expr::Count(0),
            same,
        );
    let (y, zero) = choose|y: B::Score, zero: B::Score|
        evaluates(Expr::Value(x), y) && evaluates(Expr::<B::Score>::Count(0), zero)
            && #[trigger] call_ensures(<B::Score as Real>::equals, (y, zero), same);
    assert(call_ensures(<B::Score as Real>::equals, (x, zero), same));
    assert(call_ensures(<B::Score as Real>::from_count, (0,), zero));
    if !nothing_to_play(old[at], over, i1, i2) {
        lemma_turn_played(w, old, at, i1, i2, s, new, n, added, t);
    }
}

proof fn lemma_turn_played<B: Battle>(
    w: Reading<<B::Score as Single>::Wide>,
    old: Seq<Node<B::Choice, B::Instruction, B::Score>>,
    at: int,
    i1: usize,
    i2: usize,
    s: B,
    new: Seq<Node<B::Choice, B::Instruction, B::Score>>,
    n: int,
    added: u32,
    t: B,
)
    requires
        w.exact(),
        well_formed(old),
        0 <= at < old.len(),
        new.len() <= usize::MAX,
        played(old, at, i1, i2, s, new, n, added, t),
    ensures
        turn_played(w, old, at, i1, i2, s, new, n, added, t),
{
    let (m, outcomes) = choose|m: B, outcomes: Vec<StateInstructions<B::Instruction, B::Score>>|
        #[trigger]
        generated(old, at, i1, i2, s, m, outcomes) && played_with(
            old,
            at,
            i1,
            i2,
            m,
            outcomes@,
            new,
            n,
            added,
            t,
        );
    law_branches_on_two_levels(old, at);
    let list = Seq::new(outcomes@.len(), |k: int| outcomes@[k].percentage);
    assert(list =~= outcome_percentages(outcomes@));
    law_outcome_drawn(w, list, Ok((n - old.len()) as usize));
    assert forall|c: int| old.len() <= c < new.len() implies outcome_child(
        old,
        at,
        i1,
        i2,
        outcomes@[c - old.len()],
        #[trigger] new[c],
    ) by {
        let node = new[c];
        assert(is_child(old, at, i1, i2, outcomes@[c - old.len()], node));
        assert(evaluates(Expr::Count(0), node.total_score));
    }
    assert forall|a: usize, b: usize| #[trigger]
        new[at].bucket(a, b) == if a == i1 && b == i2 {
            Some(Bucket { first: old.len() as usize, count: outcomes@.len() as usize })
        } else {
            old[at].bucket(a, b)
        } by {
        if pair_key(a, b) == pair_key(i1, i2) {
            lemma_pair_key_injective(a, b, i1, i2);
        }
    }
    assert(outcomes_named(old[at], i1, i2, s, m, outcomes));
}

/// At every node, be it the root or not: where the battle goes on and at least one side has a move,
/// there is a new child for each outcome that the engine names, and the search goes on at one of
/// them.
pub proof fn law_moves_are_played<B: Battle>(
    v: Reading<B::Score>,
    w: Reading<<B::Score as Single>::Wide>,
    old: Seq<Node<B::Choice, B::Instruction, B::Score>>,
    at: int,
    i1: usize,
    i2: usize,
    s: B,
    new: Seq<Node<B::Choice, B::Instruction, B::Score>>,
    n: int,
    added: u32,
    t: B,
)
    requires
        v.exact(),
        w.exact(),
        well_formed(old),
        0 <= at < old.len(),
        old[at].s1_options is Some,
        i1 < old[at].s1_options->0@.len(),
        i2 < old[at].s2_options->0@.len(),
        new.len() <= usize::MAX,
        expanded(old, at, i1, i2, s, new, n, added, t),
        goes_on(v, s),
        !(old[at].s1_options->0@[i1 as int].move_choice is NoMove)
            || !(old[at].s2_options->0@[i2 as int].move_choice is NoMove),
    ensures
        turn_played(w, old, at, i1, i2, s, new, n, added, t),
        old.len() <= n < new.len(),
        new[n].parent == Some(at as usize),
{
    law_expand(w, old, at, i1, i2, s, new, n, added, t);
    let (x, zero, same) = choose|x: B::Score, zero: B::Score, same: bool|
        {
            &&& call_ensures(B::battle_is_over, (&s,), x)
            &&& call_ensures(<B::Score as Real>::from_count, (0,), zero)
            &&& #[trigger] call_ensures(<B::Score as Real>::equals, (x, zero), same)
            &&& if both_idle(old[at], i1, i2) || !same && !old[at].root {
                new == old && n == at && added == 0 && t == s
            } else {
                turn_played(w, old, at, i1, i2, s, new, n, added, t)
            }
        };
    assert(same);
}

/// Where the battle has ended, at a node other than the root, and where neither side has a move,
/// the tree and the battle stay as they are.
pub proof fn law_nothing_is_played<B: Battle>(
    v: Reading<B::Score>,
    w: Reading<<B::Score as Single>::Wide>,
    old: Seq<Node<B::Choice, B::Instruction, B::Score>>,
    at: int,
    i1: usize,
    i2: usize,
    s: B,
    new: Seq<Node<B::Choice, B::Instruction, B::Score>>,
    n: int,
    added: u32,
    t: B,
)
    requires
        v.exact(),
        w.exact(),
        well_formed(old),
        0 <= at < old.len(),
        old[at].s1_options is Some,
        i1 < old[at].s1_options->0@.len(),
        i2 < old[at].s2_options->0@.len(),
        new.len() <= usize::MAX,
        expanded(old, at, i1, i2, s, new, n, added, t),
        both_idle(old[at], i1, i2) || at != 0 && (forall|x: B::Score| #[trigger]
            call_ensures(B::battle_is_over, (&s,), x) ==> v.has(x) && v.at(x) != 0 as real),
    ensures
        new == old,
        n == at,
        added == 0,
        t == s,
{
    law_expand(w, old, at, i1, i2, s, new, n, added, t);
    if at > 0 {
        assert(linked(old, at));
    }
}

/// `new` is the move `old` after a visit that paid it `amount`. Its total score has grown by that.
/// Its estimated score has grown by that divided by the probability of the move, or by a millionth
/// where that is larger, and is a finite number.
pub open spec fn paid<C, S: Single>(
    v: Reading<S>,
    w: Reading<S::Wide>,
    old: MoveNode<C, S>,
    amount: S,
    new: MoveNode<C, S>,
) -> bool {
    &&& new.move_choice == old.move_choice
    &&& new.cum_strat == old.cum_strat
    &&& new.curr_strat == old.curr_strat
    &&& new.visits == old.visits + 1
    &&& call_ensures(S::plus, (old.total_score, amount), new.total_score)
    &&& w.has(old.est_score) && w.has(old.curr_strat) && v.has(amount) ==> w.has(new.est_score) && (
    w.at(new.est_score) - w.at(old.est_score)) * max_real(
        w.at(old.curr_strat),
        1 as real / 1_000_000 as real,
    ) == v.at(amount)
}

/// `new` are the moves `old` of a side after a visit of the given one that paid it `amount`.
pub open spec fn side_paid<C, S: Single>(
    v: Reading<S>,
    w: Reading<S::Wide>,
    old: Option<Vec<MoveNode<C, S>>>,
    choice: u8,
    amount: S,
    new: Option<Vec<MoveNode<C, S>>>,
) -> bool {
    &&& old is Some
    &&& new is Some
    &&& new->0@.len() == old->0@.len()
    &&& choice < old->0@.len()
    &&& paid(v, w, old->0@[choice as int], amount, new->0@[choice as int])
    &&& call_ensures(
        <S::Wide as Real>::is_finite,
        (new->0@[choice as int].est_score,),
        true,
    )
    &&& forall|i: int|
        0 <= i < old->0@.len() && i != choice ==> #[trigger] new->0@[i] == old->0@[i]
}

/// The node at `x` has one more visit.
pub open spec fn visited_again<C, I, S: Single>(
    old: Seq<Node<C, I, S>>,
    new: Seq<Node<C, I, S>>,
    x: int,
) -> bool {
    0 <= x < old.len() && new[x].times_visited == old[x].times_visited + 1
}

/// `new` is the node `old` but for visits and moves.
pub open spec fn stays_put<C, I, S: Single>(old: Node<C, I, S>, new: Node<C, I, S>) -> bool {
    &&& new.root == old.root
    &&& new.parent == old.parent
    &&& new.children == old.children
    &&& new.total_score == old.total_score
    &&& new.depth == old.depth
    &&& new.instructions == old.instructions
    &&& new.s1_choice == old.s1_choice
    &&& new.s2_choice == old.s2_choice
}

/// `new` are the nodes `old` after the node at `leaf` has been settled with `won` for side one and
/// `lost` for side two, the same two numbers at all levels.
///
/// The node itself has one more visit. Where a node has, so has its parent, and the moves there
/// that led to it were paid: that of side one `won`, that of side two `lost`. Nothing else has
/// changed.
#[verifier::opaque]
pub open spec fn settled<C, I, S: Single>(
    v: Reading<S>,
    w: Reading<S::Wide>,
    old: Seq<Node<C, I, S>>,
    leaf: int,
    won: S,
    lost: S,
    new: Seq<Node<C, I, S>>,
) -> bool {
    &&& new.len() == old.len()
    &&& forall|x: int| 0 <= x < old.len() ==> stays_put(old[x], #[trigger] new[x])
    &&& forall|x: int|
        0 <= x < old.len() && !visited_again(old, new, x) ==> #[trigger] new[x] == old[x]
    &&& visited_again(old, new, leaf)
    &&& new[leaf].s1_options == old[leaf].s1_options
    &&& new[leaf].s2_options == old[leaf].s2_options
    &&& forall|c: int|
        0 < c && #[trigger] visited_again(old, new, c) ==> {
            let p = old[c].parent->0 as int;
            &&& visited_again(old, new, p)
            &&& side_paid(v, w, old[p].s1_options, old[c].s1_choice, won, new[p].s1_options)
            &&& side_paid(v, w, old[p].s2_options, old[c].s2_choice, lost, new[p].s2_options)
        }
    &&& forall|x: int|
        x != leaf && #[trigger] visited_again(old, new, x) ==> exists|c: int|
            x < c && old[c].parent is Some && old[c].parent->0 == x && #[trigger] visited_again(
                old,
                new,
                c,
            )
    &&& forall|c: int, d: int|
        0 < c && 0 < d && #[trigger] visited_again(old, new, c) && #[trigger] visited_again(
            old,
            new,
            d,
        ) && old[c].parent == old[d].parent ==> c == d
}

pub proof fn lemma_paid<C, S: Single>(
    v: Reading<S>,
    w: Reading<S::Wide>,
    old: MoveNode<C, S>,
    amount: S,
    new: MoveNode<C, S>,
)
    requires
        w.exact(),
        linked_readings(v, w),
        move_credited(old, amount, new),
    ensures
        paid(v, w, old, amount, new),
{
    let e = Expr::Value(old.total_score).plus(Expr::Value(amount));
    let (x, y) = choose|x: S, y: S|
        evaluates(Expr::Value(old.total_score), x) && evaluates(Expr::Value(amount), y)
            && #[trigger] op_gives(Op::Plus, x, y, new.total_score);
    assert(evaluates(e, new.total_score));
    assert(op_gives(Op::Plus, old.total_score, amount, new.total_score));
    if w.has(old.est_score) && w.has(old.curr_strat) && v.has(amount) {
        let wide = choose|wide: S::Wide| #[trigger]
            call_ensures(S::widen, (amount,), wide) && evaluates(
                Expr::Value(old.est_score).plus(
                    Expr::Value(wide).over(Expr::Value(old.curr_strat).larger(floor_formula())),
                ),
                new.est_score,
            );
        let floor = 1 as real / 1_000_000 as real;
        let (a, p, z) = (w.at(wide), w.at(old.curr_strat), w.at(old.est_score));
        let likely = max_real(p, floor);
        assert(floor > 0 as real);
        lemma_worth_fraction(w, 1, 1_000_000);
        let pe = Expr::Value(old.curr_strat);
        let fe = floor_formula::<S::Wide>();
        lemma_worth_larger(w, pe, fe, p, floor);
        lemma_worth_over(w, Expr::Value(wide), pe.larger(fe), a, likely);
        let part = Expr::Value(wide).over(pe.larger(fe));
        lemma_worth_plus(w, Expr::Value(old.est_score), part, z, a / likely);
        law_worth(w, Expr::Value(old.est_score).plus(part), new.est_score);
        assert((a / likely) * likely == a) by (nonlinear_arith)
            requires
                likely > 0 as real,
        ;
    }
}

proof fn lemma_side_paid<C, S: Single>(
    v: Reading<S>,
    w: Reading<S::Wide>,
    old: Option<Vec<MoveNode<C, S>>>,
    choice: u8,
    amount: S,
    new: Option<Vec<MoveNode<C, S>>>,
)
    requires
        w.exact(),
        linked_readings(v, w),
        side_credited(old, choice, amount, new),
        finite_answer(new->0@[choice as int], true),
    ensures
        side_paid(v, w, old, choice, amount, new),
{
    lemma_paid(v, w, old->0@[choice as int], amount, new->0@[choice as int]);
}

/// Scoring a node settles with both sides at every level: side one is paid the score, side two what
/// is missing to one.
pub proof fn law_settled<C, I, S: Single>(
    v: Reading<S>,
    w: Reading<S::Wide>,
    old: Seq<Node<C, I, S>>,
    leaf: int,
    score: S,
    new: Seq<Node<C, I, S>>,
)
    requires
        w.exact(),
        linked_readings(v, w),
        well_formed(old),
        0 <= leaf < old.len(),
        credited(old, leaf, score, new),
    ensures
        exists|one: S, lost: S|
            {
                &&& call_ensures(S::from_count, (1,), one)
                &&& #[trigger] call_ensures(S::minus, (one, score), lost)
                &&& settled(v, w, old, leaf, score, lost, new)
            },
{
    let lost = choose|lost: S| #[trigger] credited_with(old, leaf, score, lost, new);
    let one = lemma_lost(score, lost);
    lemma_parents_before(old);
    assert forall|x: int| 0 <= x < old.len() implies stays_put(old[x], #[trigger] new[x]) && (
    visited_again(old, new, x) == on_path(old, leaf, x)) by {
        assert(node_credited(old, leaf, score, lost, x, new[x]));
    }
    assert forall|x: int| 0 <= x < old.len() && !visited_again(old, new, x) implies (
    #[trigger] new[x]) == old[x] by {
        assert(node_credited(old, leaf, score, lost, x, new[x]));
    }
    assert(on_path(old, leaf, leaf));
    assert(node_credited(old, leaf, score, lost, leaf, new[leaf]));
    assert(stays_put(old[leaf], new[leaf]));
    assert forall|c: int| 0 < c && #[trigger] visited_again(old, new, c) implies {
        let p = old[c].parent->0 as int;
        &&& visited_again(old, new, p)
        &&& side_paid(v, w, old[p].s1_options, old[c].s1_choice, score, new[p].s1_options)
        &&& side_paid(v, w, old[p].s2_options, old[c].s2_choice, lost, new[p].s2_options)
    } by {
        let p = old[c].parent->0 as int;
        assert(stays_put(old[c], new[c]));
        assert(old[c].parent is Some && p < c);
        lemma_toward_unique(old, leaf, c, p);
        assert(stays_put(old[p], new[p]));
        assert(node_credited(old, leaf, score, lost, p, new[p]));
        lemma_side_paid(v, w, old[p].s1_options, old[c].s1_choice, score, new[p].s1_options);
        lemma_side_paid(v, w, old[p].s2_options, old[c].s2_choice, lost, new[p].s2_options);
    }
    assert forall|x: int| x != leaf && #[trigger] visited_again(old, new, x) implies exists|c: int|
        x < c && old[c].parent is Some && old[c].parent->0 == x && #[trigger] visited_again(
            old,
            new,
            c,
        ) by {
        assert(stays_put(old[x], new[x]));
        lemma_toward(old, leaf, x);
        let c = toward(old, leaf, x);
        assert(stays_put(old[c], new[c]));
        assert(visited_again(old, new, c));
    }
    assert forall|c: int, d: int|
        0 < c && 0 < d && #[trigger] visited_again(old, new, c) && #[trigger] visited_again(
            old,
            new,
            d,
        ) && old[c].parent == old[d].parent implies c == d by {
        assert(stays_put(old[c], new[c]));
        assert(stays_put(old[d], new[d]));
        let p = old[c].parent->0 as int;
        lemma_toward_unique(old, leaf, c, p);
        lemma_toward_unique(old, leaf, d, p);
    }
    assert(settled(v, w, old, leaf, score, lost, new)) by {
        reveal(settled);
    }
    assert(call_ensures(S::minus, (one, score), lost));
}

/// The one that a score was taken from.
pub proof fn lemma_lost<S: Real>(score: S, lost: S) -> (one: S)
    requires
        evaluates(Expr::Count(1).minus(Expr::Value(score)), lost),
    ensures
        call_ensures(S::from_count, (1,), one),
        call_ensures(S::minus, (one, score), lost),
{
    let (x, y) = choose|x: S, y: S|
        evaluates(Expr::Count(1), x) && evaluates(Expr::Value(score), y) && #[trigger] op_gives(
            Op::Minus,
            x,
            y,
            lost,
        );
    assert(evaluates(Expr::Count(1), x));
    assert(evaluates(Expr::Value(score), y));
    assert(op_gives(Op::Minus, x, y, lost));
    x
}

} // verus!
