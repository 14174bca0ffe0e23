//! The course of a round, and of a search, from call to call.

use crate::arm::MoveNode;
use crate::backpropagate::{
    broke_off, broke_off_at, node_credited, reversed_along, SearchError, Side,
};
use crate::battle::{ended, reverses, Battle, MoveChoice, StateInstructions};
use crate::conduct::{
    both_drew, both_idle, fairly_sampled, law_expand, law_outcome_drawn, law_settled,
    law_turn_drawn, law_walk, lemma_lost, lemma_offered, lemma_paid, lemma_unexplored, moves_aside,
    offered, outcomes_named, paid, settled, side_paid, stays_put, stepped, turn_played, unexplored,
    visited_again, walked,
};
use crate::exact::{linked_readings, max_real, Reading};
use crate::exp3::exp3_drawn;
use crate::expand::{generated, nothing_to_play, outcome_percentages, unplayable};
use crate::iteration::{is_round, iterated, Round};
use crate::laws::{law_branches_on_two_levels, lemma_expanded, lemma_selected};
use crate::node::{Bucket, Node};
use crate::number::{Real, Single};
use crate::payoffs::{
    drawn_by_exp3, fair_score, fairly_reported, in_range, law_move_drawn, lemma_fair_score,
    lemma_fairly_reported, readable,
};
use crate::report::{reports_on, MctsResult, MctsSideResult};
use crate::search::{
    failed, in_time, is_fresh, law_ends_by_clock, law_searched, lemma_last_round,
    perform_mcts_exp3, searched, SearchStats,
};
use crate::selection::{listed, outcome_drawn, percentages, stuck, turn_drawn, turn_stuck};
use crate::tree::{
    lemma_parents_before, lemma_toward, on_path, parents_before, path_to, toward, well_formed, Tree,
};
use crate::weighted::WeightError;
use vstd::prelude::*;

verus! {

/// `way` leads from the node at `leaf` up to the root, parent by parent. On it the engine takes the
/// battle from `s` back to `t`: at each node it reverses what led there.
pub open spec fn taken_back<B: Battle>(
    nodes: Seq<Node<B::Choice, B::Instruction, B::Score>>,
    leaf: int,
    s: B,
    t: B,
    way: Seq<int>,
    states: Seq<B>,
) -> bool {
    &&& way.len() > 0
    &&& states.len() == way.len()
    &&& way[0] == leaf
    &&& way.last() == 0
    &&& states[0] == s
    &&& states.last() == t
    &&& forall|k: int|
        #![trigger way[k]]
        0 <= k < way.len() - 1 ==> {
            &&& 0 <= way[k + 1] < way[k]
            &&& nodes[way[k]].parent is Some
            &&& nodes[way[k]].parent->0 == way[k + 1]
            &&& call_ensures(
                B::reverse_instructions,
                (states[k], &nodes[way[k]].instructions.instruction_list),
                states[k + 1],
            )
        }
}

/// The battle is taken back node by node.
pub proof fn law_taken_back<B: Battle>(
    nodes: Seq<Node<B::Choice, B::Instruction, B::Score>>,
    leaf: int,
    s: B,
    t: B,
) -> (r: (Seq<int>, Seq<B>))
    requires
        parents_before(nodes),
        0 <= leaf < nodes.len(),
        reversed_along(nodes, path_to(nodes, leaf), s, t),
    ensures
        taken_back(nodes, leaf, s, t, r.0, r.1),
    decreases leaf,
{
    if leaf == 0 {
        (seq![0int], seq![s])
    } else {
        let p = nodes[leaf].parent->0 as int;
        let path = path_to(nodes, leaf);
        assert(path.drop_last() =~= path_to(nodes, p));
        let m = choose|m: B| #[trigger]
            reverses(s, nodes[path.last()].instructions.instruction_list, m) && reversed_along(
                nodes,
                path.drop_last(),
                m,
                t,
            );
        let (way, states) = law_taken_back(nodes, p, m, t);
        let way2 = seq![leaf] + way;
        let states2 = seq![s] + states;
        assert forall|k: int| #![trigger way2[k]] 0 <= k < way2.len() - 1 implies {
            &&& 0 <= way2[k + 1] < way2[k]
            &&& nodes[way2[k]].parent is Some
            &&& nodes[way2[k]].parent->0 == way2[k + 1]
            &&& call_ensures(
                B::reverse_instructions,
                (states2[k], &nodes[way2[k]].instructions.instruction_list),
                states2[k + 1],
            )
        } by {
            if k > 0 {
                assert(way2[k] == way[k - 1]);
                assert(way2[k + 1] == way[k]);
            }
        }
        (way2, states2)
    }
}

/// What becomes of the turn that a walk ended with, as the engine answers when asked whether the
/// battle is over.
pub open spec fn dealt_with<B: Battle>(
    w: Reading<<B::Score as Single>::Wide>,
    old: Seq<Node<B::Choice, B::Instruction, B::Score>>,
    at: int,
    i1: usize,
    i2: usize,
    s: B,
    new: Seq<Node<B::Choice, B::Instruction, B::Score>>,
    n: int,
    added: u32,
    t: B,
) -> bool {
    exists|x: B::Score, zero: B::Score, same: bool|
        {
            &&& call_ensures(B::battle_is_over, (&s,), x)
            &&& call_ensures(<B::Score as Real>::from_count, (0,), zero)
            &&& #[trigger] call_ensures(<B::Score as Real>::equals, (x, zero), same)
            &&& if both_idle(old[at], i1, i2) || !same && !old[at].root {
                new == old && n == at && added == 0 && t == s
            } else {
                turn_played(w, old, at, i1, i2, s, new, n, added, t)
            }
        }
}

/// The course of a round from the root: the walk down to a turn that was not played yet, what
/// became of that turn, the score, the settlement, and the way back.
pub open spec fn took_course<B: Battle>(
    v: Reading<B::Score>,
    w: Reading<<B::Score as Single>::Wide>,
    old: Seq<Node<B::Choice, B::Instruction, B::Score>>,
    s: B,
    root_eval: B::Score,
    round: Round<B>,
    new: Seq<Node<B::Choice, B::Instruction, B::Score>>,
    t: B,
    depth: u16,
    added: u32,
) -> bool {
    &&& exists|path: Seq<int>, states: Seq<B>|
        {
            &&& #[trigger] walked(w, old, 0, s, round.walked, path, states)
            &&& path.last() == round.n
            &&& states.last() == round.reached
        }
    &&& old[round.n].bucket(round.i1, round.i2) is None
    &&& both_drew(w, old[round.n], round.reached, round.walked[round.n], round.i1, round.i2)
    &&& dealt_with(
        w,
        round.walked,
        round.n,
        round.i1,
        round.i2,
        round.reached,
        round.larger,
        round.leaf,
        added,
        round.scored,
    )
    &&& depth == round.larger[round.leaf].depth
    &&& v.has(root_eval) && readable(v, round.scored) && in_range(v, round.scored, root_eval)
        ==> fair_score(v, round.scored, root_eval, round.score)
    &&& exists|one: B::Score, lost: B::Score|
        {
            &&& call_ensures(<B::Score as Real>::from_count, (1,), one)
            &&& #[trigger] call_ensures(<B::Score as Real>::minus, (one, round.score), lost)
            &&& settled(v, w, round.larger, round.leaf, round.score, lost, new)
        }
    &&& exists|way: Seq<int>, states: Seq<B>| #[trigger]
        taken_back(round.larger, round.leaf, round.scored, t, way, states)
}

/// Every round takes this course.
pub proof fn law_course<B: Battle>(
    v: Reading<B::Score>,
    w: Reading<<B::Score as Single>::Wide>,
    old: Seq<Node<B::Choice, B::Instruction, B::Score>>,
    s: B,
    root_eval: B::Score,
    new: Seq<Node<B::Choice, B::Instruction, B::Score>>,
    t: B,
    depth: u16,
    added: u32,
)
    requires
        v.exact(),
        w.exact(),
        linked_readings(v, w),
        well_formed(old),
        new.len() <= usize::MAX,
        iterated(old, s, root_eval, new, t, depth, added),
    ensures
        exists|round: Round<B>| #[trigger]
            took_course(v, w, old, s, root_eval, round, new, t, depth, added),
{
    let round = choose|round: Round<B>| #[trigger]
        is_round(old, s, root_eval, round, new, t, depth, added);
    lemma_course(v, w, old, s, root_eval, round, new, t, depth, added);
}

/// A given round takes this course.
pub proof fn lemma_course<B: Battle>(
    v: Reading<B::Score>,
    w: Reading<<B::Score as Single>::Wide>,
    old: Seq<Node<B::Choice, B::Instruction, B::Score>>,
    s: B,
    root_eval: B::Score,
    round: Round<B>,
    new: Seq<Node<B::Choice, B::Instruction, B::Score>>,
    t: B,
    depth: u16,
    added: u32,
)
    requires
        v.exact(),
        w.exact(),
        linked_readings(v, w),
        well_formed(old),
        new.len() <= usize::MAX,
        is_round(old, s, root_eval, round, new, t, depth, added),
    ensures
        took_course(v, w, old, s, root_eval, round, new, t, depth, added),
{
    let (walked_nodes, n, i1, i2, m1) = (
        round.walked,
        round.n,
        round.i1,
        round.i2,
        round.reached,
    );
    let (larger, leaf, m2, score) = (round.larger, round.leaf, round.scored, round.score);
    law_walk(w, old, 0, s, walked_nodes, n, i1, i2, m1);
    lemma_selected(old, 0, s, walked_nodes, n, i1, i2, m1);
    lemma_expanded(walked_nodes, n, i1, i2, m1, larger, leaf, added, m2);
    law_expand(w, walked_nodes, n, i1, i2, m1, larger, leaf, added, m2);
    if v.has(root_eval) && readable(v, m2) && in_range(v, m2, root_eval) {
        lemma_fair_score(v, m2, root_eval, score);
    }
    law_settled(v, w, larger, leaf, score, new);
    lemma_parents_before(larger);
    let (way, states) = law_taken_back(larger, leaf, m2, t);
    assert(taken_back(larger, leaf, m2, t, way, states));
}

/// A move keeps its score where it is not visited, and is paid where it is.
pub open spec fn paid_or_kept<C, S: Single>(
    v: Reading<S>,
    w: Reading<S::Wide>,
    old: MoveNode<C, S>,
    amount: S,
    new: MoveNode<C, S>,
) -> bool {
    &&& new.move_choice == old.move_choice
    &&& {
        ||| new.visits == old.visits && new.total_score == old.total_score && new.est_score
            == old.est_score
        ||| {
            &&& new.visits == old.visits + 1
            &&& call_ensures(S::plus, (old.total_score, amount), new.total_score)
            &&& call_ensures(<S::Wide as Real>::is_finite, (new.est_score,), true)
            &&& w.has(old.est_score) && w.has(new.curr_strat) && v.has(amount) ==> w.has(
                new.est_score,
            ) && (w.at(new.est_score) - w.at(old.est_score)) * max_real(
                w.at(new.curr_strat),
                1 as real / 1_000_000 as real,
            ) == v.at(amount)
        }
    }
}

/// What a round pays. There are two numbers, `won` and `lost`, that add up to one. At every node,
/// at whatever depth, a move of side one that is visited has one more visit, its total score has
/// grown by `won`, and its estimated score by `won` divided by the probability it was drawn with,
/// or by a millionth where that is larger, and is a finite number. For a move of side two it is
/// `lost`. The score of a move that is not visited stays.
pub proof fn law_round_pays<B: Battle>(
    v: Reading<B::Score>,
    w: Reading<<B::Score as Single>::Wide>,
    old: Seq<Node<B::Choice, B::Instruction, B::Score>>,
    s: B,
    root_eval: B::Score,
    new: Seq<Node<B::Choice, B::Instruction, B::Score>>,
    t: B,
    depth: u16,
    added: u32,
)
    requires
        v.exact(),
        w.exact(),
        linked_readings(v, w),
        well_formed(old),
        new.len() <= usize::MAX,
        iterated(old, s, root_eval, new, t, depth, added),
    ensures
        exists|one: B::Score, won: B::Score, lost: B::Score|
            {
                &&& call_ensures(<B::Score as Real>::from_count, (1,), one)
                &&& #[trigger] call_ensures(<B::Score as Real>::minus, (one, won), lost)
                &&& v.has(won) ==> v.has(lost) && v.at(won) + v.at(lost) == 1 as real
                &&& forall|x: int, i: int|
                    #![trigger new[x].s1_options->0@[i]]
                    0 <= x < old.len() && old[x].s1_options is Some && 0 <= i
                        < old[x].s1_options->0@.len() ==> {
                        let a = old[x].s1_options->0@[i];
                        let b = new[x].s1_options->0@[i];
                        &&& b.move_choice == a.move_choice
                        &&& b.visits == a.visits || b.visits == a.visits + 1
                        &&& b.visits == a.visits ==> b.total_score == a.total_score && b.est_score
                            == a.est_score
                        &&& b.visits == a.visits + 1 ==> call_ensures(
                            <B::Score as Real>::plus,
                            (a.total_score, won),
                            b.total_score,
                        )
                        &&& b.visits == a.visits + 1 ==> call_ensures(
                            <<B::Score as Single>::Wide as Real>::is_finite,
                            (b.est_score,),
                            true,
                        )
                        &&& b.visits == a.visits + 1 && w.has(a.est_score) && w.has(b.curr_strat)
                            && v.has(won) ==> (w.at(b.est_score) - w.at(a.est_score)) * max_real(
                            w.at(b.curr_strat),
                            1 as real / 1_000_000 as real,
                        ) == v.at(won)
                    }
                &&& forall|x: int, i: int|
                    #![trigger new[x].s2_options->0@[i]]
                    0 <= x < old.len() && old[x].s2_options is Some && 0 <= i
                        < old[x].s2_options->0@.len() ==> {
                        let a = old[x].s2_options->0@[i];
                        let b = new[x].s2_options->0@[i];
                        &&& b.move_choice == a.move_choice
                        &&& b.visits == a.visits || b.visits == a.visits + 1
                        &&& b.visits == a.visits ==> b.total_score == a.total_score && b.est_score
                            == a.est_score
                        &&& b.visits == a.visits + 1 ==> call_ensures(
                            <B::Score as Real>::plus,
                            (a.total_score, lost),
                            b.total_score,
                        )
                        &&& b.visits == a.visits + 1 ==> call_ensures(
                            <<B::Score as Single>::Wide as Real>::is_finite,
                            (b.est_score,),
                            true,
                        )
                        &&& b.visits == a.visits + 1 && w.has(a.est_score) && w.has(b.curr_strat)
                            && v.has(won) ==> (w.at(b.est_score) - w.at(a.est_score)) * max_real(
                            w.at(b.curr_strat),
                            1 as real / 1_000_000 as real,
                        ) == 1 as real - v.at(won)
                    }
            },
{
    law_course(v, w, old, s, root_eval, new, t, depth, added);
    let round = choose|round: Round<B>| #[trigger]
        took_course(v, w, old, s, root_eval, round, new, t, depth, added);
    let won = round.score;
    let (one, lost) = choose|one: B::Score, lost: B::Score|
        {
            &&& call_ensures(<B::Score as Real>::from_count, (1,), one)
            &&& #[trigger] call_ensures(<B::Score as Real>::minus, (one, won), lost)
            &&& settled(v, w, round.larger, round.leaf, won, lost, new)
        };
    assert(v.has(one) && v.at(one) == 1 as real);
    assert(v.has(won) ==> (v.of)(lost) == Some(1 as real - v.at(won)));
    assert forall|x: int, i: int|
        #![trigger new[x].s1_options->0@[i]]
        0 <= x < old.len() && old[x].s1_options is Some && 0 <= i
            < old[x].s1_options->0@.len() implies paid_or_kept(
        v,
        w,
        old[x].s1_options->0@[i],
        won,
        new[x].s1_options->0@[i],
    ) by {
        lemma_round_side(v, w, old, s, root_eval, round, new, t, depth, added, lost, x, true, i);
    }
    assert forall|x: int, i: int|
        #![trigger new[x].s2_options->0@[i]]
        0 <= x < old.len() && old[x].s2_options is Some && 0 <= i
            < old[x].s2_options->0@.len() implies paid_or_kept(
        v,
        w,
        old[x].s2_options->0@[i],
        lost,
        new[x].s2_options->0@[i],
    ) by {
        lemma_round_side(v, w, old, s, root_eval, round, new, t, depth, added, lost, x, false, i);
    }
    assert(call_ensures(<B::Score as Real>::minus, (one, won), lost));
}

/// What a round leaves of one move.
pub proof fn lemma_round_side<B: Battle>(
    v: Reading<B::Score>,
    w: Reading<<B::Score as Single>::Wide>,
    old: Seq<Node<B::Choice, B::Instruction, B::Score>>,
    s: B,
    root_eval: B::Score,
    round: Round<B>,
    new: Seq<Node<B::Choice, B::Instruction, B::Score>>,
    t: B,
    depth: u16,
    added: u32,
    lost: B::Score,
    x: int,
    one: bool,
    i: int,
)
    requires
        well_formed(old),
        took_course(v, w, old, s, root_eval, round, new, t, depth, added),
        settled(v, w, round.larger, round.leaf, round.score, lost, new),
        0 <= x < old.len(),
        old[x].options(one) is Some,
        0 <= i < old[x].options(one)->0@.len(),
    ensures
        paid_or_kept(
            v,
            w,
            old[x].options(one)->0@[i],
            if one {
                round.score
            } else {
                lost
            },
            new[x].options(one)->0@[i],
        ),
{
    let (path, states) = choose|path: Seq<int>, states: Seq<B>|
        {
            &&& #[trigger] walked(w, old, 0, s, round.walked, path, states)
            &&& path.last() == round.n
            &&& states.last() == round.reached
        };
    let (i1, i2) = (round.i1, round.i2);
    assert(old[x].s1_options is Some <==> old[x].s2_options is Some);
    lemma_walked_keeps(w, old, s, round.walked, i1, i2, round.reached, path, states, x);
    lemma_dealt_keeps(
        w,
        round.walked,
        round.n,
        i1,
        i2,
        round.reached,
        round.larger,
        round.leaf,
        added,
        round.scored,
        x,
    );
    lemma_settled_side(v, w, round.larger, round.leaf, round.score, lost, new, x);
    let amount = if one {
        round.score
    } else {
        lost
    };
    let mid = round.larger[x].options(one)->0@[i];
    assert(paid_or_kept(v, w, mid, amount, new[x].options(one)->0@[i]));
}

/// `new` holds the moves of `old` with their visits and scores.
pub open spec fn scores_kept<C, S: Single>(
    old: Option<Vec<MoveNode<C, S>>>,
    new: Option<Vec<MoveNode<C, S>>>,
) -> bool {
    old is Some ==> {
        &&& new is Some
        &&& new->0@.len() == old->0@.len()
        &&& forall|i: int|
            #![trigger new->0@[i]]
            0 <= i < old->0@.len() ==> {
                &&& new->0@[i].move_choice == old->0@[i].move_choice
                &&& new->0@[i].visits == old->0@[i].visits
                &&& new->0@[i].total_score == old->0@[i].total_score
                &&& new->0@[i].est_score == old->0@[i].est_score
            }
    }
}

proof fn lemma_drew_keeps<B: Battle>(
    w: Reading<<B::Score as Single>::Wide>,
    old: Node<B::Choice, B::Instruction, B::Score>,
    s: B,
    new: Node<B::Choice, B::Instruction, B::Score>,
    i1: usize,
    i2: usize,
)
    requires
        old.s1_options is Some,
        old.s2_options is Some,
        both_drew(w, old, s, new, i1, i2),
    ensures
        scores_kept(old.s1_options, new.s1_options),
        scores_kept(old.s2_options, new.s2_options),
{
    let (s1, s2) = choose|
        s1: Seq<MoveNode<B::Choice, B::Score>>,
        s2: Seq<MoveNode<B::Choice, B::Score>>,
    |
        {
            &&& #[trigger] offered(old, s, s1, s2)
            &&& drawn_by_exp3(w, s1, new.s1_options->0@, Ok(i1))
            &&& drawn_by_exp3(w, s2, new.s2_options->0@, Ok(i2))
        };
    assert(offered(old, s, s1, s2));
}

/// A walk changes no move in visits or score.
pub proof fn lemma_walked_keeps<B: Battle>(
    w: Reading<<B::Score as Single>::Wide>,
    old: Seq<Node<B::Choice, B::Instruction, B::Score>>,
    s: B,
    new: Seq<Node<B::Choice, B::Instruction, B::Score>>,
    i1: usize,
    i2: usize,
    t: B,
    path: Seq<int>,
    states: Seq<B>,
    x: int,
)
    requires
        0 <= x < old.len(),
        old[x].s1_options is Some,
        old[x].s2_options is Some,
        walked(w, old, 0, s, new, path, states),
        both_drew(w, old[path.last()], t, new[path.last()], i1, i2),
    ensures
        scores_kept(old[x].s1_options, new[x].s1_options),
        scores_kept(old[x].s2_options, new[x].s2_options),
{
    if x == path.last() {
        lemma_drew_keeps(w, old[x], t, new[x], i1, i2);
    } else if path.contains(x) {
        let k = choose|k: int| 0 <= k < path.len() && path[k] == x;
        assert(k < path.len() - 1);
        assert(stepped(w, old, path[k], states[k], new[path[k]], path[k + 1], states[k + 1]));
        let (a, b) = choose|a: usize, b: usize| #[trigger]
            both_drew(w, old[x], states[k], new[x], a, b);
        lemma_drew_keeps(w, old[x], states[k], new[x], a, b);
    } else {
        assert(new[x] == old[x]);
    }
}

/// Playing a turn changes no move.
pub proof fn lemma_dealt_keeps<B: Battle>(
    w: Reading<<B::Score as Single>::Wide>,
    old: Seq<Node<B::Choice, B::Instruction, B::Score>>,
    at: int,
    i1: usize,
    i2: usize,
    s: B,
    new: Seq<Node<B::Choice, B::Instruction, B::Score>>,
    n: int,
    added: u32,
    t: B,
    x: int,
)
    requires
        0 <= x < old.len(),
        dealt_with(w, old, at, i1, i2, s, new, n, added, t),
    ensures
        x < new.len(),
        new[x].s1_options == old[x].s1_options,
        new[x].s2_options == old[x].s2_options,
{
    if new != old {
        assert(turn_played(w, old, at, i1, i2, s, new, n, added, t));
        if x != at {
            assert(new[x] == old[x]);
        }
    }
}

/// At a node that is settled, each move is paid or kept.
proof fn lemma_settled_side<C, I, S: Single>(
    v: Reading<S>,
    w: Reading<S::Wide>,
    old: Seq<Node<C, I, S>>,
    leaf: int,
    won: S,
    lost: S,
    new: Seq<Node<C, I, S>>,
    x: int,
)
    requires
        settled(v, w, old, leaf, won, lost, new),
        0 <= x < old.len(),
    ensures
        old[x].s1_options is Some ==> new[x].s1_options is Some && forall|i: int|
            0 <= i < old[x].s1_options->0@.len() ==> paid_or_kept(
                v,
                w,
                old[x].s1_options->0@[i],
                won,
                #[trigger] new[x].s1_options->0@[i],
            ),
        old[x].s2_options is Some ==> new[x].s2_options is Some && forall|i: int|
            0 <= i < old[x].s2_options->0@.len() ==> paid_or_kept(
                v,
                w,
                old[x].s2_options->0@[i],
                lost,
                #[trigger] new[x].s2_options->0@[i],
            ),
{
    reveal(settled);
    if x != leaf && visited_again(old, new, x) {
        let c = choose|c: int|
            x < c && old[c].parent is Some && old[c].parent->0 == x && #[trigger] visited_again(
                old,
                new,
                c,
            );
        assert(visited_again(old, new, c));
        assert(side_paid(v, w, old[x].s1_options, old[c].s1_choice, won, new[x].s1_options));
        assert(side_paid(v, w, old[x].s2_options, old[c].s2_choice, lost, new[x].s2_options));
    } else if x != leaf {
        assert(new[x] == old[x]);
    }
}

/// `new` is the node at `x` after a draw there gave nothing, in state `s`: the draw of side one, or
/// that of side two, or that of an outcome of the turn that both drew.
pub open spec fn no_draw<B: Battle>(
    w: Reading<<B::Score as Single>::Wide>,
    nodes: Seq<Node<B::Choice, B::Instruction, B::Score>>,
    x: int,
    s: B,
    new: Node<B::Choice, B::Instruction, B::Score>,
    e: WeightError,
) -> bool {
    ||| moves_aside(nodes[x], new) && exists|
        s1: Seq<MoveNode<B::Choice, B::Score>>,
        s2: Seq<MoveNode<B::Choice, B::Score>>,
    |
        {
            &&& #[trigger] offered(nodes[x], s, s1, s2)
            &&& {
                ||| drawn_by_exp3(w, s1, new.s1_options->0@, Err(e)) && new.s2_options->0@ == s2
                ||| exists|i1: usize| #[trigger]
                    drawn_by_exp3(w, s1, new.s1_options->0@, Ok(i1)) && drawn_by_exp3(
                        w,
                        s2,
                        new.s2_options->0@,
                        Err(e),
                    )
            }
        }
    ||| exists|i1: usize, i2: usize|
        {
            let bucket = nodes[x].bucket(i1, i2)->0;
            &&& #[trigger] both_drew(w, nodes[x], s, new, i1, i2)
            &&& nodes[x].bucket(i1, i2) is Some
            &&& fairly_sampled(
                w,
                Seq::new(
                    bucket.count as nat,
                    |k: int| nodes[bucket.first + k].instructions.percentage,
                ),
                Err(e),
            )
        }
}

/// Where a walk gets stuck, a draw gave nothing.
pub proof fn law_stuck<B: Battle>(
    w: Reading<<B::Score as Single>::Wide>,
    nodes: Seq<Node<B::Choice, B::Instruction, B::Score>>,
    x: int,
    s: B,
    new: Node<B::Choice, B::Instruction, B::Score>,
    e: WeightError,
)
    requires
        w.exact(),
        well_formed(nodes),
        0 <= x < nodes.len(),
        stuck(nodes, x, s, new, e),
    ensures
        no_draw(w, nodes, x, s, new, e),
{
    let old = nodes[x];
    assert(old.s1_options is Some <==> old.s2_options is Some);
    if turn_stuck(old, s, new, e) {
        let (s1, s2) = choose|
            s1: Seq<MoveNode<B::Choice, B::Score>>,
            s2: Seq<MoveNode<B::Choice, B::Score>>,
        |
            {
                &&& #[trigger] listed(old, s, s1, s2)
                &&& {
                    ||| exp3_drawn(s1, new.s1_options->0@, Err(e)) && new.s2_options->0@ == s2
                    ||| exists|i1: usize| #[trigger]
                        exp3_drawn(s1, new.s1_options->0@, Ok(i1)) && exp3_drawn(
                            s2,
                            new.s2_options->0@,
                            Err(e),
                        )
                }
            };
        lemma_offered(old, s, s1, s2);
        assert(new.s1_options->0.len() <= usize::MAX);
        assert(new.s2_options->0.len() <= usize::MAX);
        if exp3_drawn(s1, new.s1_options->0@, Err(e)) && new.s2_options->0@ == s2 {
            law_move_drawn(w, s1, new.s1_options->0@, Err(e));
        } else {
            let i1 = choose|i1: usize| #[trigger]
                exp3_drawn(s1, new.s1_options->0@, Ok(i1)) && exp3_drawn(
                    s2,
                    new.s2_options->0@,
                    Err(e),
                );
            law_move_drawn(w, s1, new.s1_options->0@, Ok(i1));
            law_move_drawn(w, s2, new.s2_options->0@, Err(e));
            assert(drawn_by_exp3(w, s1, new.s1_options->0@, Ok(i1)));
        }
        assert(offered(old, s, s1, s2));
    } else {
        let (i1, i2) = choose|i1: usize, i2: usize|
            {
                &&& #[trigger] turn_drawn(old, s, new, i1, i2)
                &&& old.bucket(i1, i2) is Some
                &&& outcome_drawn(percentages(nodes, old.bucket(i1, i2)->0), Err(e))
            };
        let bucket = old.bucket(i1, i2)->0;
        law_turn_drawn(w, old, s, new, i1, i2);
        law_outcome_drawn(w, percentages(nodes, bucket), Err(e));
        assert(percentages(nodes, bucket) =~= Seq::new(
            bucket.count as nat,
            |k: int| nodes[bucket.first + k].instructions.percentage,
        ));
        assert(both_drew(w, old, s, new, i1, i2));
    }
}

/// A turn cannot be played only where it is to be played, and none of the outcomes that the engine
/// names for it can be drawn.
pub proof fn law_unplayable<B: Battle>(
    w: Reading<<B::Score as Single>::Wide>,
    nodes: Seq<Node<B::Choice, B::Instruction, B::Score>>,
    at: int,
    i1: usize,
    i2: usize,
    s: B,
    e: SearchError,
)
    requires
        w.exact(),
        well_formed(nodes),
        0 <= at < nodes.len(),
        unplayable(nodes, at, i1, i2, s, e),
    ensures
        !both_idle(nodes[at], i1, i2),
        e is Weights,
        exists|m: B, outcomes: Vec<StateInstructions<B::Instruction, B::Score>>|
            {
                &&& #[trigger] outcomes_named(nodes[at], i1, i2, s, m, outcomes)
                &&& fairly_sampled(
                    w,
                    Seq::new(outcomes@.len(), |k: int| outcomes@[k].percentage),
                    Err(e->Weights_0),
                )
            },
{
    let (over, m, outcomes) = choose|
        over: bool,
        m: B,
        outcomes: Vec<StateInstructions<B::Instruction, B::Score>>,
    |
        {
            &&& #[trigger] ended(s, over)
            &&& !nothing_to_play(nodes[at], over, i1, i2)
            &&& #[trigger] generated(nodes, at, i1, i2, s, m, outcomes)
            &&& e is Weights
            &&& outcome_drawn(outcome_percentages(outcomes@), Err(e->Weights_0))
        };
    law_branches_on_two_levels(nodes, at);
    let list = Seq::new(outcomes@.len(), |k: int| outcomes@[k].percentage);
    assert(list =~= outcome_percentages(outcomes@));
    law_outcome_drawn(w, list, Err(e->Weights_0));
    assert(outcomes_named(nodes[at], i1, i2, s, m, outcomes));
}

/// `new` are the moves `old` of a side after a visit of the given one that paid it `amount`, and
/// after which its estimated score is a finite number, or is not.
pub open spec fn side_paid_with<C, S: Single>(
    v: Reading<S>,
    w: Reading<S::Wide>,
    old: Option<Vec<MoveNode<C, S>>>,
    choice: u8,
    amount: S,
    new: Option<Vec<MoveNode<C, S>>>,
    finite: bool,
) -> bool {
    &&& old is Some
    &&& new is Some
    &&& new->0@.len() == old->0@.len()
    &&& choice < old->0@.len()
    &&& paid(v, w, old->0@[choice as int], amount, new->0@[choice as int])
    &&& call_ensures(
        <S::Wide as Real>::is_finite,
        (new->0@[choice as int].est_score,),
        finite,
    )
    &&& forall|i: int|
        0 <= i < old->0@.len() && i != choice ==> #[trigger] new->0@[i] == old->0@[i]
}

/// `new` are the nodes `old` after the settlement for the node at `leaf` broke off at the node at
/// `p`, whose child at `c` was settled last. The move of the given side there has an estimated
/// score that is no finite number; side one was seen to first. Above `p` nothing has changed.
pub open spec fn unsettled<C, I, S: Single>(
    v: Reading<S>,
    w: Reading<S::Wide>,
    old: Seq<Node<C, I, S>>,
    leaf: int,
    won: S,
    lost: S,
    side: Side,
    p: int,
    c: int,
    new: Seq<Node<C, I, S>>,
) -> bool {
    &&& new.len() == old.len()
    &&& 0 <= p < c < old.len()
    &&& old[c].parent == Some(p as usize)
    &&& visited_again(old, new, leaf)
    &&& visited_again(old, new, c)
    &&& new[p].times_visited == old[p].times_visited
    &&& forall|x: int| 0 <= x < old.len() ==> stays_put(old[x], #[trigger] new[x])
    &&& forall|x: int| 0 <= x < p ==> #[trigger] new[x] == old[x]
    &&& side_paid_with(
        v,
        w,
        old[p].s1_options,
        old[c].s1_choice,
        won,
        new[p].s1_options,
        side == Side::Two,
    )
    &&& match side {
        Side::One => new[p].s2_options == old[p].s2_options,
        Side::Two => side_paid_with(
            v,
            w,
            old[p].s2_options,
            old[c].s2_choice,
            lost,
            new[p].s2_options,
            false,
        ),
    }
}

/// Where scoring a node breaks off, a move was paid and then had no finite estimated score.
pub proof fn law_broke_off<C, I, S: Single>(
    v: Reading<S>,
    w: Reading<S::Wide>,
    old: Seq<Node<C, I, S>>,
    leaf: int,
    score: S,
    side: Side,
    new: Seq<Node<C, I, S>>,
)
    requires
        w.exact(),
        linked_readings(v, w),
        well_formed(old),
        0 <= leaf < old.len(),
        broke_off(old, leaf, score, side, new),
    ensures
        exists|one: S, lost: S, p: int, c: int|
            {
                &&& call_ensures(S::from_count, (1,), one)
                &&& #[trigger] call_ensures(S::minus, (one, score), lost)
                &&& #[trigger] unsettled(v, w, old, leaf, score, lost, side, p, c, new)
            },
{
    let (p, lost) = choose|p: int, lost: S| #[trigger]
        broke_off_at(old, leaf, score, lost, side, p, new);
    let one = lemma_lost(score, lost);
    lemma_parents_before(old);
    lemma_toward(old, leaf, p);
    let c = toward(old, leaf, p);
    let (i1, i2) = (old[c].s1_choice, old[c].s2_choice);
    assert(on_path(old, leaf, leaf));
    assert(node_credited(old, leaf, score, lost, c, new[c]));
    assert(node_credited(old, leaf, score, lost, leaf, new[leaf]));
    assert forall|x: int| 0 <= x < old.len() implies stays_put(old[x], #[trigger] new[x]) by {
        if x > p {
            assert(node_credited(old, leaf, score, lost, x, new[x]));
        }
    }
    assert(old[c].parent is Some);
    lemma_paid(
        v,
        w,
        old[p].s1_options->0@[i1 as int],
        score,
        new[p].s1_options->0@[i1 as int],
    );
    if side == Side::Two {
        lemma_paid(
            v,
            w,
            old[p].s2_options->0@[i2 as int],
            lost,
            new[p].s2_options->0@[i2 as int],
        );
    }
    assert(unsettled(v, w, old, leaf, score, lost, side, p, c, new));
    assert(call_ensures(S::minus, (one, score), lost));
}

/// The sum of whole numbers.
pub open spec fn sum_int(xs: Seq<int>) -> int
    decreases xs.len(),
{
    if xs.len() == 0 {
        0
    } else {
        sum_int(xs.drop_last()) + xs.last()
    }
}

/// The rounds of a search, one after the other, all compared with the same evaluation of the root.
/// `trees` and `states` are those before the rounds and after the last; `depths` and `added` are
/// what the rounds said of themselves.
pub open spec fn chronicle<B: Battle>(
    root_eval: B::Score,
    trees: Seq<Seq<Node<B::Choice, B::Instruction, B::Score>>>,
    states: Seq<B>,
    depths: Seq<int>,
    added: Seq<int>,
) -> bool {
    &&& trees.len() == depths.len() + 1
    &&& states.len() == trees.len()
    &&& added.len() == depths.len()
    &&& forall|k: int| 0 <= k < depths.len() ==> 0 <= #[trigger] depths[k] <= u16::MAX
    &&& forall|k: int| 0 <= k < added.len() ==> 0 <= #[trigger] added[k] <= u32::MAX
    &&& forall|k: int|
        #![trigger trees[k]]
        0 <= k < depths.len() ==> iterated(
            trees[k],
            states[k],
            root_eval,
            trees[k + 1],
            states[k + 1],
            depths[k] as u16,
            added[k] as u32,
        )
}

/// The figures on a search are those of its rounds: the nodes that they added and the depths that
/// they reached, added up, and the largest of those depths.
pub open spec fn sums_up(stats: SearchStats, depths: Seq<int>, added: Seq<int>) -> bool {
    &&& stats.nodes_expanded == sum_int(added)
    &&& stats.total_depth == sum_int(depths)
    &&& forall|k: int| 0 <= k < depths.len() ==> #[trigger] depths[k] <= stats.max_depth
    &&& depths.len() == 0 ==> stats.max_depth == 0
    &&& depths.len() > 0 ==> depths.contains(stats.max_depth as int)
}

/// A search is its rounds, one after the other, and its figures are theirs.
pub proof fn law_search_chronicle<B: Battle>(
    first: Seq<Node<B::Choice, B::Instruction, B::Score>>,
    s: B,
    root_eval: B::Score,
    k: nat,
    nodes: Seq<Node<B::Choice, B::Instruction, B::Score>>,
    t: B,
    stats: SearchStats,
) -> (r: (
    Seq<Seq<Node<B::Choice, B::Instruction, B::Score>>>,
    Seq<B>,
    Seq<int>,
    Seq<int>,
))
    requires
        well_formed(first),
        first[0].times_visited == 0,
        first[0].s1_options is Some,
        k <= u32::MAX,
        searched(first, s, root_eval, k, nodes, t, stats),
    ensures
        chronicle(root_eval, r.0, r.1, r.2, r.3),
        sums_up(stats, r.2, r.3),
        r.2.len() == k,
        r.0[0] == first,
        r.1[0] == s,
        r.0.last() == nodes,
        r.1.last() == t,
    decreases k,
{
    if k == 0 {
        (seq![first], seq![s], Seq::empty(), Seq::empty())
    } else {
        let (before, m, sofar, depth, more) = lemma_last_round(
            first,
            s,
            root_eval,
            k,
            nodes,
            t,
            stats,
        );
        let (trees, states, depths, added) = law_search_chronicle(
            first,
            s,
            root_eval,
            (k - 1) as nat,
            before,
            m,
            sofar,
        );
        lemma_one_more(first, s, root_eval, (k - 1) as nat, before, m, sofar, depth, more);
        let trees2 = trees.push(nodes);
        let states2 = states.push(t);
        let depths2 = depths.push(depth as int);
        let added2 = added.push(more as int);
        assert forall|j: int| #![trigger trees2[j]] 0 <= j < depths2.len() implies iterated(
            trees2[j],
            states2[j],
            root_eval,
            trees2[j + 1],
            states2[j + 1],
            depths2[j] as u16,
            added2[j] as u32,
        ) by {
            if j < depths.len() {
                assert(trees2[j] == trees[j]);
                assert(trees2[j + 1] == trees[j + 1]);
            }
        }
        assert(depths2.drop_last() =~= depths);
        assert(added2.drop_last() =~= added);
        assert(depths2.contains(stats.max_depth as int)) by {
            if depth > sofar.max_depth || k == 1 {
                assert(depths2[depths.len() as int] == stats.max_depth);
            } else {
                let j = choose|j: int| 0 <= j < depths.len() && depths[j] == sofar.max_depth;
                assert(depths2[j] == stats.max_depth);
            }
        }
        (trees2, states2, depths2, added2)
    }
}

/// One more round does not make the figures overflow.
proof fn lemma_one_more<B: Battle>(
    first: Seq<Node<B::Choice, B::Instruction, B::Score>>,
    s: B,
    root_eval: B::Score,
    k: nat,
    nodes: Seq<Node<B::Choice, B::Instruction, B::Score>>,
    t: B,
    stats: SearchStats,
    depth: u16,
    more: u32,
)
    requires
        well_formed(first),
        first[0].times_visited == 0,
        first[0].s1_options is Some,
        k < u32::MAX,
        searched(first, s, root_eval, k, nodes, t, stats),
    ensures
        stats.nodes_expanded + more <= u64::MAX,
        stats.total_depth + depth <= u64::MAX,
{
    law_searched(first, s, root_eval, k, nodes, t, stats);
    let deepest = stats.max_depth;
    assert(k * u32::MAX + u32::MAX <= u64::MAX) by (nonlinear_arith)
        requires
            k < u32::MAX,
    ;
    assert(k * deepest + u16::MAX <= u64::MAX) by (nonlinear_arith)
        requires
            k < u32::MAX,
            deepest <= u16::MAX,
    ;
}

/// `nodes` are a root alone, with the given moves of side one and of side two, of which nothing has
/// been learned.
pub open spec fn bare_root<C, I, S: Single>(
    nodes: Seq<Node<C, I, S>>,
    s1_options: Seq<MoveChoice<C>>,
    s2_options: Seq<MoveChoice<C>>,
) -> bool {
    &&& nodes.len() == 1
    &&& nodes[0].root
    &&& nodes[0].parent is None
    &&& nodes[0].children@ == Map::<u128, Bucket>::empty()
    &&& nodes[0].times_visited == 0
    &&& nodes[0].depth == 0
    &&& nodes[0].s1_options is Some
    &&& nodes[0].s2_options is Some
    &&& unexplored(s1_options, nodes[0].s1_options->0@)
    &&& unexplored(s2_options, nodes[0].s2_options->0@)
}

/// A new tree is a root alone, with the moves of each side on its own side.
pub proof fn law_new_tree<C, I, S: Single>(
    s1_options: Vec<MoveChoice<C>>,
    s2_options: Vec<MoveChoice<C>>,
    r: Tree<C, I, S>,
)
    requires
        call_ensures(Tree::<C, I, S>::new, (s1_options, s2_options), r),
    ensures
        bare_root(r.nodes@, s1_options@, s2_options@),
{
    lemma_unexplored(s1_options@, r.nodes@[0].s1_options->0@);
    lemma_unexplored(s2_options@, r.nodes@[0].s2_options->0@);
}

/// Every move at the root has a sum of probabilities that stands for a real number.
pub open spec fn sums_readable<C, I, S: Single>(w: Reading<S::Wide>, root: Node<C, I, S>) -> bool {
    &&& forall|i: int|
        0 <= i < root.s1_options->0@.len() ==> w.has(
            (#[trigger] root.s1_options->0@[i]).cum_strat,
        )
    &&& forall|i: int|
        0 <= i < root.s2_options->0@.len() ==> w.has(
            (#[trigger] root.s2_options->0@[i]).cum_strat,
        )
}

/// `results` are the given moves, in their order, with the visits and scores that they have.
pub open spec fn reported_as_is<C, S: Single>(
    options: Seq<MoveNode<C, S>>,
    results: Seq<MctsSideResult<C, S>>,
) -> bool {
    &&& results.len() == options.len()
    &&& forall|i: int|
        #![trigger results[i]]
        0 <= i < results.len() ==> {
            &&& results[i].move_choice == options[i].move_choice
            &&& results[i].visits == options[i].visits
            &&& results[i].total_score == options[i].total_score
        }
}

/// A search from state `s` with the given moves: it starts at a bare root, compares everything with
/// the engine's evaluation of `s`, plays its rounds one after the other, and reports each side from
/// its own moves at the root, with as many rounds as there were.
pub open spec fn reported_after<B: Battle>(
    v: Reading<B::Score>,
    w: Reading<<B::Score as Single>::Wide>,
    s: B,
    s1_options: Seq<MoveChoice<B::Choice>>,
    s2_options: Seq<MoveChoice<B::Choice>>,
    root_eval: B::Score,
    trees: Seq<Seq<Node<B::Choice, B::Instruction, B::Score>>>,
    states: Seq<B>,
    depths: Seq<int>,
    added: Seq<int>,
    t: B,
    r: MctsResult<B::Choice, B::Score>,
    stats: SearchStats,
) -> bool {
    let root = trees.last()[0];
    &&& chronicle(root_eval, trees, states, depths, added)
    &&& bare_root(trees[0], s1_options, s2_options)
    &&& states[0] == s
    &&& states.last() == t
    &&& call_ensures(B::evaluate, (&s,), root_eval)
    &&& r.iteration_count == depths.len()
    &&& sums_up(stats, depths, added)
    &&& root.s1_options is Some
    &&& root.s2_options is Some
    &&& reported_as_is(root.s1_options->0@, r.s1@)
    &&& reported_as_is(root.s2_options->0@, r.s2@)
    &&& sums_readable(w, root) ==> fairly_reported(v, w, root.s1_options->0@, r.s1@)
        && fairly_reported(v, w, root.s2_options->0@, r.s2@)
}

/// What a search that comes to an end has done.
pub proof fn law_search_reported<B: Battle, F: Fn(u32) -> bool>(
    v: Reading<B::Score>,
    w: Reading<<B::Score as Single>::Wide>,
    s: B,
    o1: Vec<MoveChoice<B::Choice>>,
    o2: Vec<MoveChoice<B::Choice>>,
    within_time: F,
    t: B,
    result: MctsResult<B::Choice, B::Score>,
    stats: SearchStats,
)
    requires
        v.exact(),
        w.exact(),
        linked_readings(v, w),
        call_ensures(
            perform_mcts_exp3::<B, F>,
            (s, o1, o2, within_time),
            Ok((t, result, stats)),
        ),
    ensures
        exists|
            root_eval: B::Score,
            trees: Seq<Seq<Node<B::Choice, B::Instruction, B::Score>>>,
            states: Seq<B>,
            depths: Seq<int>,
            added: Seq<int>,
        | #[trigger]
            reported_after(
                v,
                w,
                s,
                o1@,
                o2@,
                root_eval,
                trees,
                states,
                depths,
                added,
                t,
                result,
                stats,
            ),
{
    let (first, root_eval, nodes) = choose|
        first: Seq<Node<B::Choice, B::Instruction, B::Score>>,
        root_eval: B::Score,
        nodes: Seq<Node<B::Choice, B::Instruction, B::Score>>,
    |
        {
            &&& is_fresh(first, o1@, o2@)
            &&& well_formed(first)
            &&& call_ensures(B::evaluate, (&s,), root_eval)
            &&& #[trigger] searched(
                first,
                s,
                root_eval,
                result.iteration_count as nat,
                nodes,
                t,
                stats,
            )
            &&& reports_on(nodes[0], result)
        };
    let k = result.iteration_count as nat;
    let (trees, states, depths, added) = law_search_chronicle(
        first,
        s,
        root_eval,
        k,
        nodes,
        t,
        stats,
    );
    lemma_unexplored(o1@, first[0].s1_options->0@);
    lemma_unexplored(o2@, first[0].s2_options->0@);
    law_searched(first, s, root_eval, k, nodes, t, stats);
    let root = nodes[0];
    assert(root.s1_options->0.len() <= usize::MAX);
    assert(root.s2_options->0.len() <= usize::MAX);
    if sums_readable(w, root) {
        lemma_fairly_reported(v, w, root.s1_options->0@, result.s1@);
        lemma_fairly_reported(v, w, root.s2_options->0@, result.s2@);
    }
    assert(reported_after(
        v,
        w,
        s,
        o1@,
        o2@,
        root_eval,
        trees,
        states,
        depths,
        added,
        t,
        result,
        stats,
    ));
}

/// The number of rounds that is reported follows the clock: where there is time for `batches`
/// batches of a thousand rounds and no more, it is their number, and at most ten million.
pub proof fn law_rounds_by_clock<B: Battle, F: Fn(u32) -> bool>(
    s: B,
    o1: Vec<MoveChoice<B::Choice>>,
    o2: Vec<MoveChoice<B::Choice>>,
    within_time: F,
    t: B,
    result: MctsResult<B::Choice, B::Score>,
    stats: SearchStats,
    batches: nat,
)
    requires
        call_ensures(
            perform_mcts_exp3::<B, F>,
            (s, o1, o2, within_time),
            Ok((t, result, stats)),
        ),
        forall|n: u32, answer: bool|
            n % 1000 == 0 && #[trigger] within_time.ensures((n,), answer) ==> answer == (n < 1000
                * batches),
    ensures
        result.iteration_count == if 1000 * batches <= 10_000_000 {
            1000 * batches
        } else {
            10_000_000
        },
{
    law_ends_by_clock(within_time, result.iteration_count, batches);
}

/// A search fails only in a round that the clock left time for: after `k` rounds, fewer than ten
/// million, and with time before every batch of a thousand begun by then.
pub proof fn law_failure_in_time<B: Battle, F: Fn(u32) -> bool>(
    s: B,
    o1: Vec<MoveChoice<B::Choice>>,
    o2: Vec<MoveChoice<B::Choice>>,
    within_time: F,
    e: SearchError,
)
    requires
        call_ensures(perform_mcts_exp3::<B, F>, (s, o1, o2, within_time), Err(e)),
    ensures
        exists|k: int|
            {
                &&& 0 <= k < 10_000_000
                &&& #[trigger] clock_allowed(within_time, k)
            },
{
    let k = choose|k: nat|
        {
            &&& #[trigger] failed(s, o1@, o2@, k, e)
            &&& k < crate::search::MAX_ITERATIONS
            &&& in_time(within_time, k as int + 1)
        };
    assert(clock_allowed(within_time, k as int));
}

/// There was time at every thousandth round up to the one after `k` rounds.
pub open spec fn clock_allowed<F: Fn(u32) -> bool>(within_time: F, k: int) -> bool {
    forall|n: u32| n <= k && n % 1000 == 0 ==> #[trigger] within_time.ensures((n,), true)
}

} // verus!
