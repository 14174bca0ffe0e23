//! What the search promises, in terms of the calls it makes and the numbers that come of them.

use crate::arm::MoveNode;
use crate::average::{average_strategy, total_visits, visit_sum};
use crate::backpropagate::{broke_off, Side};
use crate::battle::{Battle, MoveChoice, StateInstructions};
use crate::conduct::{
    both_drew, both_idle, fairly_sampled, law_expand, law_walk, offered, outcome_child,
    outcomes_named, settled, side_paid, stays_put, stepped, turn_played, unexplored, visited_again,
    walked,
};
use crate::course::{
    law_broke_off, law_course, law_new_tree, law_search_reported, lemma_course, lemma_dealt_keeps,
    lemma_round_side, lemma_walked_keeps, reported_after, sum_int, sums_readable, taken_back,
    took_course, unsettled,
};
use crate::exact::{linked_readings, readings, sum_real, Reading};
use crate::exp3::exp3_drawn;
use crate::expand::expanded;
use crate::iteration::{is_round, iterated, Round};
use crate::laws::{lemma_expanded, lemma_selected, same_moves};
use crate::node::{Bucket, Node};
use crate::number::{evaluates, Expr, Real, Single};
use crate::payoffs::{
    cum_strats, curr_strats, drawn_by_exp3, drawn_from, fair_score, fairly_drawn, fairly_reported,
    goes_on, in_range, law_average_strategy, law_draw, law_exp3_strategy, law_move_drawn,
    law_report, law_report_blind_to_side, law_rollout, lemma_all_zero, lemma_visit_counts,
    readable, surplus, visit_counts,
};
use crate::report::{side_results, MctsResult, MctsSideResult};
use crate::search::{perform_mcts_exp3, SearchStats};
use crate::selection::{relisted, selected};
use crate::tree::{linked, well_formed, Tree};
use crate::weighted::{draw, draw_by_share, share_weights, weight_sum, WeightError};
use vstd::prelude::*;

verus! {

/// A battle that goes on scores below one half where the engine evaluates it below the root, above
/// one half where above, and never outside of zero and one.
pub proof fn law_rollout_beside_root<
    C,
    I,
    S: Single,
    B: Battle<Choice = C, Instruction = I, Score = S>,
>(v: Reading<S>, s: B, root_eval: S, r: S)
    requires
        v.exact(),
        readable(v, s),
        goes_on(v, s),
        v.has(root_eval),
        in_range(v, s, root_eval),
        call_ensures(Node::<C, I, S>::rollout::<B>, (&s, root_eval), r),
    ensures
        v.has(r),
        v.at(r) > 0 as real,
        v.at(r) < 1 as real,
        (forall|x: S| #[trigger]
            call_ensures(B::evaluate, (&s,), x) ==> v.at(x) < v.at(root_eval)) ==> v.at(r)
            < 1 as real / 2 as real,
        (forall|x: S| #[trigger]
            call_ensures(B::evaluate, (&s,), x) ==> v.at(x) == v.at(root_eval)) ==> v.at(r)
            == 1 as real / 2 as real,
        (forall|x: S| #[trigger]
            call_ensures(B::evaluate, (&s,), x) ==> v.at(x) > v.at(root_eval)) ==> v.at(r)
            > 1 as real / 2 as real,
{
    law_rollout::<C, I, S, B>(v, s, root_eval, r);
}

/// A battle that side two has won, for which the engine answers minus one, scores zero. One that
/// has ended otherwise scores what the engine answers: one where side one has won.
pub proof fn law_rollout_of_the_end<
    C,
    I,
    S: Single,
    B: Battle<Choice = C, Instruction = I, Score = S>,
>(v: Reading<S>, s: B, root_eval: S, r: S, result: real)
    requires
        v.exact(),
        readable(v, s),
        v.has(root_eval),
        in_range(v, s, root_eval),
        call_ensures(Node::<C, I, S>::rollout::<B>, (&s, root_eval), r),
        result != 0 as real,
        forall|x: S| #[trigger] call_ensures(B::battle_is_over, (&s,), x) ==> v.at(x) == result,
    ensures
        v.has(r),
        result == -(1 as real) ==> v.at(r) == 0 as real,
        result != -(1 as real) ==> v.at(r) == result,
{
    law_rollout::<C, I, S, B>(v, s, root_eval, r);
}

/// Where each state that the engine can be in is a win of side one, a round pays the moves of side
/// one the whole point; where each is a win of side two, it pays them nothing.
pub proof fn law_round_pays_the_winner<B: Battle>(
    v: Reading<B::Score>,
    w: Reading<<B::Score as Single>::Wide>,
    old: Seq<Node<B::Choice, B::Instruction, B::Score>>,
    s: B,
    root_eval: B::Score,
    new: Seq<Node<B::Choice, B::Instruction, B::Score>>,
    t: B,
    depth: u16,
    added: u32,
    result: real,
    x: int,
    i: int,
)
    requires
        v.exact(),
        w.exact(),
        linked_readings(v, w),
        well_formed(old),
        new.len() <= usize::MAX,
        iterated(old, s, root_eval, new, t, depth, added),
        v.has(root_eval),
        result == 1 as real || result == -(1 as real),
        forall|u: B| #[trigger] readable(v, u),
        forall|u: B| #[trigger] in_range(v, u, root_eval),
        forall|u: B, y: B::Score| #[trigger]
            call_ensures(B::battle_is_over, (&u,), y) ==> v.at(y) == result,
        0 <= x < old.len(),
        old[x].s1_options is Some,
        0 <= i < old[x].s1_options->0@.len(),
        v.has(old[x].s1_options->0@[i].total_score),
    ensures
        new[x].s1_options is Some,
        new[x].s1_options->0@[i].visits == old[x].s1_options->0@[i].visits + 1 ==> v.at(
            new[x].s1_options->0@[i].total_score,
        ) == v.at(old[x].s1_options->0@[i].total_score) + if result == 1 as real {
            1 as real
        } else {
            0 as real
        },
{
    law_course(v, w, old, s, root_eval, new, t, depth, added);
    let round = choose|round: Round<B>| #[trigger]
        took_course(v, w, old, s, root_eval, round, new, t, depth, added);
    assert(readable(v, round.scored));
    assert(in_range(v, round.scored, root_eval));
    let (one, lost) = choose|one: B::Score, lost: B::Score|
        {
            &&& call_ensures(<B::Score as Real>::from_count, (1,), one)
            &&& #[trigger] call_ensures(<B::Score as Real>::minus, (one, round.score), lost)
            &&& settled(v, w, round.larger, round.leaf, round.score, lost, new)
        };
    lemma_round_side(v, w, old, s, root_eval, round, new, t, depth, added, lost, x, true, i);
    lemma_keeps_known(v, w, old, s, root_eval, round, new, t, depth, added, lost, x);
}

/// What is known at a node before a round is known there after it.
proof fn lemma_keeps_known<B: Battle>(
    v: Reading<B::Score>,
    w: Reading<<B::Score as Single>::Wide>,
    old: Seq<Node<B::Choice, B::Instruction, B::Score>>,
    s: B,
    root_eval: B::Score,
    round: Round<B>,
    new: Seq<Node<B::Choice, B::Instruction, B::Score>>,
    t: B,
    depth: u16,
    added: u32,
    lost: B::Score,
    x: int,
)
    requires
        well_formed(old),
        took_course(v, w, old, s, root_eval, round, new, t, depth, added),
        settled(v, w, round.larger, round.leaf, round.score, lost, new),
        0 <= x < old.len(),
        old[x].s1_options is Some,
    ensures
        new[x].s1_options is Some,
{
    let (path, states) = choose|path: Seq<int>, states: Seq<B>|
        {
            &&& #[trigger] walked(w, old, 0, s, round.walked, path, states)
            &&& path.last() == round.n
            &&& states.last() == round.reached
        };
    let (i1, i2) = (round.i1, round.i2);
    assert(old[x].s1_options is Some <==> old[x].s2_options is Some);
    lemma_walked_keeps(w, old, s, round.walked, i1, i2, round.reached, path, states, x);
    lemma_dealt_keeps(
        w,
        round.walked,
        round.n,
        i1,
        i2,
        round.reached,
        round.larger,
        round.leaf,
        added,
        round.scored,
        x,
    );
    lemma_settled_choices(v, w, round.larger, round.leaf, round.score, lost, new, x);
}

/// A settlement changes no move but in visits and scores.
proof fn lemma_settled_choices<C, I, S: Single>(
    v: Reading<S>,
    w: Reading<S::Wide>,
    old: Seq<Node<C, I, S>>,
    leaf: int,
    won: S,
    lost: S,
    new: Seq<Node<C, I, S>>,
    x: int,
)
    requires
        settled(v, w, old, leaf, won, lost, new),
        0 <= x < old.len(),
    ensures
        new[x].s1_options is Some <==> old[x].s1_options is Some,
        new[x].s2_options is Some <==> old[x].s2_options is Some,
        same_moves(old[x].s1_options, new[x].s1_options),
        same_moves(old[x].s2_options, new[x].s2_options),
{
    reveal(settled);
    if x != leaf && visited_again(old, new, x) {
        let c = choose|c: int|
            x < c && old[c].parent is Some && old[c].parent->0 == x && #[trigger] visited_again(
                old,
                new,
                c,
            );
        assert(visited_again(old, new, c));
        assert(side_paid(v, w, old[x].s1_options, old[c].s1_choice, won, new[x].s1_options));
        assert(side_paid(v, w, old[x].s2_options, old[c].s2_choice, lost, new[x].s2_options));
    } else if x != leaf {
        assert(new[x] == old[x]);
    }
}

/// A node whose moves become known in a round gets them from the engine, in some state: side one
/// those named first, side two those named second, each in the order in which they are named.
pub proof fn law_round_lists<B: Battle>(
    v: Reading<B::Score>,
    w: Reading<<B::Score as Single>::Wide>,
    old: Seq<Node<B::Choice, B::Instruction, B::Score>>,
    s: B,
    root_eval: B::Score,
    new: Seq<Node<B::Choice, B::Instruction, B::Score>>,
    t: B,
    depth: u16,
    added: u32,
    x: int,
)
    requires
        v.exact(),
        w.exact(),
        linked_readings(v, w),
        well_formed(old),
        new.len() <= usize::MAX,
        iterated(old, s, root_eval, new, t, depth, added),
        0 <= x < old.len(),
        old[x].s1_options is None,
        new[x].s1_options is Some,
    ensures
        new[x].s2_options is Some,
        exists|u: B, c1: Vec<MoveChoice<B::Choice>>, c2: Vec<MoveChoice<B::Choice>>|
            {
                &&& #[trigger] call_ensures(B::get_all_options, (&u,), (c1, c2))
                &&& new[x].s1_options->0@.len() == c1@.len()
                &&& new[x].s2_options->0@.len() == c2@.len()
                &&& forall|i: int|
                    0 <= i < c1@.len() ==> (#[trigger] new[x].s1_options->0@[i]).move_choice
                        == c1@[i]
                &&& forall|i: int|
                    0 <= i < c2@.len() ==> (#[trigger] new[x].s2_options->0@[i]).move_choice
                        == c2@[i]
            },
{
    law_course(v, w, old, s, root_eval, new, t, depth, added);
    let round = choose|round: Round<B>| #[trigger]
        took_course(v, w, old, s, root_eval, round, new, t, depth, added);
    let (one, lost) = choose|one: B::Score, lost: B::Score|
        {
            &&& call_ensures(<B::Score as Real>::from_count, (1,), one)
            &&& #[trigger] call_ensures(<B::Score as Real>::minus, (one, round.score), lost)
            &&& settled(v, w, round.larger, round.leaf, round.score, lost, new)
        };
    let (path, states) = choose|path: Seq<int>, states: Seq<B>|
        {
            &&& #[trigger] walked(w, old, 0, s, round.walked, path, states)
            &&& path.last() == round.n
            &&& states.last() == round.reached
        };
    let n = round.n;
    let (i1, i2) = (round.i1, round.i2);
    lemma_dealt_keeps(
        w,
        round.walked,
        n,
        i1,
        i2,
        round.reached,
        round.larger,
        round.leaf,
        added,
        round.scored,
        x,
    );
    lemma_settled_choices(v, w, round.larger, round.leaf, round.score, lost, new, x);
    if x != n {
        lemma_listed_at_end(w, old, s, round.walked, path, states, x);
        assert(false);
    }
    let u = round.reached;
    let node = round.walked[n];
    let (s1, s2) = choose|
        s1: Seq<MoveNode<B::Choice, B::Score>>,
        s2: Seq<MoveNode<B::Choice, B::Score>>,
    |
        {
            &&& #[trigger] offered(old[n], u, s1, s2)
            &&& drawn_by_exp3(w, s1, node.s1_options->0@, Ok(i1))
            &&& drawn_by_exp3(w, s2, node.s2_options->0@, Ok(i2))
        };
    assert(offered(old[n], u, s1, s2));
    let (c1, c2) = choose|c1: Vec<MoveChoice<B::Choice>>, c2: Vec<MoveChoice<B::Choice>>|
        {
            &&& #[trigger] call_ensures(B::get_all_options, (&u,), (c1, c2))
            &&& unexplored(c1@, s1)
            &&& unexplored(c2@, s2)
        };
    assert(call_ensures(B::get_all_options, (&u,), (c1, c2)));
    assert forall|i: int| 0 <= i < c1@.len() implies (
    #[trigger] new[x].s1_options->0@[i]).move_choice == c1@[i] by {
        assert(s1[i].move_choice == c1@[i]);
        assert(node.s1_options->0@[i].move_choice == s1[i].move_choice);
    }
    assert forall|i: int| 0 <= i < c2@.len() implies (
    #[trigger] new[x].s2_options->0@[i]).move_choice == c2@[i] by {
        assert(s2[i].move_choice == c2@[i]);
        assert(node.s2_options->0@[i].move_choice == s2[i].move_choice);
    }
}

/// A walk lists moves at most where it ends.
proof fn lemma_listed_at_end<B: Battle>(
    w: Reading<<B::Score as Single>::Wide>,
    old: Seq<Node<B::Choice, B::Instruction, B::Score>>,
    s: B,
    new: Seq<Node<B::Choice, B::Instruction, B::Score>>,
    path: Seq<int>,
    states: Seq<B>,
    x: int,
)
    requires
        walked(w, old, 0, s, new, path, states),
        0 <= x < old.len(),
        x != path.last(),
        old[x].s1_options is None,
    ensures
        new[x].s1_options is None,
{
    if path.contains(x) {
        let k = choose|k: int| 0 <= k < path.len() && path[k] == x;
        assert(k < path.len() - 1);
        assert(stepped(w, old, path[k], states[k], new[path[k]], path[k + 1], states[k + 1]));
    } else {
        assert(new[x] == old[x]);
    }
}

/// Where the battle goes on and at least one side has a move, at the root or at any other node,
/// the turn is played. The engine is asked for its outcomes, with the drawn move of each side and
/// with damage told apart down to depth one. For each outcome there is a new child, in the order in
/// which they are named, that remembers the moves, the outcome and its depth. All other nodes stay.
/// The search goes on at a child whose percentage has some part of them all, in the state to which
/// the engine takes its instructions.
pub proof fn law_turn_is_played<B: Battle>(
    v: Reading<B::Score>,
    w: Reading<<B::Score as Single>::Wide>,
    old: Seq<Node<B::Choice, B::Instruction, B::Score>>,
    at: int,
    i1: usize,
    i2: usize,
    s: B,
    new: Seq<Node<B::Choice, B::Instruction, B::Score>>,
    n: int,
    added: u32,
    t: B,
)
    requires
        v.exact(),
        w.exact(),
        well_formed(old),
        0 <= at < old.len(),
        old[at].s1_options is Some,
        i1 < old[at].s1_options->0@.len(),
        i2 < old[at].s2_options->0@.len(),
        new.len() <= usize::MAX,
        expanded(old, at, i1, i2, s, new, n, added, t),
        at == 0 || goes_on(v, s),
        !(old[at].s1_options->0@[i1 as int].move_choice is NoMove)
            || !(old[at].s2_options->0@[i2 as int].move_choice is NoMove),
    ensures
        old.len() <= n < new.len(),
        forall|x: int|
            0 <= x < old.len() ==> #[trigger] new[x] == (Node {
                children: new[x].children,
                ..old[x]
            }),
        forall|x: int, a: usize, b: usize|
            0 <= x < old.len() && (x != at || a != i1 || b != i2) ==> #[trigger] new[x].bucket(a, b)
                == old[x].bucket(a, b),
        exists|
            branch: bool,
            m: B,
            outcomes: Vec<StateInstructions<B::Instruction, B::Score>>,
        |
            {
                &&& #[trigger] call_ensures(
                    B::generate_instructions_from_move_pair,
                    (
                        s,
                        &old[at].s1_options->0@[i1 as int].move_choice,
                        &old[at].s2_options->0@[i2 as int].move_choice,
                        branch,
                    ),
                    (m, outcomes),
                )
                &&& branch == (old[at].depth <= 1)
                &&& new.len() == old.len() + outcomes@.len()
                &&& added == outcomes@.len() % 0x1_0000_0000
                &&& new[at].bucket(i1, i2) is Some
                &&& new[at].bucket(i1, i2)->0.first == old.len()
                &&& new[at].bucket(i1, i2)->0.count == outcomes@.len()
                &&& forall|c: int|
                    #![trigger new[c]]
                    old.len() <= c < new.len() ==> {
                        &&& new[c].parent == Some(at as usize)
                        &&& new[c].instructions == outcomes@[c - old.len()]
                        &&& new[c].s1_choice == i1 % 256
                        &&& new[c].s2_choice == i2 % 256
                        &&& new[c].depth == if old[at].depth == u16::MAX {
                            u16::MAX as int
                        } else {
                            old[at].depth + 1
                        }
                        &&& new[c].times_visited == 0
                        &&& call_ensures(<B::Score as Real>::from_count, (0,), new[c].total_score)
                        &&& !new[c].root
                        &&& new[c].children@ == Map::<u128, Bucket>::empty()
                        &&& new[c].s1_options is None
                        &&& new[c].s2_options is None
                    }
                &&& call_ensures(
                    B::apply_instructions,
                    (m, &outcomes@[n - old.len()].instruction_list),
                    t,
                )
                &&& exists|
                    weights: Seq<<B::Score as Single>::Wide>,
                    total: <B::Score as Single>::Wide,
                    q: u64,
                |
                    {
                        &&& weights.len() == outcomes@.len()
                        &&& forall|k: int|
                            0 <= k < weights.len() ==> call_ensures(
                                <B::Score as Single>::widen,
                                (outcomes@[k].percentage,),
                                #[trigger] weights[k],
                            )
                        &&& (forall|k: int|
                            0 <= k < weights.len() ==> w.has(#[trigger] weights[k])) ==> (w.of)(
                            total,
                        ) == Some(sum_real(readings(w, weights)))
                        &&& #[trigger] call_ensures(
                            <<B::Score as Single>::Wide as Real>::portion,
                            (weights[n - old.len()], total),
                            Some(q),
                        )
                        &&& q > 0
                    }
            },
{
    law_expand(w, old, at, i1, i2, s, new, n, added, t);
    let (x, zero, same) = choose|x: B::Score, zero: B::Score, same: bool|
        {
            &&& call_ensures(B::battle_is_over, (&s,), x)
            &&& call_ensures(<B::Score as Real>::from_count, (0,), zero)
            &&& #[trigger] call_ensures(<B::Score as Real>::equals, (x, zero), same)
            &&& if both_idle(old[at], i1, i2) || !same && !old[at].root {
                new == old && n == at && added == 0 && t == s
            } else {
                turn_played(w, old, at, i1, i2, s, new, n, added, t)
            }
        };
    assert(at != 0 ==> same);
    assert(turn_played(w, old, at, i1, i2, s, new, n, added, t));
    let (m, outcomes) = choose|m: B, outcomes: Vec<StateInstructions<B::Instruction, B::Score>>|
        {
            &&& #[trigger] outcomes_named(old[at], i1, i2, s, m, outcomes)
            &&& new.len() == old.len() + outcomes@.len()
            &&& old.len() <= n < new.len()
            &&& call_ensures(
                B::apply_instructions,
                (m, &outcomes@[n - old.len()].instruction_list),
                t,
            )
            &&& fairly_sampled(
                w,
                Seq::new(outcomes@.len(), |k: int| outcomes@[k].percentage),
                Ok((n - old.len()) as usize),
            )
            &&& added == outcomes@.len() % 0x1_0000_0000
            &&& forall|c: int|
                old.len() <= c < new.len() ==> outcome_child(
                    old,
                    at,
                    i1,
                    i2,
                    outcomes@[c - old.len()],
                    #[trigger] new[c],
                )
            &&& forall|x: int| 0 <= x < old.len() && x != at ==> #[trigger] new[x] == old[x]
            &&& new[at] == (Node { children: new[at].children, ..old[at] })
            &&& forall|a: usize, b: usize| #[trigger]
                new[at].bucket(a, b) == if a == i1 && b == i2 {
                    Some(Bucket { first: old.len() as usize, count: outcomes@.len() as usize })
                } else {
                    old[at].bucket(a, b)
                }
        };
    let branch = old[at].depth <= 1;
    assert(call_ensures(
        B::generate_instructions_from_move_pair,
        (
            s,
            &old[at].s1_options->0@[i1 as int].move_choice,
            &old[at].s2_options->0@[i2 as int].move_choice,
            branch,
        ),
        (m, outcomes),
    ));
    assert forall|x: int| 0 <= x < old.len() implies #[trigger] new[x] == (Node {
        children: new[x].children,
        ..old[x]
    }) by {
        if x != at {
            assert(new[x] == old[x]);
        }
    }
    assert forall|x: int, a: usize, b: usize|
        0 <= x < old.len() && (x != at || a != i1 || b != i2) implies #[trigger] new[x].bucket(a, b)
        == old[x].bucket(a, b) by {
        if x != at {
            assert(new[x] == old[x]);
        }
    }
    assert forall|c: int|
        #![trigger new[c]]
        old.len() <= c < new.len() implies {
        &&& new[c].parent == Some(at as usize)
        &&& new[c].instructions == outcomes@[c - old.len()]
        &&& new[c].s1_choice == i1 % 256
        &&& new[c].s2_choice == i2 % 256
        &&& new[c].depth == if old[at].depth == u16::MAX {
            u16::MAX as int
        } else {
            old[at].depth + 1
        }
        &&& new[c].times_visited == 0
        &&& call_ensures(<B::Score as Real>::from_count, (0,), new[c].total_score)
        &&& !new[c].root
        &&& new[c].children@ == Map::<u128, Bucket>::empty()
        &&& new[c].s1_options is None
        &&& new[c].s2_options is None
    } by {
        assert(outcome_child(old, at, i1, i2, outcomes@[c - old.len()], new[c]));
    }
    let list = Seq::new(outcomes@.len(), |k: int| outcomes@[k].percentage);
    let (weights, total, q) = lemma_sampled(w, list, (n - old.len()) as usize);
    assert forall|k: int| 0 <= k < weights.len() implies call_ensures(
        <B::Score as Single>::widen,
        (outcomes@[k].percentage,),
        #[trigger] weights[k],
    ) by {
        assert(list[k] == outcomes@[k].percentage);
    }
    assert(call_ensures(
        <<B::Score as Single>::Wide as Real>::portion,
        (weights[n - old.len()], total),
        Some(q),
    ));
}

/// What a sampled outcome had of the sum of all percentages.
proof fn lemma_sampled<S: Single>(w: Reading<S::Wide>, list: Seq<S>, i: usize) -> (r: (
    Seq<S::Wide>,
    S::Wide,
    u64,
))
    requires
        fairly_sampled(w, list, Ok(i)),
    ensures
        i < list.len(),
        r.0.len() == list.len(),
        forall|k: int|
            0 <= k < r.0.len() ==> call_ensures(S::widen, (list[k],), #[trigger] r.0[k]),
        (forall|k: int| 0 <= k < r.0.len() ==> w.has(#[trigger] r.0[k])) ==> (w.of)(r.1) == Some(
            sum_real(readings(w, r.0)),
        ),
        call_ensures(<S::Wide as Real>::portion, (r.0[i as int], r.1), Some(r.2)),
        r.2 > 0,
{
    let weights = choose|weights: Seq<S::Wide>|
        {
            &&& weights.len() == list.len()
            &&& forall|i: int|
                0 <= i < list.len() ==> call_ensures(
                    S::widen,
                    (list[i],),
                    #[trigger] weights[i],
                )
            &&& #[trigger] fairly_drawn(w, weights, Ok(i))
        };
    let (total, q) = lemma_part_drawn(w, weights, i);
    (weights, total, q)
}

/// What a drawn weight had of the sum of all weights.
proof fn lemma_part_drawn<R: Real>(v: Reading<R>, weights: Seq<R>, i: usize) -> (r: (R, u64))
    requires
        fairly_drawn(v, weights, Ok(i)),
    ensures
        i < weights.len(),
        (forall|k: int| 0 <= k < weights.len() ==> v.has(#[trigger] weights[k])) ==> (v.of)(r.0)
            == Some(sum_real(readings(v, weights))),
        call_ensures(R::portion, (weights[i as int], r.0), Some(r.1)),
        r.1 > 0,
{
    let total = choose|total: R|
        {
            &&& #[trigger] drawn_from(weights, total, Ok(i))
            &&& (forall|i: int| 0 <= i < weights.len() ==> v.has(#[trigger] weights[i])) ==> (
            v.of)(total) == Some(sum_real(readings(v, weights)))
        };
    let q = choose|q: u64| #[trigger]
        call_ensures(R::portion, (weights[i as int], total), Some(q)) && q > 0;
    (total, q)
}

/// A weight that is drawn has some part of the sum of all weights. A draw without weights fails.
pub proof fn law_draw_by_part<R: Real>(
    v: Reading<R>,
    weights: Vec<R>,
    r: Result<usize, WeightError>,
)
    requires
        v.exact(),
        call_ensures(draw::<R>, (&weights,), r),
    ensures
        weights@.len() == 0 ==> r == Err::<usize, WeightError>(WeightError::InvalidInput),
        r is Ok ==> r->Ok_0 < weights@.len() && exists|total: R, q: u64|
            {
                &&& #[trigger] call_ensures(
                    R::portion,
                    (weights@[r->Ok_0 as int], total),
                    Some(q),
                )
                &&& q > 0
                &&& (forall|k: int| 0 <= k < weights@.len() ==> v.has(#[trigger] weights@[k]))
                    ==> (v.of)(total) == Some(sum_real(readings(v, weights@)))
            },
{
    law_draw(v, weights, r);
    if r is Ok {
        let (total, q) = lemma_part_drawn(v, weights@, r->Ok_0);
        assert(call_ensures(R::portion, (weights@[r->Ok_0 as int], total), Some(q)));
    }
}

/// Where a walk ends, each side has drawn one of its own moves there, by the probabilities of its
/// own moves: the probability of the drawn one has some part of their sum. The turn was not played
/// before.
pub proof fn law_walk_draws<B: Battle>(
    w: Reading<<B::Score as Single>::Wide>,
    old: Seq<Node<B::Choice, B::Instruction, B::Score>>,
    at: int,
    s: B,
    new: Seq<Node<B::Choice, B::Instruction, B::Score>>,
    n: int,
    i1: usize,
    i2: usize,
    t: B,
)
    requires
        w.exact(),
        well_formed(old),
        0 <= at < old.len(),
        selected(old, at, s, new, n, i1, i2, t),
    ensures
        0 <= n < old.len(),
        new[n].s1_options is Some,
        new[n].s2_options is Some,
        i1 < new[n].s1_options->0@.len(),
        i2 < new[n].s2_options->0@.len(),
        old[n].bucket(i1, i2) is None,
        exists|total: <B::Score as Single>::Wide, q: u64|
            {
                let arms = new[n].s1_options->0@;
                &&& #[trigger] call_ensures(
                    <<B::Score as Single>::Wide as Real>::portion,
                    (new[n].s1_options->0@[i1 as int].curr_strat, total),
                    Some(q),
                )
                &&& q > 0
                &&& (forall|k: int| 0 <= k < arms.len() ==> w.has((#[trigger] arms[k]).curr_strat))
                    ==> (w.of)(total) == Some(
                    sum_real(Seq::new(arms.len(), |k: int| w.at(arms[k].curr_strat))),
                )
            },
        exists|total: <B::Score as Single>::Wide, q: u64|
            {
                let arms = new[n].s2_options->0@;
                &&& #[trigger] call_ensures(
                    <<B::Score as Single>::Wide as Real>::portion,
                    (new[n].s2_options->0@[i2 as int].curr_strat, total),
                    Some(q),
                )
                &&& q > 0
                &&& (forall|k: int| 0 <= k < arms.len() ==> w.has((#[trigger] arms[k]).curr_strat))
                    ==> (w.of)(total) == Some(
                    sum_real(Seq::new(arms.len(), |k: int| w.at(arms[k].curr_strat))),
                )
            },
{
    law_walk(w, old, at, s, new, n, i1, i2, t);
    let (s1, s2) = choose|
        s1: Seq<MoveNode<B::Choice, B::Score>>,
        s2: Seq<MoveNode<B::Choice, B::Score>>,
    |
        {
            &&& #[trigger] offered(old[n], t, s1, s2)
            &&& drawn_by_exp3(w, s1, new[n].s1_options->0@, Ok(i1))
            &&& drawn_by_exp3(w, s2, new[n].s2_options->0@, Ok(i2))
        };
    let (p1, q1) = lemma_arm_part(w, s1, new[n].s1_options->0@, i1);
    let (p2, q2) = lemma_arm_part(w, s2, new[n].s2_options->0@, i2);
    assert(call_ensures(
        <<B::Score as Single>::Wide as Real>::portion,
        (new[n].s1_options->0@[i1 as int].curr_strat, p1),
        Some(q1),
    ));
    assert(call_ensures(
        <<B::Score as Single>::Wide as Real>::portion,
        (new[n].s2_options->0@[i2 as int].curr_strat, p2),
        Some(q2),
    ));
}

/// What the probability of a drawn move had of the sum of all.
proof fn lemma_arm_part<C, S: Single>(
    w: Reading<S::Wide>,
    old: Seq<MoveNode<C, S>>,
    arms: Seq<MoveNode<C, S>>,
    i: usize,
) -> (r: (S::Wide, u64))
    requires
        drawn_by_exp3(w, old, arms, Ok(i)),
    ensures
        i < arms.len(),
        call_ensures(<S::Wide as Real>::portion, (arms[i as int].curr_strat, r.0), Some(r.1)),
        r.1 > 0,
        (forall|k: int| 0 <= k < arms.len() ==> w.has((#[trigger] arms[k]).curr_strat)) ==> (w.of)(
            r.0,
        ) == Some(sum_real(Seq::new(arms.len(), |k: int| w.at(arms[k].curr_strat)))),
{
    let ps = curr_strats(arms);
    let (total, q) = lemma_part_drawn(w, ps, i);
    assert(readings(w, ps) =~= Seq::new(arms.len(), |k: int| w.at(arms[k].curr_strat)));
    if forall|k: int| 0 <= k < arms.len() ==> w.has((#[trigger] arms[k]).curr_strat) {
        assert forall|k: int| 0 <= k < ps.len() implies w.has(#[trigger] ps[k]) by {
            assert(w.has(arms[k].curr_strat));
        }
    }
    (total, q)
}

/// The node at `c` is an outcome of a turn that had been played at the node at `p`. Each side drew
/// its move of that turn by the probabilities of its moves, and the outcome was drawn by the
/// percentages of them all: each has some part of the sum of what it was drawn from.
pub open spec fn drawn_on_the_way<B: Battle>(
    w: Reading<<B::Score as Single>::Wide>,
    old: Seq<Node<B::Choice, B::Instruction, B::Score>>,
    p: int,
    c: int,
    new: Node<B::Choice, B::Instruction, B::Score>,
) -> bool {
    exists|
        a: usize,
        b: usize,
        p1: <B::Score as Single>::Wide,
        q1: u64,
        p2: <B::Score as Single>::Wide,
        q2: u64,
        weights: Seq<<B::Score as Single>::Wide>,
        p3: <B::Score as Single>::Wide,
        q3: u64,
    |
        {
            let first = old[p].bucket(a, b)->0.first;
            let s1 = new.s1_options->0@;
            let s2 = new.s2_options->0@;
            &&& old[p].bucket(a, b) is Some
            &&& first <= c
            &&& c < first + old[p].bucket(a, b)->0.count
            &&& #[trigger] call_ensures(
                <<B::Score as Single>::Wide as Real>::portion,
                (new.s1_options->0@[a as int].curr_strat, p1),
                Some(q1),
            )
            &&& (forall|k: int| 0 <= k < s1.len() ==> w.has((#[trigger] s1[k]).curr_strat)) ==> (
            w.of)(p1) == Some(sum_real(Seq::new(s1.len(), |k: int| w.at(s1[k].curr_strat))))
            &&& #[trigger] call_ensures(
                <<B::Score as Single>::Wide as Real>::portion,
                (new.s2_options->0@[b as int].curr_strat, p2),
                Some(q2),
            )
            &&& (forall|k: int| 0 <= k < s2.len() ==> w.has((#[trigger] s2[k]).curr_strat)) ==> (
            w.of)(p2) == Some(sum_real(Seq::new(s2.len(), |k: int| w.at(s2[k].curr_strat))))
            &&& weights.len() == old[p].bucket(a, b)->0.count
            &&& forall|k: int|
                0 <= k < weights.len() ==> call_ensures(
                    <B::Score as Single>::widen,
                    (old[first + k].instructions.percentage,),
                    #[trigger] weights[k],
                )
            &&& #[trigger] drawn_part(w, weights, old[p].bucket(a, b)->0, c, p3, q3)
            &&& q1 > 0 && q2 > 0
        }
}

/// The weight of the node at `c`, in a bucket with the given weights, has the part `q`, which is
/// not none, of `total`, the sum of all weights.
pub open spec fn drawn_part<R: Real>(
    w: Reading<R>,
    weights: Seq<R>,
    bucket: Bucket,
    c: int,
    total: R,
    q: u64,
) -> bool {
    &&& call_ensures(R::portion, (weights[c - bucket.first], total), Some(q))
    &&& q > 0
    &&& (forall|k: int| 0 <= k < weights.len() ==> w.has(#[trigger] weights[k])) ==> (w.of)(total)
        == Some(sum_real(readings(w, weights)))
}

proof fn lemma_step_drawn<B: Battle>(
    w: Reading<<B::Score as Single>::Wide>,
    old: Seq<Node<B::Choice, B::Instruction, B::Score>>,
    p: int,
    s: B,
    new: Node<B::Choice, B::Instruction, B::Score>,
    c: int,
    t: B,
)
    requires
        stepped(w, old, p, s, new, c, t),
    ensures
        drawn_on_the_way::<B>(w, old, p, c, new),
{
    let (a, b) = choose|a: usize, b: usize|
        {
            let bucket = old[p].bucket(a, b)->0;
            &&& #[trigger] both_drew(w, old[p], s, new, a, b)
            &&& old[p].bucket(a, b) is Some
            &&& bucket.first <= c < bucket.first + bucket.count <= old.len()
            &&& fairly_sampled(
                w,
                Seq::new(
                    bucket.count as nat,
                    |k: int| old[bucket.first + k].instructions.percentage,
                ),
                Ok((c - bucket.first) as usize),
            )
        };
    let bucket = old[p].bucket(a, b)->0;
    let (p1, q1, p2, q2) = lemma_both_parts(w, old[p], s, new, a, b);
    let list = Seq::new(
        bucket.count as nat,
        |k: int| old[bucket.first + k].instructions.percentage,
    );
    let (weights, p3, q3) = lemma_sampled(w, list, (c - bucket.first) as usize);
    assert forall|k: int| 0 <= k < weights.len() implies call_ensures(
        <B::Score as Single>::widen,
        (old[bucket.first + k].instructions.percentage,),
        #[trigger] weights[k],
    ) by {
        assert(list[k] == old[bucket.first + k].instructions.percentage);
    }
    assert(drawn_part(w, weights, bucket, c, p3, q3));
}

/// A walk that does not end at once is a way down the tree: each node on it is the parent of the
/// next, which was drawn among the outcomes of a turn that was drawn there and had been played
/// before. The engine took the instructions of each next node. Nodes that are not on the way have
/// not changed.
pub proof fn law_walk_steps<B: Battle>(
    w: Reading<<B::Score as Single>::Wide>,
    old: Seq<Node<B::Choice, B::Instruction, B::Score>>,
    at: int,
    s: B,
    new: Seq<Node<B::Choice, B::Instruction, B::Score>>,
    n: int,
    i1: usize,
    i2: usize,
    t: B,
)
    requires
        w.exact(),
        well_formed(old),
        0 <= at < old.len(),
        selected(old, at, s, new, n, i1, i2, t),
    ensures
        new.len() == old.len(),
        exists|path: Seq<int>, states: Seq<B>|
            #![trigger path.len(), states.len()]
            {
                &&& path.len() > 0
                &&& states.len() == path.len()
                &&& path[0] == at
                &&& path.last() == n
                &&& states[0] == s
                &&& states.last() == t
                &&& forall|x: int|
                    0 <= x < old.len() && !path.contains(x) ==> #[trigger] new[x] == old[x]
                &&& forall|k: int|
                    #![trigger path[k]]
                    0 <= k < path.len() - 1 ==> {
                        &&& 0 <= path[k] < path[k + 1] < old.len()
                        &&& old[path[k + 1]].parent == Some(path[k] as usize)
                        &&& call_ensures(
                            B::apply_instructions,
                            (states[k], &old[path[k + 1]].instructions.instruction_list),
                            states[k + 1],
                        )
                        &&& drawn_on_the_way::<B>(w, old, path[k], path[k + 1], new[path[k]])
                    }
            },
{
    law_walk(w, old, at, s, new, n, i1, i2, t);
    let (path, states) = choose|path: Seq<int>, states: Seq<B>|
        {
            &&& #[trigger] walked(w, old, at, s, new, path, states)
            &&& path.last() == n
            &&& states.last() == t
        };
    assert(path.len() == states.len());
    assert forall|k: int| #![trigger path[k]] 0 <= k < path.len() - 1 implies {
        &&& 0 <= path[k] < path[k + 1] < old.len()
        &&& old[path[k + 1]].parent == Some(path[k] as usize)
        &&& call_ensures(
            B::apply_instructions,
            (states[k], &old[path[k + 1]].instructions.instruction_list),
            states[k + 1],
        )
        &&& drawn_on_the_way::<B>(w, old, path[k], path[k + 1], new[path[k]])
    } by {
        lemma_step_drawn(
            w,
            old,
            path[k],
            states[k],
            new[path[k]],
            path[k + 1],
            states[k + 1],
        );
    }
}

proof fn lemma_both_parts<B: Battle>(
    w: Reading<<B::Score as Single>::Wide>,
    old: Node<B::Choice, B::Instruction, B::Score>,
    s: B,
    new: Node<B::Choice, B::Instruction, B::Score>,
    a: usize,
    b: usize,
) -> (r: (<B::Score as Single>::Wide, u64, <B::Score as Single>::Wide, u64))
    requires
        both_drew(w, old, s, new, a, b),
    ensures
        call_ensures(
            <<B::Score as Single>::Wide as Real>::portion,
            (new.s1_options->0@[a as int].curr_strat, r.0),
            Some(r.1),
        ),
        call_ensures(
            <<B::Score as Single>::Wide as Real>::portion,
            (new.s2_options->0@[b as int].curr_strat, r.2),
            Some(r.3),
        ),
        r.1 > 0,
        r.3 > 0,
        ({
            let s1 = new.s1_options->0@;
            (forall|k: int| 0 <= k < s1.len() ==> w.has((#[trigger] s1[k]).curr_strat)) ==> (w.of)(
                r.0,
            ) == Some(sum_real(Seq::new(s1.len(), |k: int| w.at(s1[k].curr_strat))))
        }),
        ({
            let s2 = new.s2_options->0@;
            (forall|k: int| 0 <= k < s2.len() ==> w.has((#[trigger] s2[k]).curr_strat)) ==> (w.of)(
                r.2,
            ) == Some(sum_real(Seq::new(s2.len(), |k: int| w.at(s2[k].curr_strat))))
        }),
{
    let (s1, s2) = choose|
        s1: Seq<MoveNode<B::Choice, B::Score>>,
        s2: Seq<MoveNode<B::Choice, B::Score>>,
    |
        {
            &&& #[trigger] offered(old, s, s1, s2)
            &&& drawn_by_exp3(w, s1, new.s1_options->0@, Ok(a))
            &&& drawn_by_exp3(w, s2, new.s2_options->0@, Ok(b))
        };
    let (p1, q1) = lemma_arm_part(w, s1, new.s1_options->0@, a);
    let (p2, q2) = lemma_arm_part(w, s2, new.s2_options->0@, b);
    (p1, q1, p2, q2)
}

/// The Exp3 strategy is a distribution: the probabilities add up to one, none is below the part
/// that a move has of `gamma`, and a move with a larger estimated score has a larger one. What two
/// probabilities are above that part is in the ratio of the exponentials of the scores, each score
/// scaled by that part.
pub proof fn law_strategy_is_distribution<C, I, S: Single>(
    w: Reading<S::Wide>,
    side_map: &[MoveNode<C, S>],
    gamma: S::Wide,
    r: Vec<S::Wide>,
)
    requires
        w.exact(),
        side_map@.len() > 0,
        forall|i: int| 0 <= i < side_map@.len() ==> w.has((#[trigger] side_map@[i]).est_score),
        w.has(gamma),
        w.at(gamma) >= 0 as real,
        w.at(gamma) <= 1 as real,
        call_ensures(Node::<C, I, S>::exp3_strategy, (side_map, gamma), r),
    ensures
        r@.len() == side_map@.len(),
        forall|i: int| 0 <= i < r@.len() ==> w.has(#[trigger] r@[i]),
        sum_real(Seq::new(r@.len(), |i: int| w.at(r@[i]))) == 1 as real,
        forall|i: int|
            0 <= i < r@.len() ==> w.at(#[trigger] r@[i]) >= w.at(gamma) / (
            side_map@.len() as int as real),
        forall|i: int, j: int|
            #![trigger r@[i], r@[j]]
            0 <= i < r@.len() && 0 <= j < r@.len() ==> {
                let part = w.at(gamma) / (side_map@.len() as int as real);
                (w.at(r@[i]) - part) * (w.exp)(part * w.at(side_map@[j].est_score)) == (w.at(r@[j])
                    - part) * (w.exp)(part * w.at(side_map@[i].est_score))
            },
        forall|i: int, j: int|
            #![trigger r@[i], r@[j]]
            0 <= i < r@.len() && 0 <= j < r@.len() && w.at(gamma) > 0 as real && w.at(gamma)
                < 1 as real && w.at(side_map@[i].est_score) < w.at(side_map@[j].est_score) ==> w.at(
                r@[i],
            ) < w.at(r@[j]),
{
    law_exp3_strategy::<C, I, S>(w, side_map, gamma, r);
    let p = readings(w, r@);
    assert(p =~= Seq::new(r@.len(), |i: int| w.at(r@[i])));
    assert forall|i: int| 0 <= i < r@.len() implies w.at(#[trigger] r@[i]) >= w.at(gamma) / (
    side_map@.len() as int as real) by {
        assert(p[i] == w.at(r@[i]));
    }
    assert forall|i: int, j: int|
        #![trigger r@[i], r@[j]]
        0 <= i < r@.len() && 0 <= j < r@.len() implies {
        let part = w.at(gamma) / (side_map@.len() as int as real);
        (w.at(r@[i]) - part) * (w.exp)(part * w.at(side_map@[j].est_score)) == (w.at(r@[j]) - part)
            * (w.exp)(part * w.at(side_map@[i].est_score))
    } by {
        assert(p[i] == w.at(r@[i]) && p[j] == w.at(r@[j]));
    }
    assert forall|i: int, j: int|
        #![trigger r@[i], r@[j]]
        0 <= i < r@.len() && 0 <= j < r@.len() && w.at(gamma) > 0 as real && w.at(gamma)
            < 1 as real && w.at(side_map@[i].est_score) < w.at(
            side_map@[j].est_score,
        ) implies w.at(r@[i]) < w.at(r@[j]) by {
        assert(p[i] == w.at(r@[i]) && p[j] == w.at(r@[j]));
    }
}

/// Where a move is drawn, every move is given a probability, and the sum of those that it was given
/// before grows by it; visits, scores and the moves themselves stay. The probabilities add up to
/// one, each is at least a tenth of an even share, and a larger estimated score has a larger one.
pub proof fn law_draw_notes_distribution<C, S: Single>(
    w: Reading<S::Wide>,
    old: Seq<MoveNode<C, S>>,
    new: Seq<MoveNode<C, S>>,
    r: Result<usize, WeightError>,
)
    requires
        w.exact(),
        0 < old.len() <= usize::MAX,
        exp3_drawn(old, new, r),
        forall|i: int| 0 <= i < old.len() ==> w.has((#[trigger] old[i]).est_score),
        forall|i: int| 0 <= i < old.len() ==> w.has((#[trigger] old[i]).cum_strat),
    ensures
        new.len() == old.len(),
        sum_real(Seq::new(new.len(), |i: int| w.at(new[i].curr_strat))) == 1 as real,
        forall|i: int|
            #![trigger new[i]]
            0 <= i < new.len() ==> {
                &&& new[i].move_choice == old[i].move_choice
                &&& new[i].total_score == old[i].total_score
                &&& new[i].visits == old[i].visits
                &&& new[i].est_score == old[i].est_score
                &&& w.has(new[i].curr_strat)
                &&& w.at(new[i].curr_strat) >= (1 as real / 10 as real) / (old.len() as int as real)
                &&& w.has(new[i].cum_strat)
                &&& w.at(new[i].cum_strat) == w.at(old[i].cum_strat) + w.at(new[i].curr_strat)
            },
        forall|i: int, j: int|
            #![trigger new[i], new[j]]
            0 <= i < new.len() && 0 <= j < new.len() && w.at(old[i].est_score) < w.at(
                old[j].est_score,
            ) ==> w.at(new[i].curr_strat) < w.at(new[j].curr_strat),
        forall|i: int, j: int|
            #![trigger new[i], new[j]]
            0 <= i < new.len() && 0 <= j < new.len() ==> {
                let part = (1 as real / 10 as real) / (old.len() as int as real);
                (w.at(new[i].curr_strat) - part) * (w.exp)(part * w.at(old[j].est_score)) == (w.at(
                    new[j].curr_strat,
                ) - part) * (w.exp)(part * w.at(old[i].est_score))
            },
{
    law_move_drawn(w, old, new, r);
    let p = readings(w, curr_strats(new));
    assert(p =~= Seq::new(new.len(), |i: int| w.at(new[i].curr_strat)));
    assert forall|i: int|
        #![trigger new[i]]
        0 <= i < new.len() implies {
        &&& new[i].move_choice == old[i].move_choice
        &&& new[i].total_score == old[i].total_score
        &&& new[i].visits == old[i].visits
        &&& new[i].est_score == old[i].est_score
        &&& w.has(new[i].curr_strat)
        &&& w.at(new[i].curr_strat) >= (1 as real / 10 as real) / (old.len() as int as real)
        &&& w.has(new[i].cum_strat)
        &&& w.at(new[i].cum_strat) == w.at(old[i].cum_strat) + w.at(new[i].curr_strat)
    } by {
        assert(p[i] == w.at(new[i].curr_strat));
        assert(w.has(old[i].cum_strat));
    }
    assert forall|i: int, j: int|
        #![trigger new[i], new[j]]
        0 <= i < new.len() && 0 <= j < new.len() && w.at(old[i].est_score) < w.at(
            old[j].est_score,
        ) implies w.at(new[i].curr_strat) < w.at(new[j].curr_strat) by {
        assert(p[i] == w.at(new[i].curr_strat) && p[j] == w.at(new[j].curr_strat));
    }
    assert forall|i: int, j: int|
        #![trigger new[i], new[j]]
        0 <= i < new.len() && 0 <= j < new.len() implies {
        let part = (1 as real / 10 as real) / (old.len() as int as real);
        (w.at(new[i].curr_strat) - part) * (w.exp)(part * w.at(old[j].est_score)) == (w.at(
            new[j].curr_strat,
        ) - part) * (w.exp)(part * w.at(old[i].est_score))
    } by {
        assert(p[i] == w.at(new[i].curr_strat) && p[j] == w.at(new[j].curr_strat));
    }
}

/// Before any visit the average strategy is even.
pub proof fn law_average_before_visits<C, S: Single>(
    v: Reading<S>,
    w: Reading<S::Wide>,
    side_map: &[MoveNode<C, S>],
    gamma: S::Wide,
    r: Vec<S>,
    i: int,
)
    requires
        v.exact(),
        w.exact(),
        linked_readings(v, w),
        visit_sum(side_map@) <= u64::MAX,
        w.has(gamma),
        forall|i: int| 0 <= i < side_map@.len() ==> w.has((#[trigger] side_map@[i]).cum_strat),
        forall|i: int| 0 <= i < side_map@.len() ==> (#[trigger] side_map@[i]).visits == 0,
        call_ensures(average_strategy::<C, S>, (side_map, gamma), r),
        0 <= i < side_map@.len(),
    ensures
        r@.len() == side_map@.len(),
        v.has(r@[i]),
        v.at(r@[i]) == 1 as real / (side_map@.len() as int as real),
{
    law_average_strategy(v, w, side_map, gamma, r);
    let t = visit_counts(side_map@);
    assert forall|k: int| 0 <= k < t.len() implies #[trigger] t[k] == 0 as real by {
        assert(side_map@[k].visits == 0);
    }
    lemma_all_zero(t);
    assert(readings(v, r@)[i] == v.at(r@[i]));
}

/// After visits the average strategy adds up to one. A move whose mean probability is not above its
/// part of `gamma` has none of it, where some other move's is. Of two moves the one with the larger
/// sum of probabilities, if its mean is above that part, has more of it; and what two moves have is
/// in the ratio of how far their means are above.
pub proof fn law_average_after_visits<C, S: Single>(
    v: Reading<S>,
    w: Reading<S::Wide>,
    side_map: &[MoveNode<C, S>],
    gamma: S::Wide,
    r: Vec<S>,
    top: int,
)
    requires
        v.exact(),
        w.exact(),
        linked_readings(v, w),
        visit_sum(side_map@) <= u64::MAX,
        w.has(gamma),
        forall|i: int| 0 <= i < side_map@.len() ==> w.has((#[trigger] side_map@[i]).cum_strat),
        call_ensures(average_strategy::<C, S>, (side_map, gamma), r),
        sum_real(Seq::new(side_map@.len(), |i: int| side_map@[i].visits as int as real))
            > 0 as real,
        0 <= top < side_map@.len(),
        ({
            let t = sum_real(
                Seq::new(side_map@.len(), |i: int| side_map@[i].visits as int as real),
            );
            w.at(side_map@[top].cum_strat) / t > w.at(gamma) / (side_map@.len() as int as real)
        }),
    ensures
        r@.len() == side_map@.len(),
        forall|i: int| 0 <= i < r@.len() ==> v.has(#[trigger] r@[i]),
        sum_real(Seq::new(r@.len(), |i: int| v.at(r@[i]))) == 1 as real,
        ({
            let t = sum_real(
                Seq::new(side_map@.len(), |i: int| side_map@[i].visits as int as real),
            );
            let part = w.at(gamma) / (side_map@.len() as int as real);
            &&& forall|i: int|
                #![trigger r@[i]]
                0 <= i < r@.len() && w.at(side_map@[i].cum_strat) / t <= part ==> v.at(r@[i])
                    == 0 as real
            &&& forall|i: int, j: int|
                #![trigger r@[i], r@[j]]
                0 <= i < r@.len() && 0 <= j < r@.len() && w.at(side_map@[j].cum_strat) / t > part
                    && w.at(side_map@[i].cum_strat) / t < w.at(side_map@[j].cum_strat) / t ==> v.at(
                    r@[i],
                ) < v.at(r@[j])
            &&& forall|i: int, j: int|
                #![trigger r@[i], r@[j]]
                0 <= i < r@.len() && 0 <= j < r@.len() && w.at(side_map@[i].cum_strat) / t > part
                    && w.at(side_map@[j].cum_strat) / t > part ==> v.at(r@[i]) * (w.at(
                    side_map@[j].cum_strat,
                ) / t - part) == v.at(r@[j]) * (w.at(side_map@[i].cum_strat) / t - part)
        }),
{
    law_average_strategy(v, w, side_map, gamma, r);
    let counts = Seq::new(side_map@.len(), |i: int| side_map@[i].visits as int as real);
    assert(counts =~= visit_counts(side_map@));
    let t = sum_real(counts);
    let part = w.at(gamma) / (side_map@.len() as int as real);
    let cum = cum_strats(w, side_map@);
    let g = w.at(gamma);
    assert forall|i: int| 0 <= i < cum.len() implies #[trigger] surplus(cum, t, g, i) == w.at(
        side_map@[i].cum_strat,
    ) / t - part by {}
    assert(surplus(cum, t, g, top) > 0 as real);
    let avg = readings(v, r@);
    assert(avg =~= Seq::new(r@.len(), |i: int| v.at(r@[i])));
    assert forall|i: int|
        #![trigger r@[i]]
        0 <= i < r@.len() && w.at(side_map@[i].cum_strat) / t <= part implies v.at(r@[i])
        == 0 as real by {
        assert(avg[i] == v.at(r@[i]));
        assert(surplus(cum, t, g, i) <= 0 as real);
    }
    assert forall|i: int, j: int|
        #![trigger r@[i], r@[j]]
        0 <= i < r@.len() && 0 <= j < r@.len() && w.at(side_map@[j].cum_strat) / t > part && w.at(
            side_map@[i].cum_strat,
        ) / t < w.at(side_map@[j].cum_strat) / t implies v.at(r@[i]) < v.at(r@[j]) by {
        assert(avg[i] == v.at(r@[i]) && avg[j] == v.at(r@[j]));
        assert(surplus(cum, t, g, i) < surplus(cum, t, g, j));
    }
    assert forall|i: int, j: int|
        #![trigger r@[i], r@[j]]
        0 <= i < r@.len() && 0 <= j < r@.len() && w.at(side_map@[i].cum_strat) / t > part && w.at(
            side_map@[j].cum_strat,
        ) / t > part implies v.at(r@[i]) * (w.at(side_map@[j].cum_strat) / t - part) == v.at(r@[j])
        * (w.at(side_map@[i].cum_strat) / t - part) by {
        assert(avg[i] == v.at(r@[i]) && avg[j] == v.at(r@[j]));
        assert(surplus(cum, t, g, i) == w.at(side_map@[i].cum_strat) / t - part);
        assert(surplus(cum, t, g, j) == w.at(side_map@[j].cum_strat) / t - part);
    }
}

/// What is reported of a side does not depend on which side it is, nor on anything but its moves:
/// side one of one tree and side two of another, whose moves have the same visits and the same sums
/// of probabilities, are reported with the same strategy.
pub proof fn law_sides_reported_alike<C, I, S: Single>(
    v: Reading<S>,
    w: Reading<S::Wide>,
    a: Tree<C, I, S>,
    b: Tree<C, I, S>,
    p: MctsResult<C, S>,
    q: MctsResult<C, S>,
)
    requires
        v.exact(),
        w.exact(),
        linked_readings(v, w),
        a.wf(),
        b.wf(),
        a.nodes@[0].s1_options is Some,
        b.nodes@[0].s1_options is Some,
        sums_readable(w, a.nodes@[0]),
        sums_readable(w, b.nodes@[0]),
        call_ensures(Tree::<C, I, S>::report, (a,), p),
        call_ensures(Tree::<C, I, S>::report, (b,), q),
        a.nodes@[0].s1_options->0@.len() == b.nodes@[0].s2_options->0@.len(),
        forall|i: int|
            #![trigger a.nodes@[0].s1_options->0@[i]]
            0 <= i < a.nodes@[0].s1_options->0@.len() ==> {
                &&& a.nodes@[0].s1_options->0@[i].visits == b.nodes@[0].s2_options->0@[i].visits
                &&& w.at(a.nodes@[0].s1_options->0@[i].cum_strat) == w.at(
                    b.nodes@[0].s2_options->0@[i].cum_strat,
                )
            },
    ensures
        p.s1@.len() == q.s2@.len(),
        forall|i: int|
            0 <= i < p.s1@.len() ==> v.at((#[trigger] p.s1@[i]).avg_strat) == v.at(
                q.s2@[i].avg_strat,
            ),
{
    law_report(v, w, a, p);
    law_report(v, w, b, q);
    let x = a.nodes@[0].s1_options->0@;
    let y = b.nodes@[0].s2_options->0@;
    assert(cum_strats(w, x) =~= cum_strats(w, y)) by {
        assert forall|i: int| 0 <= i < x.len() implies w.at((#[trigger] x[i]).cum_strat) == w.at(
            y[i].cum_strat,
        ) by {
            assert(a.nodes@[0].s1_options->0@[i] == x[i]);
        }
    }
    assert(visit_counts(x) =~= visit_counts(y)) by {
        assert forall|i: int| 0 <= i < x.len() implies (#[trigger] x[i]).visits == y[i].visits by {
            assert(a.nodes@[0].s1_options->0@[i] == x[i]);
        }
    }
    law_report_blind_to_side(v, w, x, y, p.s1@, q.s2@);
}

/// Each side is reported with its own moves, in their order, with the visits and scores that they
/// have. Once there were visits, a move whose mean probability is above its part of one tenth, and
/// above that of another move of its side, is reported with a larger part of the strategy.
pub proof fn law_report_follows_probabilities<C, I, S: Single>(
    v: Reading<S>,
    w: Reading<S::Wide>,
    tree: Tree<C, I, S>,
    r: MctsResult<C, S>,
)
    requires
        v.exact(),
        w.exact(),
        linked_readings(v, w),
        tree.wf(),
        tree.nodes@[0].s1_options is Some,
        sums_readable(w, tree.nodes@[0]),
        call_ensures(Tree::<C, I, S>::report, (tree,), r),
    ensures
        r.iteration_count == tree.nodes@[0].times_visited,
        r.s1@.len() == tree.nodes@[0].s1_options->0@.len(),
        r.s2@.len() == tree.nodes@[0].s2_options->0@.len(),
        forall|i: int|
            #![trigger r.s1@[i]]
            0 <= i < r.s1@.len() ==> {
                let arm = tree.nodes@[0].s1_options->0@[i];
                &&& r.s1@[i].move_choice == arm.move_choice
                &&& r.s1@[i].visits == arm.visits
                &&& r.s1@[i].total_score == arm.total_score
                &&& v.has(r.s1@[i].avg_strat)
            },
        forall|i: int|
            #![trigger r.s2@[i]]
            0 <= i < r.s2@.len() ==> {
                let arm = tree.nodes@[0].s2_options->0@[i];
                &&& r.s2@[i].move_choice == arm.move_choice
                &&& r.s2@[i].visits == arm.visits
                &&& r.s2@[i].total_score == arm.total_score
                &&& v.has(r.s2@[i].avg_strat)
            },
        forall|i: int, j: int|
            #![trigger r.s1@[i], r.s1@[j]]
            0 <= i < r.s1@.len() && 0 <= j < r.s1@.len() ==> {
                let arms = tree.nodes@[0].s1_options->0@;
                let t = sum_real(Seq::new(arms.len(), |i: int| arms[i].visits as int as real));
                let part = (1 as real / 10 as real) / (arms.len() as int as real);
                t > 0 as real && w.at(arms[j].cum_strat) / t > part && w.at(arms[i].cum_strat) / t
                    < w.at(arms[j].cum_strat) / t ==> v.at(r.s1@[i].avg_strat) < v.at(
                    r.s1@[j].avg_strat,
                )
            },
        forall|i: int, j: int|
            #![trigger r.s2@[i], r.s2@[j]]
            0 <= i < r.s2@.len() && 0 <= j < r.s2@.len() ==> {
                let arms = tree.nodes@[0].s2_options->0@;
                let t = sum_real(Seq::new(arms.len(), |i: int| arms[i].visits as int as real));
                let part = (1 as real / 10 as real) / (arms.len() as int as real);
                t > 0 as real && w.at(arms[j].cum_strat) / t > part && w.at(arms[i].cum_strat) / t
                    < w.at(arms[j].cum_strat) / t ==> v.at(r.s2@[i].avg_strat) < v.at(
                    r.s2@[j].avg_strat,
                )
            },
{
    law_report(v, w, tree, r);
    let a1 = tree.nodes@[0].s1_options->0@;
    let a2 = tree.nodes@[0].s2_options->0@;
    assert forall|i: int, j: int|
        #![trigger r.s1@[i], r.s1@[j]]
        0 <= i < r.s1@.len() && 0 <= j < r.s1@.len() implies {
        let t = sum_real(Seq::new(a1.len(), |i: int| a1[i].visits as int as real));
        let part = (1 as real / 10 as real) / (a1.len() as int as real);
        t > 0 as real && w.at(a1[j].cum_strat) / t > part && w.at(a1[i].cum_strat) / t < w.at(
            a1[j].cum_strat,
        ) / t ==> v.at(r.s1@[i].avg_strat) < v.at(r.s1@[j].avg_strat)
    } by {
        lemma_reported_order(v, w, a1, r.s1@, i, j);
    }
    assert forall|i: int, j: int|
        #![trigger r.s2@[i], r.s2@[j]]
        0 <= i < r.s2@.len() && 0 <= j < r.s2@.len() implies {
        let t = sum_real(Seq::new(a2.len(), |i: int| a2[i].visits as int as real));
        let part = (1 as real / 10 as real) / (a2.len() as int as real);
        t > 0 as real && w.at(a2[j].cum_strat) / t > part && w.at(a2[i].cum_strat) / t < w.at(
            a2[j].cum_strat,
        ) / t ==> v.at(r.s2@[i].avg_strat) < v.at(r.s2@[j].avg_strat)
    } by {
        lemma_reported_order(v, w, a2, r.s2@, i, j);
    }
}

proof fn lemma_reported_order<C, S: Single>(
    v: Reading<S>,
    w: Reading<S::Wide>,
    arms: Seq<MoveNode<C, S>>,
    results: Seq<MctsSideResult<C, S>>,
    i: int,
    j: int,
)
    requires
        fairly_reported(v, w, arms, results),
        0 <= i < results.len(),
        0 <= j < results.len(),
    ensures
        ({
            let t = sum_real(Seq::new(arms.len(), |i: int| arms[i].visits as int as real));
            let part = (1 as real / 10 as real) / (arms.len() as int as real);
            t > 0 as real && w.at(arms[j].cum_strat) / t > part && w.at(arms[i].cum_strat) / t
                < w.at(arms[j].cum_strat) / t ==> v.at(results[i].avg_strat) < v.at(
                results[j].avg_strat,
            )
        }),
{
    let counts = Seq::new(arms.len(), |i: int| arms[i].visits as int as real);
    assert(counts =~= visit_counts(arms));
    let t = sum_real(counts);
    let g = 1 as real / 10 as real;
    let part = g / (arms.len() as int as real);
    let cum = cum_strats(w, arms);
    let avg = Seq::new(results.len(), |i: int| v.at(results[i].avg_strat));
    if t > 0 as real && w.at(arms[j].cum_strat) / t > part && w.at(arms[i].cum_strat) / t < w.at(
        arms[j].cum_strat,
    ) / t {
        assert(surplus(cum, t, g, j) == w.at(arms[j].cum_strat) / t - part);
        assert(surplus(cum, t, g, i) == w.at(arms[i].cum_strat) / t - part);
        assert(avg[i] < avg[j]);
    }
}

/// A new tree has the root alone, with the moves of side one for side one and those of side two for
/// side two, in their order and without visits.
pub proof fn law_new_tree_holds_moves<C, I, S: Single>(
    s1_options: Vec<MoveChoice<C>>,
    s2_options: Vec<MoveChoice<C>>,
    r: Tree<C, I, S>,
)
    requires
        call_ensures(Tree::<C, I, S>::new, (s1_options, s2_options), r),
    ensures
        r.nodes@.len() == 1,
        r.nodes@[0].root,
        r.nodes@[0].parent is None,
        r.nodes@[0].depth == 0,
        r.nodes@[0].times_visited == 0,
        r.nodes@[0].children@ == Map::<u128, Bucket>::empty(),
        r.nodes@[0].s1_options is Some,
        r.nodes@[0].s2_options is Some,
        r.nodes@[0].s1_options->0@.len() == s1_options@.len(),
        r.nodes@[0].s2_options->0@.len() == s2_options@.len(),
        forall|i: int|
            #![trigger r.nodes@[0].s1_options->0@[i]]
            0 <= i < s1_options@.len() ==> {
                let arm = r.nodes@[0].s1_options->0@[i];
                &&& arm.move_choice == s1_options@[i]
                &&& arm.visits == 0
                &&& call_ensures(S::from_count, (0,), arm.total_score)
                &&& call_ensures(<S::Wide as Real>::from_count, (0,), arm.cum_strat)
                &&& call_ensures(<S::Wide as Real>::from_count, (0,), arm.curr_strat)
                &&& call_ensures(<S::Wide as Real>::from_count, (0,), arm.est_score)
            },
        forall|i: int|
            #![trigger r.nodes@[0].s2_options->0@[i]]
            0 <= i < s2_options@.len() ==> {
                let arm = r.nodes@[0].s2_options->0@[i];
                &&& arm.move_choice == s2_options@[i]
                &&& arm.visits == 0
                &&& call_ensures(S::from_count, (0,), arm.total_score)
                &&& call_ensures(<S::Wide as Real>::from_count, (0,), arm.cum_strat)
                &&& call_ensures(<S::Wide as Real>::from_count, (0,), arm.curr_strat)
                &&& call_ensures(<S::Wide as Real>::from_count, (0,), arm.est_score)
            },
{
    law_new_tree(s1_options, s2_options, r);
}

/// A search compares all its rounds with the engine's evaluation of the state that it starts from,
/// plays as many rounds as it reports, one after the other, and reports the moves that it was
/// given: those of side one for side one, those of side two for side two, each with the visits and
/// the score that it has at the root in the end. They are the moves that the root starts with.
pub proof fn law_search_runs_from_start<B: Battle, F: Fn(u32) -> bool>(
    v: Reading<B::Score>,
    w: Reading<<B::Score as Single>::Wide>,
    s: B,
    o1: Vec<MoveChoice<B::Choice>>,
    o2: Vec<MoveChoice<B::Choice>>,
    within_time: F,
    t: B,
    result: MctsResult<B::Choice, B::Score>,
    stats: SearchStats,
) -> (r: (
    B::Score,
    Seq<Seq<Node<B::Choice, B::Instruction, B::Score>>>,
    Seq<B>,
    Seq<int>,
    Seq<int>,
))
    requires
        v.exact(),
        w.exact(),
        linked_readings(v, w),
        call_ensures(
            perform_mcts_exp3::<B, F>,
            (s, o1, o2, within_time),
            Ok((t, result, stats)),
        ),
    ensures
        result.s1@.len() == o1@.len(),
        result.s2@.len() == o2@.len(),
        forall|i: int|
            0 <= i < o1@.len() ==> (#[trigger] result.s1@[i]).move_choice == o1@[i],
        forall|i: int|
            0 <= i < o2@.len() ==> (#[trigger] result.s2@[i]).move_choice == o2@[i],
        ({
            let (root_eval, trees, states, depths, added) = r;
            let k = result.iteration_count as int;
            &&& call_ensures(B::evaluate, (&s,), root_eval)
            &&& depths.len() == k
            &&& added.len() == k
            &&& trees.len() == k + 1
            &&& states.len() == k + 1
            &&& states[0] == s
            &&& states[k] == t
            &&& trees[0].len() == 1
            &&& trees[0][0].s1_options is Some
            &&& trees[0][0].s2_options is Some
            &&& trees[0][0].s1_options->0@.len() == o1@.len()
            &&& trees[0][0].s2_options->0@.len() == o2@.len()
            &&& forall|i: int|
                0 <= i < o1@.len() ==> (#[trigger] trees[0][0].s1_options->0@[i]).move_choice
                    == o1@[i]
            &&& forall|i: int|
                0 <= i < o2@.len() ==> (#[trigger] trees[0][0].s2_options->0@[i]).move_choice
                    == o2@[i]
            &&& forall|j: int|
                #![trigger trees[j]]
                0 <= j < k ==> iterated(
                    trees[j],
                    states[j],
                    root_eval,
                    trees[j + 1],
                    states[j + 1],
                    depths[j] as u16,
                    added[j] as u32,
                )
            &&& trees[k][0].s1_options is Some
            &&& trees[k][0].s2_options is Some
            &&& forall|i: int|
                #![trigger result.s1@[i]]
                0 <= i < o1@.len() ==> {
                    let arm = trees[k][0].s1_options->0@[i];
                    result.s1@[i].visits == arm.visits && result.s1@[i].total_score
                        == arm.total_score
                }
            &&& forall|i: int|
                #![trigger result.s2@[i]]
                0 <= i < o2@.len() ==> {
                    let arm = trees[k][0].s2_options->0@[i];
                    result.s2@[i].visits == arm.visits && result.s2@[i].total_score
                        == arm.total_score
                }
            &&& stats.nodes_expanded == sum_int(added)
            &&& stats.total_depth == sum_int(depths)
            &&& forall|j: int|
                0 <= j < depths.len() ==> 0 <= #[trigger] depths[j] <= stats.max_depth
            &&& k > 0 ==> exists|j: int|
                0 <= j < depths.len() && #[trigger] depths[j] == stats.max_depth
        }),
{
    law_search_reported(v, w, s, o1, o2, within_time, t, result, stats);
    let (root_eval, trees, states, depths, added) = choose|
        root_eval: B::Score,
        trees: Seq<Seq<Node<B::Choice, B::Instruction, B::Score>>>,
        states: Seq<B>,
        depths: Seq<int>,
        added: Seq<int>,
    | #[trigger]
        reported_after(
            v,
            w,
            s,
            o1@,
            o2@,
            root_eval,
            trees,
            states,
            depths,
            added,
            t,
            result,
            stats,
        );
    (root_eval, trees, states, depths, added)
}

/// The score of a battle that goes on is, in odds, the exponential of an eightieth of how far its
/// evaluation `eval` is above that of the root.
pub proof fn law_rollout_odds<
    C,
    I,
    S: Single,
    B: Battle<Choice = C, Instruction = I, Score = S>,
>(v: Reading<S>, s: B, root_eval: S, r: S, eval: real)
    requires
        v.exact(),
        readable(v, s),
        goes_on(v, s),
        v.has(root_eval),
        in_range(v, s, root_eval),
        forall|x: S| #[trigger] call_ensures(B::evaluate, (&s,), x) ==> v.at(x) == eval,
        call_ensures(Node::<C, I, S>::rollout::<B>, (&s, root_eval), r),
    ensures
        v.has(r),
        v.at(r) * (v.exp)(-((eval - v.at(root_eval)) / 80 as real)) == 1 as real - v.at(r),
{
    law_rollout::<C, I, S, B>(v, s, root_eval, r);
}

/// At every node that a walk changes, and where it ends, each side has a distribution over its own
/// moves: the probabilities add up to one, each is at least a tenth of an even share, and a larger
/// estimated score has a larger one. The same holds of both sides.
pub proof fn law_walk_distributes<B: Battle>(
    w: Reading<<B::Score as Single>::Wide>,
    old: Seq<Node<B::Choice, B::Instruction, B::Score>>,
    at: int,
    s: B,
    new: Seq<Node<B::Choice, B::Instruction, B::Score>>,
    n: int,
    i1: usize,
    i2: usize,
    t: B,
    x: int,
    one: bool,
)
    requires
        w.exact(),
        well_formed(old),
        0 <= at < old.len(),
        selected(old, at, s, new, n, i1, i2, t),
        0 <= x < old.len(),
        x == n || new[x] != old[x],
    ensures
        new[x].options(one) is Some,
        new[x].options(one)->0@.len() > 0,
        ({
            let arms = new[x].options(one)->0@;
            let part = (1 as real / 10 as real) / (arms.len() as int as real);
            (forall|i: int| 0 <= i < arms.len() ==> w.has((#[trigger] arms[i]).est_score)) ==> {
                &&& forall|i: int| 0 <= i < arms.len() ==> w.has((#[trigger] arms[i]).curr_strat)
                &&& sum_real(Seq::new(arms.len(), |i: int| w.at(arms[i].curr_strat))) == 1 as real
                &&& forall|i: int|
                    0 <= i < arms.len() ==> w.at((#[trigger] arms[i]).curr_strat) >= part
                &&& forall|i: int, j: int|
                    #![trigger arms[i], arms[j]]
                    0 <= i < arms.len() && 0 <= j < arms.len() && w.at(arms[i].est_score) < w.at(
                        arms[j].est_score,
                    ) ==> w.at(arms[i].curr_strat) < w.at(arms[j].curr_strat)
                &&& forall|i: int, j: int|
                    #![trigger arms[i], arms[j]]
                    0 <= i < arms.len() && 0 <= j < arms.len() ==> (w.at(arms[i].curr_strat) - part)
                        * (w.exp)(part * w.at(arms[j].est_score)) == (w.at(arms[j].curr_strat)
                        - part) * (w.exp)(part * w.at(arms[i].est_score))
            }
        }),
{
    law_walk(w, old, at, s, new, n, i1, i2, t);
    let (path, states) = choose|path: Seq<int>, states: Seq<B>|
        {
            &&& #[trigger] walked(w, old, at, s, new, path, states)
            &&& path.last() == n
            &&& states.last() == t
        };
    let (u, a, b) = if x == n {
        (t, i1, i2)
    } else {
        lemma_step_at(w, old, at, s, new, path, states, x)
    };
    lemma_both_distribute(w, old[x], u, new[x], a, b, one);
}

/// Where both sides drew, each has a distribution.
proof fn lemma_both_distribute<B: Battle>(
    w: Reading<<B::Score as Single>::Wide>,
    old: Node<B::Choice, B::Instruction, B::Score>,
    s: B,
    new: Node<B::Choice, B::Instruction, B::Score>,
    a: usize,
    b: usize,
    one: bool,
)
    requires
        both_drew(w, old, s, new, a, b),
    ensures
        new.options(one) is Some,
        new.options(one)->0@.len() > 0,
        (forall|i: int|
            0 <= i < new.options(one)->0@.len() ==> w.has(
                (#[trigger] new.options(one)->0@[i]).est_score,
            )) ==> distributed(w, new.options(one)->0@),
{
    let (s1, s2) = choose|
        s1: Seq<MoveNode<B::Choice, B::Score>>,
        s2: Seq<MoveNode<B::Choice, B::Score>>,
    |
        {
            &&& #[trigger] offered(old, s, s1, s2)
            &&& drawn_by_exp3(w, s1, new.s1_options->0@, Ok(a))
            &&& drawn_by_exp3(w, s2, new.s2_options->0@, Ok(b))
        };
    if forall|i: int|
        0 <= i < new.options(one)->0@.len() ==> w.has(
            (#[trigger] new.options(one)->0@[i]).est_score,
        ) {
        if one {
            lemma_distribution(w, s1, new.s1_options->0@, Ok(a));
        } else {
            lemma_distribution(w, s2, new.s2_options->0@, Ok(b));
        }
    }
}

/// At a node on the way both sides drew.
proof fn lemma_step_at<B: Battle>(
    w: Reading<<B::Score as Single>::Wide>,
    old: Seq<Node<B::Choice, B::Instruction, B::Score>>,
    at: int,
    s: B,
    new: Seq<Node<B::Choice, B::Instruction, B::Score>>,
    path: Seq<int>,
    states: Seq<B>,
    x: int,
) -> (r: (B, usize, usize))
    requires
        walked(w, old, at, s, new, path, states),
        0 <= x < old.len(),
        x != path.last(),
        new[x] != old[x],
    ensures
        both_drew(w, old[x], r.0, new[x], r.1, r.2),
{
    assert(path.contains(x));
    let k = choose|k: int| 0 <= k < path.len() && path[k] == x;
    assert(stepped(w, old, path[k], states[k], new[path[k]], path[k + 1], states[k + 1]));
    let (a, b) = choose|a: usize, b: usize| #[trigger]
        both_drew(w, old[x], states[k], new[x], a, b);
    (states[k], a, b)
}

/// The probabilities of the moves add up to one, each is at least a tenth of an even share, and
/// what they are above that is in the ratio of the exponentials of the scaled scores.
spec fn distributed<C, S: Single>(w: Reading<S::Wide>, arms: Seq<MoveNode<C, S>>) -> bool {
    let part = (1 as real / 10 as real) / (arms.len() as int as real);
    &&& forall|i: int| 0 <= i < arms.len() ==> w.has((#[trigger] arms[i]).curr_strat)
    &&& sum_real(Seq::new(arms.len(), |i: int| w.at(arms[i].curr_strat))) == 1 as real
    &&& forall|i: int| 0 <= i < arms.len() ==> w.at((#[trigger] arms[i]).curr_strat) >= part
    &&& forall|i: int, j: int|
        #![trigger arms[i], arms[j]]
        0 <= i < arms.len() && 0 <= j < arms.len() && w.at(arms[i].est_score) < w.at(
            arms[j].est_score,
        ) ==> w.at(arms[i].curr_strat) < w.at(arms[j].curr_strat)
    &&& forall|i: int, j: int|
        #![trigger arms[i], arms[j]]
        0 <= i < arms.len() && 0 <= j < arms.len() ==> (w.at(arms[i].curr_strat) - part) * (w.exp)(
            part * w.at(arms[j].est_score),
        ) == (w.at(arms[j].curr_strat) - part) * (w.exp)(part * w.at(arms[i].est_score))
}

proof fn lemma_distribution<C, S: Single>(
    w: Reading<S::Wide>,
    old: Seq<MoveNode<C, S>>,
    arms: Seq<MoveNode<C, S>>,
    r: Result<usize, WeightError>,
)
    requires
        drawn_by_exp3(w, old, arms, r),
        arms.len() > 0,
        forall|i: int| 0 <= i < arms.len() ==> w.has((#[trigger] arms[i]).est_score),
    ensures
        distributed(w, arms),
{
    assert forall|i: int| 0 <= i < old.len() implies w.has((#[trigger] old[i]).est_score) by {
        assert(w.has(arms[i].est_score));
    }
    let p = readings(w, curr_strats(arms));
    assert(p =~= Seq::new(arms.len(), |i: int| w.at(arms[i].curr_strat)));
    let part = (1 as real / 10 as real) / (arms.len() as int as real);
    assert forall|i: int| 0 <= i < arms.len() implies w.at((#[trigger] arms[i]).curr_strat)
        >= part by {
        assert(p[i] == w.at(arms[i].curr_strat));
    }
    assert forall|i: int, j: int|
        #![trigger arms[i], arms[j]]
        0 <= i < arms.len() && 0 <= j < arms.len() && w.at(arms[i].est_score) < w.at(
            arms[j].est_score,
        ) implies w.at(arms[i].curr_strat) < w.at(arms[j].curr_strat) by {
        assert(p[i] == w.at(arms[i].curr_strat) && p[j] == w.at(arms[j].curr_strat));
    }
    assert forall|i: int, j: int|
        #![trigger arms[i], arms[j]]
        0 <= i < arms.len() && 0 <= j < arms.len() implies (w.at(arms[i].curr_strat) - part) * (
    w.exp)(part * w.at(arms[j].est_score)) == (w.at(arms[j].curr_strat) - part) * (w.exp)(
        part * w.at(arms[i].est_score),
    ) by {
        assert(p[i] == w.at(arms[i].curr_strat) && p[j] == w.at(arms[j].curr_strat));
    }
}

/// A round scores the state that it has come to, and pays that score. There is a way from a visited
/// node up to the root, parent by parent, all of them visited, on which the engine takes the battle
/// back from a state `u` to where the round leaves it, by what led to each node. The score of `u`
/// is what the moves of side one on that way are paid.
#[verifier::rlimit(60)]
pub proof fn law_round_scores_what_it_reached<B: Battle>(
    v: Reading<B::Score>,
    w: Reading<<B::Score as Single>::Wide>,
    old: Seq<Node<B::Choice, B::Instruction, B::Score>>,
    s: B,
    root_eval: B::Score,
    new: Seq<Node<B::Choice, B::Instruction, B::Score>>,
    t: B,
    depth: u16,
    added: u32,
)
    requires
        v.exact(),
        w.exact(),
        linked_readings(v, w),
        well_formed(old),
        new.len() <= usize::MAX,
        iterated(old, s, root_eval, new, t, depth, added),
        v.has(root_eval),
        forall|u: B| #[trigger] readable(v, u),
        forall|u: B| #[trigger] in_range(v, u, root_eval),
    ensures
        exists|u: B, won: B::Score, way: Seq<int>, states: Seq<B>|
            {
                &&& #[trigger] fair_score(v, u, root_eval, won)
                &&& #[trigger] way.len() > 0
                &&& #[trigger] states.len() == way.len()
                &&& 0 <= way[0] < new.len()
                &&& new[way[0]].depth == depth
                &&& way.last() == 0
                &&& states[0] == u
                &&& states.last() == t
                &&& forall|k: int|
                    #![trigger way[k]]
                    0 <= k < way.len() - 1 ==> {
                        let c = new[way[k]];
                        let p = way[k + 1];
                        &&& c.parent is Some
                        &&& c.parent->0 == p
                        &&& call_ensures(
                            B::reverse_instructions,
                            (states[k], &c.instructions.instruction_list),
                            states[k + 1],
                        )
                        &&& 0 <= p < old.len()
                        &&& new[p].times_visited == old[p].times_visited + 1
                        &&& old[p].s1_options is Some ==> call_ensures(
                            <B::Score as Real>::plus,
                            (old[p].s1_options->0@[c.s1_choice as int].total_score, won),
                            new[p].s1_options->0@[c.s1_choice as int].total_score,
                        )
                    }
            },
{
    let round = choose|round: Round<B>| #[trigger]
        is_round(old, s, root_eval, round, new, t, depth, added);
    lemma_course(v, w, old, s, root_eval, round, new, t, depth, added);
    let (u, won) = (round.scored, round.score);
    assert(readable(v, u));
    assert(in_range(v, u, root_eval));
    let (way, states) = lemma_climb(v, w, old, s, root_eval, round, new, t, depth, added);
    assert(fair_score(v, u, root_eval, won));
    assert(way.len() == states.len());
}

/// The way up from the scored node, with what is known of each step.
proof fn lemma_climb<B: Battle>(
    v: Reading<B::Score>,
    w: Reading<<B::Score as Single>::Wide>,
    old: Seq<Node<B::Choice, B::Instruction, B::Score>>,
    s: B,
    root_eval: B::Score,
    round: Round<B>,
    new: Seq<Node<B::Choice, B::Instruction, B::Score>>,
    t: B,
    depth: u16,
    added: u32,
) -> (r: (Seq<int>, Seq<B>))
    requires
        well_formed(old),
        new.len() <= usize::MAX,
        is_round(old, s, root_eval, round, new, t, depth, added),
        took_course(v, w, old, s, root_eval, round, new, t, depth, added),
    ensures
        r.0.len() > 0,
        r.1.len() == r.0.len(),
        0 <= r.0[0] < new.len(),
        new[r.0[0]].depth == depth,
        r.0.last() == 0,
        r.1[0] == round.scored,
        r.1.last() == t,
        climbs(old, new, round.score, r.0, r.1),
{
    let (lost, way, states) = lemma_parts(
        v,
        w,
        old,
        s,
        root_eval,
        round,
        new,
        t,
        depth,
        added,
    );
    lemma_settled_place(v, w, round.larger, round.leaf, round.score, lost, new, round.leaf);
    assert forall|k: int| #![trigger way[k]] 0 <= k < way.len() - 1 implies climbed::<B>(
        old,
        new,
        round.score,
        way[k],
        way[k + 1],
        states[k],
        states[k + 1],
    ) by {
        lemma_way_visited(
            v,
            w,
            old,
            s,
            root_eval,
            round,
            new,
            t,
            depth,
            added,
            lost,
            way,
            states,
            k,
        );
    }
    (way, states)
}

/// One step up from the node at `c` to that at `p`, from state `s` to `t`.
spec fn climbed<B: Battle>(
    old: Seq<Node<B::Choice, B::Instruction, B::Score>>,
    new: Seq<Node<B::Choice, B::Instruction, B::Score>>,
    won: B::Score,
    c: int,
    p: int,
    s: B,
    t: B,
) -> bool {
    &&& new[c].parent is Some
    &&& new[c].parent->0 == p
    &&& call_ensures(
        B::reverse_instructions,
        (s, &new[c].instructions.instruction_list),
        t,
    )
    &&& 0 <= p < old.len()
    &&& new[p].times_visited == old[p].times_visited + 1
    &&& old[p].s1_options is Some ==> call_ensures(
        <B::Score as Real>::plus,
        (old[p].s1_options->0@[new[c].s1_choice as int].total_score, won),
        new[p].s1_options->0@[new[c].s1_choice as int].total_score,
    )
}

/// All steps on the way up.
spec fn climbs<B: Battle>(
    old: Seq<Node<B::Choice, B::Instruction, B::Score>>,
    new: Seq<Node<B::Choice, B::Instruction, B::Score>>,
    won: B::Score,
    way: Seq<int>,
    states: Seq<B>,
) -> bool {
    forall|k: int|
        #![trigger way[k]]
        0 <= k < way.len() - 1 ==> climbed::<B>(
            old,
            new,
            won,
            way[k],
            way[k + 1],
            states[k],
            states[k + 1],
        )
}

/// What side two was paid, and the way up.
proof fn lemma_parts<B: Battle>(
    v: Reading<B::Score>,
    w: Reading<<B::Score as Single>::Wide>,
    old: Seq<Node<B::Choice, B::Instruction, B::Score>>,
    s: B,
    root_eval: B::Score,
    round: Round<B>,
    new: Seq<Node<B::Choice, B::Instruction, B::Score>>,
    t: B,
    depth: u16,
    added: u32,
) -> (r: (B::Score, Seq<int>, Seq<B>))
    requires
        took_course(v, w, old, s, root_eval, round, new, t, depth, added),
    ensures
        settled(v, w, round.larger, round.leaf, round.score, r.0, new),
        taken_back(round.larger, round.leaf, round.scored, t, r.1, r.2),
{
    let (way, states) = choose|way: Seq<int>, states: Seq<B>| #[trigger]
        taken_back(round.larger, round.leaf, round.scored, t, way, states);
    let (one, lost) = choose|one: B::Score, lost: B::Score|
        {
            &&& call_ensures(<B::Score as Real>::from_count, (1,), one)
            &&& #[trigger] call_ensures(<B::Score as Real>::minus, (one, round.score), lost)
            &&& settled(v, w, round.larger, round.leaf, round.score, lost, new)
        };
    (lost, way, states)
}

/// A step on the way up.
proof fn lemma_way_visited<B: Battle>(
    v: Reading<B::Score>,
    w: Reading<<B::Score as Single>::Wide>,
    old: Seq<Node<B::Choice, B::Instruction, B::Score>>,
    s: B,
    root_eval: B::Score,
    round: Round<B>,
    new: Seq<Node<B::Choice, B::Instruction, B::Score>>,
    t: B,
    depth: u16,
    added: u32,
    lost: B::Score,
    way: Seq<int>,
    states: Seq<B>,
    k: int,
)
    requires
        well_formed(old),
        new.len() <= usize::MAX,
        is_round(old, s, root_eval, round, new, t, depth, added),
        took_course(v, w, old, s, root_eval, round, new, t, depth, added),
        settled(v, w, round.larger, round.leaf, round.score, lost, new),
        taken_back(round.larger, round.leaf, round.scored, t, way, states),
        0 <= k < way.len() - 1,
    ensures
        new[way[k]].parent is Some,
        new[way[k]].parent->0 == way[k + 1],
        call_ensures(
            B::reverse_instructions,
            (states[k], &new[way[k]].instructions.instruction_list),
            states[k + 1],
        ),
        0 <= way[k + 1] < old.len(),
        new[way[k + 1]].times_visited == old[way[k + 1]].times_visited + 1,
        old[way[k + 1]].s1_options is Some ==> call_ensures(
            <B::Score as Real>::plus,
            (
                old[way[k + 1]].s1_options->0@[new[way[k]].s1_choice as int].total_score,
                round.score,
            ),
            new[way[k + 1]].s1_options->0@[new[way[k]].s1_choice as int].total_score,
        ),
{
    let (larger, leaf) = (round.larger, round.leaf);
    lemma_selected(old, 0, s, round.walked, round.n, round.i1, round.i2, round.reached);
    lemma_expanded(
        round.walked,
        round.n,
        round.i1,
        round.i2,
        round.reached,
        larger,
        leaf,
        added,
        round.scored,
    );
    lemma_way_up(v, w, larger, leaf, round.score, lost, new, round.scored, t, way, states, k);
    let (c, p) = (way[k], way[k + 1]);
    lemma_settled_place(v, w, larger, leaf, round.score, lost, new, c);
    assert(p < old.len()) by {
        lemma_way_falls(larger, leaf, round.scored, t, way, states, k + 1);
        assert(larger[way[0]].parent->0 == way[1]);
        assert(linked(larger, leaf));
    }
    assert(relisted(old[p], round.walked[p]));
    assert(larger[p] == (Node { children: larger[p].children, ..round.walked[p] }));
    if old[p].s1_options is Some {
        let (path, track) = choose|path: Seq<int>, track: Seq<B>|
            {
                &&& #[trigger] walked(w, old, 0, s, round.walked, path, track)
                &&& path.last() == round.n
                &&& track.last() == round.reached
            };
        assert(old[p].s1_options is Some <==> old[p].s2_options is Some);
        lemma_walked_keeps(
            w,
            old,
            s,
            round.walked,
            round.i1,
            round.i2,
            round.reached,
            path,
            track,
            p,
        );
    }
}

/// All nodes on the way up are visited, and the moves that lead from one to the next are paid.
proof fn lemma_way_up<B: Battle>(
    v: Reading<B::Score>,
    w: Reading<<B::Score as Single>::Wide>,
    nodes: Seq<Node<B::Choice, B::Instruction, B::Score>>,
    leaf: int,
    won: B::Score,
    lost: B::Score,
    new: Seq<Node<B::Choice, B::Instruction, B::Score>>,
    s: B,
    t: B,
    way: Seq<int>,
    states: Seq<B>,
    k: int,
)
    requires
        well_formed(nodes),
        settled(v, w, nodes, leaf, won, lost, new),
        taken_back(nodes, leaf, s, t, way, states),
        0 <= k < way.len() - 1,
    ensures
        visited_again(nodes, new, way[k]),
        0 < way[k],
        nodes[way[k]].parent is Some,
        nodes[way[k]].parent->0 == way[k + 1],
        visited_again(nodes, new, way[k + 1]),
        side_paid(
            v,
            w,
            nodes[way[k + 1]].s1_options,
            nodes[way[k]].s1_choice,
            won,
            new[way[k + 1]].s1_options,
        ),
    decreases k,
{
    reveal(settled);
    if k > 0 {
        lemma_way_up(v, w, nodes, leaf, won, lost, new, s, t, way, states, k - 1);
    }
    assert(visited_again(nodes, new, way[k]));
}

/// A settlement leaves every node in its place.
proof fn lemma_settled_place<C, I, S: Single>(
    v: Reading<S>,
    w: Reading<S::Wide>,
    old: Seq<Node<C, I, S>>,
    leaf: int,
    won: S,
    lost: S,
    new: Seq<Node<C, I, S>>,
    x: int,
)
    requires
        settled(v, w, old, leaf, won, lost, new),
        0 <= x < old.len(),
    ensures
        new.len() == old.len(),
        stays_put(old[x], new[x]),
{
    reveal(settled);
    assert(stays_put(old[x], new[x]));
}

/// The way up leads to nodes that stand further and further in front.
proof fn lemma_way_falls<B: Battle>(
    nodes: Seq<Node<B::Choice, B::Instruction, B::Score>>,
    leaf: int,
    s: B,
    t: B,
    way: Seq<int>,
    states: Seq<B>,
    k: int,
)
    requires
        taken_back(nodes, leaf, s, t, way, states),
        1 <= k < way.len(),
    ensures
        way[k] <= way[1],
    decreases k,
{
    if k > 1 {
        lemma_way_falls(nodes, leaf, s, t, way, states, k - 1);
        assert(way[k - 1] <= way[1]);
    }
}

/// Where scoring breaks off, the error names the side of a move that was just paid and whose
/// estimated score is then no finite number. Where that is side two, the move of side one at the
/// same node was paid before, and its estimated score is one.
pub proof fn law_error_names_side<C, I, S: Single>(
    v: Reading<S>,
    w: Reading<S::Wide>,
    old: Seq<Node<C, I, S>>,
    leaf: int,
    score: S,
    side: Side,
    new: Seq<Node<C, I, S>>,
)
    requires
        w.exact(),
        linked_readings(v, w),
        well_formed(old),
        0 <= leaf < old.len(),
        broke_off(old, leaf, score, side, new),
    ensures
        side == Side::One ==> exists|x: int, i: int|
            {
                &&& 0 <= x < old.len()
                &&& #[trigger] new[x].s1_options->0@[i].visits == old[x].s1_options->0@[i].visits
                    + 1
                &&& call_ensures(
                    S::plus,
                    (old[x].s1_options->0@[i].total_score, score),
                    new[x].s1_options->0@[i].total_score,
                )
                &&& call_ensures(
                    <S::Wide as Real>::is_finite,
                    (new[x].s1_options->0@[i].est_score,),
                    false,
                )
                &&& new[x].s2_options == old[x].s2_options
            },
        side == Side::Two ==> exists|x: int, i: int, j: int|
            {
                &&& 0 <= x < old.len()
                &&& #[trigger] new[x].s1_options->0@[i].visits == old[x].s1_options->0@[i].visits
                    + 1
                &&& call_ensures(
                    <S::Wide as Real>::is_finite,
                    (new[x].s1_options->0@[i].est_score,),
                    true,
                )
                &&& #[trigger] new[x].s2_options->0@[j].visits == old[x].s2_options->0@[j].visits
                    + 1
                &&& call_ensures(
                    <S::Wide as Real>::is_finite,
                    (new[x].s2_options->0@[j].est_score,),
                    false,
                )
            },
{
    law_broke_off(v, w, old, leaf, score, side, new);
    let (one, lost, p, c) = choose|one: S, lost: S, p: int, c: int|
        {
            &&& call_ensures(S::from_count, (1,), one)
            &&& #[trigger] call_ensures(S::minus, (one, score), lost)
            &&& #[trigger] unsettled(v, w, old, leaf, score, lost, side, p, c, new)
        };
    let (i, j) = (old[c].s1_choice as int, old[c].s2_choice as int);
    assert(new[p].s1_options->0@[i].visits == old[p].s1_options->0@[i].visits + 1);
    if side == Side::Two {
        assert(new[p].s2_options->0@[j].visits == old[p].s2_options->0@[j].visits + 1);
    }
}

/// After visits, but with no move whose mean probability is above its part of `gamma`, the average
/// strategy is even.
pub proof fn law_average_without_surplus<C, S: Single>(
    v: Reading<S>,
    w: Reading<S::Wide>,
    side_map: &[MoveNode<C, S>],
    gamma: S::Wide,
    r: Vec<S>,
    i: int,
)
    requires
        v.exact(),
        w.exact(),
        linked_readings(v, w),
        visit_sum(side_map@) <= u64::MAX,
        w.has(gamma),
        forall|i: int| 0 <= i < side_map@.len() ==> w.has((#[trigger] side_map@[i]).cum_strat),
        call_ensures(average_strategy::<C, S>, (side_map, gamma), r),
        ({
            let t = sum_real(
                Seq::new(side_map@.len(), |i: int| side_map@[i].visits as int as real),
            );
            forall|i: int|
                0 <= i < side_map@.len() ==> w.at((#[trigger] side_map@[i]).cum_strat) / t <= w.at(
                    gamma,
                ) / (side_map@.len() as int as real)
        }),
        0 <= i < side_map@.len(),
    ensures
        r@.len() == side_map@.len(),
        v.has(r@[i]),
        v.at(r@[i]) == 1 as real / (side_map@.len() as int as real),
{
    law_average_strategy(v, w, side_map, gamma, r);
    let counts = Seq::new(side_map@.len(), |i: int| side_map@[i].visits as int as real);
    assert(counts =~= visit_counts(side_map@));
    let t = sum_real(counts);
    let cum = cum_strats(w, side_map@);
    assert forall|i: int| 0 <= i < cum.len() implies #[trigger] surplus(cum, t, w.at(gamma), i)
        <= 0 as real by {
        assert(w.at(side_map@[i].cum_strat) / t <= w.at(gamma) / (
        side_map@.len() as int as real));
    }
    assert(readings(v, r@)[i] == v.at(r@[i]));
}

/// The visits of all moves are those of each, added up.
pub proof fn law_total_visits<C, S: Single>(side_map: &[MoveNode<C, S>], r: u64)
    requires
        visit_sum(side_map@) <= u64::MAX,
        call_ensures(total_visits::<C, S>, (side_map,), r),
    ensures
        r as int as real == sum_real(
            Seq::new(side_map@.len(), |i: int| side_map@[i].visits as int as real),
        ),
{
    lemma_visit_counts(side_map@);
    assert(visit_counts(side_map@) =~= Seq::new(
        side_map@.len(),
        |i: int| side_map@[i].visits as int as real,
    ));
}

/// A move that has just been listed has no visits and no scores.
pub proof fn law_new_move<C, S: Single>(choice: MoveChoice<C>, r: MoveNode<C, S>)
    requires
        call_ensures(MoveNode::<C, S>::new, (choice,), r),
    ensures
        r.move_choice == choice,
        r.visits == 0,
        call_ensures(S::from_count, (0,), r.total_score),
        call_ensures(<S::Wide as Real>::from_count, (0,), r.cum_strat),
        call_ensures(<S::Wide as Real>::from_count, (0,), r.curr_strat),
        call_ensures(<S::Wide as Real>::from_count, (0,), r.est_score),
{
    assert(evaluates(Expr::Count(0), r.total_score));
    assert(evaluates(Expr::Count(0), r.cum_strat));
    assert(evaluates(Expr::Count(0), r.curr_strat));
    assert(evaluates(Expr::Count(0), r.est_score));
}

/// A new node keeps its instructions, and nothing else is known of it.
pub proof fn law_new_node<C, I, S: Single>(
    instructions: StateInstructions<I, S>,
    r: Node<C, I, S>,
)
    requires
        call_ensures(Node::<C, I, S>::new, (instructions,), r),
    ensures
        r.instructions == instructions,
        !r.root,
        r.parent is None,
        r.children@ == Map::<u128, Bucket>::empty(),
        r.times_visited == 0,
        call_ensures(S::from_count, (0,), r.total_score),
        r.depth == 0,
        r.s1_choice == 0,
        r.s2_choice == 0,
        r.s1_options is None,
        r.s2_options is None,
{
    assert(evaluates(Expr::Count(0), r.total_score));
}

/// Setting moves beside a strategy keeps them in order and changes nothing of either.
pub proof fn law_side_results<C, S: Single>(
    options: Vec<MoveNode<C, S>>,
    avg: Vec<S>,
    r: Vec<MctsSideResult<C, S>>,
    i: int,
)
    requires
        avg@.len() == options@.len(),
        call_ensures(side_results::<C, S>, (options, &avg), r),
        0 <= i < options@.len(),
    ensures
        r@.len() == options@.len(),
        r@[i].move_choice == options@[i].move_choice,
        r@[i].total_score == options@[i].total_score,
        r@[i].visits == options@[i].visits,
        r@[i].avg_strat == avg@[i],
{
}

/// A draw by shares gives an index with a share, and none where there are no shares, where a share
/// is missing, or where all are zero.
pub proof fn law_draw_by_share(portions: Vec<Option<u64>>, r: Result<usize, WeightError>)
    requires
        call_ensures(draw_by_share, (&portions,), r),
    ensures
        r is Ok ==> r->Ok_0 < portions@.len() && portions@[r->Ok_0 as int] is Some
            && portions@[r->Ok_0 as int]->0 > 0,
        portions@.len() == 0 ==> r == Err::<usize, WeightError>(WeightError::InvalidInput),
        (exists|i: int| 0 <= i < portions@.len() && #[trigger] portions@[i] is None) ==> r == Err::<
            usize,
            WeightError,
        >(WeightError::InvalidWeight),
        portions@.len() > 0 && (forall|i: int|
            0 <= i < portions@.len() ==> #[trigger] portions@[i] == Some(0u64)) ==> r == Err::<
            usize,
            WeightError,
        >(WeightError::InsufficientNonZero),
        r is Err ==> portions@.len() == 0 || (exists|i: int|
            0 <= i < portions@.len() && #[trigger] portions@[i] is None) || weight_sum(
            share_weights(portions@),
        ) == 0 || weight_sum(share_weights(portions@)) > u64::MAX,
{
    if portions@.len() > 0 && (forall|i: int|
        0 <= i < portions@.len() ==> #[trigger] portions@[i] == Some(0u64)) {
        assert forall|i: int| 0 <= i < portions@.len() implies !(
        #[trigger] portions@[i] is None) by {
            assert(portions@[i] == Some(0u64));
        }
        let ws = share_weights(portions@);
        assert forall|i: int| 0 <= i < ws.len() implies #[trigger] ws[i] == 0 by {
            assert(portions@[i] == Some(0u64));
        }
        lemma_weights_zero(ws);
    }
}

proof fn lemma_weights_zero(ws: Seq<u64>)
    requires
        forall|i: int| 0 <= i < ws.len() ==> #[trigger] ws[i] == 0,
    ensures
        weight_sum(ws) == 0,
    decreases ws.len(),
{
    if ws.len() > 0 {
        assert forall|i: int| 0 <= i < ws.drop_last().len() implies #[trigger] ws.drop_last()[i]
            == 0 by {
            assert(ws.drop_last()[i] == ws[i]);
        }
        lemma_weights_zero(ws.drop_last());
        assert(ws.last() == ws[ws.len() - 1]);
    }
}

/// The outcomes of a pair of moves are looked up under a key of that pair alone.
pub proof fn law_outcomes<C, I, S: Single>(
    node: Node<C, I, S>,
    a: usize,
    b: usize,
    r: Option<Bucket>,
)
    requires
        call_ensures(Node::<C, I, S>::outcomes, (&node, a, b), r),
    ensures
        ({
            let key = (a * 0x1_0000_0000_0000_0000 + b) as u128;
            &&& r is Some <==> node.children@.contains_key(key)
            &&& r is Some ==> r->0 == node.children@[key]
        }),
{
}

} // verus!
