//! What the functions of the search do, told of the calls themselves.

use crate::arm::MoveNode;
use crate::backpropagate::{credited, reversed_along, SearchError};
use crate::battle::{Battle, MoveChoice, StateInstructions};
use crate::conduct::{
    law_nothing_is_played, law_settled, law_walk_lists, settled, side_paid, visited_again,
};
use crate::exact::{linked_readings, max_real, sum_real, Reading};
use crate::exp3::{exp3_drawn, note_strategy};
use crate::expand::expanded;
use crate::iteration::{do_mcts, iterated};
use crate::node::Node;
use crate::number::{evaluates, op_gives, Expr, Op, Real, Single};
use crate::payoffs::goes_on;
use crate::promises::{law_draw_notes_distribution, law_turn_is_played};
use crate::search::SearchStats;
use crate::selection::selected;
use crate::tree::{linked, path_to, Tree};
use crate::weighted::WeightError;
use vstd::prelude::*;

verus! {

/// Listing moves at a node puts the given moves of side one and of side two each on their side, in
/// their order and without visits, and leaves the node as it was otherwise.
pub proof fn law_populate<C, I, S: Single>(
    node: &mut Node<C, I, S>,
    s1_options: Vec<MoveChoice<C>>,
    s2_options: Vec<MoveChoice<C>>,
)
    requires
        call_ensures(Node::<C, I, S>::populate, (node, s1_options, s2_options), ()),
    ensures
        final(node).s1_options is Some,
        final(node).s2_options is Some,
        final(node).s1_options->0@.len() == s1_options@.len(),
        final(node).s2_options->0@.len() == s2_options@.len(),
        forall|i: int|
            #![trigger final(node).s1_options->0@[i]]
            0 <= i < s1_options@.len() ==> final(node).s1_options->0@[i].move_choice
                == s1_options@[i] && final(node).s1_options->0@[i].visits == 0,
        forall|i: int|
            #![trigger final(node).s2_options->0@[i]]
            0 <= i < s2_options@.len() ==> final(node).s2_options->0@[i].move_choice
                == s2_options@[i] && final(node).s2_options->0@[i].visits == 0,
        final(node).root == old(node).root,
        final(node).parent == old(node).parent,
        final(node).children == old(node).children,
        final(node).times_visited == old(node).times_visited,
        final(node).total_score == old(node).total_score,
        final(node).depth == old(node).depth,
        final(node).instructions == old(node).instructions,
        final(node).s1_choice == old(node).s1_choice,
        final(node).s2_choice == old(node).s2_choice,
{
    assert forall|i: int|
        #![trigger final(node).s1_options->0@[i]]
        0 <= i < s1_options@.len() implies final(node).s1_options->0@[i].move_choice
        == s1_options@[i] && final(node).s1_options->0@[i].visits == 0 by {
        assert(final(node).s1_options->0@[i].is_new(s1_options@[i]));
    }
    assert forall|i: int|
        #![trigger final(node).s2_options->0@[i]]
        0 <= i < s2_options@.len() implies final(node).s2_options->0@[i].move_choice
        == s2_options@[i] && final(node).s2_options->0@[i].visits == 0 by {
        assert(final(node).s2_options->0@[i].is_new(s2_options@[i]));
    }
}

/// Noting a strategy gives each move its probability and adds it to its sum. All else stays.
pub proof fn law_note_strategy<C, S: Single>(
    side_map: &mut [MoveNode<C, S>],
    strategy: Vec<S::Wide>,
    i: int,
)
    requires
        strategy@.len() == old(side_map)@.len(),
        call_ensures(note_strategy::<C, S>, (side_map, &strategy), ()),
        0 <= i < old(side_map)@.len(),
    ensures
        final(side_map)@.len() == old(side_map)@.len(),
        final(side_map)@[i].curr_strat == strategy@[i],
        call_ensures(
            <S::Wide as Real>::plus,
            (old(side_map)@[i].cum_strat, strategy@[i]),
            final(side_map)@[i].cum_strat,
        ),
        final(side_map)@[i].move_choice == old(side_map)@[i].move_choice,
        final(side_map)@[i].total_score == old(side_map)@[i].total_score,
        final(side_map)@[i].visits == old(side_map)@[i].visits,
        final(side_map)@[i].est_score == old(side_map)@[i].est_score,
{
    let (a, b) = (old(side_map)@[i], final(side_map)@[i]);
    let p = strategy@[i];
    assert(crate::exp3::probability_noted(a, p, b));
    let (x, y) = choose|x: S::Wide, y: S::Wide|
        evaluates(Expr::Value(a.cum_strat), x) && evaluates(Expr::Value(p), y)
            && #[trigger] op_gives(Op::Plus, x, y, b.cum_strat);
    assert(op_gives(Op::Plus, x, y, b.cum_strat));
}

/// A move that is drawn is drawn by Exp3: what is said of draws holds of this one.
pub proof fn law_exp3_selection<C, I, S: Single>(
    w: Reading<S::Wide>,
    side_map: &mut [MoveNode<C, S>],
    r: Result<usize, WeightError>,
)
    requires
        w.exact(),
        old(side_map)@.len() > 0,
        call_ensures(Node::<C, I, S>::exp3_selection, (side_map,), r),
        forall|i: int|
            0 <= i < old(side_map)@.len() ==> w.has((#[trigger] old(side_map)@[i]).est_score),
        forall|i: int|
            0 <= i < old(side_map)@.len() ==> w.has((#[trigger] old(side_map)@[i]).cum_strat),
    ensures
        exp3_drawn(old(side_map)@, final(side_map)@, r),
        final(side_map)@.len() == old(side_map)@.len(),
        sum_real(
            Seq::new(final(side_map)@.len(), |i: int| w.at(final(side_map)@[i].curr_strat)),
        ) == 1 as real,
        forall|i: int|
            #![trigger final(side_map)@[i]]
            0 <= i < final(side_map)@.len() ==> w.at(final(side_map)@[i].cum_strat) == w.at(
                old(side_map)@[i].cum_strat,
            ) + w.at(final(side_map)@[i].curr_strat),
        forall|i: int, j: int|
            #![trigger final(side_map)@[i], final(side_map)@[j]]
            0 <= i < final(side_map)@.len() && 0 <= j < final(side_map)@.len() && w.at(
                old(side_map)@[i].est_score,
            ) < w.at(old(side_map)@[j].est_score) ==> w.at(final(side_map)@[i].curr_strat) < w.at(
                final(side_map)@[j].curr_strat,
            ),
{
    assert(old(side_map).len() <= usize::MAX);
    law_draw_notes_distribution(w, old(side_map)@, final(side_map)@, r);
}

/// Crediting a move adds one visit, the score to its total, and the score divided by its
/// probability, or by a millionth where that is larger, to its estimated score.
pub proof fn law_credit<C, S: Single>(
    v: Reading<S>,
    w: Reading<S::Wide>,
    arm: &mut MoveNode<C, S>,
    score: S,
    finite: bool,
)
    requires
        w.exact(),
        linked_readings(v, w),
        old(arm).visits < u32::MAX,
        call_ensures(MoveNode::<C, S>::credit, (arm, score), finite),
    ensures
        final(arm).move_choice == old(arm).move_choice,
        final(arm).cum_strat == old(arm).cum_strat,
        final(arm).curr_strat == old(arm).curr_strat,
        final(arm).visits == old(arm).visits + 1,
        call_ensures(S::plus, (old(arm).total_score, score), final(arm).total_score),
        call_ensures(<S::Wide as Real>::is_finite, (final(arm).est_score,), finite),
        w.has(old(arm).est_score) && w.has(old(arm).curr_strat) && v.has(score) ==> (w.at(
            final(arm).est_score,
        ) - w.at(old(arm).est_score)) * max_real(
            w.at(old(arm).curr_strat),
            1 as real / 1_000_000 as real,
        ) == v.at(score),
{
    crate::conduct::lemma_paid(v, w, *old(arm), score, *final(arm));
}

/// Taking a round into account adds its nodes and its depth, and keeps the larger depth.
pub proof fn law_record(stats: &mut SearchStats, leaf_depth: u16, added: u32)
    requires
        old(stats).nodes_expanded + added <= u64::MAX,
        old(stats).total_depth + leaf_depth <= u64::MAX,
        call_ensures(SearchStats::record, (stats, leaf_depth, added), ()),
    ensures
        final(stats).nodes_expanded == old(stats).nodes_expanded + added,
        final(stats).total_depth == old(stats).total_depth + leaf_depth,
        final(stats).max_depth >= old(stats).max_depth,
        final(stats).max_depth >= leaf_depth,
        final(stats).max_depth == old(stats).max_depth || final(stats).max_depth == leaf_depth,
{
}

/// A walk lists the moves of the node at which it ends, where they were not known: for side one
/// those that the engine names first for the state reached, for side two those that it names
/// second, each in their order. What is said of walks holds of this one.
pub proof fn law_selection<
    C,
    I,
    S: Single,
    B: Battle<Choice = C, Instruction = I, Score = S>,
>(tree: &mut Tree<C, I, S>, at: usize, s: B, t: B, n: usize, i1: usize, i2: usize)
    requires
        old(tree).wf(),
        at < old(tree).nodes@.len(),
        call_ensures(
            Node::<C, I, S>::selection::<B>,
            (tree, at, s),
            Ok::<(B, usize, usize, usize), SearchError>((t, n, i1, i2)),
        ),
    ensures
        selected(old(tree).nodes@, at as int, s, final(tree).nodes@, n as int, i1, i2, t),
        final(tree).wf(),
        final(tree).nodes@[n as int].s1_options is Some,
        final(tree).nodes@[n as int].s2_options is Some,
        i1 < final(tree).nodes@[n as int].s1_options->0@.len(),
        i2 < final(tree).nodes@[n as int].s2_options->0@.len(),
        old(tree).nodes@[n as int].bucket(i1, i2) is None,
        old(tree).nodes@[n as int].s1_options is None ==> exists|
            c1: Vec<MoveChoice<C>>,
            c2: Vec<MoveChoice<C>>,
        |
            {
                &&& #[trigger] call_ensures(B::get_all_options, (&t,), (c1, c2))
                &&& final(tree).nodes@[n as int].s1_options->0@.len() == c1@.len()
                &&& final(tree).nodes@[n as int].s2_options->0@.len() == c2@.len()
                &&& forall|i: int|
                    0 <= i < c1@.len() ==> (
                    #[trigger] final(tree).nodes@[n as int].s1_options->0@[i]).move_choice == c1@[i]
                &&& forall|i: int|
                    0 <= i < c2@.len() ==> (
                    #[trigger] final(tree).nodes@[n as int].s2_options->0@[i]).move_choice == c2@[i]
            },
{
    let (a, b) = (old(tree).nodes@, final(tree).nodes@);
    if a[n as int].s1_options is None {
        law_walk_lists(a, at as int, s, b, n as int, i1, i2, t);
    }
}

/// Where the battle goes on and at least one side has a move, expanding a node adds a child for
/// each outcome that the engine names for the two moves, and the search goes on at one of them.
/// What is said of turns holds of this one.
pub proof fn law_expand_plays<
    C,
    I,
    S: Single,
    B: Battle<Choice = C, Instruction = I, Score = S>,
>(
    v: Reading<S>,
    w: Reading<S::Wide>,
    tree: &mut Tree<C, I, S>,
    at: usize,
    s: B,
    i1: usize,
    i2: usize,
    t: B,
    n: usize,
    added: u32,
)
    requires
        v.exact(),
        w.exact(),
        old(tree).wf(),
        at < old(tree).nodes@.len(),
        old(tree).nodes@[at as int].s1_options is Some,
        i1 < old(tree).nodes@[at as int].s1_options->0@.len(),
        i2 < old(tree).nodes@[at as int].s2_options->0@.len(),
        call_ensures(
            Node::<C, I, S>::expand::<B>,
            (tree, at, s, i1, i2),
            Ok::<(B, usize, u32), SearchError>((t, n, added)),
        ),
        at == 0 || goes_on(v, s),
        !(old(tree).nodes@[at as int].s1_options->0@[i1 as int].move_choice is NoMove)
            || !(old(tree).nodes@[at as int].s2_options->0@[i2 as int].move_choice is NoMove),
    ensures
        expanded(
            old(tree).nodes@,
            at as int,
            i1,
            i2,
            s,
            final(tree).nodes@,
            n as int,
            added,
            t,
        ),
        old(tree).nodes@.len() <= n < final(tree).nodes@.len(),
        exists|branch: bool, m: B, outcomes: Vec<StateInstructions<I, S>>|
            {
                let node = old(tree).nodes@[at as int];
                &&& #[trigger] call_ensures(
                    B::generate_instructions_from_move_pair,
                    (
                        s,
                        &old(tree).nodes@[at as int].s1_options->0@[i1 as int].move_choice,
                        &old(tree).nodes@[at as int].s2_options->0@[i2 as int].move_choice,
                        branch,
                    ),
                    (m, outcomes),
                )
                &&& branch == (node.depth <= 1)
                &&& final(tree).nodes@.len() == old(tree).nodes@.len() + outcomes@.len()
                &&& forall|c: int|
                    #![trigger final(tree).nodes@[c]]
                    old(tree).nodes@.len() <= c < final(tree).nodes@.len() ==> {
                        &&& final(tree).nodes@[c].parent == Some(at)
                        &&& final(tree).nodes@[c].instructions == outcomes@[c
                            - old(tree).nodes@.len()]
                    }
                &&& call_ensures(
                    B::apply_instructions,
                    (m, &outcomes@[n - old(tree).nodes@.len()].instruction_list),
                    t,
                )
            },
{
    let (a, b) = (old(tree).nodes@, final(tree).nodes@);
    assert(final(tree).nodes.len() <= usize::MAX);
    law_turn_is_played(v, w, a, at as int, i1, i2, s, b, n as int, added, t);
}

/// Where neither side has a move, and where the battle has ended at a node other than the root,
/// expanding a node changes neither the tree nor the battle, and the search stays at the node.
pub proof fn law_expand_rests<
    C,
    I,
    S: Single,
    B: Battle<Choice = C, Instruction = I, Score = S>,
>(
    v: Reading<S>,
    w: Reading<S::Wide>,
    tree: &mut Tree<C, I, S>,
    at: usize,
    s: B,
    i1: usize,
    i2: usize,
    r: Result<(B, usize, u32), SearchError>,
)
    requires
        v.exact(),
        w.exact(),
        old(tree).wf(),
        at < old(tree).nodes@.len(),
        old(tree).nodes@[at as int].s1_options is Some,
        i1 < old(tree).nodes@[at as int].s1_options->0@.len(),
        i2 < old(tree).nodes@[at as int].s2_options->0@.len(),
        call_ensures(Node::<C, I, S>::expand::<B>, (tree, at, s, i1, i2), r),
        old(tree).nodes@[at as int].s1_options->0@[i1 as int].move_choice is NoMove
            && old(tree).nodes@[at as int].s2_options->0@[i2 as int].move_choice is NoMove || at != 0
            && forall|x: S| #[trigger]
            call_ensures(B::battle_is_over, (&s,), x) ==> v.has(x) && v.at(x) != 0 as real,
    ensures
        final(tree).nodes@ == old(tree).nodes@,
        r == Ok::<(B, usize, u32), SearchError>((s, at, 0)),
{
    let (a, b) = (old(tree).nodes@, final(tree).nodes@);
    assert(final(tree).nodes.len() <= usize::MAX);
    match r {
        Ok((t, n, added)) => {
            law_nothing_is_played(v, w, a, at as int, i1, i2, s, b, n as int, added, t);
        },
        Err(_) => {
            assert(at > 0 ==> linked(a, at as int));
        },
    }
}

/// Handing a score back pays the same two numbers at every level: wherever a node has one more
/// visit, its parent has, and there the move of side one that led to it has the score more, and
/// that of side two what the score is short of one. What is said of settlements, and of taking the
/// battle back, holds of this one.
pub proof fn law_backpropagate<
    C,
    I,
    S: Single,
    B: Battle<Choice = C, Instruction = I, Score = S>,
>(
    v: Reading<S>,
    w: Reading<S::Wide>,
    tree: &mut Tree<C, I, S>,
    leaf: usize,
    score: S,
    s: B,
    t: B,
)
    requires
        w.exact(),
        linked_readings(v, w),
        old(tree).wf(),
        leaf < old(tree).nodes@.len(),
        old(tree).nodes@[0].times_visited < u32::MAX,
        call_ensures(
            Node::<C, I, S>::backpropagate::<B>,
            (tree, leaf, score, s),
            Ok::<B, SearchError>(t),
        ),
    ensures
        credited(old(tree).nodes@, leaf as int, score, final(tree).nodes@),
        reversed_along(old(tree).nodes@, path_to(old(tree).nodes@, leaf as int), s, t),
        final(tree).wf(),
        final(tree).nodes@[leaf as int].times_visited == old(tree).nodes@[leaf as int].times_visited
            + 1,
        exists|one: S, lost: S|
            {
                &&& call_ensures(S::from_count, (1,), one)
                &&& #[trigger] call_ensures(S::minus, (one, score), lost)
                &&& forall|c: int|
                    #![trigger final(tree).nodes@[c]]
                    0 < c < old(tree).nodes@.len() && final(tree).nodes@[c].times_visited
                        == old(tree).nodes@[c].times_visited + 1 ==> {
                        let node = old(tree).nodes@[c];
                        let p = node.parent->0 as int;
                        let (i, j) = (node.s1_choice as int, node.s2_choice as int);
                        let (x, y) = (old(tree).nodes@[p], final(tree).nodes@[p]);
                        &&& y.times_visited == x.times_visited + 1
                        &&& y.s1_options->0@[i].visits == x.s1_options->0@[i].visits + 1
                        &&& y.s2_options->0@[j].visits == x.s2_options->0@[j].visits + 1
                        &&& call_ensures(
                            S::plus,
                            (x.s1_options->0@[i].total_score, score),
                            y.s1_options->0@[i].total_score,
                        )
                        &&& call_ensures(
                            S::plus,
                            (x.s2_options->0@[j].total_score, lost),
                            y.s2_options->0@[j].total_score,
                        )
                    }
            },
{
    let (a, b) = (old(tree).nodes@, final(tree).nodes@);
    law_settled(v, w, a, leaf as int, score, b);
    let (one, lost) = choose|one: S, lost: S|
        {
            &&& call_ensures(S::from_count, (1,), one)
            &&& #[trigger] call_ensures(S::minus, (one, score), lost)
            &&& settled(v, w, a, leaf as int, score, lost, b)
        };
    assert(visited_again(a, b, leaf as int)) by {
        reveal(settled);
    }
    assert forall|c: int|
        #![trigger b[c]]
        0 < c < a.len() && b[c].times_visited == a[c].times_visited + 1 implies {
        let p = a[c].parent->0 as int;
        let (i, j) = (a[c].s1_choice as int, a[c].s2_choice as int);
        let (x, y) = (a[p], b[p]);
        &&& y.times_visited == x.times_visited + 1
        &&& y.s1_options->0@[i].visits == x.s1_options->0@[i].visits + 1
        &&& y.s2_options->0@[j].visits == x.s2_options->0@[j].visits + 1
        &&& call_ensures(
            S::plus,
            (x.s1_options->0@[i].total_score, score),
            y.s1_options->0@[i].total_score,
        )
        &&& call_ensures(
            S::plus,
            (x.s2_options->0@[j].total_score, lost),
            y.s2_options->0@[j].total_score,
        )
    } by {
        lemma_settled_parent(v, w, a, leaf as int, score, lost, b, c);
    }
    assert(call_ensures(S::minus, (one, score), lost));
}

proof fn lemma_settled_parent<C, I, S: Single>(
    v: Reading<S>,
    w: Reading<S::Wide>,
    old: Seq<Node<C, I, S>>,
    leaf: int,
    won: S,
    lost: S,
    new: Seq<Node<C, I, S>>,
    c: int,
)
    requires
        settled(v, w, old, leaf, won, lost, new),
        0 < c < old.len(),
        visited_again(old, new, c),
    ensures
        visited_again(old, new, old[c].parent->0 as int),
        side_paid(
            v,
            w,
            old[old[c].parent->0 as int].s1_options,
            old[c].s1_choice,
            won,
            new[old[c].parent->0 as int].s1_options,
        ),
        side_paid(
            v,
            w,
            old[old[c].parent->0 as int].s2_options,
            old[c].s2_choice,
            lost,
            new[old[c].parent->0 as int].s2_options,
        ),
{
    reveal(settled);
    assert(visited_again(old, new, c));
}

/// What is said of rounds holds of every call that plays one.
pub proof fn law_do_mcts<B: Battle>(
    tree: &mut Tree<B::Choice, B::Instruction, B::Score>,
    s: B,
    root_eval: B::Score,
    t: B,
    depth: u16,
    added: u32,
)
    requires
        old(tree).wf(),
        old(tree).nodes@[0].times_visited < u32::MAX,
        call_ensures(
            do_mcts::<B>,
            (tree, s, root_eval),
            Ok::<(B, u16, u32), SearchError>((t, depth, added)),
        ),
    ensures
        final(tree).wf(),
        iterated(old(tree).nodes@, s, root_eval, final(tree).nodes@, t, depth, added),
{
}

} // verus!
