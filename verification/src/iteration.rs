//! One round of the search.

use crate::backpropagate::{broke_off, credited, reversed_along, SearchError};
use crate::battle::Battle;
use crate::expand::{expanded, unplayable};
use crate::node::Node;
use crate::number::{
    equal_answer, evaluates, fraction, lemma_binary, lemma_unary, quotient, Expr, Fun, Op, Real,
    Single,
};
use crate::selection::{descended, selected, stuck};
use crate::tree::{path_to, Tree};
use vstd::prelude::*;

verus! {

/// Squeezes a number between zero and one. Two hundred points are very close to one.
pub open spec fn sigmoid_formula<R>(x: Expr<R>) -> Expr<R> {
    Expr::Count(1).over(
        Expr::Count(1).plus(Expr::Count(0).minus(fraction(1, 80)).times(x).exp()),
    )
}

pub fn sigmoid<R: Real>(x: R) -> (r: R)
    ensures
        evaluates(sigmoid_formula(Expr::Value(x)), r),
{
    let zero = R::from_count(0);
    let one = R::from_count(1);
    let slope: R = quotient(1, 80);
    let falling = zero.minus(slope);
    let power = falling.times(x);
    let odds = power.exp();
    let whole = one.plus(odds);
    let r = one.over(whole);
    proof {
        let f = Expr::Count(0).minus(fraction(1, 80));
        let e = Expr::Value(x);
        lemma_binary(Op::Minus, Expr::Count(0), fraction(1, 80), zero, slope, falling);
        lemma_binary(Op::Times, f, e, falling, x, power);
        lemma_unary(Fun::Exp, f.times(e), power, odds);
        lemma_binary(Op::Plus, Expr::Count(1), f.times(e).exp(), one, odds, whole);
        let w = Expr::Count(1).plus(f.times(e).exp());
        lemma_binary(Op::Over, Expr::Count(1), w, one, whole, r);
    }
    r
}

/// `r` is the score of a battle that goes on: how much better `s` is than the root.
pub open spec fn compared_to_root<B: Battle>(s: B, root_eval: B::Score, r: B::Score) -> bool {
    exists|eval: B::Score, gap: B::Score|
        {
            &&& #[trigger] call_ensures(B::evaluate, (&s,), eval)
            &&& #[trigger] evaluates(Expr::Value(eval).minus(Expr::Value(root_eval)), gap)
            &&& evaluates(sigmoid_formula(Expr::Value(gap)), r)
        }
}

/// `r` is the score of a battle that has ended with `v`: zero for minus one, and else `v` itself.
pub open spec fn final_score<S: Real>(v: S, r: S) -> bool {
    exists|lost: bool|
        {
            &&& #[trigger] equal_answer(
                Expr::Value(v),
                Expr::Count(0).minus(Expr::Count(1)),
                lost,
            )
            &&& if lost {
                evaluates(Expr::Count(0), r)
            } else {
                r == v
            }
        }
}

/// `r` is the score of state `s` for side one.
pub open spec fn rolled_out<B: Battle>(s: B, root_eval: B::Score, r: B::Score) -> bool {
    exists|v: B::Score, going: bool|
        {
            &&& #[trigger] call_ensures(B::battle_is_over, (&s,), v)
            &&& #[trigger] equal_answer(Expr::Value(v), Expr::Count(0), going)
            &&& if going {
                compared_to_root(s, root_eval, r)
            } else {
                final_score(v, r)
            }
        }
}

/// What happens in the course of a round.
pub struct Round<B: Battle> {
    /// The nodes after the walk down.
    pub walked: Seq<Node<B::Choice, B::Instruction, B::Score>>,
    /// Where the walk ended, with which turn, and in which state.
    pub n: int,
    pub i1: usize,
    pub i2: usize,
    pub reached: B,
    /// The nodes after the turn has been played.
    pub larger: Seq<Node<B::Choice, B::Instruction, B::Score>>,
    /// The node that is scored, in which state, and how.
    pub leaf: int,
    pub scored: B,
    pub score: B::Score,
}

/// The given round takes the nodes `old` to `new`. It starts and ends at the root, in the states
/// `s` and `t`. It scores a node of depth `depth`, and adds as many nodes as `added` says.
pub open spec fn is_round<B: Battle>(
    old: Seq<Node<B::Choice, B::Instruction, B::Score>>,
    s: B,
    root_eval: B::Score,
    round: Round<B>,
    new: Seq<Node<B::Choice, B::Instruction, B::Score>>,
    t: B,
    depth: u16,
    added: u32,
) -> bool {
    &&& selected(old, 0, s, round.walked, round.n, round.i1, round.i2, round.reached)
    &&& expanded(
        round.walked,
        round.n,
        round.i1,
        round.i2,
        round.reached,
        round.larger,
        round.leaf,
        added,
        round.scored,
    )
    &&& 0 <= round.leaf < round.larger.len()
    &&& depth == round.larger[round.leaf].depth
    &&& rolled_out(round.scored, root_eval, round.score)
    &&& credited(round.larger, round.leaf, round.score, new)
    &&& reversed_along(round.larger, path_to(round.larger, round.leaf), round.scored, t)
}

/// Some round takes the nodes `old` to `new`.
pub open spec fn iterated<B: Battle>(
    old: Seq<Node<B::Choice, B::Instruction, B::Score>>,
    s: B,
    root_eval: B::Score,
    new: Seq<Node<B::Choice, B::Instruction, B::Score>>,
    t: B,
    depth: u16,
    added: u32,
) -> bool {
    exists|round: Round<B>| #[trigger] is_round(old, s, root_eval, round, new, t, depth, added)
}

/// A walk that starts at the root in state `s` gets stuck, and leaves the nodes `new`.
pub open spec fn walk_stuck<B: Battle>(
    old: Seq<Node<B::Choice, B::Instruction, B::Score>>,
    s: B,
    new: Seq<Node<B::Choice, B::Instruction, B::Score>>,
    e: SearchError,
) -> bool {
    exists|n: int, t: B|
        {
            &&& #[trigger] descended(old, 0, s, new, n, t)
            &&& e is Weights
            &&& stuck(old, n, t, new[n], e->Weights_0)
        }
}

/// Scoring what the given turn leads to cannot be finished, and leaves the nodes `new`.
pub open spec fn score_stuck<B: Battle>(
    walked: Seq<Node<B::Choice, B::Instruction, B::Score>>,
    n: int,
    i1: usize,
    i2: usize,
    reached: B,
    root_eval: B::Score,
    new: Seq<Node<B::Choice, B::Instruction, B::Score>>,
    e: SearchError,
) -> bool {
    exists|
        larger: Seq<Node<B::Choice, B::Instruction, B::Score>>,
        leaf: int,
        added: u32,
        scored: B,
        score: B::Score,
    |
        {
            &&& #[trigger] expanded(walked, n, i1, i2, reached, larger, leaf, added, scored)
            &&& #[trigger] rolled_out(scored, root_eval, score)
            &&& e is NotFinite
            &&& broke_off(larger, leaf, score, e->NotFinite_0, new)
        }
}

/// A round that starts at the root in state `s` cannot be finished, and leaves the nodes `new`.
pub open spec fn cut_short<B: Battle>(
    old: Seq<Node<B::Choice, B::Instruction, B::Score>>,
    s: B,
    root_eval: B::Score,
    new: Seq<Node<B::Choice, B::Instruction, B::Score>>,
    e: SearchError,
) -> bool {
    ||| walk_stuck(old, s, new, e)
    ||| exists|
        walked: Seq<Node<B::Choice, B::Instruction, B::Score>>,
        n: int,
        i1: usize,
        i2: usize,
        reached: B,
    |
        {
            &&& #[trigger] selected(old, 0, s, walked, n, i1, i2, reached)
            &&& {
                ||| unplayable(walked, n, i1, i2, reached, e) && new == walked
                ||| score_stuck(walked, n, i1, i2, reached, root_eval, new, e)
            }
        }
}

impl<C, I, S: Single> Node<C, I, S> {
    /// The score of the battle for side one.
    pub fn rollout<B: Battle<Choice = C, Instruction = I, Score = S>>(
        state: &B,
        root_eval: S,
    ) -> (r: S)
        ensures
            rolled_out(*state, root_eval, r),
    {
        let battle_is_over = state.battle_is_over();
        let ghost v = Expr::Value(battle_is_over);
        let zero = S::from_count(0);
        let going = battle_is_over.equals(zero);
        assert(equal_answer(v, Expr::Count(0), going));
        if going {
            let eval = state.evaluate();
            let gap = eval.minus(root_eval);
            proof {
                lemma_binary(
                    Op::Minus,
                    Expr::Value(eval),
                    Expr::Value(root_eval),
                    eval,
                    root_eval,
                    gap,
                );
                assert(evaluates(Expr::Value(eval).minus(Expr::Value(root_eval)), gap));
            }
            let r = sigmoid(gap);
            assert(compared_to_root(*state, root_eval, r));
            r
        } else {
            let one = S::from_count(1);
            let minus_one = zero.minus(one);
            let lost = battle_is_over.equals(minus_one);
            proof {
                lemma_binary(Op::Minus, Expr::Count(0), Expr::Count(1), zero, one, minus_one);
                assert(equal_answer(v, Expr::Count(0).minus(Expr::Count(1)), lost));
            }
            let r = if lost {
                zero
            } else {
                battle_is_over
            };
            assert(final_score(battle_is_over, r));
            r
        }
    }
}

/// One round of the search: walks down to a turn that was not played yet, plays it, scores what
/// comes of it, and hands the score back. Says how deep that was, and how many nodes were added.
pub fn do_mcts<B: Battle>(
    tree: &mut Tree<B::Choice, B::Instruction, B::Score>,
    state: B,
    root_eval: B::Score,
) -> (r: Result<(B, u16, u32), SearchError>)
    requires
        old(tree).wf(),
        old(tree).nodes@[0].times_visited < u32::MAX,
    ensures
        match r {
            Ok((t, depth, added)) => {
                &&& final(tree).wf()
                &&& iterated(
                    old(tree).nodes@,
                    state,
                    root_eval,
                    final(tree).nodes@,
                    t,
                    depth,
                    added,
                )
            },
            Err(e) => {
                &&& cut_short(old(tree).nodes@, state, root_eval, final(tree).nodes@, e)
                &&& e is Weights ==> final(tree).wf()
            },
        },
{
    let ghost start = tree.nodes@;
    let (battle, selected_node, s1_move, s2_move) = match Node::selection(tree, 0, state) {
        Ok(found) => found,
        Err(e) => {
            return Err(e);
        },
    };
    let ghost walked = tree.nodes@;
    let ghost m1 = battle;
    let (battle, new_node, nodes_added) = match Node::expand(
        tree,
        selected_node,
        battle,
        s1_move,
        s2_move,
    ) {
        Ok(found) => found,
        Err(e) => {
            assert(selected(start, 0, state, walked, selected_node as int, s1_move, s2_move, m1));
            return Err(e);
        },
    };
    let ghost larger = tree.nodes@;
    let ghost m2 = battle;
    let score = Node::rollout(&battle, root_eval);
    let leaf_depth = tree.nodes[new_node].depth;
    proof {
        assert(selected(start, 0, state, walked, selected_node as int, s1_move, s2_move, m1));
        assert(expanded(
            walked,
            selected_node as int,
            s1_move,
            s2_move,
            m1,
            larger,
            new_node as int,
            nodes_added,
            m2,
        ));
        assert(rolled_out(m2, root_eval, score));
    }
    match Node::backpropagate(tree, new_node, score, battle) {
        Ok(battle) => {
            proof {
                let round = Round {
                    walked,
                    n: selected_node as int,
                    i1: s1_move,
                    i2: s2_move,
                    reached: m1,
                    larger,
                    leaf: new_node as int,
                    scored: m2,
                    score,
                };
                assert(is_round(
                    start,
                    state,
                    root_eval,
                    round,
                    tree.nodes@,
                    battle,
                    leaf_depth,
                    nodes_added,
                ));
            }
            Ok((battle, leaf_depth, nodes_added))
        },
        Err(e) => {
            assert(score_stuck(
                walked,
                selected_node as int,
                s1_move,
                s2_move,
                m1,
                root_eval,
                tree.nodes@,
                e,
            ));
            Err(e)
        },
    }
}

} // verus!
