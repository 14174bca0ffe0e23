//! Handing the score of a battle back to the moves that led there.

use crate::arm::MoveNode;
use crate::battle::{reverses, Battle};
use crate::node::Node;
use crate::number::{evaluates, fraction, lemma_binary, quotient, Expr, Op, Real, Single};
use crate::tally::{
    lemma_root_visited_most, lemma_tally_gained, lemma_tally_part, visited_once_more,
};
use crate::tree::{
    all_held, counted, just, kept, lemma_parents_before, lemma_path_above, lemma_rooted_kept,
    lemma_toward, lemma_toward_unique, linked, on_path, parents_before, path_to, side_agrees,
    tally, toward, well_formed, Tree, Via,
};
use crate::weighted::WeightError;
use vstd::prelude::*;

verus! {

/// One of the two sides of a battle.
#[derive(Clone, Copy, Debug, PartialEq, Eq, Structural)]
pub enum Side {
    One,
    Two,
}

/// Why a search cannot go on.
#[derive(Clone, Copy, Debug, PartialEq, Eq, Structural)]
pub enum SearchError {
    /// No move, or no outcome of a turn, can be drawn.
    Weights(WeightError),
    /// The estimated score of a move of the side is no finite number.
    NotFinite(Side),
}

/// The least probability that a score is divided by.
pub open spec fn floor_formula<R>() -> Expr<R> {
    fraction(1, 1_000_000)
}

/// `new` is the move `old` after one more visit that earned `score`.
pub open spec fn move_credited<C, S: Single>(
    old: MoveNode<C, S>,
    score: S,
    new: MoveNode<C, S>,
) -> bool {
    &&& new.move_choice == old.move_choice
    &&& new.cum_strat == old.cum_strat
    &&& new.curr_strat == old.curr_strat
    &&& new.visits == old.visits + 1
    &&& evaluates(Expr::Value(old.total_score).plus(Expr::Value(score)), new.total_score)
    &&& exists|wide: S::Wide| #[trigger]
        call_ensures(S::widen, (score,), wide) && evaluates(
            Expr::Value(old.est_score).plus(
                Expr::Value(wide).over(Expr::Value(old.curr_strat).larger(floor_formula())),
            ),
            new.est_score,
        )
}

/// The estimated score of the move is a finite number, or is not.
pub open spec fn finite_answer<C, S: Single>(arm: MoveNode<C, S>, finite: bool) -> bool {
    call_ensures(<S::Wide as Real>::is_finite, (arm.est_score,), finite)
}

impl<C, S: Single> MoveNode<C, S> {
    /// Notes a visit that earned `score`, and says whether the estimated score is still a finite
    /// number.
    pub fn credit(&mut self, score: S) -> (finite: bool)
        requires
            old(self).visits < u32::MAX,
        ensures
            move_credited(*old(self), score, *final(self)),
            finite_answer(*final(self), finite),
    {
        let total = self.total_score.plus(score);
        let wide = score.widen();
        let floor: S::Wide = quotient(1, 1_000_000);
        let likely = self.curr_strat.larger(floor);
        let weighted = wide.over(likely);
        let est = self.est_score.plus(weighted);
        proof {
            let f = floor_formula::<S::Wide>();
            let p = Expr::Value(self.curr_strat);
            let w = Expr::Value(wide);
            lemma_binary(
                Op::Plus,
                Expr::Value(self.total_score),
                Expr::Value(score),
                self.total_score,
                score,
                total,
            );
            lemma_binary(Op::Larger, p, f, self.curr_strat, floor, likely);
            lemma_binary(Op::Over, w, p.larger(f), wide, likely, weighted);
            lemma_binary(
                Op::Plus,
                Expr::Value(self.est_score),
                w.over(p.larger(f)),
                self.est_score,
                weighted,
                est,
            );
        }
        self.total_score = total;
        self.visits = self.visits + 1;
        self.est_score = est;
        self.est_score.is_finite()
    }
}

/// `new` are the moves `old` after one more visit of the given one that earned `score`.
pub open spec fn side_credited<C, S: Single>(
    old: Option<Vec<MoveNode<C, S>>>,
    choice: u8,
    score: S,
    new: Option<Vec<MoveNode<C, S>>>,
) -> bool {
    &&& old is Some
    &&& new is Some
    &&& new->0@.len() == old->0@.len()
    &&& choice < old->0@.len()
    &&& move_credited(old->0@[choice as int], score, new->0@[choice as int])
    &&& forall|i: int|
        0 <= i < old->0@.len() && i != choice ==> #[trigger] new->0@[i] == old->0@[i]
}

fn credit_side<C, S: Single>(
    options: &mut Option<Vec<MoveNode<C, S>>>,
    choice: u8,
    score: S,
) -> (finite: bool)
    requires
        *old(options) is Some,
        choice < (*old(options))->0@.len(),
        (*old(options))->0@[choice as int].visits < u32::MAX,
    ensures
        side_credited(*old(options), choice, score, *final(options)),
        finite_answer((*final(options))->0@[choice as int], finite),
{
    match options {
        Some(moves) => moves[choice as usize].credit(score),
        None => true,
    }
}

/// `new` is the node at `x` after the node at `leaf` has been scored: it has one more visit where
/// it is that node or above it, and where it is above, so has the move of each side that leads
/// there.
pub open spec fn node_credited<C, I, S: Single>(
    nodes: Seq<Node<C, I, S>>,
    leaf: int,
    score: S,
    lost: S,
    x: int,
    new: Node<C, I, S>,
) -> bool {
    let c = toward(nodes, leaf, x);
    &&& new.same_place(nodes[x])
    &&& new.times_visited == nodes[x].times_visited + if on_path(nodes, leaf, x) {
        1int
    } else {
        0
    }
    &&& if on_path(nodes, leaf, x) && x != leaf {
        &&& side_credited(nodes[x].s1_options, nodes[c].s1_choice, score, new.s1_options)
        &&& finite_answer(new.s1_options->0@[nodes[c].s1_choice as int], true)
        &&& side_credited(nodes[x].s2_options, nodes[c].s2_choice, lost, new.s2_options)
        &&& finite_answer(new.s2_options->0@[nodes[c].s2_choice as int], true)
    } else {
        &&& new.s1_options == nodes[x].s1_options
        &&& new.s2_options == nodes[x].s2_options
    }
}

/// `new` are the nodes `old` after the node at `leaf` has been scored with `score` for side one and
/// `lost` for side two.
pub open spec fn credited_with<C, I, S: Single>(
    old: Seq<Node<C, I, S>>,
    leaf: int,
    score: S,
    lost: S,
    new: Seq<Node<C, I, S>>,
) -> bool {
    &&& new.len() == old.len()
    &&& evaluates(Expr::Count(1).minus(Expr::Value(score)), lost)
    &&& forall|x: int|
        0 <= x < old.len() ==> node_credited(old, leaf, score, lost, x, #[trigger] new[x])
}

/// `new` are the nodes `old` after the node at `leaf` has been scored. What side one earns, side
/// two misses of one.
pub open spec fn credited<C, I, S: Single>(
    old: Seq<Node<C, I, S>>,
    leaf: int,
    score: S,
    new: Seq<Node<C, I, S>>,
) -> bool {
    exists|lost: S| #[trigger] credited_with(old, leaf, score, lost, new)
}

/// `new` are the nodes `old` after the node at `leaf` has been scored, but only up to the node at
/// `p`: there the estimated score of the move of the given side turned out to be no finite number.
/// Below `p` all is done. At `p` itself the moves have been seen to, side one first, but the visit
/// is not counted. Above it nothing has happened.
pub open spec fn broke_off_at<C, I, S: Single>(
    old: Seq<Node<C, I, S>>,
    leaf: int,
    score: S,
    lost: S,
    side: Side,
    p: int,
    new: Seq<Node<C, I, S>>,
) -> bool {
    let c = toward(old, leaf, p);
    let i1 = old[c].s1_choice;
    let i2 = old[c].s2_choice;
    &&& new.len() == old.len()
    &&& evaluates(Expr::Count(1).minus(Expr::Value(score)), lost)
    &&& on_path(old, leaf, p)
    &&& p != leaf
    &&& forall|x: int|
        p < x < old.len() ==> node_credited(old, leaf, score, lost, x, #[trigger] new[x])
    &&& forall|x: int| 0 <= x < p ==> #[trigger] new[x] == old[x]
    &&& new[p].same_place(old[p])
    &&& new[p].times_visited == old[p].times_visited
    &&& side_credited(old[p].s1_options, i1, score, new[p].s1_options)
    &&& match side {
        Side::One => {
            &&& finite_answer(new[p].s1_options->0@[i1 as int], false)
            &&& new[p].s2_options == old[p].s2_options
        },
        Side::Two => {
            &&& finite_answer(new[p].s1_options->0@[i1 as int], true)
            &&& side_credited(old[p].s2_options, i2, lost, new[p].s2_options)
            &&& finite_answer(new[p].s2_options->0@[i2 as int], false)
        },
    }
}

/// `new` are the nodes `old` after scoring the node at `leaf` broke off, because the estimated
/// score of a move of the given side, on the way up, turned out to be no finite number.
pub open spec fn broke_off<C, I, S: Single>(
    old: Seq<Node<C, I, S>>,
    leaf: int,
    score: S,
    side: Side,
    new: Seq<Node<C, I, S>>,
) -> bool {
    exists|p: int, lost: S| #[trigger] broke_off_at(old, leaf, score, lost, side, p, new)
}

/// The engine takes `s` to `t` when it reverses the instructions of the nodes on `path`, the last
/// first.
pub open spec fn reversed_along<B: Battle>(
    nodes: Seq<Node<B::Choice, B::Instruction, B::Score>>,
    path: Seq<int>,
    s: B,
    t: B,
) -> bool
    decreases path.len(),
{
    if path.len() == 0 {
        t == s
    } else {
        exists|m: B| #[trigger]
            reverses(s, nodes[path.last()].instructions.instruction_list, m) && reversed_along(
                nodes,
                path.drop_last(),
                m,
                t,
            )
    }
}

/// A node above `leaf` that comes before another one there is above that one too.
proof fn lemma_path_between<C, I, S: Single>(
    nodes: Seq<Node<C, I, S>>,
    leaf: int,
    cur: int,
    x: int,
)
    requires
        parents_before(nodes),
        0 <= leaf < nodes.len(),
        on_path(nodes, leaf, cur),
        on_path(nodes, leaf, x),
        x < cur,
    ensures
        on_path(nodes, cur, x),
    decreases leaf,
{
    lemma_path_above(nodes, leaf, cur);
    if cur != leaf {
        lemma_path_between(nodes, nodes[leaf].parent->0 as int, cur, x);
    }
}

/// Between a node on the way up and its parent no node changes when `leaf` is scored.
proof fn lemma_credited_between<C, I, S: Single>(
    old: Seq<Node<C, I, S>>,
    leaf: int,
    score: S,
    lost: S,
    p: int,
    cur: int,
    now: Seq<Node<C, I, S>>,
)
    requires
        parents_before(old),
        0 <= leaf < old.len(),
        0 < cur < old.len(),
        on_path(old, leaf, cur),
        old[cur].parent == Some(p as usize),
        0 <= p < cur <= usize::MAX,
        now.len() == old.len(),
        forall|x: int| p < x < cur ==> #[trigger] now[x] == old[x],
        forall|x: int|
            cur <= x < old.len() ==> node_credited(old, leaf, score, lost, x, #[trigger] now[x]),
    ensures
        forall|x: int|
            p < x < old.len() ==> node_credited(old, leaf, score, lost, x, #[trigger] now[x]),
{
    assert forall|x: int| p < x < old.len() implies node_credited(
        old,
        leaf,
        score,
        lost,
        x,
        #[trigger] now[x],
    ) by {
        if x < cur && on_path(old, leaf, x) {
            lemma_path_between(old, leaf, cur, x);
            lemma_path_above(old, p, x);
        }
    }
}

/// Scoring a node keeps the visits of the moves of a side in agreement.
proof fn lemma_credited_side<C, I, S: Single>(
    old: Seq<Node<C, I, S>>,
    leaf: int,
    score: S,
    new: Seq<Node<C, I, S>>,
    n: int,
    one: bool,
)
    requires
        parents_before(old),
        old[0].parent is None,
        0 <= leaf < old.len() <= usize::MAX,
        0 <= n < old.len(),
        visited_once_more(old, new, leaf),
        side_agrees(old, n, one),
        if on_path(old, leaf, n) && n != leaf {
            side_credited(
                old[n].options(one),
                old[toward(old, leaf, n)].choice(one),
                score,
                new[n].options(one),
            )
        } else {
            new[n].options(one) == old[n].options(one)
        },
    ensures
        side_agrees(new, n, one),
{
    if on_path(old, leaf, n) && n != leaf {
        lemma_toward(old, leaf, n);
    }
    if new[n].options(one) is Some {
        let before = old[n].options(one)->0@;
        let after = new[n].options(one)->0@;
        assert forall|i: int| 0 <= i < after.len() implies (#[trigger] after[i]).visits == tally(
            new,
            n,
            just(one, i),
        ) by {
            lemma_tally_gained(old, new, leaf, n, just(one, i));
            assert(before[i].visits == tally(old, n, just(one, i)));
        }
    }
}

/// Scoring a node keeps the tree well-formed.
pub proof fn lemma_credited_well_formed<C, I, S: Single>(
    old: Seq<Node<C, I, S>>,
    leaf: int,
    score: S,
    new: Seq<Node<C, I, S>>,
)
    requires
        well_formed(old),
        0 <= leaf < old.len(),
        credited(old, leaf, score, new),
    ensures
        well_formed(new),
        all_held(old) ==> all_held(new),
{
    let lost = choose|lost: S| #[trigger] credited_with(old, leaf, score, lost, new);
    lemma_parents_before(old);
    assert forall|x: int| 0 <= x < old.len() implies kept(old[x], #[trigger] new[x]) by {
        assert(node_credited(old, leaf, score, lost, x, new[x]));
        assert(old[x].s1_options is Some <==> old[x].s2_options is Some);
    }
    lemma_rooted_kept(old, new);
    assert(visited_once_more(old, new, leaf));
    assert forall|n: int| 0 <= n < new.len() implies #[trigger] counted(new, n) by {
        assert(counted(old, n));
        assert(node_credited(old, leaf, score, lost, n, new[n]));
        lemma_tally_gained(old, new, leaf, n, Via::Any);
        let c = toward(old, leaf, n);
        if on_path(old, leaf, n) && n != leaf {
            lemma_toward(old, leaf, n);
        }
        lemma_credited_side(old, leaf, score, new, n, true);
        lemma_credited_side(old, leaf, lost, new, n, false);
    }
}

/// The node at `x` is still as it was, but for the moves that lead to `leaf` from it.
spec fn node_pending<C, I, S: Single>(
    nodes: Seq<Node<C, I, S>>,
    leaf: int,
    score: S,
    lost: S,
    x: int,
    now: Node<C, I, S>,
) -> bool {
    &&& now.times_visited < u32::MAX
    &&& node_credited(
        nodes,
        leaf,
        score,
        lost,
        x,
        Node { times_visited: (now.times_visited + 1) as u32, ..now },
    )
}

impl<C, I, S: Single> Node<C, I, S> {
    /// Hands the score of the node at `leaf` back to the moves that lead there, up to the root,
    /// and takes the battle back to where it was at the root.
    pub fn backpropagate<B: Battle<Choice = C, Instruction = I, Score = S>>(
        tree: &mut Tree<C, I, S>,
        leaf: usize,
        score: S,
        state: B,
    ) -> (r: Result<B, SearchError>)
        requires
            old(tree).wf(),
            leaf < old(tree).nodes@.len(),
            old(tree).nodes@[0].times_visited < u32::MAX,
        ensures
            match r {
                Ok(t) => {
                    &&& final(tree).wf()
                    &&& credited(old(tree).nodes@, leaf as int, score, final(tree).nodes@)
                    &&& reversed_along(
                        old(tree).nodes@,
                        path_to(old(tree).nodes@, leaf as int),
                        state,
                        t,
                    )
                },
                Err(SearchError::NotFinite(side)) => broke_off(
                    old(tree).nodes@,
                    leaf as int,
                    score,
                    side,
                    final(tree).nodes@,
                ),
                Err(_) => false,
            },
    {
        let ghost a = tree.nodes@;
        let one = S::from_count(1);
        let lost = one.minus(score);
        proof {
            lemma_binary(Op::Minus, Expr::Count(1), Expr::Value(score), one, score, lost);
            lemma_parents_before(a);
            lemma_root_visited_most(a, leaf as int);
            assert(on_path(a, leaf as int, leaf as int));
            assert forall|x: int| leaf < x < a.len() implies node_credited(
                a,
                leaf as int,
                score,
                lost,
                x,
                #[trigger] tree.nodes@[x],
            ) by {
                if on_path(a, leaf as int, x) {
                    lemma_path_above(a, leaf as int, x);
                }
            }
        }
        let mut battle = state;
        let mut cur: usize = leaf;
        loop
            invariant
                a == old(tree).nodes@,
                well_formed(a),
                parents_before(a),
                leaf < a.len(),
                cur < a.len(),
                tree.nodes@.len() == a.len(),
                a[0].times_visited < u32::MAX,
                evaluates(Expr::Count(1).minus(Expr::Value(score)), lost),
                on_path(a, leaf as int, cur as int),
                forall|x: int|
                    cur < x < a.len() ==> node_credited(
                        a,
                        leaf as int,
                        score,
                        lost,
                        x,
                        #[trigger] tree.nodes@[x],
                    ),
                node_pending(a, leaf as int, score, lost, cur as int, tree.nodes@[cur as int]),
                forall|x: int| 0 <= x < cur ==> #[trigger] tree.nodes@[x] == a[x],
                forall|t: B| #[trigger]
                    reversed_along(a, path_to(a, cur as int), battle, t) ==> reversed_along(
                        a,
                        path_to(a, leaf as int),
                        state,
                        t,
                    ),
            decreases cur,
        {
            tree.nodes[cur].times_visited = tree.nodes[cur].times_visited + 1;
            if tree.nodes[cur].root {
                assert(cur == 0) by {
                    if cur > 0 {
                        assert(linked(a, cur as int));
                    }
                }
                assert(reversed_along(a, path_to(a, 0), battle, battle));
                proof {
                    assert forall|x: int| 0 <= x < a.len() implies node_credited(
                        a,
                        leaf as int,
                        score,
                        lost,
                        x,
                        #[trigger] tree.nodes@[x],
                    ) by {}
                    assert(credited_with(a, leaf as int, score, lost, tree.nodes@));
                    lemma_credited_well_formed(a, leaf as int, score, tree.nodes@);
                }
                return Ok(battle);
            }
            let s1_choice = tree.nodes[cur].s1_choice;
            let s2_choice = tree.nodes[cur].s2_choice;
            assert(cur > 0);
            assert(linked(a, cur as int));
            let parent = match tree.nodes[cur].parent {
                Some(parent) => parent,
                None => 0,
            };
            let ghost p = parent as int;
            proof {
                lemma_toward_unique(a, leaf as int, cur as int, p);
                lemma_root_visited_most(a, p);
                assert(counted(a, p));
                lemma_tally_part(a, p, Via::One(s1_choice as int, s1_choice + 1));
                lemma_tally_part(a, p, Via::Two(s2_choice as int, s2_choice + 1));
                assert(tree.nodes@[p] == a[p]);
                assert(a[p].s1_options->0@[s1_choice as int].visits < u32::MAX);
                assert(a[p].s2_options->0@[s2_choice as int].visits < u32::MAX);
            }
            let fine = credit_side(&mut tree.nodes[parent].s1_options, s1_choice, score);
            if !fine {
                proof {
                    let now = tree.nodes@;
                    lemma_credited_between(a, leaf as int, score, lost, p, cur as int, now);
                    assert(broke_off_at(a, leaf as int, score, lost, Side::One, p, now));
                }
                return Err(SearchError::NotFinite(Side::One));
            }
            let fine = credit_side(&mut tree.nodes[parent].s2_options, s2_choice, lost);
            if !fine {
                proof {
                    let now = tree.nodes@;
                    lemma_credited_between(a, leaf as int, score, lost, p, cur as int, now);
                    assert(broke_off_at(a, leaf as int, score, lost, Side::Two, p, now));
                }
                return Err(SearchError::NotFinite(Side::Two));
            }
            let ghost before = battle;
            battle = battle.reverse_instructions(&tree.nodes[cur].instructions.instruction_list);
            proof {
                let list = a[cur as int].instructions.instruction_list;
                assert(reverses(before, list, battle));
                let upto = path_to(a, cur as int);
                assert(upto.drop_last() =~= path_to(a, p));
                assert(upto.last() == cur);
                assert forall|t: B| #[trigger]
                    reversed_along(a, path_to(a, p), battle, t) implies reversed_along(
                    a,
                    path_to(a, leaf as int),
                    state,
                    t,
                ) by {
                    assert(reversed_along(a, upto, before, t));
                }
                lemma_credited_between(a, leaf as int, score, lost, p, cur as int, tree.nodes@);
            }
            cur = parent;
        }
    }
}

} // verus!
