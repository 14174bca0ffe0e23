//! Walking down the tree to where it has not been explored.

use crate::arm::MoveNode;
use crate::backpropagate::SearchError;
use crate::battle::{applies, Battle, MoveChoice};
use crate::exp3::exp3_drawn;
use crate::node::{all_new, Bucket, Node};
use crate::number::{evaluates, Expr, Single};
use crate::tally::{lemma_tally_childless, lemma_tally_same, same_visits};
use crate::tree::{
    all_held, bucket_placed, counted, just, kept, lemma_path_above, lemma_rooted_kept, linked,
    on_path, rooted, side_agrees, tally, toward, well_formed, Tree, Via,
};
use crate::weighted::{draw, drawn_by_share, shares, WeightError};
use vstd::prelude::*;

verus! {

/// `r` answers a draw among outcomes of the given percentages.
pub open spec fn outcome_drawn<S: Single>(
    percentages: Seq<S>,
    r: Result<usize, WeightError>,
) -> bool {
    exists|weights: Seq<S::Wide>, portions: Seq<Option<u64>>|
        {
            &&& weights.len() == percentages.len()
            &&& forall|i: int|
                0 <= i < percentages.len() ==> call_ensures(
                    S::widen,
                    (percentages[i],),
                    #[trigger] weights[i],
                )
            &&& #[trigger] shares(weights, portions)
            &&& drawn_by_share(portions, r)
        }
}

/// Draws one of the outcomes, with their percentages as weights.
pub(crate) fn draw_outcome<S: Single>(percentages: &Vec<S>) -> (r: Result<usize, WeightError>)
    ensures
        outcome_drawn(percentages@, r),
        r is Ok ==> r->Ok_0 < percentages@.len(),
{
    let mut weights: Vec<S::Wide> = Vec::new();
    let mut i: usize = 0;
    while i < percentages.len()
        invariant
            i <= percentages@.len(),
            weights@.len() == i,
            forall|j: int|
                0 <= j < i ==> call_ensures(
                    S::widen,
                    (percentages@[j],),
                    #[trigger] weights@[j],
                ),
        decreases percentages@.len() - i,
    {
        weights.push(percentages[i].widen());
        i += 1;
    }
    let r = draw(&weights);
    proof {
        let portions = choose|portions: Seq<Option<u64>>| #[trigger]
            shares(weights@, portions) && drawn_by_share(portions, r);
        assert(shares(weights@, portions));
    }
    r
}

/// The percentages of the outcomes in a bucket.
pub open spec fn percentages<C, I, S: Single>(
    nodes: Seq<Node<C, I, S>>,
    bucket: Bucket,
) -> Seq<S> {
    Seq::new(bucket.count as nat, |i: int| nodes[bucket.first + i].instructions.percentage)
}

/// The moves of the two sides at a node, which the engine lists where they are not listed yet.
pub open spec fn listed<B: Battle>(
    node: Node<B::Choice, B::Instruction, B::Score>,
    s: B,
    s1: Seq<MoveNode<B::Choice, B::Score>>,
    s2: Seq<MoveNode<B::Choice, B::Score>>,
) -> bool {
    if node.s1_options is Some {
        &&& s1 == node.s1_options->0@
        &&& s2 == node.s2_options->0@
    } else {
        exists|c1: Vec<MoveChoice<B::Choice>>, c2: Vec<MoveChoice<B::Choice>>|
            {
                &&& #[trigger] call_ensures(B::get_all_options, (&s,), (c1, c2))
                &&& all_new(c1@, s1)
                &&& all_new(c2@, s2)
            }
    }
}

/// `new` is the node `old` after a move has been drawn for each side in state `s`.
pub open spec fn turn_drawn<B: Battle>(
    old: Node<B::Choice, B::Instruction, B::Score>,
    s: B,
    new: Node<B::Choice, B::Instruction, B::Score>,
    i1: usize,
    i2: usize,
) -> bool {
    &&& new.same_place(old)
    &&& new.times_visited == old.times_visited
    &&& new.s1_options is Some
    &&& new.s2_options is Some
    &&& exists|
        s1: Seq<MoveNode<B::Choice, B::Score>>,
        s2: Seq<MoveNode<B::Choice, B::Score>>,
    |
        {
            &&& #[trigger] listed(old, s, s1, s2)
            &&& exp3_drawn(s1, new.s1_options->0@, Ok(i1))
            &&& exp3_drawn(s2, new.s2_options->0@, Ok(i2))
        }
}

/// `new` is the node at `x` after a turn has been drawn there whose outcome is the node at `c`.
/// Its moves had been listed before, so the state does not matter.
pub open spec fn passed<B: Battle>(
    nodes: Seq<Node<B::Choice, B::Instruction, B::Score>>,
    x: int,
    s: B,
    new: Node<B::Choice, B::Instruction, B::Score>,
    c: int,
) -> bool {
    &&& nodes[x].s1_options is Some
    &&& exists|i1: usize, i2: usize|
        {
            let bucket = nodes[x].bucket(i1, i2)->0;
            &&& #[trigger] turn_drawn(nodes[x], s, new, i1, i2)
            &&& nodes[x].bucket(i1, i2) is Some
            &&& bucket.first <= c < bucket.first + bucket.count
            &&& outcome_drawn(percentages(nodes, bucket), Ok((c - bucket.first) as usize))
        }
}

/// `new` is the node `old` after no turn could be drawn there in state `s`.
pub open spec fn turn_stuck<B: Battle>(
    old: Node<B::Choice, B::Instruction, B::Score>,
    s: B,
    new: Node<B::Choice, B::Instruction, B::Score>,
    e: WeightError,
) -> bool {
    &&& new.same_place(old)
    &&& new.times_visited == old.times_visited
    &&& new.s1_options is Some
    &&& new.s2_options is Some
    &&& exists|
        s1: Seq<MoveNode<B::Choice, B::Score>>,
        s2: Seq<MoveNode<B::Choice, B::Score>>,
    |
        {
            &&& #[trigger] listed(old, s, s1, s2)
            &&& {
                ||| exp3_drawn(s1, new.s1_options->0@, Err(e)) && new.s2_options->0@ == s2
                ||| exists|i1: usize| #[trigger]
                    exp3_drawn(s1, new.s1_options->0@, Ok(i1)) && exp3_drawn(
                        s2,
                        new.s2_options->0@,
                        Err(e),
                    )
            }
        }
}

/// `new` is the node at `x` after no turn could be drawn there, or no outcome of one.
pub open spec fn stuck<B: Battle>(
    nodes: Seq<Node<B::Choice, B::Instruction, B::Score>>,
    x: int,
    s: B,
    new: Node<B::Choice, B::Instruction, B::Score>,
    e: WeightError,
) -> bool {
    ||| turn_stuck(nodes[x], s, new, e)
    ||| exists|i1: usize, i2: usize|
        {
            &&& #[trigger] turn_drawn(nodes[x], s, new, i1, i2)
            &&& nodes[x].bucket(i1, i2) is Some
            &&& outcome_drawn(percentages(nodes, nodes[x].bucket(i1, i2)->0), Err(e))
        }
}

/// The engine takes `s` to `t` when it applies the instructions of the nodes below the one at
/// `at` down to the one at `n`.
pub open spec fn applied_between<B: Battle>(
    nodes: Seq<Node<B::Choice, B::Instruction, B::Score>>,
    at: int,
    n: int,
    s: B,
    t: B,
) -> bool
    decreases n,
{
    if n == at {
        t == s
    } else {
        &&& 0 < n < nodes.len()
        &&& nodes[n].parent is Some
        &&& nodes[n].parent->0 < n
        &&& exists|m: B| #[trigger]
            applies(m, nodes[n].instructions.instruction_list, t) && applied_between(
                nodes,
                at,
                nodes[n].parent->0 as int,
                s,
                m,
            )
    }
}

/// The node at `x` lies on the way from the one at `at` down to the one at `n`.
pub open spec fn between<C, I, S: Single>(
    nodes: Seq<Node<C, I, S>>,
    at: int,
    n: int,
    x: int,
) -> bool {
    on_path(nodes, n, x) && on_path(nodes, x, at)
}

/// `new` are the nodes `old` after a walk from `at`, in state `s`, has come to `n`, in state `t`:
/// a turn has been drawn at every node passed. Of the node at `n` itself nothing is said.
pub open spec fn descended<B: Battle>(
    old: Seq<Node<B::Choice, B::Instruction, B::Score>>,
    at: int,
    s: B,
    new: Seq<Node<B::Choice, B::Instruction, B::Score>>,
    n: int,
    t: B,
) -> bool {
    &&& new.len() == old.len()
    &&& 0 <= n < old.len()
    &&& on_path(old, n, at)
    &&& applied_between(old, at, n, s, t)
    &&& forall|x: int|
        0 <= x < old.len() && x != n ==> if between(old, at, n, x) {
            passed(old, x, s, #[trigger] new[x], toward(old, n, x))
        } else {
            new[x] == old[x]
        }
}

/// `new` are the nodes `old` after a walk from `at`, in state `s`, has come to `n`, in state `t`,
/// and has drawn a turn there that was not played yet.
pub open spec fn selected<B: Battle>(
    old: Seq<Node<B::Choice, B::Instruction, B::Score>>,
    at: int,
    s: B,
    new: Seq<Node<B::Choice, B::Instruction, B::Score>>,
    n: int,
    i1: usize,
    i2: usize,
    t: B,
) -> bool {
    &&& descended(old, at, s, new, n, t)
    &&& turn_drawn(old[n], t, new[n], i1, i2)
    &&& old[n].bucket(i1, i2) is None
}

/// `new` holds the same moves as `old`, visited as often and with the same scores; or they have
/// just been listed.
pub open spec fn side_relisted<C, S: Single>(
    old: Option<Vec<MoveNode<C, S>>>,
    new: Option<Vec<MoveNode<C, S>>>,
) -> bool {
    match (old, new) {
        (Some(a), Some(b)) => {
            &&& b@.len() == a@.len()
            &&& forall|i: int|
                0 <= i < a@.len() ==> (#[trigger] b@[i]).visits == a@[i].visits
                    && b@[i].total_score == a@[i].total_score
        },
        (None, Some(b)) => forall|i: int|
            0 <= i < b@.len() ==> (#[trigger] b@[i]).visits == 0 && evaluates(
                Expr::Count(0),
                b@[i].total_score,
            ),
        (None, None) => true,
        (Some(_), None) => false,
    }
}

/// `new` is the node `old` but for what is known of the moves, which keep their visits and scores.
pub open spec fn relisted<C, I, S: Single>(old: Node<C, I, S>, new: Node<C, I, S>) -> bool {
    &&& new.same_place(old)
    &&& new.times_visited == old.times_visited
    &&& side_relisted(old.s1_options, new.s1_options)
    &&& side_relisted(old.s2_options, new.s2_options)
    &&& new.s1_options is Some <==> new.s2_options is Some
}

/// Listing moves, and learning of them without a visit, keeps the visits of a side in agreement.
proof fn lemma_relisted_side<C, I, S: Single>(
    old: Seq<Node<C, I, S>>,
    new: Seq<Node<C, I, S>>,
    n: int,
    one: bool,
)
    requires
        rooted(old),
        0 <= n < old.len(),
        same_visits(old, new),
        side_relisted(old[n].options(one), new[n].options(one)),
        side_agrees(old, n, one),
    ensures
        side_agrees(new, n, one),
{
    if new[n].options(one) is Some {
        let after = new[n].options(one)->0@;
        if old[n].options(one) is None {
            assert forall|x: int| 0 <= x < old.len() implies (#[trigger] old[x]).parent is None
                || old[x].parent->0 != n by {
                if x > 0 {
                    assert(linked(old, x));
                }
            }
        }
        assert forall|i: int| 0 <= i < after.len() implies (#[trigger] after[i]).visits == tally(
            new,
            n,
            just(one, i),
        ) by {
            lemma_tally_same(old, new, n, just(one, i));
            if old[n].options(one) is Some {
                assert(old[n].options(one)->0@[i].visits == tally(old, n, just(one, i)));
            } else {
                lemma_tally_childless(old, n, just(one, i));
            }
        }
    }
}

/// Listing moves, and learning of them without a visit, keeps the tree well-formed.
pub proof fn lemma_relisted_well_formed<C, I, S: Single>(
    old: Seq<Node<C, I, S>>,
    new: Seq<Node<C, I, S>>,
)
    requires
        well_formed(old),
        new.len() == old.len(),
        forall|x: int| 0 <= x < old.len() ==> relisted(old[x], #[trigger] new[x]),
    ensures
        well_formed(new),
        all_held(old) ==> all_held(new),
{
    assert forall|x: int| 0 <= x < old.len() implies kept(old[x], #[trigger] new[x]) by {
        assert(relisted(old[x], new[x]));
    }
    lemma_rooted_kept(old, new);
    assert(same_visits(old, new));
    assert forall|n: int| 0 <= n < new.len() implies #[trigger] counted(new, n) by {
        assert(counted(old, n));
        assert(relisted(old[n], new[n]));
        lemma_tally_same(old, new, n, Via::Any);
        assert(old[n].s1_options is Some <==> old[n].s2_options is Some);
        lemma_relisted_side(old, new, n, true);
        lemma_relisted_side(old, new, n, false);
    }
}

pub proof fn lemma_drawn_relists<C, S: Single>(
    before: Seq<MoveNode<C, S>>,
    after: Seq<MoveNode<C, S>>,
    r: Result<usize, WeightError>,
)
    requires
        exp3_drawn(before, after, r),
    ensures
        after.len() == before.len(),
        forall|i: int|
            0 <= i < after.len() ==> (#[trigger] after[i]).visits == before[i].visits
                && after[i].total_score == before[i].total_score,
        r is Ok ==> r->Ok_0 < after.len(),
{
}

/// One step further down: a turn has been drawn at `n`, and its outcome is the node at `c`.
proof fn lemma_descended_step<B: Battle>(
    old: Seq<Node<B::Choice, B::Instruction, B::Score>>,
    at: int,
    s: B,
    new: Seq<Node<B::Choice, B::Instruction, B::Score>>,
    n: int,
    m: B,
    c: int,
    t: B,
)
    requires
        well_formed(old),
        0 <= at,
        descended(old, at, s, new, n, m),
        passed(old, n, s, new[n], c),
        n < c < old.len(),
        old[c].parent == Some(n as usize),
        applies(m, old[c].instructions.instruction_list, t),
    ensures
        descended(old, at, s, new, c, t),
        new[c] == old[c],
{
    lemma_path_above(old, n, at);
    assert forall|x: int| 0 <= x < old.len() && x != c implies if between(old, at, c, x) {
        passed(old, x, s, #[trigger] new[x], toward(old, c, x))
    } else {
        new[x] == old[x]
    } by {
        assert(on_path(old, c, x) == on_path(old, n, x));
        if x != n && on_path(old, n, x) {
            assert(toward(old, c, x) == toward(old, n, x));
        }
        if x == n {
            assert(on_path(old, n, n));
        }
    }
    if between(old, at, n, c) {
        lemma_path_above(old, n, c);
    }
    assert(applied_between(old, at, c, s, t)) by {
        assert(c != at);
    }
}

/// `new` are the nodes `old` after a walk from `at`, in state `s`, that was broken off by `e` where
/// it had come to.
pub open spec fn halted<B: Battle>(
    old: Seq<Node<B::Choice, B::Instruction, B::Score>>,
    at: int,
    s: B,
    new: Seq<Node<B::Choice, B::Instruction, B::Score>>,
    e: WeightError,
) -> bool {
    exists|n: int, t: B| #[trigger]
        descended(old, at, s, new, n, t) && stuck(old, n, t, new[n], e)
}

impl<C, I, S: Single> Node<C, I, S> {
    /// Draws one of the outcomes in a bucket, with their percentages as weights, and says
    /// which node it is.
    fn sample_node(nodes: &Vec<Self>, bucket: Bucket) -> (r: Result<usize, WeightError>)
        requires
            bucket.first + bucket.count <= nodes.len(),
        ensures
            match r {
                Ok(c) => {
                    &&& bucket.first <= c < bucket.first + bucket.count
                    &&& outcome_drawn(percentages(nodes@, bucket), Ok((c - bucket.first) as usize))
                },
                Err(e) => outcome_drawn(percentages(nodes@, bucket), Err(e)),
            },
    {
        let mut shares: Vec<S> = Vec::new();
        let mut i: usize = 0;
        while i < bucket.count
            invariant
                i <= bucket.count,
                bucket.first + bucket.count <= nodes.len(),
                shares@ =~= percentages(nodes@, bucket).take(i as int),
            decreases bucket.count - i,
        {
            shares.push(nodes[bucket.first + i].instructions.percentage);
            i += 1;
        }
        assert(shares@ =~= percentages(nodes@, bucket));
        match draw_outcome(&shares) {
            Ok(i) => Ok(bucket.first + i),
            Err(e) => Err(e),
        }
    }

    /// Draws a move for each side, once the moves have been listed.
    fn draw_turn<B: Battle<Choice = C, Instruction = I, Score = S>>(&mut self, state: &B) -> (r:
        Result<(usize, usize), WeightError>)
        requires
            old(self).s1_options is Some <==> old(self).s2_options is Some,
        ensures
            relisted(*old(self), *final(self)),
            match r {
                Ok(turn) => {
                    &&& turn_drawn(*old(self), *state, *final(self), turn.0, turn.1)
                    &&& turn.0 < final(self).s1_options->0@.len()
                    &&& turn.1 < final(self).s2_options->0@.len()
                },
                Err(e) => turn_stuck(*old(self), *state, *final(self), e),
            },
    {
        if self.s1_options.is_none() {
            let (s1_options, s2_options) = state.get_all_options();
            self.populate(s1_options, s2_options);
        }
        let ghost s1 = self.s1_options->0@;
        let ghost s2 = self.s2_options->0@;
        assert(listed(*old(self), *state, s1, s2));
        let r1 = match &mut self.s1_options {
            Some(moves) => Self::exp3_selection(moves.as_mut_slice()),
            None => Err(WeightError::InvalidInput),
        };
        proof {
            lemma_drawn_relists(s1, self.s1_options->0@, r1);
        }
        let i1 = match r1 {
            Ok(i1) => i1,
            Err(e) => {
                return Err(e);
            },
        };
        let r2 = match &mut self.s2_options {
            Some(moves) => Self::exp3_selection(moves.as_mut_slice()),
            None => Err(WeightError::InvalidInput),
        };
        proof {
            lemma_drawn_relists(s2, self.s2_options->0@, r2);
        }
        match r2 {
            Ok(i2) => Ok((i1, i2)),
            Err(e) => Err(e),
        }
    }

    /// Walks down from the node at `at`: draws a turn, and goes on at one of its outcomes as long
    /// as the turn has been played before. Says at which node that ended and with which turn.
    pub fn selection<B: Battle<Choice = C, Instruction = I, Score = S>>(
        tree: &mut Tree<C, I, S>,
        at: usize,
        state: B,
    ) -> (r: Result<(B, usize, usize, usize), SearchError>)
        requires
            old(tree).wf(),
            at < old(tree).nodes@.len(),
        ensures
            final(tree).wf(),
            match r {
                Ok((t, n, i1, i2)) => {
                    &&& selected(
                        old(tree).nodes@,
                        at as int,
                        state,
                        final(tree).nodes@,
                        n as int,
                        i1,
                        i2,
                        t,
                    )
                    &&& i1 < final(tree).nodes@[n as int].s1_options->0@.len()
                    &&& i2 < final(tree).nodes@[n as int].s2_options->0@.len()
                },
                Err(SearchError::Weights(e)) => halted(
                    old(tree).nodes@,
                    at as int,
                    state,
                    final(tree).nodes@,
                    e,
                ),
                Err(_) => false,
            },
    {
        let ghost a = tree.nodes@;
        let mut battle = state;
        let mut cur: usize = at;
        assert(on_path(a, at as int, at as int));
        assert forall|x: int| 0 <= x < a.len() && between(a, at as int, at as int, x) implies x
            == at by {
            lemma_path_above(a, at as int, x);
            lemma_path_above(a, x, at as int);
        }
        loop
            invariant
                a == old(tree).nodes@,
                well_formed(a),
                at < a.len(),
                cur < a.len(),
                descended(a, at as int, state, tree.nodes@, cur as int, battle),
                tree.nodes@[cur as int] == a[cur as int],
                forall|x: int| 0 <= x < a.len() ==> relisted(a[x], #[trigger] tree.nodes@[x]),
            decreases a.len() - cur,
        {
            let turn = tree.nodes[cur].draw_turn(&battle);
            proof {
                assert(descended(a, at as int, state, tree.nodes@, cur as int, battle));
                lemma_relisted_well_formed(a, tree.nodes@);
            }
            let (i1, i2) = match turn {
                Ok(turn) => turn,
                Err(e) => {
                    return Err(SearchError::Weights(e));
                },
            };
            assert(bucket_placed(a, cur as int, i1, i2));
            match tree.nodes[cur].outcomes(i1, i2) {
                Some(bucket) => {
                    proof {
                        assert(percentages(tree.nodes@, bucket) =~= percentages(a, bucket)) by {
                            assert forall|i: int| 0 <= i < bucket.count implies #[trigger] tree.nodes@[
                            bucket.first + i].instructions == a[bucket.first + i].instructions by {
                                assert(relisted(
                                    a[bucket.first + i],
                                    tree.nodes@[bucket.first + i],
                                ));
                            }
                        }
                    }
                    let chosen = match Self::sample_node(&tree.nodes, bucket) {
                        Ok(chosen) => chosen,
                        Err(e) => {
                            return Err(SearchError::Weights(e));
                        },
                    };
                    let ghost before = battle;
                    battle = battle.apply_instructions(
                        &tree.nodes[chosen].instructions.instruction_list,
                    );
                    proof {
                        assert(relisted(a[chosen as int], tree.nodes@[chosen as int]));
                        assert(linked(a, chosen as int));
                        let node = a[cur as int];
                        assert(listed(
                            node,
                            state,
                            node.s1_options->0@,
                            node.s2_options->0@,
                        ));
                        assert(turn_drawn(node, state, tree.nodes@[cur as int], i1, i2));
                        assert(passed(
                            a,
                            cur as int,
                            state,
                            tree.nodes@[cur as int],
                            chosen as int,
                        ));
                        lemma_descended_step(
                            a,
                            at as int,
                            state,
                            tree.nodes@,
                            cur as int,
                            before,
                            chosen as int,
                            battle,
                        );
                    }
                    cur = chosen;
                },
                None => {
                    return Ok((battle, cur, i1, i2));
                },
            }
        }
    }
}

} // verus!
