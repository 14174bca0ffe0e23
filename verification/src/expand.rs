//! Adding the outcomes of a turn to the tree.

use crate::backpropagate::SearchError;
use crate::battle::{applies, ended, has_ended, Battle, StateInstructions};
use crate::node::{lemma_pair_key_injective, pair_key, Bucket, Node};
use crate::number::{evaluates, Expr, Single};
use crate::selection::{draw_outcome, outcome_drawn};
use crate::tally::{lemma_tally_childless, lemma_tally_unvisited};
use crate::tree::{
    all_held, apart, bucket_placed, counted, deeper, held, holds, keyed, linked, rooted,
    side_agrees, tally, well_formed, Tree, Via,
};
use vstd::prelude::*;

verus! {

/// `node` is a new child of the node at `at` for the given pair of moves and the given outcome.
pub open spec fn is_child<C, I, S: Single>(
    nodes: Seq<Node<C, I, S>>,
    at: int,
    i1: usize,
    i2: usize,
    outcome: StateInstructions<I, S>,
    node: Node<C, I, S>,
) -> bool {
    &&& !node.root
    &&& node.parent == Some(at as usize)
    &&& node.children@ == Map::<u128, Bucket>::empty()
    &&& node.times_visited == 0
    &&& evaluates(Expr::Count(0), node.total_score)
    &&& node.depth == deeper(nodes[at].depth)
    &&& node.instructions == outcome
    &&& node.s1_choice == i1 % 256
    &&& node.s2_choice == i2 % 256
    &&& node.s1_options is None
    &&& node.s2_options is None
}

/// `new` is the node `old` with `bucket` noted as the outcomes of the given pair of moves.
pub open spec fn bucket_noted<C, I, S: Single>(
    old: Node<C, I, S>,
    i1: usize,
    i2: usize,
    bucket: Bucket,
    new: Node<C, I, S>,
) -> bool {
    &&& new == Node { children: new.children, ..old }
    &&& new.children@ == old.children@.insert(pair_key(i1, i2), bucket)
}

/// `new` are the nodes `old` and, behind them, a child of the node at `at` for each outcome of the
/// given pair of moves.
pub open spec fn grown<C, I, S: Single>(
    old: Seq<Node<C, I, S>>,
    at: int,
    i1: usize,
    i2: usize,
    outcomes: Seq<StateInstructions<I, S>>,
    new: Seq<Node<C, I, S>>,
) -> bool {
    &&& new.len() == old.len() + outcomes.len()
    &&& bucket_noted(
        old[at],
        i1,
        i2,
        (Bucket { first: old.len() as usize, count: outcomes.len() as usize }),
        new[at],
    )
    &&& forall|x: int| 0 <= x < old.len() && x != at ==> #[trigger] new[x] == old[x]
    &&& forall|x: int|
        old.len() <= x < new.len() ==> is_child(
            old,
            at,
            i1,
            i2,
            outcomes[x - old.len()],
            #[trigger] new[x],
        )
}

/// The percentages of the outcomes of a turn.
pub open spec fn outcome_percentages<I, S: Single>(outcomes: Seq<StateInstructions<I, S>>) -> Seq<
    S,
> {
    Seq::new(outcomes.len(), |i: int| outcomes[i].percentage)
}

/// There is no turn to play at the node: the battle has ended, unless this is the root, or
/// neither side has a move.
pub open spec fn nothing_to_play<C, I, S: Single>(
    node: Node<C, I, S>,
    over: bool,
    i1: usize,
    i2: usize,
) -> bool {
    ||| over && !node.root
    ||| node.s1_options->0@[i1 as int].move_choice is NoMove
        && node.s2_options->0@[i2 as int].move_choice is NoMove
}

/// Damage rolls are told apart at the node at `at`: at the root, and one level below it.
pub open spec fn branches<C, I, S: Single>(nodes: Seq<Node<C, I, S>>, at: int) -> bool {
    nodes[at].root || nodes[nodes[at].parent->0 as int].root
}

/// The engine lists `outcomes` for the given turn at the node at `at`, and hands `s` back as `m`.
pub open spec fn generated<B: Battle>(
    nodes: Seq<Node<B::Choice, B::Instruction, B::Score>>,
    at: int,
    i1: usize,
    i2: usize,
    s: B,
    m: B,
    outcomes: Vec<StateInstructions<B::Instruction, B::Score>>,
) -> bool {
    call_ensures(
        B::generate_instructions_from_move_pair,
        (
            s,
            &nodes[at].s1_options->0@[i1 as int].move_choice,
            &nodes[at].s2_options->0@[i2 as int].move_choice,
            branches(nodes, at),
        ),
        (m, outcomes),
    )
}

/// `new` are the nodes `old` after the given outcomes of a turn at `at` have been added. One of
/// them, at `n`, was drawn, and leads from state `m` to state `t`.
pub open spec fn played_with<B: Battle>(
    old: Seq<Node<B::Choice, B::Instruction, B::Score>>,
    at: int,
    i1: usize,
    i2: usize,
    m: B,
    outcomes: Seq<StateInstructions<B::Instruction, B::Score>>,
    new: Seq<Node<B::Choice, B::Instruction, B::Score>>,
    n: int,
    added: u32,
    t: B,
) -> bool {
    &&& old.len() <= n < new.len()
    &&& outcome_drawn(outcome_percentages(outcomes), Ok((n - old.len()) as usize))
    &&& grown(old, at, i1, i2, outcomes, new)
    &&& applies(m, outcomes[n - old.len()].instruction_list, t)
    &&& added == outcomes.len() % 0x1_0000_0000
}

/// `new` are the nodes `old` after the outcomes of a turn at `at`, in state `s`, have been added.
/// One of them, at `n`, was drawn and leads to state `t`.
pub open spec fn played<B: Battle>(
    old: Seq<Node<B::Choice, B::Instruction, B::Score>>,
    at: int,
    i1: usize,
    i2: usize,
    s: B,
    new: Seq<Node<B::Choice, B::Instruction, B::Score>>,
    n: int,
    added: u32,
    t: B,
) -> bool {
    exists|m: B, outcomes: Vec<StateInstructions<B::Instruction, B::Score>>| #[trigger]
        generated(old, at, i1, i2, s, m, outcomes) && played_with(
            old,
            at,
            i1,
            i2,
            m,
            outcomes@,
            new,
            n,
            added,
            t,
        )
}

/// `new` are the nodes `old` after the given turn at `at`, in state `s`, has been dealt with,
/// where the engine has said whether the battle is over. The search is then at `n`, in state `t`.
pub open spec fn expanded_when<B: Battle>(
    over: bool,
    old: Seq<Node<B::Choice, B::Instruction, B::Score>>,
    at: int,
    i1: usize,
    i2: usize,
    s: B,
    new: Seq<Node<B::Choice, B::Instruction, B::Score>>,
    n: int,
    added: u32,
    t: B,
) -> bool {
    if nothing_to_play(old[at], over, i1, i2) {
        &&& new == old
        &&& n == at
        &&& added == 0
        &&& t == s
    } else {
        played(old, at, i1, i2, s, new, n, added, t)
    }
}

/// `new` are the nodes `old` after the given turn at `at`, in state `s`, has been dealt with. The
/// search is then at `n`, in state `t`.
pub open spec fn expanded<B: Battle>(
    old: Seq<Node<B::Choice, B::Instruction, B::Score>>,
    at: int,
    i1: usize,
    i2: usize,
    s: B,
    new: Seq<Node<B::Choice, B::Instruction, B::Score>>,
    n: int,
    added: u32,
    t: B,
) -> bool {
    exists|over: bool| #[trigger]
        ended(s, over) && expanded_when(over, old, at, i1, i2, s, new, n, added, t)
}

/// The turn at `at` is to be played in state `s`, but none of its outcomes can be drawn.
pub open spec fn unplayable<B: Battle>(
    nodes: Seq<Node<B::Choice, B::Instruction, B::Score>>,
    at: int,
    i1: usize,
    i2: usize,
    s: B,
    e: SearchError,
) -> bool {
    exists|over: bool, m: B, outcomes: Vec<StateInstructions<B::Instruction, B::Score>>|
        {
            &&& #[trigger] ended(s, over)
            &&& !nothing_to_play(nodes[at], over, i1, i2)
            &&& #[trigger] generated(nodes, at, i1, i2, s, m, outcomes)
            &&& e is Weights
            &&& outcome_drawn(outcome_percentages(outcomes@), Err(e->Weights_0))
        }
}

/// Adding the outcomes of a turn keeps what a node holds for two pairs of moves apart.
proof fn lemma_grown_apart<C, I, S: Single>(
    old: Seq<Node<C, I, S>>,
    at: int,
    i1: usize,
    i2: usize,
    outcomes: Seq<StateInstructions<I, S>>,
    new: Seq<Node<C, I, S>>,
    n: int,
)
    requires
        rooted(old),
        0 <= at < old.len(),
        new.len() <= usize::MAX,
        grown(old, at, i1, i2, outcomes, new),
        0 <= n < new.len(),
    ensures
        apart(new, n),
{
    if n < old.len() {
        assert(apart(old, n));
        assert forall|a: usize, b: usize, c: int| #[trigger] holds(new, n, a, b, c) implies if n
            == at && a == i1 && b == i2 {
            c >= old.len()
        } else {
            c < old.len() && holds(old, n, a, b, c)
        } by {
            assert(bucket_placed(old, n, a, b));
            if n == at && pair_key(a, b) == pair_key(i1, i2) {
                lemma_pair_key_injective(a, b, i1, i2);
            }
        }
    } else {
        assert(is_child(old, at, i1, i2, outcomes[n - old.len()], new[n]));
    }
}

/// Adding the outcomes of a turn that was not played before keeps every node held by its parent.
proof fn lemma_grown_held<C, I, S: Single>(
    old: Seq<Node<C, I, S>>,
    at: int,
    i1: usize,
    i2: usize,
    outcomes: Seq<StateInstructions<I, S>>,
    new: Seq<Node<C, I, S>>,
)
    requires
        rooted(old),
        all_held(old),
        0 <= at < old.len(),
        old[at].bucket(i1, i2) is None,
        new.len() <= usize::MAX,
        grown(old, at, i1, i2, outcomes, new),
    ensures
        all_held(new),
{
    assert forall|c: int| 0 < c < new.len() implies #[trigger] held(new, c) by {
        if c < old.len() {
            assert(held(old, c));
            assert(linked(old, c));
            let p = old[c].parent->0 as int;
            let (a, b) = choose|a: usize, b: usize| #[trigger] holds(old, p, a, b, c);
            if p == at && pair_key(a, b) == pair_key(i1, i2) {
                lemma_pair_key_injective(a, b, i1, i2);
            }
            assert(new[c].parent == old[c].parent);
            assert(holds(new, p, a, b, c));
        } else {
            assert(is_child(old, at, i1, i2, outcomes[c - old.len()], new[c]));
            assert(new[c].parent->0 == at);
            assert(holds(new, at, i1, i2, c));
        }
    }
}

/// Adding the outcomes of a turn keeps the tree well-formed.
pub proof fn lemma_grown_well_formed<C, I, S: Single>(
    old: Seq<Node<C, I, S>>,
    at: int,
    i1: usize,
    i2: usize,
    outcomes: Seq<StateInstructions<I, S>>,
    new: Seq<Node<C, I, S>>,
)
    requires
        well_formed(old),
        0 <= at < old.len(),
        old[at].s1_options is Some,
        i1 < old[at].s1_options->0@.len(),
        i2 < old[at].s2_options->0@.len(),
        0 < outcomes.len(),
        new.len() <= usize::MAX,
        grown(old, at, i1, i2, outcomes, new),
    ensures
        well_formed(new),
        all_held(old) && old[at].bucket(i1, i2) is None ==> all_held(new),
{
    assert forall|c: int| 0 < c < new.len() implies #[trigger] linked(new, c) by {
        if c < old.len() {
            assert(linked(old, c));
        } else {
            assert(is_child(old, at, i1, i2, outcomes[c - old.len()], new[c]));
        }
    }
    assert forall|n: int, a: usize, b: usize| 0 <= n < new.len() implies #[trigger] bucket_placed(
        new,
        n,
        a,
        b,
    ) by {
        if n < old.len() {
            assert(bucket_placed(old, n, a, b));
            if n == at {
                if pair_key(a, b) == pair_key(i1, i2) {
                    lemma_pair_key_injective(a, b, i1, i2);
                } else {
                    assert(new[at].bucket(a, b) == old[at].bucket(a, b));
                }
            }
            if new[n].bucket(a, b) is Some {
                let bucket = new[n].bucket(a, b)->0;
                assert forall|c: int|
                    #![trigger new[c]]
                    bucket.first <= c < bucket.first + bucket.count implies {
                    &&& new[c].parent == Some(n as usize)
                    &&& new[c].s1_choice == a % 256
                    &&& new[c].s2_choice == b % 256
                } by {
                    if c < old.len() {
                        assert(old[c].parent == Some(n as usize));
                    } else {
                        assert(is_child(old, at, i1, i2, outcomes[c - old.len()], new[c]));
                    }
                }
            }
        } else {
            assert(is_child(old, at, i1, i2, outcomes[n - old.len()], new[n]));
        }
    }
    assert forall|n: int| 0 <= n < new.len() implies #[trigger] apart(new, n) by {
        lemma_grown_apart(old, at, i1, i2, outcomes, new, n);
    }
    assert forall|n: int| 0 <= n < new.len() implies keyed(#[trigger] new[n]) by {
        if n < old.len() {
            assert(keyed(old[n]));
        } else {
            assert(is_child(old, at, i1, i2, outcomes[n - old.len()], new[n]));
        }
    }
    if all_held(old) && old[at].bucket(i1, i2) is None {
        lemma_grown_held(old, at, i1, i2, outcomes, new);
    }
    let kept = new.take(old.len() as int);
    assert forall|n: int, via: Via| 0 <= n < new.len() implies #[trigger] tally(new, n, via)
        == tally(old, n, via) by {
        assert forall|x: int| kept.len() <= x < new.len() implies (
        #[trigger] new[x]).times_visited == 0 by {
            assert(is_child(old, at, i1, i2, outcomes[x - old.len()], new[x]));
        }
        lemma_tally_unvisited(kept, new, n, via);
        assert(crate::tally::same_visits(old, kept));
        crate::tally::lemma_tally_same(old, kept, n, via);
    }
    assert forall|n: int| 0 <= n < new.len() implies #[trigger] counted(new, n) by {
        if n < old.len() {
            assert(counted(old, n));
            assert(tally(new, n, Via::Any) == tally(old, n, Via::Any));
            assert(side_agrees(new, n, true));
            assert(side_agrees(new, n, false));
        } else {
            assert(is_child(old, at, i1, i2, outcomes[n - old.len()], new[n]));
            assert forall|x: int| 0 <= x < old.len() implies (#[trigger] old[x]).parent is None
                || old[x].parent->0 != n by {
                if x > 0 {
                    assert(linked(old, x));
                }
            }
            lemma_tally_childless(old, n, Via::Any);
            assert(tally(new, n, Via::Any) == tally(old, n, Via::Any));
        }
    }
    assert forall|n: int| 0 <= n < new.len() implies ((#[trigger] new[n]).s1_options is Some
        <==> new[n].s2_options is Some) by {
        if n >= old.len() {
            assert(is_child(old, at, i1, i2, outcomes[n - old.len()], new[n]));
        } else {
            assert(old[n].s1_options is Some <==> old[n].s2_options is Some);
        }
    }
}

impl<C, I, S: Single> Node<C, I, S> {
    /// Adds the outcomes of the given turn at the node at `at` to the tree, and goes on at one of
    /// them. Where there is no turn to play, the search stays at the node. Says where the search
    /// is then, and how many nodes were added.
    pub fn expand<B: Battle<Choice = C, Instruction = I, Score = S>>(
        tree: &mut Tree<C, I, S>,
        at: usize,
        state: B,
        s1_move_index: usize,
        s2_move_index: usize,
    ) -> (r: Result<(B, usize, u32), SearchError>)
        requires
            old(tree).wf(),
            at < old(tree).nodes@.len(),
            old(tree).nodes@[at as int].s1_options is Some,
            s1_move_index < old(tree).nodes@[at as int].s1_options->0@.len(),
            s2_move_index < old(tree).nodes@[at as int].s2_options->0@.len(),
        ensures
            final(tree).wf(),
            match r {
                Ok((t, n, added)) => {
                    &&& n < final(tree).nodes@.len()
                    &&& expanded(
                        old(tree).nodes@,
                        at as int,
                        s1_move_index,
                        s2_move_index,
                        state,
                        final(tree).nodes@,
                        n as int,
                        added,
                        t,
                    )
                },
                Err(e) => {
                    &&& final(tree).nodes@ == old(tree).nodes@
                    &&& unplayable(
                        old(tree).nodes@,
                        at as int,
                        s1_move_index,
                        s2_move_index,
                        state,
                        e,
                    )
                },
            },
    {
        let ghost a = tree.nodes@;
        let s1_move = &tree.nodes[at].s1_options.as_ref().unwrap()[s1_move_index].move_choice;
        let s2_move = &tree.nodes[at].s2_options.as_ref().unwrap()[s2_move_index].move_choice;
        let over = has_ended(&state);
        if (over && !tree.nodes[at].root) || (s1_move.is_none() && s2_move.is_none()) {
            assert(ended(state, over));
            return Ok((state, at, 0));
        }
        let should_branch_on_damage = tree.nodes[at].root || match tree.nodes[at].parent {
            Some(parent) => {
                assert(at > 0);
                assert(linked(a, at as int));
                tree.nodes[parent].root
            },
            None => {
                assert(at > 0);
                assert(linked(a, at as int));
                false
            },
        };
        let ghost start = state;
        let (battle, outcomes) = state.generate_instructions_from_move_pair(
            s1_move,
            s2_move,
            should_branch_on_damage,
        );
        assert(generated(a, at as int, s1_move_index, s2_move_index, start, battle, outcomes));
        let mut percentages: Vec<S> = Vec::new();
        let mut i: usize = 0;
        while i < outcomes.len()
            invariant
                i <= outcomes@.len(),
                percentages@ =~= outcome_percentages(outcomes@).take(i as int),
            decreases outcomes@.len() - i,
        {
            percentages.push(outcomes[i].percentage);
            i += 1;
        }
        assert(percentages@ =~= outcome_percentages(outcomes@));
        let drawn = match draw_outcome(&percentages) {
            Ok(drawn) => drawn,
            Err(e) => {
                return Err(SearchError::Weights(e));
            },
        };
        let depth = tree.nodes[at].depth;
        let child_depth = if depth < u16::MAX {
            depth + 1
        } else {
            depth
        };
        let first = tree.nodes.len();
        let count = outcomes.len();
        let ghost all = outcomes@;
        for outcome in it: outcomes
            invariant
                it.seq() == all,
                first == a.len(),
                at < a.len(),
                child_depth == deeper(a[at as int].depth),
                tree.nodes@.len() == a.len() + it.index(),
                forall|x: int| 0 <= x < a.len() ==> #[trigger] tree.nodes@[x] == a[x],
                forall|x: int|
                    a.len() <= x < tree.nodes@.len() ==> is_child(
                        a,
                        at as int,
                        s1_move_index,
                        s2_move_index,
                        all[x - a.len()],
                        #[trigger] tree.nodes@[x],
                    ),
        {
            let mut node = Node::new(outcome);
            node.parent = Some(at);
            node.s1_choice = (s1_move_index % 256) as u8;
            node.s2_choice = (s2_move_index % 256) as u8;
            node.depth = child_depth;
            tree.nodes.push(node);
        }
        assert(tree.nodes@.len() == tree.nodes.len());
        let chosen = first + drawn;
        let battle = battle.apply_instructions(&tree.nodes[chosen].instructions.instruction_list);
        let bucket = Bucket { first, count };
        let added = (count as u64 % 0x1_0000_0000) as u32;
        tree.nodes[at].note_outcomes(s1_move_index, s2_move_index, bucket);
        assert(tree.nodes@.len() == tree.nodes.len());
        proof {
            let new = tree.nodes@;
            assert(grown(a, at as int, s1_move_index, s2_move_index, all, new));
            lemma_grown_well_formed(a, at as int, s1_move_index, s2_move_index, all, new);
            assert(played(
                a,
                at as int,
                s1_move_index,
                s2_move_index,
                start,
                new,
                chosen as int,
                added,
                battle,
            ));
            assert(ended(start, over));
        }
        Ok((battle, chosen, added))
    }

    fn note_outcomes(&mut self, s1: usize, s2: usize, bucket: Bucket)
        ensures
            bucket_noted(*old(self), s1, s2, bucket, *final(self)),
    {
        broadcast use vstd::std_specs::hash::group_hash_axioms;

        self.children.insert(pair_key(s1, s2), bucket);
    }
}

} // verus!
