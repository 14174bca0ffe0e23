//! The search tree.
//!
//! All nodes of a tree stand in one vector, the root first and every node after its parent.
//! Nodes refer to one another by their place in it.

use crate::arm::MoveNode;
use crate::battle::{MoveChoice, StateInstructions};
use crate::number::{evaluates, Expr, Real, Single};
use std::collections::HashMap;
use vstd::prelude::*;

verus! {

/// The outcomes of one pair of moves: `count` nodes in a row, from `first` on.
#[derive(Clone, Copy, Debug)]
pub struct Bucket {
    pub first: usize,
    pub count: usize,
}

/// A state of the battle that the search has come to know of.
#[derive(Debug)]
pub struct Node<C, I, S: Single> {
    pub root: bool,
    pub parent: Option<usize>,
    /// The outcomes of the pairs of moves that have been played here, by [`pair_key`].
    pub children: HashMap<u128, Bucket>,
    pub times_visited: u32,
    pub total_score: S,
    pub depth: u16,
    /// What leads from the parent to this node, and the moves that it takes there.
    pub instructions: StateInstructions<I, S>,
    pub s1_choice: u8,
    pub s2_choice: u8,
    /// What has been learned of the moves of each side, once they have been listed.
    pub s1_options: Option<Vec<MoveNode<C, S>>>,
    pub s2_options: Option<Vec<MoveNode<C, S>>>,
}

/// The key under which the outcomes of a pair of moves stand.
pub open spec fn spec_pair_key(s1: usize, s2: usize) -> u128 {
    (s1 * 0x1_0000_0000_0000_0000 + s2) as u128
}

#[verifier::when_used_as_spec(spec_pair_key)]
pub fn pair_key(s1: usize, s2: usize) -> (r: u128)
    ensures
        r == pair_key(s1, s2),
{
    s1 as u128 * 0x1_0000_0000_0000_0000 + s2 as u128
}

pub proof fn lemma_pair_key_injective(a: usize, b: usize, c: usize, d: usize)
    requires
        pair_key(a, b) == pair_key(c, d),
    ensures
        a == c && b == d,
{
}

/// The moves have just been listed.
pub open spec fn all_new<C, S: Single>(
    choices: Seq<MoveChoice<C>>,
    options: Seq<MoveNode<C, S>>,
) -> bool {
    &&& options.len() == choices.len()
    &&& forall|i: int| 0 <= i < choices.len() ==> (#[trigger] options[i]).is_new(choices[i])
}

fn new_options<C, S: Single>(choices: Vec<MoveChoice<C>>) -> (r: Vec<MoveNode<C, S>>)
    ensures
        all_new(choices@, r@),
{
    let ghost all = choices@;
    let mut r: Vec<MoveNode<C, S>> = Vec::new();
    for choice in it: choices
        invariant
            it.seq() == all,
            r@.len() == it.index(),
            forall|j: int| 0 <= j < r@.len() ==> (#[trigger] r@[j]).is_new(all[j]),
    {
        r.push(MoveNode::new(choice));
    }
    r
}

impl<C, I, S: Single> Node<C, I, S> {
    /// `self` and `other` differ at most in what has been learned of the moves, and in visits.
    pub open spec fn same_place(self, other: Self) -> bool {
        &&& self.root == other.root
        &&& self.parent == other.parent
        &&& self.children == other.children
        &&& self.total_score == other.total_score
        &&& self.depth == other.depth
        &&& self.instructions == other.instructions
        &&& self.s1_choice == other.s1_choice
        &&& self.s2_choice == other.s2_choice
    }

    /// The moves of side one, or of side two.
    pub open spec fn options(self, one: bool) -> Option<Vec<MoveNode<C, S>>> {
        if one {
            self.s1_options
        } else {
            self.s2_options
        }
    }

    /// The move of side one, or of side two, that leads to the node.
    pub open spec fn choice(self, one: bool) -> u8 {
        if one {
            self.s1_choice
        } else {
            self.s2_choice
        }
    }

    /// The outcomes of the given pair of moves, where it has been played.
    pub open spec fn bucket(self, s1: usize, s2: usize) -> Option<Bucket> {
        if self.children@.contains_key(pair_key(s1, s2)) {
            Some(self.children@[pair_key(s1, s2)])
        } else {
            None
        }
    }

    /// A node without place in the tree yet.
    pub open spec fn is_blank(self) -> bool {
        &&& !self.root
        &&& self.parent is None
        &&& self.children@ == Map::<u128, Bucket>::empty()
        &&& self.times_visited == 0
        &&& evaluates(Expr::Count(0), self.total_score)
        &&& self.depth == 0
        &&& self.s1_choice == 0
        &&& self.s2_choice == 0
        &&& self.s1_options is None
        &&& self.s2_options is None
    }

    /// A node to which the given instructions lead.
    pub fn new(instructions: StateInstructions<I, S>) -> (r: Self)
        ensures
            r.is_blank(),
            r.instructions == instructions,
    {
        Node {
            root: false,
            parent: None,
            children: HashMap::new(),
            times_visited: 0,
            total_score: S::from_count(0),
            depth: 0,
            instructions,
            s1_choice: 0,
            s2_choice: 0,
            s1_options: None,
            s2_options: None,
        }
    }

    /// Lists the moves of the two sides.
    pub fn populate(
        &mut self,
        s1_options: Vec<MoveChoice<C>>,
        s2_options: Vec<MoveChoice<C>>,
    )
        ensures
            final(self).same_place(*old(self)),
            final(self).times_visited == old(self).times_visited,
            final(self).s1_options is Some,
            final(self).s2_options is Some,
            all_new(s1_options@, final(self).s1_options->0@),
            all_new(s2_options@, final(self).s2_options->0@),
    {
        self.s1_options = Some(new_options(s1_options));
        self.s2_options = Some(new_options(s2_options));
    }

    /// The outcomes of the given pair of moves, where it has been played.
    pub fn outcomes(&self, s1: usize, s2: usize) -> (r: Option<Bucket>)
        ensures
            r == self.bucket(s1, s2),
    {
        broadcast use vstd::std_specs::hash::group_hash_axioms;

        match self.children.get(&pair_key(s1, s2)) {
            Some(bucket) => Some(*bucket),
            None => None,
        }
    }
}

} // verus!
