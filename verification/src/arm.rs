//! The moves of one side at a node.

use crate::battle::MoveChoice;
use crate::number::{evaluates, Expr, Real, Single};
use vstd::prelude::*;

verus! {

/// A move of one side at a node, with what the search has learned of it.
#[derive(Debug)]
pub struct MoveNode<C, S: Single> {
    pub move_choice: MoveChoice<C>,
    /// The scores of the visits, added up.
    pub total_score: S,
    /// How often the search went through this move.
    pub visits: u32,
    /// The probabilities that the strategy gave this move, added up.
    pub cum_strat: S::Wide,
    /// The probability that the strategy gave this move last.
    pub curr_strat: S::Wide,
    /// The scores of the visits, each divided by how likely the visit was, added up.
    pub est_score: S::Wide,
}

impl<C, S: Single> MoveNode<C, S> {
    /// The move has just been listed: no visits, and all sums zero.
    pub open spec fn is_new(self, choice: MoveChoice<C>) -> bool {
        &&& self.move_choice == choice
        &&& self.visits == 0
        &&& evaluates(Expr::Count(0), self.total_score)
        &&& evaluates(Expr::Count(0), self.cum_strat)
        &&& evaluates(Expr::Count(0), self.curr_strat)
        &&& evaluates(Expr::Count(0), self.est_score)
    }

    pub fn new(move_choice: MoveChoice<C>) -> (r: Self)
        ensures
            r.is_new(move_choice),
    {
        MoveNode {
            move_choice,
            total_score: S::from_count(0),
            visits: 0,
            cum_strat: S::Wide::from_count(0),
            curr_strat: S::Wide::from_count(0),
            est_score: S::Wide::from_count(0),
        }
    }
}

} // verus!
