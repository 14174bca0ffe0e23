//! A Monte Carlo tree search for battles in which both sides move at the same time.
//!
//! Every turn both sides choose a move, and chance decides between the outcomes. A round of the
//! search walks down the tree, drawing the move of each side by the Exp3 strategy and the outcome
//! by its percentage, until it comes to a turn that was not played yet. It adds the outcomes of
//! that turn to the tree, scores one of them, and hands the score back to the moves that led
//! there. In the end the search reports, for each move at the root, its visits, its score, and its
//! probability in the average strategy.
//!
//! Two things are left to the caller, as traits that promise nothing: the rules of the battle
//! ([`battle::Battle`]), and the arithmetic of scores and probabilities ([`number::Real`]).
//! Contracts say which calls are made and how their results are put together.
//!
//! - [`number`]: formulas, and what it means that a number is the value of one.
//! - [`weighted`]: drawing an index by weights.
//! - [`battle`]: the engine.
//! - [`arm`], [`node`], [`tree`]: the tree, and what holds of every tree.
//! - [`exp3`], [`average`]: the strategies.
//! - [`selection`], [`expand`], [`backpropagate`], [`iteration`]: the parts of a round, and the
//!   round.
//! - [`search`], [`report`]: the search as a whole, and its report.
//! - [`tally`]: counting the visits of children.
//! - [`laws`], [`figures`]: what holds of rounds and of searches.
//! - [`exact`]: formulas read as real numbers.
//! - [`payoffs`]: what scores and strategies come to, in real numbers.
//! - [`conduct`], [`course`]: what rounds and searches do, call by call.
//! - [`promises`], [`deeds`]: what all this promises, and of which functions.

pub mod arm;
pub mod average;
pub mod backpropagate;
pub mod battle;
pub mod conduct;
pub mod course;
pub mod deeds;
pub mod exact;
pub mod exp3;
pub mod expand;
pub mod figures;
pub mod iteration;
pub mod laws;
pub mod node;
pub mod number;
pub mod payoffs;
pub mod promises;
pub mod report;
pub mod search;
pub mod selection;
pub mod tally;
pub mod tree;
pub mod weighted;
