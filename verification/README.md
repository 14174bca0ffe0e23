# mcts_exp3

A Monte Carlo tree search for battles in which both sides move at the same time, verified with
[Verus](https://github.com/verus-lang/verus). The move of each side is drawn by the Exp3 strategy,
the outcome of a turn by its percentage.

- `src/`: the search. Every function is verified. The rules of the battle and the arithmetic of
  scores are left to the caller, through the traits `battle::Battle` and `number::Real`, which
  promise nothing. The one thing that is taken on trust is a draw by rand's `WeightedIndex`
  (`weighted::weighted_index`).
- `app/`: the search over an engine that changes its state in place, with `f32` scores and `f64`
  probabilities, a clock, and a log of figures. The log is named by `POKE_MCTS_STATS_LOG`.
- `tests/`: the library at work on machine numbers and a small battle.

Of the search as a whole it is proved, among other things, that

- every round visits the root once, and the visits of the moves at a node are those of its
  children (`laws`);
- a round leaves the battle as it found it, wherever the engine's reversal takes back what was
  applied;
- the number of rounds follows the answers of the clock, up to the limit (`search`);
- every node but the root is held by its parent, for one pair of listed moves;
- moves with the same estimated scores get the same strategy (`exp3`);
- damage is told apart on the first two levels of the tree only;
- the figures on a search stand for what they say (`figures`).
