use std::cell::{Cell, RefCell};
use std::rc::Rc;

use mcts_exp3::arm::MoveNode;
use mcts_exp3::backpropagate::{SearchError, Side};
use mcts_exp3::battle::{Battle, MoveChoice, StateInstructions};
use mcts_exp3::iteration::do_mcts;
use mcts_exp3::node::{pair_key, Node};
use mcts_exp3::number::{Real, Single};
use mcts_exp3::search::{perform_mcts_exp3, search, SearchStats, BATCH, MAX_ITERATIONS};
use mcts_exp3::tree::Tree;
use mcts_exp3::weighted::WeightError;

#[derive(Clone, Copy, Debug, PartialEq)]
struct F64(f64);

#[derive(Clone, Copy, Debug, PartialEq)]
struct F32(f32);

impl Real for F64 {
    fn from_count(n: u64) -> Self {
        F64(n as f64)
    }
    fn infinity() -> Self {
        F64(f64::INFINITY)
    }
    fn neg_infinity() -> Self {
        F64(f64::NEG_INFINITY)
    }
    fn plus(self, other: Self) -> Self {
        F64(self.0 + other.0)
    }
    fn minus(self, other: Self) -> Self {
        F64(self.0 - other.0)
    }
    fn times(self, other: Self) -> Self {
        F64(self.0 * other.0)
    }
    fn over(self, other: Self) -> Self {
        F64(self.0 / other.0)
    }
    fn larger(self, other: Self) -> Self {
        F64(self.0.max(other.0))
    }
    fn exp(self) -> Self {
        F64(self.0.exp())
    }
    fn ln(self) -> Self {
        F64(self.0.ln())
    }
    fn sqrt(self) -> Self {
        F64(self.0.sqrt())
    }
    fn equals(self, other: Self) -> bool {
        self.0 == other.0
    }
    fn at_most(self, other: Self) -> bool {
        self.0 <= other.0
    }
    fn is_finite(self) -> bool {
        self.0.is_finite()
    }
    fn portion(self, total: Self) -> Option<u64> {
        if !(self.0 >= 0.0) || !self.0.is_finite() {
            None
        } else if total.0 == 0.0 {
            Some(0)
        } else {
            Some((self.0 / total.0 * (1u64 << 62) as f64) as u64)
        }
    }
}

impl Real for F32 {
    fn from_count(n: u64) -> Self {
        F32(n as f32)
    }
    fn infinity() -> Self {
        F32(f32::INFINITY)
    }
    fn neg_infinity() -> Self {
        F32(f32::NEG_INFINITY)
    }
    fn plus(self, other: Self) -> Self {
        F32(self.0 + other.0)
    }
    fn minus(self, other: Self) -> Self {
        F32(self.0 - other.0)
    }
    fn times(self, other: Self) -> Self {
        F32(self.0 * other.0)
    }
    fn over(self, other: Self) -> Self {
        F32(self.0 / other.0)
    }
    fn larger(self, other: Self) -> Self {
        F32(self.0.max(other.0))
    }
    fn exp(self) -> Self {
        F32(self.0.exp())
    }
    fn ln(self) -> Self {
        F32(self.0.ln())
    }
    fn sqrt(self) -> Self {
        F32(self.0.sqrt())
    }
    fn equals(self, other: Self) -> bool {
        self.0 == other.0
    }
    fn at_most(self, other: Self) -> bool {
        self.0 <= other.0
    }
    fn is_finite(self) -> bool {
        self.0.is_finite()
    }
    fn portion(self, total: Self) -> Option<u64> {
        self.widen().portion(total.widen())
    }
}

impl Single for F32 {
    type Wide = F64;
    fn widen(self) -> F64 {
        F64(self.0 as f64)
    }
    fn narrow(wide: F64) -> F32 {
        F32(wide.0 as f32)
    }
}

/// A battle about a number: side one wants it high, side two low. Every turn has one outcome for
/// each of the given percentages, and after so many turns the battle is over.
#[derive(Debug)]
struct Duel {
    value: i64,
    turns: u32,
    limit: u32,
    moves: u8,
    percentages: Vec<f32>,
    /// Whether damage was to be told apart, turn by turn.
    branched: Rc<RefCell<Vec<bool>>>,
}

impl Duel {
    fn new(limit: u32, moves: u8, percentages: Vec<f32>) -> Self {
        Duel { value: 5, turns: 0, limit, moves, percentages, branched: Rc::new(RefCell::new(vec![])) }
    }
}

fn strength(choice: &MoveChoice<u8>) -> i64 {
    match choice {
        MoveChoice::Choice(n) => *n as i64 + 1,
        MoveChoice::NoMove => 0,
    }
}

fn choices(count: u8) -> Vec<MoveChoice<u8>> {
    (0..count).map(MoveChoice::Choice).collect()
}

impl Battle for Duel {
    type Choice = u8;
    type Instruction = i64;
    type Score = F32;

    fn get_all_options(&self) -> (Vec<MoveChoice<u8>>, Vec<MoveChoice<u8>>) {
        (choices(self.moves), choices(self.moves))
    }
    fn apply_instructions(mut self, list: &Vec<i64>) -> Self {
        self.value += list.iter().sum::<i64>();
        self.turns += 1;
        self
    }
    fn reverse_instructions(mut self, list: &Vec<i64>) -> Self {
        self.value -= list.iter().sum::<i64>();
        self.turns -= 1;
        self
    }
    fn battle_is_over(&self) -> F32 {
        if self.turns < self.limit {
            F32(0.0)
        } else if self.value > 0 {
            F32(1.0)
        } else {
            F32(-1.0)
        }
    }
    fn evaluate(&self) -> F32 {
        F32(self.value as f32 * 10.0)
    }
    fn generate_instructions_from_move_pair(
        self,
        s1_move: &MoveChoice<u8>,
        s2_move: &MoveChoice<u8>,
        branch_on_damage: bool,
    ) -> (Self, Vec<StateInstructions<i64, F32>>) {
        self.branched.borrow_mut().push(branch_on_damage);
        let change = 3 * strength(s1_move) - 2 * strength(s2_move);
        let outcomes = self
            .percentages
            .iter()
            .enumerate()
            .map(|(i, percentage)| StateInstructions {
                percentage: F32(*percentage),
                instruction_list: vec![change, i as i64],
            })
            .collect();
        (self, outcomes)
    }
}

type Nodes = Tree<u8, i64, F32>;
type Place = Node<u8, i64, F32>;

fn visits(options: &Option<Vec<MoveNode<u8, F32>>>) -> u32 {
    options.as_ref().unwrap().iter().map(|m| m.visits).sum()
}

/// What every tree keeps to, by the parents of its nodes.
fn check(tree: &Nodes) {
    for (n, node) in tree.nodes.iter().enumerate() {
        let children: Vec<&Place> = tree.nodes.iter().filter(|c| c.parent == Some(n)).collect();
        let below: u32 = children.iter().map(|c| c.times_visited).sum();
        assert!(below <= node.times_visited);
        assert_eq!(node.root, n == 0);
        if let Some(moves) = &node.s1_options {
            for (i, m) in moves.iter().enumerate() {
                assert!(m.visits > 0 || m.total_score == F32(0.0));
                let through: u32 = children
                    .iter()
                    .filter(|c| c.s1_choice as usize == i)
                    .map(|c| c.times_visited)
                    .sum();
                assert_eq!(m.visits, through);
            }
            assert_eq!(visits(&node.s1_options), below);
            assert_eq!(visits(&node.s2_options), below);
        } else {
            assert!(children.is_empty());
        }
        for (key, bucket) in &node.children {
            let (a, b) = ((key >> 64) as usize, (key & u64::MAX as u128) as usize);
            assert_eq!(*key, pair_key(a, b));
            assert!(a < node.s1_options.as_ref().unwrap().len());
            assert!(b < node.s2_options.as_ref().unwrap().len());
            assert!(bucket.count > 0);
            for c in &tree.nodes[bucket.first..bucket.first + bucket.count] {
                assert_eq!(c.parent, Some(n));
                assert_eq!((c.s1_choice as usize, c.s2_choice as usize), (a, b));
            }
        }
        if let Some(parent) = node.parent {
            assert!(parent < n);
            let buckets = tree.nodes[parent].children.values();
            let holding = buckets.filter(|b| b.first <= n && n < b.first + b.count).count();
            assert_eq!(holding, 1);
            assert_eq!(node.depth, tree.nodes[parent].depth + 1);
            assert!(node.times_visited <= tree.nodes[parent].times_visited);
        }
    }
}

#[test]
fn a_new_node_is_blank() {
    let node: Place =
        Node::new(StateInstructions { percentage: F32(30.0), instruction_list: vec![7] });
    assert!(!node.root);
    assert_eq!(node.parent, None);
    assert!(node.children.is_empty());
    assert_eq!(node.times_visited, 0);
    assert_eq!(node.total_score, F32(0.0));
    assert_eq!(node.depth, 0);
    assert_eq!(node.instructions.percentage, F32(30.0));
    assert_eq!(node.instructions.instruction_list, vec![7]);
    assert!(node.s1_options.is_none());
    assert!(node.s2_options.is_none());
}

#[test]
fn populating_lists_the_moves() {
    let tree: Nodes = Tree::new(choices(2), vec![MoveChoice::NoMove]);
    assert_eq!(tree.nodes.len(), 1);
    let root = &tree.nodes[0];
    assert!(root.root);
    let s1 = root.s1_options.as_ref().unwrap();
    let s2 = root.s2_options.as_ref().unwrap();
    assert_eq!(s1.len(), 2);
    assert!(matches!(s1[1].move_choice, MoveChoice::Choice(1)));
    assert_eq!(s2.len(), 1);
    assert!(s2[0].move_choice.is_none());
    assert!(!s1[0].move_choice.is_none());
    assert_eq!(root.instructions.instruction_list, Vec::<i64>::new());
    check(&tree);
}

#[test]
fn pairs_have_keys_of_their_own() {
    assert_eq!(pair_key(0, 3), 3);
    assert_eq!(pair_key(2, 1), (2u128 << 64) + 1);
    assert_ne!(pair_key(1, 0), pair_key(0, 1));
}

#[test]
fn selection_stops_at_a_turn_that_was_not_played() {
    let mut tree: Nodes = Tree::new(choices(3), choices(2));
    let state = Duel::new(10, 2, vec![100.0]);
    let (state, at, s1, s2) = Node::selection(&mut tree, 0, state).unwrap();
    assert_eq!(at, 0);
    assert!(s1 < 3 && s2 < 2);
    assert_eq!(state.value, 5);
    assert_eq!(state.turns, 0);
    assert!(tree.nodes[0].outcomes(s1, s2).is_none());
    let s1_options = tree.nodes[0].s1_options.as_ref().unwrap();
    assert_eq!(s1_options[0].curr_strat, s1_options[0].cum_strat);
    assert!(s1_options[0].curr_strat.0 > 0.3);
}

#[test]
fn selection_goes_through_turns_that_were_played() {
    let mut tree: Nodes = Tree::new(choices(1), choices(1));
    let state = Duel::new(10, 1, vec![100.0]);
    let (state, first, added) = Node::expand(&mut tree, 0, state, 0, 0).unwrap();
    assert_eq!((first, added), (1, 1));
    let state = Node::backpropagate(&mut tree, first, F32(0.5), state).unwrap();
    assert_eq!((state.value, state.turns), (5, 0));
    assert!(tree.nodes[1].s1_options.is_none());
    let (state, at, s1, s2) = Node::selection(&mut tree, 0, state).unwrap();
    assert_eq!((at, s1, s2), (1, 0, 0));
    assert_eq!((state.value, state.turns), (6, 1));
    assert_eq!(tree.nodes[1].s1_options.as_ref().unwrap().len(), 1);
    check(&tree);
}

#[test]
fn selection_draws_outcomes_by_percentage() {
    let mut tree: Nodes = Tree::new(choices(1), choices(1));
    let state = Duel::new(10, 1, vec![0.0, 25.0, 75.0]);
    let (mut state, _, added) = Node::expand(&mut tree, 0, state, 0, 0).unwrap();
    assert_eq!(added, 3);
    state = state.reverse_instructions(&vec![0]);
    let start = state.value;
    let mut seen = [0u32; 4];
    for _ in 0..4_000 {
        let (next, at, _, _) = Node::selection(&mut tree, 0, state).unwrap();
        seen[at] += 1;
        state = next.reverse_instructions(&tree.nodes[at].instructions.instruction_list);
        assert_eq!(state.value, start);
    }
    assert_eq!(seen[0], 0);
    assert_eq!(seen[1], 0);
    assert!(seen[2] > 700 && seen[2] < 1_300);
}

#[test]
fn selection_without_moves_fails() {
    let mut tree: Nodes = Tree::new(vec![], choices(2));
    let failed = Node::selection(&mut tree, 0, Duel::new(10, 2, vec![100.0]));
    assert!(matches!(failed, Err(SearchError::Weights(WeightError::InvalidInput))));
    let mut tree: Nodes = Tree::new(choices(2), vec![]);
    let failed = Node::selection(&mut tree, 0, Duel::new(10, 2, vec![100.0]));
    assert!(matches!(failed, Err(SearchError::Weights(WeightError::InvalidInput))));
}

#[test]
fn expanding_adds_every_outcome() {
    let mut tree: Nodes = Tree::new(choices(3), choices(2));
    let state = Duel::new(10, 2, vec![30.0, 70.0]);
    let (state, at, added) = Node::expand(&mut tree, 0, state, 2, 1).unwrap();
    assert_eq!(added, 2);
    assert_eq!(tree.nodes.len(), 3);
    assert!(at == 1 || at == 2);
    let bucket = tree.nodes[0].outcomes(2, 1).unwrap();
    assert_eq!((bucket.first, bucket.count), (1, 2));
    assert!(tree.nodes[0].outcomes(1, 2).is_none());
    for c in 1..3 {
        let child = &tree.nodes[c];
        assert_eq!(child.parent, Some(0));
        assert_eq!((child.s1_choice, child.s2_choice), (2, 1));
        assert_eq!(child.depth, 1);
        assert_eq!(child.times_visited, 0);
        assert_eq!(child.instructions.instruction_list, vec![5, c as i64 - 1]);
    }
    assert_eq!(tree.nodes[2].instructions.percentage, F32(70.0));
    assert_eq!(state.value, 5 + 5 + (at as i64 - 1));
    assert_eq!(state.turns, 1);
    check(&tree);
}

#[test]
fn damage_is_told_apart_on_two_levels() {
    let mut tree: Nodes = Tree::new(choices(1), choices(1));
    let mut state = Duel::new(10, 1, vec![100.0]);
    let branched = state.branched.clone();
    let mut at = 0;
    for _ in 0..4 {
        if tree.nodes[at].s1_options.is_none() {
            tree.nodes[at].populate(choices(1), choices(1));
        }
        let (next, child, _) = Node::expand(&mut tree, at, state, 0, 0).unwrap();
        state = next;
        at = child;
    }
    assert_eq!(*branched.borrow(), vec![true, true, false, false]);
    assert_eq!(tree.nodes[4].depth, 4);
    assert_eq!(state.turns, 4);
}

#[test]
fn a_battle_that_is_over_is_not_expanded() {
    let mut tree: Nodes = Tree::new(choices(1), choices(1));
    let state = Duel::new(1, 1, vec![100.0]);
    let (state, at, _) = Node::expand(&mut tree, 0, state, 0, 0).unwrap();
    assert_eq!(at, 1);
    tree.nodes[1].populate(choices(1), choices(1));
    let (state, at, added) = Node::expand(&mut tree, 1, state, 0, 0).unwrap();
    assert_eq!((at, added), (1, 0));
    assert_eq!(tree.nodes.len(), 2);
    assert_eq!(state.turns, 1);
}

#[test]
fn the_root_is_expanded_even_when_the_battle_is_over() {
    let mut tree: Nodes = Tree::new(choices(1), choices(1));
    let state = Duel::new(0, 1, vec![100.0]);
    let (_, at, added) = Node::expand(&mut tree, 0, state, 0, 0).unwrap();
    assert_eq!((at, added), (1, 1));
}

#[test]
fn a_turn_without_moves_is_not_expanded() {
    let mut tree: Nodes =
        Tree::new(vec![MoveChoice::NoMove, MoveChoice::Choice(0)], vec![MoveChoice::NoMove]);
    let state = Duel::new(10, 1, vec![100.0]);
    let (state, at, added) = Node::expand(&mut tree, 0, state, 0, 0).unwrap();
    assert_eq!((at, added), (0, 0));
    assert_eq!(tree.nodes.len(), 1);
    let (_, at, added) = Node::expand(&mut tree, 0, state, 1, 0).unwrap();
    assert_eq!((at, added), (1, 1));
}

#[test]
fn a_turn_without_outcomes_fails() {
    let mut tree: Nodes = Tree::new(choices(1), choices(1));
    let failed = Node::expand(&mut tree, 0, Duel::new(10, 1, vec![]), 0, 0);
    assert!(matches!(failed, Err(SearchError::Weights(WeightError::InvalidInput))));
    let failed = Node::expand(&mut tree, 0, Duel::new(10, 1, vec![0.0]), 0, 0);
    assert!(matches!(failed, Err(SearchError::Weights(WeightError::InsufficientNonZero))));
    let failed = Node::expand(&mut tree, 0, Duel::new(10, 1, vec![50.0, -1.0]), 0, 0);
    assert!(matches!(failed, Err(SearchError::Weights(WeightError::InvalidWeight))));
    assert_eq!(tree.nodes.len(), 1);
    assert!(tree.nodes[0].outcomes(0, 0).is_none());
}

#[test]
fn children_note_moves_in_a_byte() {
    let many: Vec<MoveChoice<u8>> = (0..300).map(|i| MoveChoice::Choice((i % 200) as u8)).collect();
    let mut tree: Nodes = Tree::new(many, choices(1));
    let state = Duel::new(10, 1, vec![100.0]);
    let (state, at, _) = Node::expand(&mut tree, 0, state, 255, 0).unwrap();
    assert_eq!(tree.nodes[at].s1_choice, 255);
    let state = state.reverse_instructions(&tree.nodes[at].instructions.instruction_list);
    let (state, at, _) = Node::expand(&mut tree, 0, state, 299, 0).unwrap();
    assert_eq!(tree.nodes[at].s1_choice, 43);
    Node::backpropagate(&mut tree, at, F32(1.0), state).unwrap();
    let s1 = tree.nodes[0].s1_options.as_ref().unwrap();
    assert_eq!(s1[43].visits, 1);
    assert_eq!(s1[299].visits, 0);
    assert!(tree.nodes[0].outcomes(299, 0).is_some());
}

#[test]
fn scores_go_back_to_the_moves_that_led_there() {
    let mut tree: Nodes = Tree::new(choices(2), choices(2));
    for m in tree.nodes[0].s1_options.as_mut().unwrap() {
        m.curr_strat = F64(0.5);
    }
    for m in tree.nodes[0].s2_options.as_mut().unwrap() {
        m.curr_strat = F64(0.5);
    }
    let state = Duel::new(10, 2, vec![100.0]);
    let (state, first, _) = Node::expand(&mut tree, 0, state, 1, 0).unwrap();
    tree.nodes[first].populate(choices(2), choices(2));
    let (state, second, _) = Node::expand(&mut tree, first, state, 0, 1).unwrap();
    assert_eq!(state.turns, 2);
    let state = Node::backpropagate(&mut tree, second, F32(0.75), state).unwrap();
    assert_eq!((state.value, state.turns), (5, 0));
    for n in 0..3 {
        assert_eq!(tree.nodes[n].times_visited, 1);
    }
    let s1 = tree.nodes[0].s1_options.as_ref().unwrap();
    let s2 = tree.nodes[0].s2_options.as_ref().unwrap();
    assert_eq!((s1[0].visits, s1[1].visits), (0, 1));
    assert_eq!((s2[0].visits, s2[1].visits), (1, 0));
    assert_eq!(s1[1].total_score, F32(0.75));
    assert_eq!(s1[1].est_score, F64(1.5));
    assert_eq!(s2[0].total_score, F32(0.25));
    assert_eq!(s2[0].est_score, F64(0.5));
    assert_eq!(s1[0].total_score, F32(0.0));
    let s2 = tree.nodes[first].s2_options.as_ref().unwrap();
    assert_eq!((s2[0].visits, s2[1].visits), (0, 1));
    assert_eq!(s2[1].est_score, F64(0.25 / 1e-6));
    check(&tree);
}

#[test]
fn scoring_the_root_visits_it_alone() {
    let mut tree: Nodes = Tree::new(choices(2), choices(2));
    let state = Node::backpropagate(&mut tree, 0, F32(1.0), Duel::new(10, 2, vec![])).unwrap();
    assert_eq!(state.value, 5);
    assert_eq!(tree.nodes[0].times_visited, 1);
    assert_eq!(visits(&tree.nodes[0].s1_options), 0);
    check(&tree);
}

#[test]
fn scores_without_bound_are_noticed() {
    let mut tree: Nodes = Tree::new(choices(1), choices(1));
    let state = Duel::new(10, 1, vec![100.0]);
    let (state, at, _) = Node::expand(&mut tree, 0, state, 0, 0).unwrap();
    let failed = Node::backpropagate(&mut tree, at, F32(f32::INFINITY), state);
    assert!(matches!(failed, Err(SearchError::NotFinite(Side::One))));
    assert_eq!(tree.nodes[at].times_visited, 1);
    assert_eq!(tree.nodes[0].times_visited, 0);
    assert_eq!(visits(&tree.nodes[0].s1_options), 1);
    assert_eq!(visits(&tree.nodes[0].s2_options), 0);

    let mut tree: Nodes = Tree::new(choices(1), choices(1));
    let state = Duel::new(10, 1, vec![100.0]);
    let (state, at, _) = Node::expand(&mut tree, 0, state, 0, 0).unwrap();
    tree.nodes[0].s2_options.as_mut().unwrap()[0].est_score = F64(f64::INFINITY);
    let failed = Node::backpropagate(&mut tree, at, F32(0.5), state);
    assert!(matches!(failed, Err(SearchError::NotFinite(Side::Two))));
    assert_eq!(tree.nodes[0].times_visited, 0);
    assert_eq!(visits(&tree.nodes[0].s1_options), 1);
    assert_eq!(visits(&tree.nodes[0].s2_options), 1);
}

#[test]
fn rollouts_compare_with_the_root() {
    let state = Duel::new(10, 1, vec![100.0]);
    let expected = 1.0 / (1.0 + (-0.0125f32 * (50.0 - 30.0)).exp());
    assert_eq!(Place::rollout(&state, F32(30.0)), F32(expected));
    assert_eq!(Place::rollout(&state, F32(50.0)), F32(0.5));
}

#[test]
fn rollouts_of_a_battle_that_is_over() {
    let mut state = Duel::new(0, 1, vec![100.0]);
    assert_eq!(Place::rollout(&state, F32(30.0)), F32(1.0));
    state.value = -1;
    assert_eq!(Place::rollout(&state, F32(30.0)), F32(0.0));
}

#[test]
fn rounds_keep_the_tree_and_the_battle() {
    let mut tree: Nodes = Tree::new(choices(3), choices(2));
    let mut state = Duel::new(4, 2, vec![20.0, 50.0, 30.0]);
    let mut nodes = 1;
    let mut deepest = 0;
    let mut steps = 0;
    for round in 1..=400 {
        let before: Vec<usize> = tree.nodes.iter().map(|n| n.children.len()).collect();
        let (next, depth, added) = do_mcts(&mut tree, state, F32(50.0)).unwrap();
        state = next;
        assert_eq!((state.value, state.turns), (5, 0));
        nodes += added as usize;
        deepest = deepest.max(depth);
        steps += depth as u32;
        assert_eq!(tree.nodes.len(), nodes);
        assert_eq!(tree.nodes[0].times_visited, round);
        assert_eq!(visits(&tree.nodes[0].s1_options), round);
        for (n, children) in before.iter().enumerate() {
            assert!(tree.nodes[n].children.len() >= *children);
        }
    }
    check(&tree);
    let visited = tree.nodes.iter().filter(|n| n.times_visited > 0);
    assert_eq!(visited.map(|n| n.depth).max(), Some(deepest));
    assert_eq!(tree.nodes[1..].iter().map(|n| n.times_visited).sum::<u32>(), steps);
    assert!(deepest <= 4);
}

#[test]
fn rounds_add_strategies_where_they_come_through() {
    let mut tree: Nodes = Tree::new(choices(3), choices(2));
    let mut state = Duel::new(4, 2, vec![20.0, 80.0]);
    for _ in 0..50 {
        let before: Vec<Option<Vec<f64>>> = tree
            .nodes
            .iter()
            .map(|n| n.s1_options.as_ref().map(|s| s.iter().map(|m| m.cum_strat.0).collect()))
            .collect();
        state = do_mcts(&mut tree, state, F32(50.0)).unwrap().0;
        for (n, old) in before.iter().enumerate() {
            let Some(moves) = &tree.nodes[n].s1_options else { continue };
            let old = old.clone().unwrap_or(vec![0.0; moves.len()]);
            let same = moves.iter().zip(&old).all(|(m, old)| m.cum_strat.0 == *old);
            let added = moves.iter().zip(&old).all(|(m, old)| m.cum_strat.0 == old + m.curr_strat.0);
            assert!(if n == 0 { added } else { same || added });
        }
    }
}

#[test]
fn rounds_without_moves_visit_the_root_alone() {
    let mut tree: Nodes = Tree::new(vec![MoveChoice::NoMove], vec![MoveChoice::NoMove]);
    let mut state = Duel::new(4, 2, vec![100.0]);
    for _ in 0..5 {
        let (next, depth, added) = do_mcts(&mut tree, state, F32(50.0)).unwrap();
        assert_eq!((depth, added), (0, 0));
        state = next;
    }
    assert_eq!(tree.nodes[0].times_visited, 5);
    assert_eq!(visits(&tree.nodes[0].s1_options), 0);
}

#[test]
fn a_round_that_cannot_be_finished() {
    let mut tree: Nodes = Tree::new(choices(1), choices(1));
    let failed = do_mcts(&mut tree, Duel::new(4, 1, vec![]), F32(0.0));
    assert!(matches!(failed, Err(SearchError::Weights(WeightError::InvalidInput))));
    let failed = do_mcts(&mut tree, Duel::new(4, 1, vec![100.0]), F32(f32::NAN));
    assert!(matches!(failed, Err(SearchError::NotFinite(Side::One))));
}

#[test]
fn figures_are_added_up() {
    let mut stats = SearchStats::new();
    stats.record(3, 10);
    stats.record(1, 0);
    stats.record(2, u32::MAX);
    assert_eq!(stats.nodes_expanded, 10 + u32::MAX as u64);
    assert_eq!(stats.max_depth, 3);
    assert_eq!(stats.total_depth, 6);
}

#[test]
fn a_search_without_time_reports_an_even_strategy() {
    let state = Duel::new(4, 2, vec![100.0]);
    let (state, result, stats) =
        perform_mcts_exp3(state, choices(4), choices(2), |_| false).unwrap();
    assert_eq!(state.value, 5);
    assert_eq!(result.iteration_count, 0);
    assert_eq!(result.s1.len(), 4);
    assert_eq!(result.s2.len(), 2);
    for r in &result.s1 {
        assert_eq!(r.visits, 0);
        assert_eq!(r.total_score, F32(0.0));
        assert_eq!(r.avg_strat, F32(0.25));
        assert_eq!(r.average_score(), F32(0.0));
    }
    assert_eq!(stats, SearchStats::new());
}

#[test]
fn a_search_plays_whole_batches() {
    let looks = Cell::new(0);
    let asked = RefCell::new(vec![]);
    let state = Duel::new(3, 2, vec![60.0, 40.0]);
    let (state, result, stats) = perform_mcts_exp3(state, choices(3), choices(2), |rounds| {
        asked.borrow_mut().push(rounds);
        looks.set(looks.get() + 1);
        looks.get() <= 3
    })
    .unwrap();
    assert_eq!(looks.get(), 4);
    assert_eq!(*asked.borrow(), vec![0, 1_000, 2_000, 3_000]);
    assert_eq!(result.iteration_count, 3 * BATCH);
    assert_eq!(result.iteration_count, 3_000);
    assert_eq!((state.value, state.turns), (5, 0));
    assert_eq!(result.s1.iter().map(|r| r.visits).sum::<u32>(), 3_000);
    assert_eq!(result.s2.iter().map(|r| r.visits).sum::<u32>(), 3_000);
    for (i, r) in result.s1.iter().enumerate() {
        assert!(matches!(r.move_choice, MoveChoice::Choice(c) if c as usize == i));
    }
    let total: f32 = result.s1.iter().map(|r| r.avg_strat.0).sum();
    assert!((total - 1.0).abs() < 1e-3);
    assert!(stats.max_depth <= 3);
    assert!(stats.total_depth <= 3_000 * 3);
    assert!(stats.nodes_expanded >= 6 * 2);
}

#[test]
fn a_search_finds_the_better_move() {
    let looks = Cell::new(0);
    let mut state = Duel::new(1, 1, vec![100.0]);
    state.value = -3;
    let (_, result, _) = perform_mcts_exp3(state, choices(2), choices(1), |_| {
        looks.set(looks.get() + 1);
        looks.get() <= 3
    })
    .unwrap();
    let losing = &result.s1[0];
    let winning = &result.s1[1];
    assert_eq!(losing.average_score(), F32(0.0));
    assert_eq!(winning.average_score(), F32(1.0));
    assert_eq!(losing.visits + winning.visits, 3_000);
    assert!(winning.visits > 2 * losing.visits);
    assert!(winning.avg_strat.0 > losing.avg_strat.0);
    assert_eq!(result.s2[0].total_score, F32(losing.visits as f32));
}

#[test]
fn a_search_counts_nodes() {
    let looks = Cell::new(0);
    let mut tree: Nodes = Tree::new(choices(2), choices(2));
    let state = Duel::new(3, 2, vec![50.0, 50.0]);
    let (_, stats) = search(&mut tree, state, F32(50.0), |_| {
        looks.set(looks.get() + 1);
        looks.get() <= 1
    })
    .unwrap();
    assert_eq!(tree.nodes[0].times_visited, 1_000);
    assert_eq!(stats.nodes_expanded as usize, tree.nodes.len() - 1);
    assert!(MAX_ITERATIONS == 10_000_000);
    check(&tree);
    let result = tree.report();
    assert_eq!(result.iteration_count, 1_000);
}

#[test]
fn a_search_without_moves_fails() {
    let failed = perform_mcts_exp3(Duel::new(3, 2, vec![100.0]), vec![], choices(1), |_| true);
    assert!(matches!(failed, Err(SearchError::Weights(WeightError::InvalidInput))));
    let failed = perform_mcts_exp3(Duel::new(3, 2, vec![100.0]), choices(1), vec![], |n| n == 0);
    assert!(matches!(failed, Err(SearchError::Weights(WeightError::InvalidInput))));
    let (_, result, _) =
        perform_mcts_exp3(Duel::new(3, 2, vec![100.0]), vec![], choices(1), |_| false).unwrap();
    assert_eq!(result.iteration_count, 0);
    assert!(result.s1.is_empty());
    assert_eq!(result.s2.len(), 1);
}

#[test]
fn a_search_ends_at_the_first_look_out_of_time() {
    let state = Duel::new(2, 2, vec![100.0]);
    let (_, result, _) =
        perform_mcts_exp3(state, choices(2), choices(2), |n| n != 2_000).unwrap();
    assert_eq!(result.iteration_count, 2_000);
}
