use mcts_exp3::arm::MoveNode;
use mcts_exp3::average::{average_strategy, total_visits};
use mcts_exp3::battle::MoveChoice;
use mcts_exp3::exp3::note_strategy;
use mcts_exp3::iteration::sigmoid;
use mcts_exp3::node::Node;
use mcts_exp3::number::{Real, Single};
use mcts_exp3::report::{side_results, MctsSideResult};
use mcts_exp3::weighted::WeightError;

#[derive(Clone, Copy, Debug, PartialEq)]
struct F64(f64);

#[derive(Clone, Copy, Debug, PartialEq)]
struct F32(f32);

impl Real for F64 {
    fn from_count(n: u64) -> Self {
        F64(n as f64)
    }
    fn infinity() -> Self {
        F64(f64::INFINITY)
    }
    fn neg_infinity() -> Self {
        F64(f64::NEG_INFINITY)
    }
    fn plus(self, other: Self) -> Self {
        F64(self.0 + other.0)
    }
    fn minus(self, other: Self) -> Self {
        F64(self.0 - other.0)
    }
    fn times(self, other: Self) -> Self {
        F64(self.0 * other.0)
    }
    fn over(self, other: Self) -> Self {
        F64(self.0 / other.0)
    }
    fn larger(self, other: Self) -> Self {
        F64(self.0.max(other.0))
    }
    fn exp(self) -> Self {
        F64(self.0.exp())
    }
    fn ln(self) -> Self {
        F64(self.0.ln())
    }
    fn sqrt(self) -> Self {
        F64(self.0.sqrt())
    }
    fn equals(self, other: Self) -> bool {
        self.0 == other.0
    }
    fn at_most(self, other: Self) -> bool {
        self.0 <= other.0
    }
    fn is_finite(self) -> bool {
        self.0.is_finite()
    }
    fn portion(self, total: Self) -> Option<u64> {
        if !(self.0 >= 0.0) || !self.0.is_finite() {
            None
        } else if total.0 == 0.0 {
            Some(0)
        } else {
            Some((self.0 / total.0 * (1u64 << 62) as f64) as u64)
        }
    }
}

impl Real for F32 {
    fn from_count(n: u64) -> Self {
        F32(n as f32)
    }
    fn infinity() -> Self {
        F32(f32::INFINITY)
    }
    fn neg_infinity() -> Self {
        F32(f32::NEG_INFINITY)
    }
    fn plus(self, other: Self) -> Self {
        F32(self.0 + other.0)
    }
    fn minus(self, other: Self) -> Self {
        F32(self.0 - other.0)
    }
    fn times(self, other: Self) -> Self {
        F32(self.0 * other.0)
    }
    fn over(self, other: Self) -> Self {
        F32(self.0 / other.0)
    }
    fn larger(self, other: Self) -> Self {
        F32(self.0.max(other.0))
    }
    fn exp(self) -> Self {
        F32(self.0.exp())
    }
    fn ln(self) -> Self {
        F32(self.0.ln())
    }
    fn sqrt(self) -> Self {
        F32(self.0.sqrt())
    }
    fn equals(self, other: Self) -> bool {
        self.0 == other.0
    }
    fn at_most(self, other: Self) -> bool {
        self.0 <= other.0
    }
    fn is_finite(self) -> bool {
        self.0.is_finite()
    }
    fn portion(self, total: Self) -> Option<u64> {
        self.widen().portion(total.widen())
    }
}

impl Single for F32 {
    type Wide = F64;
    fn widen(self) -> F64 {
        F64(self.0 as f64)
    }
    fn narrow(wide: F64) -> F32 {
        F32(wide.0 as f32)
    }
}

type Arm = MoveNode<u8, F32>;
type Place = Node<u8, u8, F32>;

fn arm(choice: u8) -> Arm {
    MoveNode::new(MoveChoice::Choice(choice))
}

fn arms(count: u8) -> Vec<Arm> {
    (0..count).map(arm).collect()
}

#[test]
fn a_new_move_starts_at_zero() {
    let fresh = arm(3);
    assert!(matches!(fresh.move_choice, MoveChoice::Choice(3)));
    assert_eq!(fresh.total_score, F32(0.0));
    assert_eq!(fresh.visits, 0);
    assert_eq!(fresh.cum_strat, F64(0.0));
    assert_eq!(fresh.curr_strat, F64(0.0));
    assert_eq!(fresh.est_score, F64(0.0));
}

#[test]
fn equal_scores_give_an_even_strategy() {
    let strategy = Place::exp3_strategy(&arms(4), F64(0.1));
    assert_eq!(strategy, vec![F64(0.9 * 0.25 + 0.1 / 4.0); 4]);
}

#[test]
fn the_strategy_is_exponential_in_the_scores() {
    let mut moves = arms(3);
    moves[0].est_score = F64(-20.0);
    moves[1].est_score = F64(15.0);
    moves[2].est_score = F64(2.5);
    let gamma: f64 = 0.1;
    let lr = gamma / 3.0;
    let weights: Vec<f64> =
        [-20.0f64, 15.0, 2.5].iter().map(|e| (lr * (e - 15.0)).exp()).collect();
    let denom: f64 = 0.0 + weights[0] + weights[1] + weights[2];
    let strategy = Place::exp3_strategy(&moves, F64(gamma));
    for i in 0..3 {
        assert_eq!(strategy[i].0, (1.0 - gamma) * (weights[i] / denom) + gamma / 3.0);
    }
    assert!((strategy[0].0 + strategy[1].0 + strategy[2].0 - 1.0).abs() < 1e-12);
}

#[test]
fn the_strategy_depends_on_the_scores_alone() {
    let mut moves = arms(3);
    let mut others: Vec<Arm> = (7..10).map(arm).collect();
    for (i, score) in [1.5, -4.0, 0.25].iter().enumerate() {
        moves[i].est_score = F64(*score);
        others[i].est_score = F64(*score);
        others[i].visits = 5 + i as u32;
        others[i].total_score = F32(2.0);
        others[i].cum_strat = F64(0.5);
        others[i].curr_strat = F64(0.125);
    }
    let gamma = F64(0.3);
    assert_eq!(Place::exp3_strategy(&moves, gamma), Place::exp3_strategy(&others, gamma));
}

#[test]
fn no_moves_have_no_strategy() {
    assert_eq!(Place::exp3_strategy(&[], F64(0.1)), vec![]);
}

#[test]
fn selection_notes_the_strategy() {
    let mut moves = arms(2);
    moves[0].cum_strat = F64(2.0);
    moves[1].cum_strat = F64(3.0);
    moves[1].visits = 9;
    let chosen = Place::exp3_selection(&mut moves).unwrap();
    assert!(chosen < 2);
    assert_eq!(moves[0].curr_strat, F64(0.9 * 0.5 + 0.1 / 2.0));
    assert_eq!(moves[0].cum_strat, F64(2.0 + moves[0].curr_strat.0));
    assert_eq!(moves[1].cum_strat, F64(3.0 + moves[1].curr_strat.0));
    assert_eq!(moves[1].visits, 9);
    assert_eq!(moves[1].est_score, F64(0.0));
}

#[test]
fn selection_adds_the_strategy_at_every_passage() {
    let mut moves = arms(2);
    for _ in 0..8 {
        Place::exp3_selection(&mut moves).unwrap();
    }
    assert_eq!(moves[0].cum_strat, F64(8.0 * (0.9 * 0.5 + 0.1 / 2.0)));
}

#[test]
fn selection_prefers_the_better_move() {
    let mut moves = arms(2);
    moves[1].est_score = F64(1000.0);
    let mut chosen = [0u32; 2];
    for _ in 0..5_000 {
        chosen[Place::exp3_selection(&mut moves).unwrap()] += 1;
    }
    assert!(chosen[1] > 4_500);
    assert!(chosen[0] > 100);
}

#[test]
fn selection_among_no_moves_fails() {
    assert_eq!(Place::exp3_selection(&mut []), Err(WeightError::InvalidInput));
}

#[test]
fn selection_by_a_broken_score_fails() {
    let mut moves = arms(2);
    moves[0].est_score = F64(f64::NAN);
    assert_eq!(Place::exp3_selection(&mut moves), Err(WeightError::InvalidWeight));
}

#[test]
fn noting_a_strategy_replaces_the_current_one() {
    let mut moves = arms(2);
    note_strategy(&mut moves, &vec![F64(0.25), F64(0.75)]);
    note_strategy(&mut moves, &vec![F64(0.5), F64(0.5)]);
    assert_eq!(moves[0].curr_strat, F64(0.5));
    assert_eq!(moves[0].cum_strat, F64(0.75));
    assert_eq!(moves[1].cum_strat, F64(1.25));
}

#[test]
fn crediting_a_move() {
    let mut visited = arm(0);
    visited.total_score = F32(1.5);
    visited.visits = 2;
    visited.curr_strat = F64(0.25);
    visited.est_score = F64(4.0);
    assert!(visited.credit(F32(0.5)));
    assert_eq!(visited.total_score, F32(2.0));
    assert_eq!(visited.visits, 3);
    assert_eq!(visited.est_score, F64(6.0));
    assert_eq!(visited.curr_strat, F64(0.25));
}

#[test]
fn crediting_an_unlikely_move_divides_by_the_floor() {
    let mut visited = arm(0);
    visited.curr_strat = F64(1e-9);
    assert!(visited.credit(F32(1.0)));
    assert_eq!(visited.est_score, F64(1.0 / 1e-6));
}

#[test]
fn crediting_without_bound_is_noticed() {
    let mut visited = arm(0);
    visited.curr_strat = F64(0.5);
    assert!(!visited.credit(F32(f32::INFINITY)));
}

#[test]
fn an_unvisited_move_has_an_infinite_bound() {
    assert_eq!(arm(0).ucb1(1000), F32(f32::INFINITY));
}

#[test]
fn the_bound_of_a_visited_move() {
    let mut visited = arm(0);
    visited.visits = 7;
    visited.total_score = F32(3.5);
    let expected = (3.5f32 / 7.0) + (2.0 * (50.0f32).ln() / 7.0).sqrt();
    assert_eq!(visited.ucb1(50), F32(expected));
}

#[test]
fn mean_scores() {
    let mut visited = arm(0);
    visited.visits = 4;
    visited.total_score = F32(3.0);
    assert_eq!(visited.average_score(), F32(0.75));
    assert!(arm(0).average_score().0.is_nan());

    let result = MctsSideResult {
        move_choice: MoveChoice::Choice(0u8),
        total_score: F32(3.0),
        visits: 4,
        avg_strat: F32(1.0),
    };
    assert_eq!(result.average_score(), F32(0.75));
    let unvisited = MctsSideResult { visits: 0, ..result };
    assert_eq!(unvisited.average_score(), F32(0.0));
}

#[test]
fn visits_are_added_up() {
    let mut moves = arms(3);
    moves[0].visits = u32::MAX;
    moves[2].visits = 5;
    assert_eq!(total_visits(&moves), u32::MAX as u64 + 5);
}

#[test]
fn the_average_is_even_without_visits() {
    let mut moves = arms(5);
    moves[0].cum_strat = F64(9.0);
    assert_eq!(average_strategy(&moves, F64(0.1)), vec![F32(1.0 / 5.0); 5]);
    assert_eq!(average_strategy::<u8, F32>(&[], F64(0.1)), vec![]);
}

#[test]
fn the_average_is_even_where_nothing_exceeds_the_floor() {
    let mut moves = arms(2);
    moves[0].visits = 10;
    moves[0].cum_strat = F64(0.25);
    moves[1].cum_strat = F64(0.5);
    assert_eq!(average_strategy(&moves, F64(0.1)), vec![F32(0.5); 2]);
}

#[test]
fn the_average_leaves_the_floor_out() {
    let mut moves = arms(3);
    moves[0].visits = 6;
    moves[1].visits = 4;
    moves[0].cum_strat = F64(6.0);
    moves[1].cum_strat = F64(3.75);
    moves[2].cum_strat = F64(0.25);
    let floor = 0.1f64 / 3.0;
    let kept = [
        (6.0f64 / 10.0 - floor).max(0.0),
        (3.75f64 / 10.0 - floor).max(0.0),
        (0.25f64 / 10.0 - floor).max(0.0),
    ];
    assert_eq!(kept[2], 0.0);
    let sum = 0.0 + kept[0] + kept[1] + kept[2];
    let average = average_strategy(&moves, F64(0.1));
    for i in 0..3 {
        assert_eq!(average[i].0, (kept[i] / sum) as f32);
    }
}

#[test]
fn results_stand_beside_their_probabilities() {
    let mut moves = arms(2);
    moves[1].visits = 3;
    moves[1].total_score = F32(1.25);
    let results = side_results(moves, &vec![F32(0.25), F32(0.75)]);
    assert_eq!(results.len(), 2);
    assert!(matches!(results[1].move_choice, MoveChoice::Choice(1)));
    assert_eq!(results[1].visits, 3);
    assert_eq!(results[1].total_score, F32(1.25));
    assert_eq!(results[0].avg_strat, F32(0.25));
    assert_eq!(results[1].avg_strat, F32(0.75));
}

#[test]
fn the_sigmoid_is_steep_enough() {
    assert_eq!(sigmoid(F32(0.0)), F32(0.5));
    for x in [-300.0f32, -40.0, 1.0, 80.0, 200.0] {
        assert_eq!(sigmoid(F32(x)), F32(1.0 / (1.0 + (-0.0125 * x).exp())));
    }
    assert!(sigmoid(F32(200.0)).0 > 0.92);
}
