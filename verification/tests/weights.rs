use mcts_exp3::number::Real;
use mcts_exp3::weighted::{draw, draw_by_share, WeightError};

/// A whole number, divided without remainder, as far as drawing needs it.
#[derive(Clone, Copy, Debug, PartialEq)]
struct Whole(i64);

impl Real for Whole {
    fn from_count(n: u64) -> Self {
        Whole(n as i64)
    }
    fn infinity() -> Self {
        Whole(i64::MAX)
    }
    fn neg_infinity() -> Self {
        Whole(i64::MIN)
    }
    fn plus(self, other: Self) -> Self {
        Whole(self.0 + other.0)
    }
    fn minus(self, other: Self) -> Self {
        Whole(self.0 - other.0)
    }
    fn times(self, other: Self) -> Self {
        Whole(self.0 * other.0)
    }
    fn over(self, other: Self) -> Self {
        Whole(self.0 / other.0)
    }
    fn larger(self, other: Self) -> Self {
        Whole(self.0.max(other.0))
    }
    fn exp(self) -> Self {
        self
    }
    fn ln(self) -> Self {
        self
    }
    fn sqrt(self) -> Self {
        self
    }
    fn equals(self, other: Self) -> bool {
        self.0 == other.0
    }
    fn at_most(self, other: Self) -> bool {
        self.0 <= other.0
    }
    fn is_finite(self) -> bool {
        true
    }
    fn portion(self, total: Self) -> Option<u64> {
        if self.0 < 0 {
            None
        } else {
            Some(self.0 as u64)
        }
    }
}

#[test]
fn drawing_without_weights_fails() {
    assert_eq!(draw_by_share(&vec![]), Err(WeightError::InvalidInput));
    assert_eq!(draw::<Whole>(&vec![]), Err(WeightError::InvalidInput));
}

#[test]
fn drawing_with_an_invalid_weight_fails() {
    assert_eq!(draw_by_share(&vec![Some(1), None]), Err(WeightError::InvalidWeight));
    assert_eq!(draw(&vec![Whole(4), Whole(-1)]), Err(WeightError::InvalidWeight));
}

#[test]
fn drawing_with_zero_weights_fails() {
    assert_eq!(draw_by_share(&vec![Some(0), Some(0)]), Err(WeightError::InsufficientNonZero));
    assert_eq!(draw(&vec![Whole(0)]), Err(WeightError::InsufficientNonZero));
}

#[test]
fn drawing_with_too_large_a_sum_fails() {
    assert_eq!(draw_by_share(&vec![Some(u64::MAX), Some(1)]), Err(WeightError::Overflow));
    assert_eq!(draw_by_share(&vec![Some(u64::MAX), Some(0)]), Ok(0));
}

#[test]
fn zero_weights_are_never_drawn() {
    for _ in 0..1000 {
        assert_eq!(draw_by_share(&vec![Some(0), Some(0), Some(7), Some(0)]), Ok(2));
        assert_eq!(draw(&vec![Whole(0), Whole(5), Whole(0)]), Ok(1));
    }
}

#[test]
fn draws_follow_the_weights() {
    let mut drawn = [0u32; 2];
    for _ in 0..20_000 {
        drawn[draw(&vec![Whole(1), Whole(3)]).unwrap()] += 1;
    }
    assert!(drawn[0] > 4_000 && drawn[0] < 6_000);
    assert_eq!(drawn[0] + drawn[1], 20_000);
}
