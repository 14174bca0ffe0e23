//! What formulas come to where the arithmetic is that of the real numbers.

use crate::number::{
    evaluates, fraction, fun_gives, op_gives, sum_formula, Expr, Fun, Op, Real, Single,
};
use vstd::prelude::*;

verus! {

/// A way to read numbers of type `R` as real numbers, with three functions on those. A number
/// without a reading, such as infinity, stands for none. Beyond `limit` exponentials may have no
/// reading.
#[verifier::reject_recursive_types(R)]
pub struct Reading<R> {
    pub of: spec_fn(R) -> Option<real>,
    pub exp: spec_fn(real) -> real,
    pub ln: spec_fn(real) -> real,
    pub sqrt: spec_fn(real) -> real,
    pub limit: real,
}

/// The larger of two real numbers.
pub open spec fn max_real(a: real, b: real) -> real {
    if a < b {
        b
    } else {
        a
    }
}

impl<R: Real> Reading<R> {
    /// `x` stands for a real number.
    pub open spec fn has(self, x: R) -> bool {
        (self.of)(x) is Some
    }

    /// The real number that `x` stands for.
    pub open spec fn at(self, x: R) -> real {
        (self.of)(x)->0
    }

    /// The functions behave like the exponential, the logarithm and the square root.
    pub open spec fn lawful(self) -> bool {
        &&& self.limit >= 0 as real
        &&& forall|a: real| #[trigger] (self.exp)(a) > 0 as real
        &&& forall|a: real, b: real|
            #![trigger (self.exp)(a), (self.exp)(b)]
            a < b ==> (self.exp)(a) < (self.exp)(b)
        &&& forall|a: real, b: real| #[trigger]
            (self.exp)(a + b) == (self.exp)(a) * (self.exp)(b)
        &&& forall|a: real, b: real|
            #![trigger (self.ln)(a), (self.ln)(b)]
            a > 0 as real && a < b ==> (self.ln)(a) < (self.ln)(b)
        &&& (self.ln)(1 as real) == 0 as real
        &&& forall|a: real|
            #![trigger (self.sqrt)(a)]
            a >= 0 as real ==> (self.sqrt)(a) >= 0 as real && (self.sqrt)(a) * (self.sqrt)(a) == a
    }

    /// The operations of `R` on two numbers give what those on real numbers give.
    pub open spec fn exact_on_two(self) -> bool {
        &&& forall|x: R, y: R, r: R| #[trigger]
            call_ensures(R::plus, (x, y), r) && self.has(x) && self.has(y) ==> (self.of)(r) == Some(
                self.at(x) + self.at(y),
            )
        &&& forall|x: R, y: R, r: R| #[trigger]
            call_ensures(R::minus, (x, y), r) && self.has(x) && self.has(y) ==> (self.of)(r)
                == Some(self.at(x) - self.at(y))
        &&& forall|x: R, y: R, r: R| #[trigger]
            call_ensures(R::times, (x, y), r) && self.has(x) && self.has(y) ==> (self.of)(r)
                == Some(self.at(x) * self.at(y))
        &&& forall|x: R, y: R, r: R| #[trigger]
            call_ensures(R::over, (x, y), r) && self.has(x) && self.has(y) && self.at(y)
                != 0 as real ==> (self.of)(r) == Some(self.at(x) / self.at(y))
        &&& forall|x: R, y: R, r: R| #[trigger]
            call_ensures(R::larger, (x, y), r) && self.has(x) && self.has(y) ==> (self.of)(r)
                == Some(max_real(self.at(x), self.at(y)))
        &&& forall|x: R, y: R, r: R| #[trigger]
            call_ensures(R::larger, (x, y), r) && call_ensures(R::neg_infinity, (), x)
                && self.has(y) ==> (self.of)(r) == (self.of)(y)
    }

    /// The operations of `R` on one number, and the numbers it counts with, are those of the real
    /// numbers.
    pub open spec fn exact_on_one(self) -> bool {
        &&& forall|n: u64, r: R| #[trigger]
            call_ensures(R::from_count, (n,), r) ==> (self.of)(r) == Some(n as int as real)
        &&& forall|x: R, r: R| #[trigger]
            call_ensures(R::exp, (x,), r) && self.has(x) && self.at(x) <= self.limit ==> (self.of)(
                r,
            ) == Some((self.exp)(self.at(x)))
        &&& forall|x: R, r: R| #[trigger]
            call_ensures(R::ln, (x,), r) && self.has(x) && self.at(x) > 0 as real ==> (self.of)(r)
                == Some((self.ln)(self.at(x)))
        &&& forall|x: R, r: R| #[trigger]
            call_ensures(R::sqrt, (x,), r) && self.has(x) && self.at(x) >= 0 as real ==> (self.of)(
                r,
            ) == Some((self.sqrt)(self.at(x)))
    }

    /// The comparisons of `R` are those of the real numbers.
    pub open spec fn exact_answers(self) -> bool {
        &&& forall|x: R, y: R, b: bool| #[trigger]
            call_ensures(R::equals, (x, y), b) && self.has(x) && self.has(y) ==> b == (self.at(x)
                == self.at(y))
        &&& forall|x: R, y: R, b: bool| #[trigger]
            call_ensures(R::at_most, (x, y), b) && self.has(x) && self.has(y) ==> b == (self.at(x)
                <= self.at(y))
    }

    /// The arithmetic of `R` is that of the real numbers.
    pub open spec fn exact(self) -> bool {
        &&& self.lawful()
        &&& self.exact_on_two()
        &&& self.exact_on_one()
        &&& self.exact_answers()
    }

    /// The real number that a formula comes to.
    pub open spec fn worth(self, e: Expr<R>) -> Option<real>
        decreases e,
    {
        match e {
            Expr::Value(x) => (self.of)(x),
            Expr::Count(n) => Some(n as int as real),
            Expr::Infinity => None,
            Expr::NegInfinity => None,
            Expr::Binary(op, a, b) => match (op, *a, self.worth(*a), self.worth(*b)) {
                (Op::Plus, _, Some(x), Some(y)) => Some(x + y),
                (Op::Minus, _, Some(x), Some(y)) => Some(x - y),
                (Op::Times, _, Some(x), Some(y)) => Some(x * y),
                (Op::Over, _, Some(x), Some(y)) => if y != 0 as real {
                    Some(x / y)
                } else {
                    None
                },
                (Op::Larger, _, Some(x), Some(y)) => Some(max_real(x, y)),
                (Op::Larger, Expr::NegInfinity, _, Some(y)) => Some(y),
                _ => None,
            },
            Expr::Unary(fun, a) => match (fun, self.worth(*a)) {
                (Fun::Exp, Some(x)) => if x <= self.limit {
                    Some((self.exp)(x))
                } else {
                    None
                },
                (Fun::Ln, Some(x)) => if x > 0 as real {
                    Some((self.ln)(x))
                } else {
                    None
                },
                (Fun::Sqrt, Some(x)) => if x >= 0 as real {
                    Some((self.sqrt)(x))
                } else {
                    None
                },
                _ => None,
            },
        }
    }
}

/// A number that the operations give for a formula stands for what the formula comes to.
pub proof fn law_worth<R: Real>(v: Reading<R>, e: Expr<R>, r: R)
    requires
        v.exact(),
        evaluates(e, r),
        v.worth(e) is Some,
    ensures
        (v.of)(r) == v.worth(e),
    decreases e,
{
    match e {
        Expr::Binary(op, a, b) => {
            let (x, y) = choose|x: R, y: R|
                evaluates(*a, x) && evaluates(*b, y) && #[trigger] op_gives(op, x, y, r);
            assert(op_gives(op, x, y, r));
            if v.worth(*a) is Some {
                law_worth(v, *a, x);
            }
            if v.worth(*b) is Some {
                law_worth(v, *b, y);
            }
        },
        Expr::Unary(fun, a) => {
            let x = choose|x: R| evaluates(*a, x) && #[trigger] fun_gives(fun, x, r);
            assert(fun_gives(fun, x, r));
            if v.worth(*a) is Some {
                law_worth(v, *a, x);
            }
        },
        _ => {},
    }
}

pub proof fn lemma_worth_plus<R: Real>(v: Reading<R>, a: Expr<R>, b: Expr<R>, x: real, y: real)
    requires
        v.worth(a) == Some(x),
        v.worth(b) == Some(y),
    ensures
        v.worth(a.plus(b)) == Some(x + y),
{
}

pub proof fn lemma_worth_minus<R: Real>(v: Reading<R>, a: Expr<R>, b: Expr<R>, x: real, y: real)
    requires
        v.worth(a) == Some(x),
        v.worth(b) == Some(y),
    ensures
        v.worth(a.minus(b)) == Some(x - y),
{
}

pub proof fn lemma_worth_times<R: Real>(v: Reading<R>, a: Expr<R>, b: Expr<R>, x: real, y: real)
    requires
        v.worth(a) == Some(x),
        v.worth(b) == Some(y),
    ensures
        v.worth(a.times(b)) == Some(x * y),
{
}

pub proof fn lemma_worth_over<R: Real>(v: Reading<R>, a: Expr<R>, b: Expr<R>, x: real, y: real)
    requires
        v.worth(a) == Some(x),
        v.worth(b) == Some(y),
        y != 0 as real,
    ensures
        v.worth(a.over(b)) == Some(x / y),
{
}

pub proof fn lemma_worth_larger<R: Real>(v: Reading<R>, a: Expr<R>, b: Expr<R>, x: real, y: real)
    requires
        v.worth(a) == Some(x),
        v.worth(b) == Some(y),
    ensures
        v.worth(a.larger(b)) == Some(max_real(x, y)),
{
}

/// The fraction `n / d` as a real number.
pub proof fn lemma_worth_fraction<R: Real>(v: Reading<R>, n: u64, d: u64)
    requires
        d > 0,
    ensures
        v.worth(fraction(n, d)) == Some((n as int as real) / (d as int as real)),
{
    lemma_worth_over(v, Expr::Count(n), Expr::Count(d), n as int as real, d as int as real);
}

/// Going from a number type to the wider one and back keeps what a number stands for.
pub open spec fn linked_readings<S: Single>(v: Reading<S>, w: Reading<S::Wide>) -> bool {
    &&& forall|x: S, r: S::Wide| #[trigger]
        call_ensures(S::widen, (x,), r) && v.has(x) ==> (w.of)(r) == (v.of)(x)
    &&& forall|x: S::Wide, r: S| #[trigger]
        call_ensures(S::narrow, (x,), r) && w.has(x) ==> (v.of)(r) == (w.of)(x)
}

/// The sum of real numbers.
pub open spec fn sum_real(xs: Seq<real>) -> real
    decreases xs.len(),
{
    if xs.len() == 0 {
        0 as real
    } else {
        sum_real(xs.drop_last()) + xs.last()
    }
}

/// What the numbers in `xs` stand for.
pub open spec fn readings<R: Real>(v: Reading<R>, xs: Seq<R>) -> Seq<real> {
    Seq::new(xs.len(), |i: int| v.at(xs[i]))
}

/// A sum of formulas comes to the sum of what they come to.
pub proof fn lemma_sum_worth<R: Real>(v: Reading<R>, es: Seq<Expr<R>>, xs: Seq<real>)
    requires
        es.len() == xs.len(),
        forall|i: int| 0 <= i < es.len() ==> v.worth(#[trigger] es[i]) == Some(xs[i]),
    ensures
        v.worth(sum_formula(es)) == Some(sum_real(xs)),
    decreases es.len(),
{
    if es.len() > 0 {
        assert forall|i: int| 0 <= i < es.drop_last().len() implies v.worth(
            #[trigger] es.drop_last()[i],
        ) == Some(xs.drop_last()[i]) by {
            assert(es.drop_last()[i] == es[i]);
        }
        lemma_sum_worth(v, es.drop_last(), xs.drop_last());
        assert(es.last() == es[es.len() - 1]);
    } else {
        assert(0u64 as int as real == 0 as real);
    }
}

/// A sum in which every term is scaled and shifted.
pub proof fn lemma_sum_scaled(xs: Seq<real>, ys: Seq<real>, a: real, b: real)
    requires
        xs.len() == ys.len(),
        forall|i: int| 0 <= i < xs.len() ==> #[trigger] ys[i] == a * xs[i] + b,
    ensures
        sum_real(ys) == a * sum_real(xs) + (xs.len() as int as real) * b,
    decreases xs.len(),
{
    if xs.len() > 0 {
        let n = xs.len() - 1;
        assert forall|i: int| 0 <= i < xs.drop_last().len() implies #[trigger] ys.drop_last()[i]
            == a * xs.drop_last()[i] + b by {
            assert(ys.drop_last()[i] == ys[i]);
        }
        lemma_sum_scaled(xs.drop_last(), ys.drop_last(), a, b);
        let (s, x) = (sum_real(xs.drop_last()), xs.last());
        assert(ys[n] == a * xs[n] + b);
        let m = n as real;
        assert(xs.len() as int as real == m + 1 as real);
        assert(a * s + m * b + (a * x + b) == a * (s + x) + (m + 1 as real) * b)
            by (nonlinear_arith);
    } else {
        assert(a * (0 as real) + (0 as real) * b == 0 as real) by (nonlinear_arith);
    }
}

/// Sums of terms that are not negative.
pub proof fn lemma_sum_positive(xs: Seq<real>)
    requires
        forall|i: int| 0 <= i < xs.len() ==> #[trigger] xs[i] >= 0 as real,
    ensures
        sum_real(xs) >= 0 as real,
        forall|i: int| 0 <= i < xs.len() ==> #[trigger] xs[i] <= sum_real(xs),
    decreases xs.len(),
{
    if xs.len() > 0 {
        let rest = xs.drop_last();
        assert forall|i: int| 0 <= i < rest.len() implies #[trigger] rest[i] >= 0 as real by {
            assert(rest[i] == xs[i]);
        }
        lemma_sum_positive(rest);
        assert(xs.last() == xs[xs.len() - 1]);
        assert forall|i: int| 0 <= i < xs.len() implies #[trigger] xs[i] <= sum_real(xs) by {
            if i < rest.len() {
                assert(rest[i] == xs[i]);
            }
        }
    }
}

} // verus!
