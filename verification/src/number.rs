//! The numbers that scores and probabilities are kept in.
//!
//! The search only ever combines such numbers; it never looks inside one. [`Real`] lists the
//! operations it uses, [`Expr`] writes a formula down, and [`evaluates`] says that a number is
//! what those operations give for a formula.

use vstd::prelude::*;

verus! {

/// A number type. Nothing is required of the operations but that they return.
pub trait Real: Copy {
    /// The number `n`.
    fn from_count(n: u64) -> Self;

    /// Positive infinity.
    fn infinity() -> Self;

    /// Negative infinity.
    fn neg_infinity() -> Self;

    fn plus(self, other: Self) -> Self;

    fn minus(self, other: Self) -> Self;

    fn times(self, other: Self) -> Self;

    fn over(self, other: Self) -> Self;

    /// The larger of two numbers.
    fn larger(self, other: Self) -> Self;

    fn exp(self) -> Self;

    fn ln(self) -> Self;

    fn sqrt(self) -> Self;

    fn equals(self, other: Self) -> bool;

    fn at_most(self, other: Self) -> bool;

    fn is_finite(self) -> bool;

    /// The part that a weight has of `total`, counted in shares of the total. How many shares a
    /// total has is the same for all weights. `None` where the weight is no finite number from
    /// zero upwards.
    fn portion(self, total: Self) -> Option<u64>;
}

/// A number type together with a wider one, which carries the sums that need more precision.
pub trait Single: Real {
    type Wide: Real + std::fmt::Debug;

    fn widen(self) -> Self::Wide;

    fn narrow(wide: Self::Wide) -> Self;
}

/// The operations on two numbers that formulas are made of.
pub enum Op {
    Plus,
    Minus,
    Times,
    Over,
    Larger,
}

/// The operations on one number that formulas are made of.
pub enum Fun {
    Exp,
    Ln,
    Sqrt,
}

/// A formula over numbers of type `R`.
pub enum Expr<R> {
    Value(R),
    Count(u64),
    Infinity,
    NegInfinity,
    Binary(Op, Box<Expr<R>>, Box<Expr<R>>),
    Unary(Fun, Box<Expr<R>>),
}

impl<R> Expr<R> {
    pub open spec fn plus(self, other: Self) -> Self {
        Expr::Binary(Op::Plus, Box::new(self), Box::new(other))
    }

    pub open spec fn minus(self, other: Self) -> Self {
        Expr::Binary(Op::Minus, Box::new(self), Box::new(other))
    }

    pub open spec fn times(self, other: Self) -> Self {
        Expr::Binary(Op::Times, Box::new(self), Box::new(other))
    }

    pub open spec fn over(self, other: Self) -> Self {
        Expr::Binary(Op::Over, Box::new(self), Box::new(other))
    }

    pub open spec fn larger(self, other: Self) -> Self {
        Expr::Binary(Op::Larger, Box::new(self), Box::new(other))
    }

    pub open spec fn exp(self) -> Self {
        Expr::Unary(Fun::Exp, Box::new(self))
    }

    pub open spec fn ln(self) -> Self {
        Expr::Unary(Fun::Ln, Box::new(self))
    }

    pub open spec fn sqrt(self) -> Self {
        Expr::Unary(Fun::Sqrt, Box::new(self))
    }
}

/// `op` gives `r` for `x` and `y`.
pub open spec fn op_gives<R: Real>(op: Op, x: R, y: R, r: R) -> bool {
    match op {
        Op::Plus => call_ensures(R::plus, (x, y), r),
        Op::Minus => call_ensures(R::minus, (x, y), r),
        Op::Times => call_ensures(R::times, (x, y), r),
        Op::Over => call_ensures(R::over, (x, y), r),
        Op::Larger => call_ensures(R::larger, (x, y), r),
    }
}

/// `fun` gives `r` for `x`.
pub open spec fn fun_gives<R: Real>(fun: Fun, x: R, r: R) -> bool {
    match fun {
        Fun::Exp => call_ensures(R::exp, (x,), r),
        Fun::Ln => call_ensures(R::ln, (x,), r),
        Fun::Sqrt => call_ensures(R::sqrt, (x,), r),
    }
}

/// `r` is what the operations of `R` give for the formula `e`.
pub open spec fn evaluates<R: Real>(e: Expr<R>, r: R) -> bool
    decreases e,
{
    match e {
        Expr::Value(x) => r == x,
        Expr::Count(n) => call_ensures(R::from_count, (n,), r),
        Expr::Infinity => call_ensures(R::infinity, (), r),
        Expr::NegInfinity => call_ensures(R::neg_infinity, (), r),
        Expr::Binary(op, a, b) => exists|x: R, y: R|
            evaluates(*a, x) && evaluates(*b, y) && #[trigger] op_gives(op, x, y, r),
        Expr::Unary(fun, a) => exists|x: R| evaluates(*a, x) && #[trigger] fun_gives(fun, x, r),
    }
}

/// Every operation that formulas are made of gives one result, however often it is called.
pub open spec fn single_valued<R: Real>() -> bool {
    &&& forall|n: u64, p: R, q: R| #[trigger]
        call_ensures(R::from_count, (n,), p) && #[trigger] call_ensures(R::from_count, (n,), q)
            ==> p == q
    &&& forall|p: R, q: R| #[trigger]
        call_ensures(R::infinity, (), p) && #[trigger] call_ensures(R::infinity, (), q) ==> p == q
    &&& forall|p: R, q: R| #[trigger]
        call_ensures(R::neg_infinity, (), p) && #[trigger] call_ensures(R::neg_infinity, (), q)
            ==> p == q
    &&& forall|op: Op, x: R, y: R, p: R, q: R| #[trigger]
        op_gives(op, x, y, p) && #[trigger] op_gives(op, x, y, q) ==> p == q
    &&& forall|fun: Fun, x: R, p: R, q: R| #[trigger]
        fun_gives(fun, x, p) && #[trigger] fun_gives(fun, x, q) ==> p == q
}

/// A formula has one value, where every operation gives one result.
pub proof fn law_one_value<R: Real>(e: Expr<R>, p: R, q: R)
    requires
        single_valued::<R>(),
        evaluates(e, p),
        evaluates(e, q),
    ensures
        p == q,
    decreases e,
{
    match e {
        Expr::Binary(op, a, b) => {
            let (x, y) = choose|x: R, y: R|
                evaluates(*a, x) && evaluates(*b, y) && #[trigger] op_gives(op, x, y, p);
            let (v, w) = choose|v: R, w: R|
                evaluates(*a, v) && evaluates(*b, w) && #[trigger] op_gives(op, v, w, q);
            law_one_value(*a, x, v);
            law_one_value(*b, y, w);
        },
        Expr::Unary(fun, a) => {
            let x = choose|x: R| evaluates(*a, x) && #[trigger] fun_gives(fun, x, p);
            let v = choose|v: R| evaluates(*a, v) && #[trigger] fun_gives(fun, v, q);
            law_one_value(*a, x, v);
        },
        _ => {},
    }
}

/// The operations of `R` answer `b` when asked whether `a` equals `e`.
pub open spec fn equal_answer<R: Real>(a: Expr<R>, e: Expr<R>, b: bool) -> bool {
    exists|x: R, y: R|
        evaluates(a, x) && evaluates(e, y) && #[trigger] call_ensures(R::equals, (x, y), b)
}

/// The operations of `R` answer `b` when asked whether `a` is at most `e`.
pub open spec fn at_most_answer<R: Real>(a: Expr<R>, e: Expr<R>, b: bool) -> bool {
    exists|x: R, y: R|
        evaluates(a, x) && evaluates(e, y) && #[trigger] call_ensures(R::at_most, (x, y), b)
}

/// The sum of the formulas in `es`, taken from the left, starting at zero.
pub open spec fn sum_formula<R>(es: Seq<Expr<R>>) -> Expr<R>
    decreases es.len(),
{
    if es.len() == 0 {
        Expr::Count(0)
    } else {
        sum_formula(es.drop_last()).plus(es.last())
    }
}

/// The largest of the numbers in `xs`, taken from the left, starting at negative infinity.
pub open spec fn max_formula<R>(xs: Seq<R>) -> Expr<R>
    decreases xs.len(),
{
    if xs.len() == 0 {
        Expr::NegInfinity
    } else {
        max_formula(xs.drop_last()).larger(Expr::Value(xs.last()))
    }
}

/// The formulas that are just the numbers in `xs`.
pub open spec fn values<R>(xs: Seq<R>) -> Seq<Expr<R>> {
    Seq::new(xs.len(), |i: int| Expr::Value(xs[i]))
}

/// The fraction `n / d`.
pub open spec fn fraction<R>(n: u64, d: u64) -> Expr<R> {
    Expr::Count(n).over(Expr::Count(d))
}

pub proof fn lemma_binary<R: Real>(op: Op, a: Expr<R>, b: Expr<R>, x: R, y: R, r: R)
    requires
        evaluates(a, x),
        evaluates(b, y),
        op_gives(op, x, y, r),
    ensures
        evaluates(Expr::Binary(op, Box::new(a), Box::new(b)), r),
{
}

pub proof fn lemma_unary<R: Real>(fun: Fun, a: Expr<R>, x: R, r: R)
    requires
        evaluates(a, x),
        fun_gives(fun, x, r),
    ensures
        evaluates(Expr::Unary(fun, Box::new(a)), r),
{
}

/// Adds `x` and `y`, of which `a` and `b` are the formulas.
pub(crate) fn add_up<R: Real>(
    x: R,
    y: R,
    Ghost(a): Ghost<Expr<R>>,
    Ghost(b): Ghost<Expr<R>>,
) -> (r: R)
    requires
        evaluates(a, x),
        evaluates(b, y),
    ensures
        evaluates(a.plus(b), r),
{
    let r = x.plus(y);
    proof {
        lemma_binary(Op::Plus, a, b, x, y, r);
    }
    r
}

/// The fraction `n / d`.
pub(crate) fn quotient<R: Real>(n: u64, d: u64) -> (r: R)
    ensures
        evaluates(fraction::<R>(n, d), r),
{
    let x = R::from_count(n);
    let y = R::from_count(d);
    let r = x.over(y);
    proof {
        lemma_binary(Op::Over, Expr::Count(n), Expr::Count(d), x, y, r);
    }
    r
}

/// The sum of `xs`.
pub(crate) fn sum_of<R: Real>(xs: &Vec<R>, Ghost(es): Ghost<Seq<Expr<R>>>) -> (r: R)
    requires
        es.len() == xs@.len(),
        forall|i: int| #![trigger es[i]] 0 <= i < es.len() ==> evaluates(es[i], xs@[i]),
    ensures
        evaluates(sum_formula(es), r),
{
    let mut total = R::from_count(0);
    let mut i: usize = 0;
    assert(evaluates(sum_formula(es.take(0)), total));
    while i < xs.len()
        invariant
            i <= xs@.len() == es.len(),
            forall|j: int| #![trigger es[j]] 0 <= j < es.len() ==> evaluates(es[j], xs@[j]),
            evaluates(sum_formula(es.take(i as int)), total),
        decreases xs@.len() - i,
    {
        let ghost before = es.take(i as int);
        assert(es.take(i + 1).drop_last() =~= before);
        assert(es.take(i + 1).last() == es[i as int]);
        total = add_up(total, xs[i], Ghost(sum_formula(before)), Ghost(es[i as int]));
        i += 1;
    }
    assert(es.take(i as int) =~= es);
    total
}

} // verus!
