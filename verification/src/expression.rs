//! Product-of-powers expressions.
//!
//! A pure, reusable representation of the right-hand sides of dimension, unit
//! and constant definitions: numeric literals and named references are leaves,
//! every leaf may carry an integer power, and compound expressions nest
//! through binary multiply/divide nodes only.  No resolution or evaluation
//! logic lives here; the module offers the data and structural transforms.

use vstd::prelude::*;
use crate::dimension_math::Exponent;

verus! {

/// A leaf factor: a concrete numeric literal (the bit pattern of a double) or
/// a reference to another named entry.
#[derive(Debug)]
pub enum Factor {
    Concrete(u64),
    Other(String),
}

/// The mathematical value of a `Factor`.
pub enum FactorView {
    Concrete(u64),
    Other(Seq<char>),
}

impl View for Factor {
    type V = FactorView;

    open spec fn view(&self) -> FactorView {
        match self {
            Factor::Concrete(c) => FactorView::Concrete(*c),
            Factor::Other(name) => FactorView::Other(name@),
        }
    }
}

impl Clone for Factor {
    fn clone(&self) -> (r: Self)
        ensures
            r == *self,
    {
        match self {
            Factor::Concrete(c) => Factor::Concrete(*c),
            Factor::Other(name) => Factor::Other(name.clone()),
        }
    }
}

impl Factor {
    /// The factor with a concrete value mapped through `f`; a reference is
    /// returned unchanged.
    pub fn map_concrete<F: Fn(u64) -> u64>(&self, f: &F) -> (r: Factor)
        requires
            forall|c: u64| #[trigger] call_requires(f, (c,)),
        ensures
            match (self, &r) {
                (Factor::Concrete(c), Factor::Concrete(rc)) => call_ensures(f, (*c,), *rc),
                (Factor::Other(name), Factor::Other(rname)) => name@ == rname@,
                _ => false,
            },
    {
        match self {
            Factor::Concrete(c) => Factor::Concrete(f(*c)),
            Factor::Other(name) => Factor::Other(name.clone()),
        }
    }
}

/// The two binary operators of the surface syntax.
#[derive(Clone, Copy, Debug, PartialEq, Eq, Structural)]
pub enum Operator {
    Mul,
    Div,
}

/// A leaf with the power the grammar attached to it: a bare factor, or a
/// factor raised to an integer exponent.
#[derive(Debug)]
pub enum ExprFactor {
    Value(Factor),
    Power(Factor, Exponent),
}

/// The mathematical value of an `ExprFactor`.
pub enum ExprFactorView {
    Value(FactorView),
    Power(FactorView, int),
}

impl View for ExprFactor {
    type V = ExprFactorView;

    open spec fn view(&self) -> ExprFactorView {
        match self {
            ExprFactor::Value(x) => ExprFactorView::Value(x@),
            ExprFactor::Power(x, n) => ExprFactorView::Power(x@, *n as int),
        }
    }
}

impl Clone for ExprFactor {
    fn clone(&self) -> (r: Self)
        ensures
            r == *self,
    {
        match self {
            ExprFactor::Value(x) => ExprFactor::Value(x.clone()),
            ExprFactor::Power(x, n) => ExprFactor::Power(x.clone(), *n),
        }
    }
}

/// A binary node: a whole expression on the left, a single powered factor on
/// the right.
#[derive(Debug)]
pub struct BinaryOperator {
    pub lhs: Box<Expr>,
    pub rhs: ExprFactor,
    pub operator: Operator,
}

/// A product-of-powers expression tree.
#[derive(Debug)]
pub enum Expr {
    Value(ExprFactor),
    Binary(BinaryOperator),
}

/// The mathematical value of an `Expr`.
pub enum ExprView {
    Value(ExprFactorView),
    Binary(Box<ExprView>, ExprFactorView, Operator),
}

/// The mathematical value of an expression tree.
pub open spec fn expr_view(e: Expr) -> ExprView
    decreases e,
{
    match e {
        Expr::Value(x) => ExprView::Value(x@),
        Expr::Binary(b) => ExprView::Binary(Box::new(expr_view(*b.lhs)), b.rhs@, b.operator),
    }
}

impl View for Expr {
    type V = ExprView;

    open spec fn view(&self) -> ExprView {
        expr_view(*self)
    }
}

impl Clone for Expr {
    fn clone(&self) -> (r: Self)
        ensures
            r == *self,
        decreases self,
    {
        match self {
            Expr::Value(x) => Expr::Value(x.clone()),
            Expr::Binary(b) => Expr::Binary(
                BinaryOperator {
                    lhs: Box::new((*b.lhs).clone()),
                    rhs: b.rhs.clone(),
                    operator: b.operator,
                },
            ),
        }
    }
}

/// `b` is `a` with its factor mapped through `f`; powers and the shape are
/// untouched.
pub open spec fn factor_mapped<F: Fn(Factor) -> Factor>(f: F, a: ExprFactor, b: ExprFactor) -> bool {
    match (a, b) {
        (ExprFactor::Value(x), ExprFactor::Value(y)) => call_ensures(f, (x,), y),
        (ExprFactor::Power(x, n), ExprFactor::Power(y, m)) => call_ensures(f, (x,), y) && n == m,
        _ => false,
    }
}

/// `b` is `a` with every leaf factor mapped through `f`; operators, powers
/// and the shape are untouched.
pub open spec fn expr_mapped<F: Fn(Factor) -> Factor>(f: F, a: Expr, b: Expr) -> bool
    decreases a,
{
    match (a, b) {
        (Expr::Value(x), Expr::Value(y)) => factor_mapped(f, x, y),
        (Expr::Binary(ba), Expr::Binary(bb)) => expr_mapped(f, *ba.lhs, *bb.lhs) && factor_mapped(
            f,
            ba.rhs,
            bb.rhs,
        ) && ba.operator == bb.operator,
        _ => false,
    }
}

impl ExprFactor {
    /// The powered factor with its leaf transformed by `f`.
    pub fn map_factor<F: Fn(Factor) -> Factor>(&self, f: &F) -> (r: ExprFactor)
        requires
            forall|x: Factor| #[trigger] call_requires(f, (x,)),
        ensures
            factor_mapped(f, *self, r),
    {
        match self {
            ExprFactor::Value(x) => ExprFactor::Value(f(x.clone())),
            ExprFactor::Power(x, n) => ExprFactor::Power(f(x.clone()), *n),
        }
    }
}

impl Expr {
    /// A structurally identical expression with every leaf factor replaced by
    /// its image under the total function `f`.
    pub fn map_factors<F: Fn(Factor) -> Factor>(&self, f: &F) -> (r: Expr)
        requires
            forall|x: Factor| #[trigger] call_requires(f, (x,)),
        ensures
            expr_mapped(f, *self, r),
        decreases self,
    {
        match self {
            Expr::Value(x) => Expr::Value(x.map_factor(f)),
            Expr::Binary(b) => {
                let lhs = (*b.lhs).map_factors(f);
                let rhs = b.rhs.map_factor(f);
                Expr::Binary(BinaryOperator { lhs: Box::new(lhs), rhs, operator: b.operator })
            },
        }
    }
}

} // verus!
