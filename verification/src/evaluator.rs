//! The evaluator: what the value of a tree is, and the function that computes it.

use vstd::prelude::*;
use vstd::arithmetic::div_mod::{lemma_fundamental_div_mod, lemma_mod_bound};
use vstd::pervasive::unreached;
use crate::error::CalcError;
use crate::expr::Expr;
use crate::parser::Parser;
use crate::token::Token;

verus! {

impl Expr {
    /// The integer that the expression denotes.
    ///
    /// The left operand is evaluated before the right one, and the first
    /// failure is the failure of the whole expression.
    pub open spec fn value(self) -> Result<isize, CalcError>
        decreases self,
    {
        match self {
            Expr::Number(n) => Ok(n),
            Expr::BinaryOp(left, op, right) => match left.value() {
                Ok(a) => match right.value() {
                    Ok(b) => apply(op, a as int, b as int),
                    Err(e) => Err(e),
                },
                Err(e) => Err(e),
            },
        }
    }
}

/// `a` divided by `b`, rounded toward zero.
pub open spec fn quotient(a: int, b: int) -> int
    recommends
        b != 0,
{
    if a >= 0 {
        if b > 0 {
            a / b
        } else {
            -(a / (-b))
        }
    } else {
        if b > 0 {
            -((-a) / b)
        } else {
            (-a) / (-b)
        }
    }
}

/// `v` as a machine integer, or `Overflow` if it is none.
pub open spec fn in_range(v: int) -> Result<isize, CalcError> {
    if isize::MIN <= v <= isize::MAX {
        Ok(v as isize)
    } else {
        Err(CalcError::Overflow)
    }
}

/// The result of one arithmetic operation on two integers.
pub open spec fn apply(op: Token, a: int, b: int) -> Result<isize, CalcError>
    recommends
        op.is_operator(),
{
    match op {
        Token::Add => in_range(a + b),
        Token::Sub => in_range(a - b),
        Token::Mul => in_range(a * b),
        Token::Div => if b == 0 {
            Err(CalcError::DivisionByZero)
        } else {
            in_range(quotient(a, b))
        },
        _ => arbitrary(),
    }
}

/// `quotient` rounds toward zero: `a` less `b` times the quotient is closer to
/// zero than `b` is, and is not on the other side of zero than `a`.
pub proof fn lemma_quotient_rounds_toward_zero(a: int, b: int)
    requires
        b != 0,
    ensures
        ({
            let remainder = a - quotient(a, b) * b;
            &&& if b > 0 {
                -b < remainder < b
            } else {
                b < remainder < -b
            }
            &&& a >= 0 ==> remainder >= 0
            &&& a <= 0 ==> remainder <= 0
        }),
{
    let x = if a >= 0 {
        a
    } else {
        -a
    };
    let d = if b > 0 {
        b
    } else {
        -b
    };
    let q = x / d;
    lemma_fundamental_div_mod(x, d);
    lemma_mod_bound(x, d);
    assert(x - q * d == x % d) by (nonlinear_arith)
        requires
            x == d * q + (x % d),
    ;
    assert((-q) * b == -(q * b) && q * (-b) == -(q * b) && (-q) * (-b) == q * b)
        by (nonlinear_arith);
}

/// A tree of arithmetic operators fails to have a value in no other way than
/// with `DivisionByZero` and `Overflow`.
pub proof fn lemma_value_failures(tree: Expr)
    requires
        tree.is_arithmetic(),
    ensures
        tree.value() matches Err(e) ==> e == CalcError::DivisionByZero || e
            == CalcError::Overflow,
    decreases tree,
{
    if let Expr::BinaryOp(left, op, right) = tree {
        lemma_value_failures(*left);
        lemma_value_failures(*right);
    }
}

impl Parser {
    /// Evaluates a tree.
    ///
    /// Fails with `DivisionByZero` where a divisor is zero and with `Overflow`
    /// where a result does not fit in `isize`.
    pub fn solve(expr: Expr) -> (r: Result<isize, CalcError>)
        requires
            expr.is_arithmetic(),
        ensures
            r == expr.value(),
        decreases expr,
    {
        match expr {
            Expr::Number(n) => Ok(n),
            Expr::BinaryOp(left, op, right) => {
                let a: isize = Parser::solve(*left)?;
                let b: isize = Parser::solve(*right)?;
                let result: Option<isize> = match op {
                    Token::Add => a.checked_add(b),
                    Token::Sub => a.checked_sub(b),
                    Token::Mul => a.checked_mul(b),
                    Token::Div => {
                        if b == 0 {
                            return Err(CalcError::DivisionByZero);
                        }
                        a.checked_div(b)
                    },
                    _ => unreached(),
                };
                match result {
                    Some(v) => Ok(v),
                    None => Err(CalcError::Overflow),
                }
            },
        }
    }
}

} // verus!
