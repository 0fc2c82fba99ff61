use vstd::prelude::*;
use crate::token::Token;

verus! {

/// An expression as a tree: a literal, or an operator applied to two expressions.
///
/// Parentheses leave no trace in the tree but its shape.
#[derive(Debug, PartialEq, Eq)]
pub enum Expr {
    /// A literal.
    Number(isize),
    /// Left operand, operator, right operand.
    BinaryOp(Box<Expr>, Token, Box<Expr>),
}

impl Expr {
    /// Every inner node holds one of the four operators: the tree can be evaluated.
    pub open spec fn is_arithmetic(self) -> bool
        decreases self,
    {
        match self {
            Expr::Number(_) => true,
            Expr::BinaryOp(left, op, right) => op.is_operator() && left.is_arithmetic()
                && right.is_arithmetic(),
        }
    }

    /// Every inner node holds one of the four operators, and no literal is
    /// negative: the tree can have been parsed.
    pub open spec fn well_formed(self) -> bool
        decreases self,
    {
        match self {
            Expr::Number(n) => n >= 0,
            Expr::BinaryOp(left, op, right) => op.is_operator() && left.well_formed()
                && right.well_formed(),
        }
    }

    /// A well-formed tree can be evaluated.
    pub proof fn lemma_well_formed_is_arithmetic(self)
        requires
            self.well_formed(),
        ensures
            self.is_arithmetic(),
        decreases self,
    {
        if let Expr::BinaryOp(left, _, right) = self {
            left.lemma_well_formed_is_arithmetic();
            right.lemma_well_formed_is_arithmetic();
        }
    }
}

} // verus!
