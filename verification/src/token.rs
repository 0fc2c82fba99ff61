use vstd::prelude::*;

verus! {

/// A lexical unit of an arithmetic expression.
#[derive(Clone, Copy, Debug, PartialEq, Eq, Structural)]
pub enum Token {
    /// A decimal literal with its value.
    Number(isize),
    LParen,
    RParen,
    Add,
    Sub,
    Mul,
    Div,
}

impl Token {
    /// `+` or `-`: the operators of the loosest tier.
    pub open spec fn is_additive(self) -> bool {
        self == Token::Add || self == Token::Sub
    }

    /// `*` or `/`: the operators of the tighter tier.
    pub open spec fn is_multiplicative(self) -> bool {
        self == Token::Mul || self == Token::Div
    }

    /// One of the four arithmetic operators.
    pub open spec fn is_operator(self) -> bool {
        self.is_additive() || self.is_multiplicative()
    }

    /// A literal is never negative; every other token is well formed as it is.
    pub open spec fn well_formed(self) -> bool {
        self matches Token::Number(n) ==> n >= 0
    }
}

/// Every token of the sequence is well formed.
pub open spec fn well_formed(tokens: Seq<Token>) -> bool {
    forall|i: int| 0 <= i < tokens.len() ==> (#[trigger] tokens[i]).well_formed()
}

} // verus!
