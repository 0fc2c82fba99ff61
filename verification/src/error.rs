use vstd::prelude::*;
use crate::token::Token;

verus! {

/// Why an expression has no value.
///
/// An evaluation reports at most one of these: the first failure ends it.
#[derive(Clone, Copy, Debug, PartialEq, Eq, Structural)]
pub enum CalcError {
    /// The text holds a character that is neither a digit, an operator, a
    /// parenthesis, a space nor a tab.
    UnknownToken,
    /// The parser needed this token next and found another one, or none.
    MissingToken(Token),
    /// An operand was needed, and the next token is neither a literal nor an
    /// opening parenthesis, or the tokens have run out.
    UnexpectedToken,
    /// The right operand of a division is zero.
    DivisionByZero,
    /// A literal, or the result of an operation, lies outside the range of `isize`.
    Overflow,
}

} // verus!
