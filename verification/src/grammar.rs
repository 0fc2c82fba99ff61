//! The grammar of expressions, as functions from tokens to trees.
//!
//! ```text
//! expr   := term ( ('+' | '-') term )*
//! term   := factor ( ('*' | '/') factor )*
//! factor := Number | '(' expr ')'
//! ```
//!
//! Each function takes the tokens that are left and gives the tree that they
//! start with, or the failure, and the tokens after it. Where a function goes
//! on with what another one left, it first tests that this is shorter than
//! what it started from: the test is what makes the definitions well founded,
//! and it never fails, since what was parsed consumed at least one token
//! (`lemma_factor_consumes`, `lemma_term_consumes`).

use vstd::prelude::*;
use crate::error::CalcError;
use crate::expr::Expr;
use crate::token::{well_formed, Token};

verus! {

/// The outcome of parsing a prefix of some tokens: the tree or the failure,
/// and the tokens that were not consumed.
pub type Parsed = (Result<Expr, CalcError>, Seq<Token>);

/// The next token, if there is one.
pub open spec fn lookahead(tokens: Seq<Token>) -> Option<Token> {
    if tokens.len() > 0 {
        Some(tokens[0])
    } else {
        None
    }
}

/// Consumes `expected` if it is the next token, and fails with `MissingToken` if it is not.
pub open spec fn expect(tokens: Seq<Token>, expected: Token) -> (Result<Token, CalcError>, Seq<Token>) {
    if tokens.len() > 0 && tokens[0] == expected {
        (Ok(expected), tokens.drop_first())
    } else {
        (Err(CalcError::MissingToken(expected)), tokens)
    }
}

/// `factor := Number | '(' expr ')'`
///
/// Fails with `UnexpectedToken`, consuming nothing, where the next token is
/// neither a literal nor an opening parenthesis, or where there is none.
pub open spec fn factor(tokens: Seq<Token>) -> Parsed
    decreases tokens.len(), 0int,
{
    if tokens.len() == 0 {
        (Err(CalcError::UnexpectedToken), tokens)
    } else {
        match tokens[0] {
            Token::Number(n) => (Ok(Expr::Number(n)), tokens.drop_first()),
            Token::LParen => {
                let (inner, rest) = expr(tokens.drop_first());
                match inner {
                    Ok(tree) => match expect(rest, Token::RParen) {
                        (Ok(_), after) => (Ok(tree), after),
                        (Err(e), after) => (Err(e), after),
                    },
                    Err(e) => (Err(e), rest),
                }
            },
            _ => (Err(CalcError::UnexpectedToken), tokens),
        }
    }
}

/// `( ('*' | '/') factor )*` after the operand `left`: each further factor
/// becomes the right operand of a node whose left operand is all that came before it.
pub open spec fn term_tail(left: Expr, tokens: Seq<Token>) -> Parsed
    decreases tokens.len(), 1int,
{
    if tokens.len() > 0 && tokens[0].is_multiplicative() {
        let (operand, rest) = factor(tokens.drop_first());
        match operand {
            Ok(right) => {
                let node = Expr::BinaryOp(Box::new(left), tokens[0], Box::new(right));
                if rest.len() < tokens.len() {
                    term_tail(node, rest)
                } else {
                    (Ok(node), rest)
                }
            },
            Err(e) => (Err(e), rest),
        }
    } else {
        (Ok(left), tokens)
    }
}

/// `term := factor ( ('*' | '/') factor )*`
pub open spec fn term(tokens: Seq<Token>) -> Parsed
    decreases tokens.len(), 2int,
{
    let (first, rest) = factor(tokens);
    match first {
        Ok(left) if rest.len() < tokens.len() => term_tail(left, rest),
        _ => (first, rest),
    }
}

/// `( ('+' | '-') term )*` after the operand `left`, as `term_tail` one tier up.
pub open spec fn expr_tail(left: Expr, tokens: Seq<Token>) -> Parsed
    decreases tokens.len(), 3int,
{
    if tokens.len() > 0 && tokens[0].is_additive() {
        let (operand, rest) = term(tokens.drop_first());
        match operand {
            Ok(right) => {
                let node = Expr::BinaryOp(Box::new(left), tokens[0], Box::new(right));
                if rest.len() < tokens.len() {
                    expr_tail(node, rest)
                } else {
                    (Ok(node), rest)
                }
            },
            Err(e) => (Err(e), rest),
        }
    } else {
        (Ok(left), tokens)
    }
}

/// `expr := term ( ('+' | '-') term )*`
///
/// Parsing stops at the first token that cannot continue the expression;
/// that token and all after it are left unconsumed.
pub open spec fn expr(tokens: Seq<Token>) -> Parsed
    decreases tokens.len(), 4int,
{
    let (first, rest) = term(tokens);
    match first {
        Ok(left) if rest.len() < tokens.len() => expr_tail(left, rest),
        _ => (first, rest),
    }
}

/// `rest` is what is left of `tokens` after some of its first tokens were taken away.
pub open spec fn is_suffix(rest: Seq<Token>, tokens: Seq<Token>) -> bool {
    rest.len() <= tokens.len() && rest == tokens.skip(tokens.len() - rest.len())
}

/// A suffix of a suffix is a suffix.
pub proof fn lemma_suffix_transitive(a: Seq<Token>, b: Seq<Token>, c: Seq<Token>)
    requires
        is_suffix(a, b),
        is_suffix(b, c),
    ensures
        is_suffix(a, c),
{
    assert(a =~= c.skip(c.len() - a.len()));
}

/// All but the first token of a sequence that is not empty form a suffix of it.
pub proof fn lemma_suffix_drop_first(tokens: Seq<Token>)
    requires
        tokens.len() > 0,
    ensures
        is_suffix(tokens.drop_first(), tokens),
        is_suffix(tokens, tokens),
{
    assert(tokens.drop_first() =~= tokens.skip(1));
    assert(tokens =~= tokens.skip(0));
}

/// What a factor leaves unconsumed is a suffix of its input, and a proper one
/// where the factor was parsed.
pub proof fn lemma_factor_consumes(tokens: Seq<Token>)
    ensures
        is_suffix(factor(tokens).1, tokens),
        factor(tokens).0 is Ok ==> factor(tokens).1.len() < tokens.len(),
    decreases tokens.len(), 0int,
{
    assert(tokens =~= tokens.skip(0));
    if tokens.len() > 0 {
        lemma_suffix_drop_first(tokens);
        if tokens[0] == Token::LParen {
            let (inner, rest) = expr(tokens.drop_first());
            lemma_expr_consumes(tokens.drop_first());
            lemma_suffix_transitive(rest, tokens.drop_first(), tokens);
            if inner is Ok && expect(rest, Token::RParen).0 is Ok {
                lemma_suffix_drop_first(rest);
                lemma_suffix_transitive(rest.drop_first(), rest, tokens);
            }
        }
    }
}

/// What the further factors of a term leave unconsumed is a suffix of their input.
pub proof fn lemma_term_tail_consumes(left: Expr, tokens: Seq<Token>)
    ensures
        is_suffix(term_tail(left, tokens).1, tokens),
    decreases tokens.len(), 1int,
{
    assert(tokens =~= tokens.skip(0));
    if tokens.len() > 0 && tokens[0].is_multiplicative() {
        let (operand, rest) = factor(tokens.drop_first());
        lemma_suffix_drop_first(tokens);
        lemma_factor_consumes(tokens.drop_first());
        lemma_suffix_transitive(rest, tokens.drop_first(), tokens);
        if let Ok(right) = operand {
            let node = Expr::BinaryOp(Box::new(left), tokens[0], Box::new(right));
            lemma_term_tail_consumes(node, rest);
            lemma_suffix_transitive(term_tail(node, rest).1, rest, tokens);
        }
    }
}

/// What a term leaves unconsumed is a suffix of its input, and a proper one
/// where the term was parsed.
pub proof fn lemma_term_consumes(tokens: Seq<Token>)
    ensures
        is_suffix(term(tokens).1, tokens),
        term(tokens).0 is Ok ==> term(tokens).1.len() < tokens.len(),
    decreases tokens.len(), 2int,
{
    let (first, rest) = factor(tokens);
    lemma_factor_consumes(tokens);
    if let Ok(left) = first {
        lemma_term_tail_consumes(left, rest);
        lemma_suffix_transitive(term_tail(left, rest).1, rest, tokens);
    }
}

/// What the further terms of an expression leave unconsumed is a suffix of their input.
pub proof fn lemma_expr_tail_consumes(left: Expr, tokens: Seq<Token>)
    ensures
        is_suffix(expr_tail(left, tokens).1, tokens),
    decreases tokens.len(), 3int,
{
    assert(tokens =~= tokens.skip(0));
    if tokens.len() > 0 && tokens[0].is_additive() {
        let (operand, rest) = term(tokens.drop_first());
        lemma_suffix_drop_first(tokens);
        lemma_term_consumes(tokens.drop_first());
        lemma_suffix_transitive(rest, tokens.drop_first(), tokens);
        if let Ok(right) = operand {
            let node = Expr::BinaryOp(Box::new(left), tokens[0], Box::new(right));
            lemma_expr_tail_consumes(node, rest);
            lemma_suffix_transitive(expr_tail(node, rest).1, rest, tokens);
        }
    }
}

/// What an expression leaves unconsumed is a suffix of its input, and a proper
/// one where the expression was parsed.
pub proof fn lemma_expr_consumes(tokens: Seq<Token>)
    ensures
        is_suffix(expr(tokens).1, tokens),
        expr(tokens).0 is Ok ==> expr(tokens).1.len() < tokens.len(),
    decreases tokens.len(), 4int,
{
    let (first, rest) = term(tokens);
    lemma_term_consumes(tokens);
    if let Ok(left) = first {
        lemma_expr_tail_consumes(left, rest);
        lemma_suffix_transitive(expr_tail(left, rest).1, rest, tokens);
    }
}

/// A suffix of well-formed tokens is well formed.
pub proof fn lemma_suffix_well_formed(rest: Seq<Token>, tokens: Seq<Token>)
    requires
        well_formed(tokens),
        is_suffix(rest, tokens),
    ensures
        well_formed(rest),
{
    assert forall|i: int| 0 <= i < rest.len() implies (#[trigger] rest[i]).well_formed() by {
        assert(rest[i] == tokens[tokens.len() - rest.len() + i]);
    }
}

/// A factor of well-formed tokens is a well-formed tree.
pub proof fn lemma_factor_well_formed(tokens: Seq<Token>)
    requires
        well_formed(tokens),
    ensures
        factor(tokens).0 matches Ok(tree) ==> tree.well_formed(),
    decreases tokens.len(), 0int,
{
    if tokens.len() > 0 && tokens[0] == Token::LParen {
        lemma_suffix_drop_first(tokens);
        lemma_suffix_well_formed(tokens.drop_first(), tokens);
        lemma_expr_well_formed(tokens.drop_first());
    }
}

/// Further factors of well-formed tokens keep a well-formed tree well formed.
pub proof fn lemma_term_tail_well_formed(left: Expr, tokens: Seq<Token>)
    requires
        well_formed(tokens),
        left.well_formed(),
    ensures
        term_tail(left, tokens).0 matches Ok(tree) ==> tree.well_formed(),
    decreases tokens.len(), 1int,
{
    if tokens.len() > 0 && tokens[0].is_multiplicative() {
        let (operand, rest) = factor(tokens.drop_first());
        lemma_suffix_drop_first(tokens);
        lemma_suffix_well_formed(tokens.drop_first(), tokens);
        lemma_factor_well_formed(tokens.drop_first());
        lemma_factor_consumes(tokens.drop_first());
        lemma_suffix_well_formed(rest, tokens.drop_first());
        if let Ok(right) = operand {
            let node = Expr::BinaryOp(Box::new(left), tokens[0], Box::new(right));
            lemma_term_tail_well_formed(node, rest);
        }
    }
}

/// A term of well-formed tokens is a well-formed tree.
pub proof fn lemma_term_well_formed(tokens: Seq<Token>)
    requires
        well_formed(tokens),
    ensures
        term(tokens).0 matches Ok(tree) ==> tree.well_formed(),
    decreases tokens.len(), 2int,
{
    let (first, rest) = factor(tokens);
    lemma_factor_well_formed(tokens);
    lemma_factor_consumes(tokens);
    lemma_suffix_well_formed(rest, tokens);
    if let Ok(left) = first {
        lemma_term_tail_well_formed(left, rest);
    }
}

/// Further terms of well-formed tokens keep a well-formed tree well formed.
pub proof fn lemma_expr_tail_well_formed(left: Expr, tokens: Seq<Token>)
    requires
        well_formed(tokens),
        left.well_formed(),
    ensures
        expr_tail(left, tokens).0 matches Ok(tree) ==> tree.well_formed(),
    decreases tokens.len(), 3int,
{
    if tokens.len() > 0 && tokens[0].is_additive() {
        let (operand, rest) = term(tokens.drop_first());
        lemma_suffix_drop_first(tokens);
        lemma_suffix_well_formed(tokens.drop_first(), tokens);
        lemma_term_well_formed(tokens.drop_first());
        lemma_term_consumes(tokens.drop_first());
        lemma_suffix_well_formed(rest, tokens.drop_first());
        if let Ok(right) = operand {
            let node = Expr::BinaryOp(Box::new(left), tokens[0], Box::new(right));
            lemma_expr_tail_well_formed(node, rest);
        }
    }
}

/// An expression of well-formed tokens is a well-formed tree.
pub proof fn lemma_expr_well_formed(tokens: Seq<Token>)
    requires
        well_formed(tokens),
    ensures
        expr(tokens).0 matches Ok(tree) ==> tree.well_formed(),
    decreases tokens.len(), 4int,
{
    let (first, rest) = term(tokens);
    lemma_term_well_formed(tokens);
    lemma_term_consumes(tokens);
    lemma_suffix_well_formed(rest, tokens);
    if let Ok(left) = first {
        lemma_expr_tail_well_formed(left, rest);
    }
}

/// The failures of parsing: an operand is missing, or a closing parenthesis is.
pub open spec fn is_parse_failure(e: CalcError) -> bool {
    e == CalcError::UnexpectedToken || e == CalcError::MissingToken(Token::RParen)
}

/// `factor` fails in no other way than for want of an operand or of a closing parenthesis.
pub proof fn lemma_factor_failures(tokens: Seq<Token>)
    ensures
        factor(tokens).0 matches Err(e) ==> is_parse_failure(e),
    decreases tokens.len(), 0int,
{
    if tokens.len() > 0 && tokens[0] == Token::LParen {
        lemma_expr_failures(tokens.drop_first());
    }
}

/// `term_tail` fails in no other way than for want of an operand or of a closing parenthesis.
pub proof fn lemma_term_tail_failures(left: Expr, tokens: Seq<Token>)
    ensures
        term_tail(left, tokens).0 matches Err(e) ==> is_parse_failure(e),
    decreases tokens.len(), 1int,
{
    if tokens.len() > 0 && tokens[0].is_multiplicative() {
        let (operand, rest) = factor(tokens.drop_first());
        lemma_factor_failures(tokens.drop_first());
        lemma_factor_consumes(tokens.drop_first());
        if let Ok(right) = operand {
            lemma_term_tail_failures(
                Expr::BinaryOp(Box::new(left), tokens[0], Box::new(right)),
                rest,
            );
        }
    }
}

/// `term` fails in no other way than for want of an operand or of a closing parenthesis.
pub proof fn lemma_term_failures(tokens: Seq<Token>)
    ensures
        term(tokens).0 matches Err(e) ==> is_parse_failure(e),
    decreases tokens.len(), 2int,
{
    lemma_factor_failures(tokens);
    lemma_factor_consumes(tokens);
    if let Ok(left) = factor(tokens).0 {
        lemma_term_tail_failures(left, factor(tokens).1);
    }
}

/// `expr_tail` fails in no other way than for want of an operand or of a closing parenthesis.
pub proof fn lemma_expr_tail_failures(left: Expr, tokens: Seq<Token>)
    ensures
        expr_tail(left, tokens).0 matches Err(e) ==> is_parse_failure(e),
    decreases tokens.len(), 3int,
{
    if tokens.len() > 0 && tokens[0].is_additive() {
        let (operand, rest) = term(tokens.drop_first());
        lemma_term_failures(tokens.drop_first());
        lemma_term_consumes(tokens.drop_first());
        if let Ok(right) = operand {
            lemma_expr_tail_failures(
                Expr::BinaryOp(Box::new(left), tokens[0], Box::new(right)),
                rest,
            );
        }
    }
}

/// `expr` fails in no other way than for want of an operand or of a closing parenthesis.
pub proof fn lemma_expr_failures(tokens: Seq<Token>)
    ensures
        expr(tokens).0 matches Err(e) ==> is_parse_failure(e),
    decreases tokens.len(), 4int,
{
    lemma_term_failures(tokens);
    lemma_term_consumes(tokens);
    if let Ok(left) = term(tokens).0 {
        lemma_expr_tail_failures(left, term(tokens).1);
    }
}

} // verus!
