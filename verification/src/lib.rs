//! Integer arithmetic on text: lexing, parsing and evaluation of expressions
//! built from decimal literals, `+`, `-`, `*`, `/` and parentheses.
//!
//! A text is split into tokens ([`lexer`]), the tokens are parsed into a tree
//! by recursive descent ([`grammar`], [`parser`]), and the tree is reduced to
//! an `isize` ([`evaluator`]). Each stage is specified by a function on
//! mathematical values, and the executable code is proved to compute it.
//! [`derivation`] relates the parser to the grammar that it implements.

use vstd::prelude::*;

pub mod derivation;
pub mod error;
pub mod evaluator;
pub mod expr;
pub mod grammar;
pub mod lexer;
pub mod lexer_laws;
pub mod parser;
pub mod token;

pub use error::CalcError;
pub use expr::Expr;
pub use parser::Parser;
pub use token::Token;

verus! {

/// The value of the expression that `text` starts with.
pub open spec fn calculation(text: Seq<char>) -> Result<isize, CalcError> {
    match lexer::lex(text) {
        Ok(tokens) => parser::evaluation(tokens).0,
        Err(e) => Err(e),
    }
}

/// Evaluates the expression that `input` starts with.
///
/// Tokens after that expression are ignored. The first failure of lexing,
/// parsing and evaluation, in this order, is the failure of the whole; a
/// character that is not recognized makes lexing fail with `UnknownToken`.
pub fn calculate(input: &String) -> (r: Result<isize, CalcError>)
    ensures
        r == calculation(input@),
        r == Err::<isize, CalcError>(CalcError::UnknownToken) <==> !lexer_laws::all_recognized(
            input@,
        ),
{
    proof {
        lemma_unknown_character(input@);
    }
    let mut parser = Parser::new(input);
    parser.eval()
}

/// An evaluation fails with `UnknownToken` exactly when the text holds a
/// character that is not recognized: no value is computed from such a text,
/// and neither parsing nor arithmetic fails in this way.
pub proof fn lemma_unknown_character(text: Seq<char>)
    ensures
        calculation(text) == Err::<isize, CalcError>(CalcError::UnknownToken)
            <==> !lexer_laws::all_recognized(text),
{
    lexer_laws::lemma_unknown_token(text);
    if let Ok(tokens) = lexer::lex(text) {
        lexer_laws::lemma_lex_well_formed(text);
        grammar::lemma_expr_failures(tokens);
        grammar::lemma_expr_well_formed(tokens);
        if let Ok(tree) = grammar::expr(tokens).0 {
            tree.lemma_well_formed_is_arithmetic();
            evaluator::lemma_value_failures(tree);
        }
    }
}

/// Spaces and tabs do not matter, unless one parts two digits: the text with
/// `blank` put in at `at` evaluates as the text without it.
pub proof fn lemma_blanks_do_not_matter(text: Seq<char>, at: int, blank: char)
    requires
        0 <= at <= text.len(),
        lexer::is_blank(blank),
        !(0 < at < text.len() && lexer::is_digit(text[at - 1]) && lexer::is_digit(text[at])),
    ensures
        calculation(text.insert(at, blank)) == calculation(text),
{
    lexer_laws::lemma_blank_is_insignificant(text, at, blank);
}

/// Evaluation keeps no state between calls: whatever `calculate` returns for
/// one text, it returns for an equal text, whenever and however often it is called.
pub proof fn lemma_same_text_same_result(
    one: &String,
    other: &String,
    first: Result<isize, CalcError>,
    second: Result<isize, CalcError>,
)
    requires
        one@ == other@,
        call_ensures(calculate, (one,), first),
        call_ensures(calculate, (other,), second),
    ensures
        first == second,
{
}

} // verus!
