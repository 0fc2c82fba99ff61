//! The lexer: what the tokens of a text are, and the function that computes them.

use vstd::prelude::*;
use vstd::std_specs::iter::IteratorSpec;
use crate::error::CalcError;
use crate::parser::Parser;
use crate::lexer_laws::{
    all_recognized, has_oversized_literal, lemma_lex_well_formed, lemma_lexes, lemma_overflow,
    lemma_unknown_token,
};
use crate::token::{well_formed, Token};

verus! {

/// A decimal digit.
pub open spec fn is_digit(c: char) -> bool {
    '0' <= c && c <= '9'
}

/// A space or a tab: what may stand between tokens and yields none.
pub open spec fn is_blank(c: char) -> bool {
    c == ' ' || c == '\t'
}

/// The token that a single character stands for, if it is a parenthesis or an operator.
pub open spec fn symbol(c: char) -> Option<Token> {
    if c == '(' {
        Some(Token::LParen)
    } else if c == ')' {
        Some(Token::RParen)
    } else if c == '+' {
        Some(Token::Add)
    } else if c == '-' {
        Some(Token::Sub)
    } else if c == '*' {
        Some(Token::Mul)
    } else if c == '/' {
        Some(Token::Div)
    } else {
        None
    }
}

/// The characters that may occur in an expression.
pub open spec fn recognized(c: char) -> bool {
    is_digit(c) || is_blank(c) || symbol(c) is Some
}

/// The value of one digit.
pub open spec fn digit_value(c: char) -> int {
    c as int - '0' as int
}

/// The number that a string of digits denotes in base ten; 0 for the empty string.
pub open spec fn decimal(digits: Seq<char>) -> int
    decreases digits.len(),
{
    if digits.len() == 0 {
        0
    } else {
        10 * decimal(digits.drop_last()) + digit_value(digits.last())
    }
}

/// How many digits `s` starts with.
pub open spec fn digit_run(s: Seq<char>) -> nat
    decreases s.len(),
{
    if s.len() > 0 && is_digit(s[0]) {
        1 + digit_run(s.drop_first())
    } else {
        0
    }
}

/// `token` in front of the tokens of the rest of the text, if that rest has tokens.
pub open spec fn with_token(token: Token, rest: Result<Seq<Token>, CalcError>) -> Result<
    Seq<Token>,
    CalcError,
> {
    match rest {
        Ok(tokens) => Ok(seq![token] + tokens),
        Err(e) => Err(e),
    }
}

/// A literal of value `value` in front of the tokens of the rest of the text.
///
/// A character that is not recognized, wherever it stands, outweighs a literal
/// that is too large for `isize`.
pub open spec fn with_literal(value: int, rest: Result<Seq<Token>, CalcError>) -> Result<
    Seq<Token>,
    CalcError,
> {
    if rest == Err::<Seq<Token>, CalcError>(CalcError::UnknownToken) {
        rest
    } else if value > isize::MAX {
        Err(CalcError::Overflow)
    } else {
        with_token(Token::Number(value as isize), rest)
    }
}

/// The tokens of a text, from left to right.
///
/// Each parenthesis and operator is a token of its own, each longest run of
/// digits is one literal, spaces and tabs separate tokens and yield none.
/// The text has no tokens if it holds any other character
/// (`UnknownToken`) or, failing that, a literal above `isize::MAX` (`Overflow`).
pub open spec fn lex(text: Seq<char>) -> Result<Seq<Token>, CalcError>
    decreases text.len(),
{
    if text.len() == 0 {
        Ok(Seq::empty())
    } else if is_blank(text[0]) {
        lex(text.drop_first())
    } else if is_digit(text[0]) {
        let n = digit_run(text) as int;
        proof {
            lemma_digit_run(text);
        }
        with_literal(decimal(text.take(n)), lex(text.skip(n)))
    } else {
        match symbol(text[0]) {
            Some(token) => with_token(token, lex(text.drop_first())),
            None => Err(CalcError::UnknownToken),
        }
    }
}

/// A run of digits ends at the first character that is no digit, or with the text.
pub proof fn lemma_digit_run(s: Seq<char>)
    ensures
        digit_run(s) <= s.len(),
        forall|k: int| 0 <= k < digit_run(s) ==> is_digit(#[trigger] s[k]),
        digit_run(s) < s.len() ==> !is_digit(s[digit_run(s) as int]),
    decreases s.len(),
{
    if s.len() > 0 && is_digit(s[0]) {
        let tail = s.drop_first();
        lemma_digit_run(tail);
        assert forall|k: int| 0 <= k < digit_run(s) implies is_digit(#[trigger] s[k]) by {
            if k > 0 {
                assert(s[k] == tail[k - 1]);
            }
        }
        if digit_run(s) < s.len() {
            assert(s[digit_run(s) as int] == tail[digit_run(tail) as int]);
        }
    }
}

/// The length of the run of digits is the only `n` up to which all characters
/// are digits and at which the digits stop.
pub proof fn lemma_digit_run_is(s: Seq<char>, n: int)
    requires
        0 <= n <= s.len(),
        forall|k: int| 0 <= k < n ==> is_digit(#[trigger] s[k]),
        n < s.len() ==> !is_digit(s[n]),
    ensures
        digit_run(s) == n,
    decreases s.len(),
{
    if n > 0 {
        let tail = s.drop_first();
        assert(is_digit(s[0]));
        assert forall|k: int| 0 <= k < n - 1 implies is_digit(#[trigger] tail[k]) by {
            assert(tail[k] == s[k + 1]);
        }
        if n - 1 < tail.len() {
            assert(tail[n - 1] == s[n]);
        }
        lemma_digit_run_is(tail, n - 1);
    }
}

/// What the whole text lexes to, given the tokens of the part that has been
/// read, whether a literal in it was too large, and what the unread part lexes to.
spec fn resume(done: Seq<Token>, overflowed: bool, rest: Result<Seq<Token>, CalcError>) -> Result<
    Seq<Token>,
    CalcError,
> {
    match rest {
        Err(CalcError::UnknownToken) => Err(CalcError::UnknownToken),
        Err(e) => if overflowed {
            Err(CalcError::Overflow)
        } else {
            Err(e)
        },
        Ok(tokens) => if overflowed {
            Err(CalcError::Overflow)
        } else {
            Ok(done + tokens)
        },
    }
}

/// Reading one more token moves it from the unread part to the part that has been read.
proof fn lemma_resume_token(
    done: Seq<Token>,
    overflowed: bool,
    token: Token,
    rest: Result<Seq<Token>, CalcError>,
)
    ensures
        resume(done, overflowed, with_token(token, rest)) == resume(
            done.push(token),
            overflowed,
            rest,
        ),
{
    if let Ok(tokens) = rest {
        assert(done + (seq![token] + tokens) =~= done.push(token) + tokens);
    }
}

/// Reading one more literal either adds its token or records that it was too large.
proof fn lemma_resume_literal(
    done: Seq<Token>,
    overflowed: bool,
    value: int,
    rest: Result<Seq<Token>, CalcError>,
)
    ensures
        value <= isize::MAX ==> resume(done, overflowed, with_literal(value, rest)) == resume(
            done.push(Token::Number(value as isize)),
            overflowed,
            rest,
        ),
        value > isize::MAX ==> resume(done, overflowed, with_literal(value, rest)) == resume(
            done,
            true,
            rest,
        ),
{
    if value <= isize::MAX {
        lemma_resume_token(done, overflowed, Token::Number(value as isize), rest);
    }
}

/// The characters of a string slice, in order.
fn characters(text: &str) -> (chars: Vec<char>)
    ensures
        chars@ == text@,
{
    let mut chars: Vec<char> = Vec::new();
    let mut rest = text.chars();
    loop
        invariant
            chars@ + rest.remaining() == text@,
            rest.obeys_prophetic_iter_laws(),
            rest.decrease() is Some,
        ensures
            chars@ == text@,
        decreases rest.decrease()->0,
    {
        match rest.next() {
            Some(c) => {
                chars.push(c);
            },
            None => {
                break ;
            },
        }
    }
    chars
}

/// The value of `c` if it is a digit.
fn digit_of(c: char) -> (d: Option<isize>)
    ensures
        d is Some <==> is_digit(c),
        d matches Some(v) ==> v == digit_value(c) && 0 <= v <= 9,
{
    if c >= '0' && c <= '9' {
        let offset: u32 = c as u32 - '0' as u32;
        Some(offset as isize)
    } else {
        None
    }
}

/// The parenthesis or operator that `c` stands for.
fn symbol_of(c: char) -> (t: Option<Token>)
    ensures
        t == symbol(c),
{
    if c == '(' {
        Some(Token::LParen)
    } else if c == ')' {
        Some(Token::RParen)
    } else if c == '+' {
        Some(Token::Add)
    } else if c == '-' {
        Some(Token::Sub)
    } else if c == '*' {
        Some(Token::Mul)
    } else if c == '/' {
        Some(Token::Div)
    } else {
        None
    }
}

impl Parser {
    /// Splits `input` into tokens.
    ///
    /// Fails with `UnknownToken` if `input` holds a character that is not
    /// recognized, else with `Overflow` if one of its literals exceeds
    /// `isize::MAX`; no tokens are returned then.
    pub fn tokenize(input: &String) -> (r: Result<Vec<Token>, CalcError>)
        ensures
            match r {
                Ok(tokens) => lex(input@) == Ok::<Seq<Token>, CalcError>(tokens@),
                Err(e) => lex(input@) == Err::<Seq<Token>, CalcError>(e),
            },
            r is Ok <==> all_recognized(input@) && !has_oversized_literal(input@),
            r == Err::<Vec<Token>, CalcError>(CalcError::UnknownToken) <==> !all_recognized(
                input@,
            ),
            r == Err::<Vec<Token>, CalcError>(CalcError::Overflow) <==> all_recognized(input@)
                && has_oversized_literal(input@),
            r matches Ok(tokens) ==> well_formed(tokens@),
    {
        proof {
            lemma_lex_well_formed(input@);
            lemma_unknown_token(input@);
            lemma_overflow(input@);
            lemma_lexes(input@);
        }
        let chars = characters(input.as_str());
        let ghost text = input@;
        let n: usize = chars.len();
        let mut tokens: Vec<Token> = Vec::new();
        let mut overflowed = false;
        let mut i: usize = 0;
        proof {
            assert(text.skip(0) =~= text);
            if let Ok(all) = lex(text) {
                assert(Seq::<Token>::empty() + all =~= all);
            }
        }
        while i < n
            invariant
                text == input@,
                chars@ == text,
                n == text.len(),
                i <= n,
                lex(text) == resume(tokens@, overflowed, lex(text.skip(i as int))),
            decreases n - i,
        {
            let c = chars[i];
            let ghost unread = text.skip(i as int);
            assert(unread[0] == c);
            assert(unread.drop_first() =~= text.skip(i + 1));
            if c == ' ' || c == '\t' {
                i += 1;
            } else if let Some(first) = digit_of(c) {
                let mut value: isize = first;
                let mut fits = true;
                let mut j: usize = i + 1;
                proof {
                    let first_digit = text.subrange(i as int, j as int);
                    assert(first_digit.drop_last() =~= Seq::<char>::empty());
                    assert(first_digit.last() == c);
                    assert(decimal(first_digit.drop_last()) == 0);
                }
                while j < n
                    invariant_except_break
                        chars@ == text,
                        n == text.len(),
                        i < j <= n,
                        forall|k: int| i <= k < j ==> is_digit(#[trigger] text[k]),
                        0 <= value,
                        fits ==> value == decimal(text.subrange(i as int, j as int)),
                        !fits ==> decimal(text.subrange(i as int, j as int)) > isize::MAX,
                    ensures
                        i < j <= n,
                        forall|k: int| i <= k < j ==> is_digit(#[trigger] text[k]),
                        j < n ==> !is_digit(text[j as int]),
                        fits ==> value == decimal(text.subrange(i as int, j as int)),
                        !fits ==> decimal(text.subrange(i as int, j as int)) > isize::MAX,
                    decreases n - j,
                {
                    let d = match digit_of(chars[j]) {
                        Some(d) => d,
                        None => {
                            break ;
                        },
                    };
                    assert(text.subrange(i as int, j + 1).drop_last() =~= text.subrange(
                        i as int,
                        j as int,
                    ));
                    if fits {
                        match value.checked_mul(10) {
                            Some(scaled) => match scaled.checked_add(d) {
                                Some(next) => {
                                    value = next;
                                },
                                None => {
                                    fits = false;
                                },
                            },
                            None => {
                                fits = false;
                            },
                        }
                    }
                    j += 1;
                }
                proof {
                    assert forall|k: int| 0 <= k < j - i implies is_digit(#[trigger] unread[k]) by {
                        assert(unread[k] == text[i + k]);
                    }
                    lemma_digit_run_is(unread, j - i);
                    assert(unread.take(j - i) =~= text.subrange(i as int, j as int));
                    assert(unread.skip(j - i) =~= text.skip(j as int));
                    lemma_resume_literal(
                        tokens@,
                        overflowed,
                        decimal(text.subrange(i as int, j as int)),
                        lex(text.skip(j as int)),
                    );
                }
                if fits {
                    tokens.push(Token::Number(value));
                } else {
                    overflowed = true;
                }
                i = j;
            } else {
                match symbol_of(c) {
                    Some(token) => {
                        proof {
                            lemma_resume_token(
                                tokens@,
                                overflowed,
                                token,
                                lex(text.skip(i + 1)),
                            );
                        }
                        tokens.push(token);
                        i += 1;
                    },
                    None => {
                        assert(lex(unread) == Err::<Seq<Token>, CalcError>(
                            CalcError::UnknownToken,
                        ));
                        return Err(CalcError::UnknownToken);
                    },
                }
            }
        }
        assert(text.skip(n as int) =~= Seq::<char>::empty());
        if overflowed {
            Err(CalcError::Overflow)
        } else {
            assert(tokens@ + Seq::<Token>::empty() =~= tokens@);
            Ok(tokens)
        }
    }
}

} // verus!
