//! What holds of the tokens of every text: on which texts lexing fails and
//! how, and that spaces and tabs between tokens do not matter.

use vstd::prelude::*;
use crate::error::CalcError;
use crate::lexer::{
    decimal, digit_run, is_blank, is_digit, lemma_digit_run, lemma_digit_run_is, lex, recognized,
    symbol,
};
use crate::token::{well_formed, Token};

verus! {

/// The number that a string of digits denotes is not negative.
pub proof fn lemma_decimal_not_negative(digits: Seq<char>)
    requires
        forall|k: int| 0 <= k < digits.len() ==> is_digit(#[trigger] digits[k]),
    ensures
        decimal(digits) >= 0,
    decreases digits.len(),
{
    if digits.len() > 0 {
        lemma_decimal_not_negative(digits.drop_last());
    }
}

/// The tokens of a text are well formed: no literal is negative.
pub proof fn lemma_lex_well_formed(text: Seq<char>)
    ensures
        lex(text) matches Ok(tokens) ==> well_formed(tokens),
    decreases text.len(),
{
    if text.len() == 0 {
    } else if is_blank(text[0]) {
        lemma_lex_well_formed(text.drop_first());
    } else if is_digit(text[0]) {
        let n = digit_run(text) as int;
        lemma_digit_run(text);
        lemma_decimal_not_negative(text.take(n));
        lemma_lex_well_formed(text.skip(n));
    } else {
        lemma_lex_well_formed(text.drop_first());
    }
}

/// Every character of the text may occur in an expression.
pub open spec fn all_recognized(text: Seq<char>) -> bool {
    forall|i: int| 0 <= i < text.len() ==> recognized(#[trigger] text[i])
}

/// Recognized characters at the front of a text do not decide whether all of it is recognized.
proof fn lemma_all_recognized_skip(text: Seq<char>, n: int)
    requires
        0 <= n <= text.len(),
        forall|k: int| 0 <= k < n ==> recognized(#[trigger] text[k]),
    ensures
        all_recognized(text) <==> all_recognized(text.skip(n)),
{
    let tail = text.skip(n);
    if all_recognized(text) {
        assert forall|i: int| 0 <= i < tail.len() implies recognized(#[trigger] tail[i]) by {
            assert(tail[i] == text[n + i]);
        }
    }
    if all_recognized(tail) {
        assert forall|i: int| 0 <= i < text.len() implies recognized(#[trigger] text[i]) by {
            if i >= n {
                assert(text[i] == tail[i - n]);
            }
        }
    }
}

/// Lexing fails with `UnknownToken` exactly on the texts that hold a character
/// that is not recognized, wherever it stands and whatever else the text holds.
pub proof fn lemma_unknown_token(text: Seq<char>)
    ensures
        lex(text) == Err::<Seq<Token>, CalcError>(CalcError::UnknownToken) <==> !all_recognized(
            text,
        ),
    decreases text.len(),
{
    if text.len() == 0 {
    } else if is_digit(text[0]) {
        let n = digit_run(text) as int;
        lemma_digit_run(text);
        lemma_all_recognized_skip(text, n);
        lemma_unknown_token(text.skip(n));
    } else if is_blank(text[0]) || symbol(text[0]) is Some {
        assert(text.drop_first() =~= text.skip(1));
        lemma_all_recognized_skip(text, 1);
        lemma_unknown_token(text.drop_first());
    } else {
        assert(!recognized(text[0]));
    }
}

/// Lexing fails in no other way than with `UnknownToken` and `Overflow`.
pub proof fn lemma_lex_failures(text: Seq<char>)
    ensures
        lex(text) matches Err(e) ==> e == CalcError::UnknownToken || e == CalcError::Overflow,
    decreases text.len(),
{
    if text.len() == 0 {
    } else if is_digit(text[0]) {
        lemma_digit_run(text);
        lemma_lex_failures(text.skip(digit_run(text) as int));
    } else {
        lemma_lex_failures(text.drop_first());
    }
}

/// The characters from `from` up to `to` are one literal of the text: they
/// are digits, and no digit stands before or after them.
pub open spec fn is_literal(text: Seq<char>, from: int, to: int) -> bool {
    &&& 0 <= from < to <= text.len()
    &&& forall|k: int| from <= k < to ==> is_digit(#[trigger] text[k])
    &&& from > 0 ==> !is_digit(text[from - 1])
    &&& to < text.len() ==> !is_digit(text[to])
}

/// A literal of the text denotes a number above `isize::MAX`.
pub open spec fn has_oversized_literal(text: Seq<char>) -> bool {
    exists|from: int, to: int| #[trigger]
        is_literal(text, from, to) && decimal(text.subrange(from, to)) > isize::MAX
}

/// The literals of a text after its first `n` characters are the literals of
/// the whole text from there on, if no literal reaches across that place.
proof fn lemma_literal_shift(text: Seq<char>, n: int, from: int, to: int)
    requires
        0 < n <= text.len(),
        !is_digit(text[n - 1]) || n == text.len() || !is_digit(text[n]),
    ensures
        is_literal(text.skip(n), from, to) <==> from >= 0 && is_literal(text, from + n, to + n),
        0 <= from <= to <= text.len() - n ==> text.skip(n).subrange(from, to) == text.subrange(
            from + n,
            to + n,
        ),
{
    let tail = text.skip(n);
    if is_literal(tail, from, to) {
        assert(tail[0] == text[n]);
        assert(is_digit(tail[from]));
        assert forall|k: int| from + n <= k < to + n implies is_digit(#[trigger] text[k]) by {
            assert(text[k] == tail[k - n]);
        }
        if from > 0 {
            assert(tail[from - 1] == text[from + n - 1]);
        }
        if to + n < text.len() {
            assert(tail[to] == text[to + n]);
        }
    }
    if from >= 0 && is_literal(text, from + n, to + n) {
        assert forall|k: int| from <= k < to implies is_digit(#[trigger] tail[k]) by {
            assert(tail[k] == text[k + n]);
        }
    }
}

/// Lexing fails with `Overflow` exactly on the texts in which every character
/// is recognized and some literal denotes a number above `isize::MAX`.
pub proof fn lemma_overflow(text: Seq<char>)
    ensures
        lex(text) == Err::<Seq<Token>, CalcError>(CalcError::Overflow) <==> all_recognized(text)
            && has_oversized_literal(text),
    decreases text.len(),
{
    lemma_unknown_token(text);
    if text.len() == 0 {
    } else if is_digit(text[0]) {
        let n = digit_run(text) as int;
        let tail = text.skip(n);
        lemma_digit_run(text);
        lemma_all_recognized_skip(text, n);
        lemma_unknown_token(tail);
        lemma_overflow(tail);
        assert(is_literal(text, 0, n));
        assert(text.take(n) =~= text.subrange(0, n));
        if has_oversized_literal(tail) {
            let (from, to) = choose|from: int, to: int| #[trigger]
                is_literal(tail, from, to) && decimal(tail.subrange(from, to)) > isize::MAX;
            lemma_literal_shift(text, n, from, to);
            assert(is_literal(text, from + n, to + n));
        }
        if has_oversized_literal(text) {
            let (from, to) = choose|from: int, to: int| #[trigger]
                is_literal(text, from, to) && decimal(text.subrange(from, to)) > isize::MAX;
            if from < n {
                assert(from == 0) by {
                    if from > 0 {
                        assert(is_digit(text[from - 1]));
                    }
                }
                assert(to == n) by {
                    if to < n {
                        assert(is_digit(text[to]));
                    }
                    if to > n {
                        assert(is_digit(text[n]));
                    }
                }
            } else {
                lemma_literal_shift(text, n, from - n, to - n);
                assert(is_literal(tail, from - n, to - n));
            }
        }
    } else if is_blank(text[0]) || symbol(text[0]) is Some {
        let tail = text.drop_first();
        assert(tail =~= text.skip(1));
        lemma_all_recognized_skip(text, 1);
        lemma_unknown_token(tail);
        lemma_overflow(tail);
        if has_oversized_literal(tail) {
            let (from, to) = choose|from: int, to: int| #[trigger]
                is_literal(tail, from, to) && decimal(tail.subrange(from, to)) > isize::MAX;
            lemma_literal_shift(text, 1, from, to);
            assert(is_literal(text, from + 1, to + 1));
        }
        if has_oversized_literal(text) {
            let (from, to) = choose|from: int, to: int| #[trigger]
                is_literal(text, from, to) && decimal(text.subrange(from, to)) > isize::MAX;
            assert(is_digit(text[from]));
            lemma_literal_shift(text, 1, from - 1, to - 1);
            assert(is_literal(tail, from - 1, to - 1));
        }
    } else {
        assert(!recognized(text[0]));
    }
}

/// A text has tokens exactly if every character of it is recognized and no
/// literal of it denotes a number above `isize::MAX`.
pub proof fn lemma_lexes(text: Seq<char>)
    ensures
        lex(text) is Ok <==> all_recognized(text) && !has_oversized_literal(text),
{
    lemma_unknown_token(text);
    lemma_overflow(text);
    lemma_lex_failures(text);
}

/// A space or tab more changes no token, unless it parts two digits: the
/// text with `blank` put in at `at` has the tokens of the text without it.
pub proof fn lemma_blank_is_insignificant(text: Seq<char>, at: int, blank: char)
    requires
        0 <= at <= text.len(),
        is_blank(blank),
        !(0 < at < text.len() && is_digit(text[at - 1]) && is_digit(text[at])),
    ensures
        lex(text.insert(at, blank)) == lex(text),
    decreases text.len(),
{
    let spaced = text.insert(at, blank);
    if at == 0 {
        assert(spaced.drop_first() =~= text);
    } else if is_digit(text[0]) {
        let n = digit_run(text) as int;
        lemma_digit_run(text);
        assert(at >= n) by {
            if at < n {
                assert(is_digit(text[at - 1]) && is_digit(text[at]));
            }
        }
        assert forall|k: int| 0 <= k < n implies is_digit(#[trigger] spaced[k]) by {
            assert(spaced[k] == text[k]);
        }
        if n < text.len() && at > n {
            assert(spaced[n] == text[n]);
        }
        lemma_digit_run_is(spaced, n);
        assert(spaced.take(n) =~= text.take(n));
        assert(spaced.skip(n) =~= text.skip(n).insert(at - n, blank));
        if at > n {
            assert(text.skip(n)[at - n - 1] == text[at - 1]);
            if at < text.len() {
                assert(text.skip(n)[at - n] == text[at]);
            }
        }
        lemma_blank_is_insignificant(text.skip(n), at - n, blank);
    } else {
        let tail = text.drop_first();
        assert(spaced[0] == text[0]);
        assert(spaced.drop_first() =~= tail.insert(at - 1, blank));
        if at > 1 {
            assert(tail[at - 2] == text[at - 1]);
        }
        if at < text.len() {
            assert(tail[at - 1] == text[at]);
        }
        if at == 1 {
            assert(!(0 < at - 1));
        }
        if is_blank(text[0]) || symbol(text[0]) is Some {
            lemma_blank_is_insignificant(tail, at - 1, blank);
        }
    }
}

} // verus!
