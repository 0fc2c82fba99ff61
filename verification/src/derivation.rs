//! The grammar as a relation between tokens and trees, and the proof that
//! the parser computes it.
//!
//! ```text
//! expr   := term   | expr ('+' | '-') term
//! term   := factor | term ('*' | '/') factor
//! factor := Number | '(' expr ')'
//! ```
//!
//! Written with the repetition on the left, the grammar says outright which
//! tree a sequence of tokens denotes: the two tiers state that `*` and `/`
//! bind tighter than `+` and `-`, and the left recursion that each tier
//! associates to the left.

use vstd::prelude::*;
use crate::error::CalcError;
use crate::expr::Expr;
use crate::grammar::{
    expect, expr, expr_tail, factor, is_suffix, lemma_expr_consumes, lemma_expr_tail_consumes,
    lemma_factor_consumes, lemma_term_consumes, lemma_term_tail_consumes, term, term_tail,
};
use crate::token::Token;

verus! {

/// `tokens`, all of them, are a factor that denotes `tree`:
/// `factor := Number | '(' expr ')'`.
pub open spec fn is_factor(tokens: Seq<Token>, tree: Expr) -> bool
    decreases tokens.len(), 0int,
{
    ||| {
        &&& tree matches Expr::Number(n)
        &&& tokens.len() == 1
        &&& tokens[0] == Token::Number(n)
    }
    ||| {
        &&& tokens.len() >= 2
        &&& tokens[0] == Token::LParen
        &&& tokens.last() == Token::RParen
        &&& is_expr(tokens.subrange(1, tokens.len() - 1), tree)
    }
}

/// `tokens`, all of them, are a term that denotes `tree`:
/// `term := factor | term ('*' | '/') factor`.
///
/// The right operand of `*` and `/` is a factor, so the left operand holds
/// every earlier operator of the term: the tier associates to the left.
pub open spec fn is_term(tokens: Seq<Token>, tree: Expr) -> bool
    decreases tokens.len(), 1int,
{
    ||| is_factor(tokens, tree)
    ||| {
        &&& tree matches Expr::BinaryOp(left, op, right)
        &&& op.is_multiplicative()
        &&& exists|k: int|
            0 < k < tokens.len() - 1 && #[trigger] tokens[k] == op && is_term(
                tokens.take(k),
                *left,
            ) && is_factor(tokens.skip(k + 1), *right)
    }
}

/// `tokens`, all of them, are an expression that denotes `tree`:
/// `expr := term | expr ('+' | '-') term`.
///
/// The operands of `+` and `-` are terms and expressions, never the other
/// way round without parentheses: `*` and `/` bind tighter.
pub open spec fn is_expr(tokens: Seq<Token>, tree: Expr) -> bool
    decreases tokens.len(), 2int,
{
    ||| is_term(tokens, tree)
    ||| {
        &&& tree matches Expr::BinaryOp(left, op, right)
        &&& op.is_additive()
        &&& exists|k: int|
            0 < k < tokens.len() - 1 && #[trigger] tokens[k] == op && is_expr(
                tokens.take(k),
                *left,
            ) && is_term(tokens.skip(k + 1), *right)
    }
}

/// The tokens of `tokens` that were consumed when `rest` is what is left of them.
pub open spec fn consumed(tokens: Seq<Token>, rest: Seq<Token>) -> Seq<Token> {
    tokens.take(tokens.len() - rest.len())
}

/// The next token, if there is one, is none of `*` and `/`.
pub open spec fn ends_term(rest: Seq<Token>) -> bool {
    rest.len() > 0 ==> !rest[0].is_multiplicative()
}

/// The next token, if there is one, is no operator.
pub open spec fn ends_expr(rest: Seq<Token>) -> bool {
    rest.len() > 0 ==> !rest[0].is_operator()
}

/// A factor, a term and an expression each have at least one token.
pub proof fn lemma_not_empty(tokens: Seq<Token>, tree: Expr)
    ensures
        is_factor(tokens, tree) ==> tokens.len() > 0,
        is_term(tokens, tree) ==> tokens.len() > 0,
        is_expr(tokens, tree) ==> tokens.len() > 0,
{
    reveal_with_fuel(is_factor, 3);
    reveal_with_fuel(is_term, 3);
    reveal_with_fuel(is_expr, 3);
}

/// What `factor` parses is a factor by the grammar.
pub proof fn lemma_factor_sound(tokens: Seq<Token>)
    ensures
        factor(tokens).0 matches Ok(tree) ==> is_factor(
            consumed(tokens, factor(tokens).1),
            tree,
        ),
    decreases tokens.len(), 0int,
{
    if let Ok(tree) = factor(tokens).0 {
        let taken = consumed(tokens, factor(tokens).1);
        lemma_factor_consumes(tokens);
        if tokens[0] == Token::LParen {
            let inside = tokens.drop_first();
            let (inner, rest) = expr(inside);
            lemma_expr_sound(inside);
            lemma_expr_consumes(inside);
            assert(rest[0] == Token::RParen);
            assert(expect(rest, Token::RParen).1 == rest.drop_first());
            assert(taken.subrange(1, taken.len() - 1) =~= consumed(inside, rest));
            assert(taken.last() == rest[0]);
        }
    }
}

/// What `term_tail` adds to a term is a term by the grammar.
pub proof fn lemma_term_tail_sound(before: Seq<Token>, left: Expr, tokens: Seq<Token>)
    requires
        is_term(before, left),
    ensures
        term_tail(left, tokens).0 matches Ok(tree) ==> is_term(
            before + consumed(tokens, term_tail(left, tokens).1),
            tree,
        ),
    decreases tokens.len(), 1int,
{
    lemma_not_empty(before, left);
    if tokens.len() > 0 && tokens[0].is_multiplicative() {
        let (operand, rest) = factor(tokens.drop_first());
        if let Ok(right) = operand {
            let node = Expr::BinaryOp(Box::new(left), tokens[0], Box::new(right));
            lemma_factor_sound(tokens.drop_first());
            lemma_factor_consumes(tokens.drop_first());
            let so_far = before + consumed(tokens, rest);
            let k = before.len() as int;
            assert(so_far[k] == tokens[0]);
            assert(so_far.take(k) =~= before);
            assert(so_far.skip(k + 1) =~= consumed(tokens.drop_first(), rest));
            assert(is_term(so_far, node));
            lemma_term_tail_sound(so_far, node, rest);
            lemma_term_tail_consumes(node, rest);
            assert(so_far + consumed(rest, term_tail(node, rest).1) =~= before + consumed(
                tokens,
                term_tail(left, tokens).1,
            ));
        }
    } else {
        assert(before + consumed(tokens, tokens) =~= before);
    }
}

/// What `term` parses is a term by the grammar.
pub proof fn lemma_term_sound(tokens: Seq<Token>)
    ensures
        term(tokens).0 matches Ok(tree) ==> is_term(consumed(tokens, term(tokens).1), tree),
    decreases tokens.len(), 2int,
{
    let (first, rest) = factor(tokens);
    if let Ok(left) = first {
        lemma_factor_sound(tokens);
        lemma_factor_consumes(tokens);
        lemma_term_tail_sound(consumed(tokens, rest), left, rest);
        lemma_term_tail_consumes(left, rest);
        assert(consumed(tokens, rest) + consumed(rest, term_tail(left, rest).1) =~= consumed(
            tokens,
            term_tail(left, rest).1,
        ));
    }
}

/// What `expr_tail` adds to an expression is an expression by the grammar.
pub proof fn lemma_expr_tail_sound(before: Seq<Token>, left: Expr, tokens: Seq<Token>)
    requires
        is_expr(before, left),
    ensures
        expr_tail(left, tokens).0 matches Ok(tree) ==> is_expr(
            before + consumed(tokens, expr_tail(left, tokens).1),
            tree,
        ),
    decreases tokens.len(), 3int,
{
    lemma_not_empty(before, left);
    if tokens.len() > 0 && tokens[0].is_additive() {
        let (operand, rest) = term(tokens.drop_first());
        if let Ok(right) = operand {
            let node = Expr::BinaryOp(Box::new(left), tokens[0], Box::new(right));
            lemma_term_sound(tokens.drop_first());
            lemma_term_consumes(tokens.drop_first());
            let so_far = before + consumed(tokens, rest);
            let k = before.len() as int;
            assert(so_far[k] == tokens[0]);
            assert(so_far.take(k) =~= before);
            assert(so_far.skip(k + 1) =~= consumed(tokens.drop_first(), rest));
            assert(is_expr(so_far, node));
            lemma_expr_tail_sound(so_far, node, rest);
            lemma_expr_tail_consumes(node, rest);
            assert(so_far + consumed(rest, expr_tail(node, rest).1) =~= before + consumed(
                tokens,
                expr_tail(left, tokens).1,
            ));
        }
    } else {
        assert(before + consumed(tokens, tokens) =~= before);
    }
}

/// What `expr` parses is an expression by the grammar: in the tree, `*` and
/// `/` bind tighter than `+` and `-`, each tier associates to the left, and a
/// parenthesized expression stands as one operand.
pub proof fn lemma_expr_sound(tokens: Seq<Token>)
    ensures
        expr(tokens).0 matches Ok(tree) ==> is_expr(consumed(tokens, expr(tokens).1), tree),
    decreases tokens.len(), 4int,
{
    let (first, rest) = term(tokens);
    if let Ok(left) = first {
        lemma_term_sound(tokens);
        lemma_term_consumes(tokens);
        lemma_expr_tail_sound(consumed(tokens, rest), left, rest);
        lemma_expr_tail_consumes(left, rest);
        assert(consumed(tokens, rest) + consumed(rest, expr_tail(left, rest).1) =~= consumed(
            tokens,
            expr_tail(left, rest).1,
        ));
    }
}

/// A factor by the grammar is parsed as such, whatever follows it.
pub proof fn lemma_factor_complete(tokens: Seq<Token>, tree: Expr, rest: Seq<Token>)
    requires
        is_factor(tokens, tree),
    ensures
        factor(tokens + rest) == (Ok::<Expr, CalcError>(tree), rest),
    decreases tokens.len(), 0int,
{
    let all = tokens + rest;
    if tokens[0] == Token::LParen {
        let inside = tokens.subrange(1, tokens.len() - 1);
        let closing = seq![Token::RParen] + rest;
        assert(all.drop_first() =~= inside + closing);
        lemma_expr_complete(inside, tree, closing);
        assert(closing.drop_first() =~= rest);
    } else {
        assert(all.drop_first() =~= rest);
    }
}

/// A term by the grammar is parsed as such, up to the factors that follow it.
pub proof fn lemma_term_complete(tokens: Seq<Token>, tree: Expr, rest: Seq<Token>)
    requires
        is_term(tokens, tree),
    ensures
        term(tokens + rest) == term_tail(tree, rest),
    decreases tokens.len(), 1int,
{
    lemma_not_empty(tokens, tree);
    if is_factor(tokens, tree) {
        lemma_factor_complete(tokens, tree, rest);
    } else if let Expr::BinaryOp(left, op, right) = tree {
        let k = choose|k: int|
            0 < k < tokens.len() - 1 && #[trigger] tokens[k] == op && is_term(
                tokens.take(k),
                *left,
            ) && is_factor(tokens.skip(k + 1), *right);
        let tail = seq![op] + tokens.skip(k + 1) + rest;
        assert(tokens + rest =~= tokens.take(k) + tail);
        lemma_term_complete(tokens.take(k), *left, tail);
        assert(tail.drop_first() =~= tokens.skip(k + 1) + rest);
        lemma_factor_complete(tokens.skip(k + 1), *right, rest);
        lemma_not_empty(tokens.take(k), *left);
    }
}

/// An expression by the grammar is parsed as such, up to the terms that follow
/// it, unless a `*` or `/` follows it.
pub proof fn lemma_expr_complete(tokens: Seq<Token>, tree: Expr, rest: Seq<Token>)
    requires
        is_expr(tokens, tree),
        ends_term(rest),
    ensures
        expr(tokens + rest) == expr_tail(tree, rest),
    decreases tokens.len(), 2int,
{
    lemma_not_empty(tokens, tree);
    if is_term(tokens, tree) {
        lemma_term_complete(tokens, tree, rest);
    } else if let Expr::BinaryOp(left, op, right) = tree {
        let k = choose|k: int|
            0 < k < tokens.len() - 1 && #[trigger] tokens[k] == op && is_expr(
                tokens.take(k),
                *left,
            ) && is_term(tokens.skip(k + 1), *right);
        let tail = seq![op] + tokens.skip(k + 1) + rest;
        assert(tokens + rest =~= tokens.take(k) + tail);
        lemma_expr_complete(tokens.take(k), *left, tail);
        assert(tail.drop_first() =~= tokens.skip(k + 1) + rest);
        lemma_term_complete(tokens.skip(k + 1), *right, rest);
        lemma_not_empty(tokens.take(k), *left);
    }
}

/// Where `term_tail` stops, no `*` or `/` comes next.
pub proof fn lemma_term_tail_stops(left: Expr, tokens: Seq<Token>)
    ensures
        term_tail(left, tokens).0 is Ok ==> ends_term(term_tail(left, tokens).1),
    decreases tokens.len(),
{
    if tokens.len() > 0 && tokens[0].is_multiplicative() {
        let (operand, rest) = factor(tokens.drop_first());
        if let Ok(right) = operand {
            lemma_factor_consumes(tokens.drop_first());
            lemma_term_tail_stops(Expr::BinaryOp(Box::new(left), tokens[0], Box::new(right)), rest);
        }
    }
}

/// Where `expr_tail` stops after a term, no operator comes next.
pub proof fn lemma_expr_tail_stops(left: Expr, tokens: Seq<Token>)
    requires
        ends_term(tokens),
    ensures
        expr_tail(left, tokens).0 is Ok ==> ends_expr(expr_tail(left, tokens).1),
    decreases tokens.len(),
{
    if tokens.len() > 0 && tokens[0].is_additive() {
        let (operand, rest) = term(tokens.drop_first());
        if let Ok(right) = operand {
            lemma_term_consumes(tokens.drop_first());
            lemma_term_stops(tokens.drop_first());
            lemma_expr_tail_stops(Expr::BinaryOp(Box::new(left), tokens[0], Box::new(right)), rest);
        }
    }
}

/// Where `term` stops, no `*` or `/` comes next.
pub proof fn lemma_term_stops(tokens: Seq<Token>)
    ensures
        term(tokens).0 is Ok ==> ends_term(term(tokens).1),
{
    if let Ok(left) = factor(tokens).0 {
        lemma_factor_consumes(tokens);
        lemma_term_tail_stops(left, factor(tokens).1);
    }
}

/// Where `expr` stops, no operator comes next.
pub proof fn lemma_expr_stops(tokens: Seq<Token>)
    ensures
        expr(tokens).0 is Ok ==> ends_expr(expr(tokens).1),
{
    if let Ok(left) = term(tokens).0 {
        lemma_term_consumes(tokens);
        lemma_term_stops(tokens);
        lemma_expr_tail_stops(left, term(tokens).1);
    }
}

/// The parser accepts what the grammar derives, and builds the tree that the
/// grammar gives it: parsing `tokens` yields `tree` and leaves `rest` exactly
/// when `rest` is a suffix of `tokens` that starts with no operator and the
/// tokens before it are an expression that denotes `tree`.
pub proof fn lemma_parses_what_the_grammar_derives(
    tokens: Seq<Token>,
    tree: Expr,
    rest: Seq<Token>,
)
    ensures
        expr(tokens) == (Ok::<Expr, CalcError>(tree), rest) <==> is_suffix(rest, tokens)
            && ends_expr(rest) && is_expr(consumed(tokens, rest), tree),
{
    if expr(tokens) == (Ok::<Expr, CalcError>(tree), rest) {
        lemma_expr_consumes(tokens);
        lemma_expr_stops(tokens);
        lemma_expr_sound(tokens);
    }
    if is_suffix(rest, tokens) && ends_expr(rest) && is_expr(consumed(tokens, rest), tree) {
        assert(tokens =~= consumed(tokens, rest) + rest);
        lemma_expr_complete(consumed(tokens, rest), tree, rest);
    }
}

/// Parsing fails exactly on the tokens of which no part at the front is an
/// expression that ends where no operator follows.
pub proof fn lemma_fails_without_derivation(tokens: Seq<Token>)
    ensures
        expr(tokens).0 is Err <==> forall|tree: Expr, rest: Seq<Token>|
            !(is_suffix(rest, tokens) && ends_expr(rest) && #[trigger] is_expr(
                consumed(tokens, rest),
                tree,
            )),
{
    if let Ok(tree) = expr(tokens).0 {
        lemma_parses_what_the_grammar_derives(tokens, tree, expr(tokens).1);
    } else {
        assert forall|tree: Expr, rest: Seq<Token>|
            !(is_suffix(rest, tokens) && ends_expr(rest) && #[trigger] is_expr(
                consumed(tokens, rest),
                tree,
            )) by {
            lemma_parses_what_the_grammar_derives(tokens, tree, rest);
        }
    }
}

/// Tokens that are an expression as a whole are parsed to the end.
pub proof fn lemma_parses_whole_expression(tokens: Seq<Token>, tree: Expr)
    ensures
        is_expr(tokens, tree) <==> expr(tokens) == (
            Ok::<Expr, CalcError>(tree),
            Seq::<Token>::empty(),
        ),
{
    let none = Seq::<Token>::empty();
    lemma_parses_what_the_grammar_derives(tokens, tree, none);
    assert(consumed(tokens, none) =~= tokens);
    assert(tokens.skip(tokens.len() as int) =~= none);
}

/// The grammar is unambiguous: tokens denote at most one tree.
pub proof fn lemma_unambiguous(tokens: Seq<Token>, one: Expr, other: Expr)
    requires
        is_expr(tokens, one),
        is_expr(tokens, other),
    ensures
        one == other,
{
    lemma_parses_whole_expression(tokens, one);
    lemma_parses_whole_expression(tokens, other);
}

/// A factor is a term, and a term is an expression.
pub proof fn lemma_promote(tokens: Seq<Token>, tree: Expr)
    ensures
        is_factor(tokens, tree) ==> is_term(tokens, tree),
        is_term(tokens, tree) ==> is_expr(tokens, tree),
{
}

/// An expression in parentheses is a factor that denotes the same tree.
pub proof fn lemma_group(tokens: Seq<Token>, tree: Expr)
    requires
        is_expr(tokens, tree),
    ensures
        is_factor(seq![Token::LParen] + tokens + seq![Token::RParen], tree),
{
    let grouped = seq![Token::LParen] + tokens + seq![Token::RParen];
    assert(grouped.subrange(1, grouped.len() - 1) =~= tokens);
}

/// A term, `*` or `/`, and a factor are a term, whose tree has the term on
/// the left and the factor on the right.
pub proof fn lemma_product(left: Seq<Token>, x: Expr, op: Token, right: Seq<Token>, y: Expr)
    requires
        is_term(left, x),
        op.is_multiplicative(),
        is_factor(right, y),
    ensures
        is_term(left + seq![op] + right, Expr::BinaryOp(Box::new(x), op, Box::new(y))),
{
    let all = left + seq![op] + right;
    let k = left.len() as int;
    lemma_not_empty(left, x);
    lemma_not_empty(right, y);
    assert(all[k] == op);
    assert(all.take(k) =~= left);
    assert(all.skip(k + 1) =~= right);
}

/// An expression, `+` or `-`, and a term are an expression, whose tree has
/// the expression on the left and the term on the right.
pub proof fn lemma_sum(left: Seq<Token>, x: Expr, op: Token, right: Seq<Token>, y: Expr)
    requires
        is_expr(left, x),
        op.is_additive(),
        is_term(right, y),
    ensures
        is_expr(left + seq![op] + right, Expr::BinaryOp(Box::new(x), op, Box::new(y))),
{
    let all = left + seq![op] + right;
    let k = left.len() as int;
    lemma_not_empty(left, x);
    lemma_not_empty(right, y);
    assert(all[k] == op);
    assert(all.take(k) =~= left);
    assert(all.skip(k + 1) =~= right);
}

/// `*` and `/` bind tighter than `+` and `-`: of three factors `a`, `b`, `c`
/// joined by one operator of each tier, the two around the `*` or `/` form
/// one operand of the `+` or `-`, on whichever side they stand.
pub proof fn lemma_product_binds_tighter(
    a: Seq<Token>,
    x: Expr,
    b: Seq<Token>,
    y: Expr,
    c: Seq<Token>,
    z: Expr,
    additive: Token,
    multiplicative: Token,
)
    requires
        is_factor(a, x),
        is_factor(b, y),
        is_factor(c, z),
        additive.is_additive(),
        multiplicative.is_multiplicative(),
    ensures
        expr(a + seq![additive] + b + seq![multiplicative] + c).0 == Ok::<Expr, CalcError>(
            Expr::BinaryOp(
                Box::new(x),
                additive,
                Box::new(Expr::BinaryOp(Box::new(y), multiplicative, Box::new(z))),
            ),
        ),
        expr(a + seq![multiplicative] + b + seq![additive] + c).0 == Ok::<Expr, CalcError>(
            Expr::BinaryOp(
                Box::new(Expr::BinaryOp(Box::new(x), multiplicative, Box::new(y))),
                additive,
                Box::new(z),
            ),
        ),
{
    lemma_promote(a, x);
    lemma_promote(b, y);
    lemma_promote(c, z);
    let yz = Expr::BinaryOp(Box::new(y), multiplicative, Box::new(z));
    lemma_product(b, y, multiplicative, c, z);
    lemma_sum(a, x, additive, b + seq![multiplicative] + c, yz);
    assert(a + seq![additive] + (b + seq![multiplicative] + c) =~= a + seq![additive] + b
        + seq![multiplicative] + c);
    lemma_parses_whole_expression(
        a + seq![additive] + b + seq![multiplicative] + c,
        Expr::BinaryOp(Box::new(x), additive, Box::new(yz)),
    );
    let xy = Expr::BinaryOp(Box::new(x), multiplicative, Box::new(y));
    lemma_product(a, x, multiplicative, b, y);
    lemma_promote(a + seq![multiplicative] + b, xy);
    lemma_sum(a + seq![multiplicative] + b, xy, additive, c, z);
    lemma_parses_whole_expression(
        a + seq![multiplicative] + b + seq![additive] + c,
        Expr::BinaryOp(Box::new(xy), additive, Box::new(z)),
    );
}

/// Each tier associates to the left: of three factors joined by two operators
/// of one tier, the first two form the left operand of the second operator.
pub proof fn lemma_left_associative(
    a: Seq<Token>,
    x: Expr,
    b: Seq<Token>,
    y: Expr,
    c: Seq<Token>,
    z: Expr,
    first: Token,
    second: Token,
)
    requires
        is_factor(a, x),
        is_factor(b, y),
        is_factor(c, z),
        first.is_additive() && second.is_additive() || first.is_multiplicative()
            && second.is_multiplicative(),
    ensures
        expr(a + seq![first] + b + seq![second] + c).0 == Ok::<Expr, CalcError>(
            Expr::BinaryOp(
                Box::new(Expr::BinaryOp(Box::new(x), first, Box::new(y))),
                second,
                Box::new(z),
            ),
        ),
{
    lemma_promote(a, x);
    lemma_promote(b, y);
    lemma_promote(c, z);
    let xy = Expr::BinaryOp(Box::new(x), first, Box::new(y));
    let tree = Expr::BinaryOp(Box::new(xy), second, Box::new(z));
    let all = a + seq![first] + b + seq![second] + c;
    if first.is_additive() {
        lemma_sum(a, x, first, b, y);
        lemma_sum(a + seq![first] + b, xy, second, c, z);
    } else {
        lemma_product(a, x, first, b, y);
        lemma_product(a + seq![first] + b, xy, second, c, z);
        lemma_promote(all, tree);
    }
    lemma_parses_whole_expression(all, tree);
}

/// Parentheses override the tiers: a parenthesized sum or difference of two
/// factors is one operand of a `*` or `/` next to it.
pub proof fn lemma_grouping_overrides(
    a: Seq<Token>,
    x: Expr,
    b: Seq<Token>,
    y: Expr,
    c: Seq<Token>,
    z: Expr,
    additive: Token,
    multiplicative: Token,
)
    requires
        is_factor(a, x),
        is_factor(b, y),
        is_factor(c, z),
        additive.is_additive(),
        multiplicative.is_multiplicative(),
    ensures
        expr(
            seq![Token::LParen] + (a + seq![additive] + b) + seq![Token::RParen]
                + seq![multiplicative] + c,
        ).0 == Ok::<Expr, CalcError>(
            Expr::BinaryOp(
                Box::new(Expr::BinaryOp(Box::new(x), additive, Box::new(y))),
                multiplicative,
                Box::new(z),
            ),
        ),
{
    lemma_promote(a, x);
    lemma_promote(b, y);
    let xy = Expr::BinaryOp(Box::new(x), additive, Box::new(y));
    let tree = Expr::BinaryOp(Box::new(xy), multiplicative, Box::new(z));
    let group = seq![Token::LParen] + (a + seq![additive] + b) + seq![Token::RParen];
    lemma_sum(a, x, additive, b, y);
    lemma_group(a + seq![additive] + b, xy);
    lemma_promote(group, xy);
    lemma_product(group, xy, multiplicative, c, z);
    lemma_promote(group + seq![multiplicative] + c, tree);
    lemma_parses_whole_expression(group + seq![multiplicative] + c, tree);
}

} // verus!
