//! The recursive-descent parser: a cursor over tokens that computes the
//! functions of [`crate::grammar`], and remembers the first failure.

use vstd::prelude::*;
use crate::error::CalcError;
use crate::expr::Expr;
use crate::grammar::{
    expect, expr, expr_tail, factor, lemma_expr_well_formed, lemma_factor_consumes,
    lemma_factor_well_formed, lemma_suffix_well_formed, lemma_term_consumes,
    lemma_term_well_formed, lookahead, term, term_tail,
};
use crate::lexer::lex;
use crate::token::{well_formed, Token};

verus! {

/// The value of the expression that `tokens` start with, and the tokens after it.
pub open spec fn evaluation(tokens: Seq<Token>) -> (Result<isize, CalcError>, Seq<Token>) {
    let (parsed, rest) = expr(tokens);
    match parsed {
        Ok(tree) => (tree.value(), rest),
        Err(e) => (Err(e), rest),
    }
}

/// A parser as its callers see it: the tokens that it has not consumed yet,
/// and the failure that it has recorded, if any.
pub struct ParserState {
    pub remaining: Seq<Token>,
    pub failure: Option<CalcError>,
}

impl ParserState {
    /// The state in which a parser starts, given what its text lexed to.
    pub open spec fn initial(lexed: Result<Seq<Token>, CalcError>) -> ParserState {
        match lexed {
            Ok(tokens) => ParserState { remaining: tokens, failure: None },
            Err(e) => ParserState { remaining: Seq::empty(), failure: Some(e) },
        }
    }

    /// The result and the next state of an operation that, on the remaining
    /// tokens alone, would have the result and leave the tokens that `outcome` gives.
    ///
    /// A parser that has recorded a failure reports that failure again and does
    /// not change; one that fails now records the failure.
    pub open spec fn after<T>(self, outcome: (Result<T, CalcError>, Seq<Token>)) -> (
        Result<T, CalcError>,
        ParserState,
    ) {
        match self.failure {
            Some(e) => (Err(e), self),
            None => (
                outcome.0,
                ParserState {
                    remaining: outcome.1,
                    failure: match outcome.0 {
                        Ok(_) => None,
                        Err(e) => Some(e),
                    },
                },
            ),
        }
    }
}

/// The first failure is final: an operation that fails records its failure,
/// and every operation after it reports that failure and changes nothing,
/// whatever it would have done with the remaining tokens.
pub proof fn lemma_first_failure_wins<T, U>(
    state: ParserState,
    first: (Result<T, CalcError>, Seq<Token>),
    second: (Result<U, CalcError>, Seq<Token>),
)
    ensures
        state.after(first).0 matches Err(e) ==> state.after(first).1.failure == Some(e)
            && state.after(first).1.after(second) == (Err::<U, CalcError>(e), state.after(first).1),
        state.after(first).0 is Ok ==> state.after(first).1.failure is None,
{
}

/// A cursor over the tokens of one expression, with the first failure met on the way.
pub struct Parser {
    tokens: Vec<Token>,
    cursor: usize,
    failure: Option<CalcError>,
}

impl View for Parser {
    type V = ParserState;

    closed spec fn view(&self) -> ParserState {
        ParserState { remaining: self.tokens@.skip(self.cursor as int), failure: self.failure }
    }
}

impl Parser {
    #[verifier::type_invariant]
    spec fn valid(self) -> bool {
        self.cursor <= self.tokens.len() && well_formed(self.tokens@)
    }

    /// A parser at the start of the tokens of `input`, or, where `input` has
    /// no tokens, one that has none and has recorded why.
    pub fn new(input: &String) -> (parser: Parser)
        ensures
            parser@ == ParserState::initial(lex(input@)),
            well_formed(parser@.remaining),
    {
        match Parser::tokenize(input) {
            Ok(tokens) => {
                assert(tokens@.skip(0) =~= tokens@);
                Parser { tokens, cursor: 0, failure: None }
            },
            Err(e) => {
                let tokens: Vec<Token> = Vec::new();
                assert(tokens@.skip(0) =~= Seq::<Token>::empty());
                Parser { tokens, cursor: 0, failure: Some(e) }
            },
        }
    }

    /// The next token, which stays where it is.
    pub fn peek(&self) -> (next: Option<Token>)
        ensures
            next == lookahead(self@.remaining),
    {
        proof {
            use_type_invariant(self);
        }
        if self.cursor < self.tokens.len() {
            Some(self.tokens[self.cursor])
        } else {
            None
        }
    }

    /// The next token, which the cursor moves past.
    pub fn consume(&mut self) -> (next: Option<Token>)
        ensures
            next == lookahead(old(self)@.remaining),
            final(self)@.remaining == if next is Some {
                old(self)@.remaining.drop_first()
            } else {
                old(self)@.remaining
            },
            final(self)@.failure == old(self)@.failure,
    {
        proof {
            use_type_invariant(&*self);
        }
        if self.cursor < self.tokens.len() {
            let token = self.tokens[self.cursor];
            assert(self.tokens@.skip(self.cursor as int).drop_first() =~= self.tokens@.skip(
                self.cursor + 1,
            ));
            self.cursor += 1;
            Some(token)
        } else {
            None
        }
    }

    /// Consumes `expected`; fails with `MissingToken` if another token, or none, comes next.
    pub fn expect(&mut self, expected: Token) -> (r: Result<Token, CalcError>)
        ensures
            (r, final(self)@) == old(self)@.after(expect(old(self)@.remaining, expected)),
    {
        proof {
            use_type_invariant(&*self);
        }
        if let Some(e) = self.failure {
            return Err(e);
        }
        match self.peek() {
            Some(token) if token == expected => {
                self.consume();
                Ok(expected)
            },
            _ => {
                let e = CalcError::MissingToken(expected);
                self.failure = Some(e);
                Err(e)
            },
        }
    }

    /// Parses `factor := Number | '(' expr ')'`.
    pub fn parse_factor(&mut self) -> (r: Result<Expr, CalcError>)
        ensures
            (r, final(self)@) == old(self)@.after(factor(old(self)@.remaining)),
            r matches Ok(tree) ==> tree.well_formed(),
        decreases old(self)@.remaining.len(), 0int,
    {
        proof {
            use_type_invariant(&*self);
            lemma_suffix_well_formed(self@.remaining, self.tokens@);
            lemma_factor_well_formed(self@.remaining);
        }
        if let Some(e) = self.failure {
            return Err(e);
        }
        match self.peek() {
            Some(Token::Number(n)) => {
                self.consume();
                Ok(Expr::Number(n))
            },
            Some(Token::LParen) => {
                self.consume();
                let tree = self.parse_expr()?;
                self.expect(Token::RParen)?;
                Ok(tree)
            },
            _ => {
                self.failure = Some(CalcError::UnexpectedToken);
                Err(CalcError::UnexpectedToken)
            },
        }
    }

    /// Parses `term := factor ( ('*' | '/') factor )*`.
    pub fn parse_term(&mut self) -> (r: Result<Expr, CalcError>)
        ensures
            (r, final(self)@) == old(self)@.after(term(old(self)@.remaining)),
            r matches Ok(tree) ==> tree.well_formed(),
        decreases old(self)@.remaining.len(), 2int,
    {
        let ghost start = self@.remaining;
        proof {
            use_type_invariant(&*self);
            lemma_suffix_well_formed(start, self.tokens@);
            lemma_term_well_formed(start);
            lemma_factor_consumes(start);
        }
        let mut left = self.parse_factor()?;
        loop
            invariant_except_break
                start == old(self)@.remaining,
                old(self)@.failure is None,
                self@.failure is None,
                self@.remaining.len() < start.len(),
                term(start) == term_tail(left, self@.remaining),
            ensures
                start == old(self)@.remaining,
                old(self)@.failure is None,
                self@.failure is None,
                term(start) == (Ok::<Expr, CalcError>(left), self@.remaining),
            decreases self@.remaining.len(),
        {
            let op = match self.peek() {
                Some(Token::Mul) => Token::Mul,
                Some(Token::Div) => Token::Div,
                _ => {
                    break ;
                },
            };
            proof {
                lemma_factor_consumes(self@.remaining.drop_first());
            }
            self.consume();
            let right = self.parse_factor()?;
            left = Expr::BinaryOp(Box::new(left), op, Box::new(right));
        }
        Ok(left)
    }

    /// Parses `expr := term ( ('+' | '-') term )*`.
    pub fn parse_expr(&mut self) -> (r: Result<Expr, CalcError>)
        ensures
            (r, final(self)@) == old(self)@.after(expr(old(self)@.remaining)),
            r matches Ok(tree) ==> tree.well_formed(),
        decreases old(self)@.remaining.len(), 4int,
    {
        let ghost start = self@.remaining;
        proof {
            use_type_invariant(&*self);
            lemma_suffix_well_formed(start, self.tokens@);
            lemma_expr_well_formed(start);
            lemma_term_consumes(start);
        }
        let mut left = self.parse_term()?;
        loop
            invariant_except_break
                start == old(self)@.remaining,
                old(self)@.failure is None,
                self@.failure is None,
                self@.remaining.len() < start.len(),
                expr(start) == expr_tail(left, self@.remaining),
            ensures
                start == old(self)@.remaining,
                old(self)@.failure is None,
                self@.failure is None,
                expr(start) == (Ok::<Expr, CalcError>(left), self@.remaining),
            decreases self@.remaining.len(),
        {
            let op = match self.peek() {
                Some(Token::Add) => Token::Add,
                Some(Token::Sub) => Token::Sub,
                _ => {
                    break ;
                },
            };
            proof {
                lemma_term_consumes(self@.remaining.drop_first());
            }
            self.consume();
            let right = self.parse_term()?;
            left = Expr::BinaryOp(Box::new(left), op, Box::new(right));
        }
        Ok(left)
    }

    /// Parses the expression that the remaining tokens start with, and evaluates it.
    ///
    /// Tokens after that expression are left unconsumed.
    pub fn eval(&mut self) -> (r: Result<isize, CalcError>)
        ensures
            (r, final(self)@) == old(self)@.after(evaluation(old(self)@.remaining)),
    {
        let tree = self.parse_expr()?;
        proof {
            use_type_invariant(&*self);
            tree.lemma_well_formed_is_arithmetic();
        }
        match Parser::solve(tree) {
            Ok(v) => Ok(v),
            Err(e) => {
                self.failure = Some(e);
                Err(e)
            },
        }
    }
}

} // verus!
