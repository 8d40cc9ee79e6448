//! A small, concrete token alphabet with ready-made terminal parsers.
//!
//! The combinator core is generic and never inspects tokens beyond
//! equality; this module supplies one concrete instantiation — number
//! and keyword terminals over [`Token`], with [`ParseErr`] as the error
//! type — so that the combinators can be exercised end to end.

use vstd::prelude::*;
use vstd::slice::slice_index_get;
use vstd::std_specs::cmp::PartialEqSpec;
use crate::ctx_free::ParseValue;
use crate::SyntaxError;

verus! {

/// A token of the sample alphabet.
#[derive(Clone, Copy, Debug)]
pub enum Token {
    /// A number literal.
    Num(u64),
    /// A comma, the usual list delimiter.
    Comma,
    /// The keyword `if`.
    KwIf,
    /// The keyword `while`.
    KwWhile,
}

impl PartialEq for Token {
    fn eq(&self, other: &Token) -> (r: bool) {
        match (self, other) {
            (Token::Num(a), Token::Num(b)) => a == b,
            (Token::Comma, Token::Comma) => true,
            (Token::KwIf, Token::KwIf) => true,
            (Token::KwWhile, Token::KwWhile) => true,
            _ => false,
        }
    }
}

impl vstd::std_specs::cmp::PartialEqSpecImpl for Token {
    open spec fn obeys_eq_spec() -> bool {
        true
    }

    open spec fn eq_spec(&self, other: &Token) -> bool {
        match (self, other) {
            (Token::Num(a), Token::Num(b)) => a == b,
            (Token::Comma, Token::Comma) => true,
            (Token::KwIf, Token::KwIf) => true,
            (Token::KwWhile, Token::KwWhile) => true,
            _ => false,
        }
    }
}

/// The code a terminal parser puts into [`ParseErr`] when it expected
/// a number literal.
pub const EXPECTED_NUMBER: u64 = 1;

/// The code for a missing keyword.
pub const EXPECTED_KEYWORD: u64 = 2;

/// The code of [`FailParser`], which expects nothing and fails always.
pub const EXPECTED_NOTHING: u64 = 0;

/// A parse failure: the position at which recognition failed, and a
/// code describing what was expected there.
#[derive(Clone, Copy, Debug, PartialEq, Eq, Structural)]
pub struct ParseErr {
    pub pos: usize,
    pub expected: u64,
}

/// [`ParseErr`] is an error-synthesis capability: alternation can
/// build one from the failure position and an expectation code.
impl SyntaxError<u64> for ParseErr {
    open spec fn spec_syntax_error(pos: int, ctx: u64) -> Self {
        ParseErr { pos: pos as usize, expected: ctx }
    }

    fn syntax_error(pos: usize, ctx: u64) -> (e: Self) {
        ParseErr { pos, expected: ctx }
    }
}

/// Recognizes one number literal and yields its value.
pub struct NumParser;

impl ParseValue<Token, ParseErr> for NumParser {
    type Value = u64;

    open spec fn spec_parse_value(&self, tokens: Seq<Token>, pos: int) -> Result<
        (u64, int),
        ParseErr,
    > {
        if 0 <= pos < tokens.len() && tokens[pos] is Num {
            Ok((tokens[pos]->Num_0, pos + 1))
        } else {
            Err(ParseErr { pos: pos as usize, expected: EXPECTED_NUMBER })
        }
    }

    proof fn lemma_parse_value_bounds(&self, tokens: Seq<Token>, pos: int) {
    }

    fn parse_value(&self, tokens: &[Token], pos: usize) -> (r: Result<(u64, usize), ParseErr>) {
        if pos < tokens.len() {
            match *slice_index_get(tokens, pos) {
                Token::Num(n) => Ok((n, pos + 1)),
                _ => Err(ParseErr { pos, expected: EXPECTED_NUMBER }),
            }
        } else {
            Err(ParseErr { pos, expected: EXPECTED_NUMBER })
        }
    }
}

/// Recognizes one given token — typically a keyword — and yields it.
pub struct KeywordParser {
    pub keyword: Token,
}

impl ParseValue<Token, ParseErr> for KeywordParser {
    type Value = Token;

    open spec fn spec_parse_value(&self, tokens: Seq<Token>, pos: int) -> Result<
        (Token, int),
        ParseErr,
    > {
        if 0 <= pos < tokens.len() && tokens[pos].eq_spec(&self.keyword) {
            Ok((tokens[pos], pos + 1))
        } else {
            Err(ParseErr { pos: pos as usize, expected: EXPECTED_KEYWORD })
        }
    }

    proof fn lemma_parse_value_bounds(&self, tokens: Seq<Token>, pos: int) {
    }

    fn parse_value(&self, tokens: &[Token], pos: usize) -> (r: Result<(Token, usize), ParseErr>) {
        if pos < tokens.len() {
            let tok = *slice_index_get(tokens, pos);
            if tok == self.keyword {
                Ok((tok, pos + 1))
            } else {
                Err(ParseErr { pos, expected: EXPECTED_KEYWORD })
            }
        } else {
            Err(ParseErr { pos, expected: EXPECTED_KEYWORD })
        }
    }
}

/// Recognizes nothing: every attempt fails at its starting position.
pub struct FailParser;

impl ParseValue<Token, ParseErr> for FailParser {
    type Value = u64;

    open spec fn spec_parse_value(&self, tokens: Seq<Token>, pos: int) -> Result<
        (u64, int),
        ParseErr,
    > {
        Err(ParseErr { pos: pos as usize, expected: EXPECTED_NOTHING })
    }

    proof fn lemma_parse_value_bounds(&self, tokens: Seq<Token>, pos: int) {
    }

    fn parse_value(&self, tokens: &[Token], pos: usize) -> (r: Result<(u64, usize), ParseErr>) {
        Err(ParseErr { pos, expected: EXPECTED_NOTHING })
    }
}

/// Adapts a stateless parse step to the context-sensitive family,
/// counting in the context how many attempts were made, successes and
/// failures alike; the count saturates at its maximum. A failed
/// attempt's increment is never rolled back, which makes the counter a
/// direct witness of how alternation and repetition thread the
/// context.
pub struct Counted<P> {
    pub inner: P,
}

impl<T, E, P> crate::ctx_sensitive::ParseValue<T, E, u64> for Counted<P> where
    P: ParseValue<T, E>,
{
    type Value = <P as ParseValue<T, E>>::Value;

    open spec fn spec_parse_value(&self, tokens: Seq<T>, pos: int, ctx: u64) -> Result<
        (<P as ParseValue<T, E>>::Value, int),
        E,
    > {
        self.inner.spec_parse_value(tokens, pos)
    }

    open spec fn spec_value_next_ctx(&self, tokens: Seq<T>, pos: int, ctx: u64) -> u64 {
        if ctx < u64::MAX {
            (ctx + 1) as u64
        } else {
            ctx
        }
    }

    proof fn lemma_parse_value_bounds(&self, tokens: Seq<T>, pos: int, ctx: u64) {
        self.inner.lemma_parse_value_bounds(tokens, pos);
    }

    fn parse_value(&self, tokens: &[T], pos: usize, ctx: &mut u64) -> (r: Result<
        (<P as ParseValue<T, E>>::Value, usize),
        E,
    >) {
        if *ctx < u64::MAX {
            *ctx = *ctx + 1;
        }
        self.inner.parse_value(tokens, pos)
    }
}

} // verus!

