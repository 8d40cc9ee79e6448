//! A minimal backtracking parser-combinator kernel.
//!
//! A parser is anything that, given a token sequence and a starting
//! position, either recognizes one grammar unit — producing an output
//! fragment and the position just past the consumed tokens — or fails
//! without consuming anything. Two parallel families are provided: a
//! stateless one (`ctx_free`) and one that threads a caller-defined
//! mutable context through every call (`ctx_sensitive`). On top of the
//! stateless family, this root module adds an alternation combinator
//! that synthesizes its own error, through the [`SyntaxError`]
//! capability, when every alternative fails.

use vstd::prelude::*;

pub mod ctx_free;
pub mod ctx_sensitive;
pub mod terminals;

pub use ctx_free::Parser;
pub use ctx_free::ParseValue;
pub use ctx_free::ToAst;

verus! {

/// A parse outcome with its success position widened to a mathematical
/// integer, so that contracts can compare executable results against
/// spec-level ones.
pub open spec fn widen<Ast, E>(r: Result<(Ast, usize), E>) -> Result<(Ast, int), E> {
    match r {
        Ok((ast, pos)) => Ok((ast, pos as int)),
        Err(e) => Err(e),
    }
}

/// The error-synthesis capability: an error type that can be built from
/// the position where a parse failed and a caller-supplied piece of
/// contextual data (for example, a description of what was expected).
pub trait SyntaxError<C>: Sized {
    /// The error value built from a failure position and context data.
    spec fn spec_syntax_error(pos: int, ctx: C) -> Self;

    fn syntax_error(pos: usize, ctx: C) -> (e: Self)
        ensures
            e == Self::spec_syntax_error(pos as int, ctx),
    ;
}

/// Ordered alternation with error synthesis: tries each parser in list
/// order at the same starting position and returns the first success
/// unchanged, exactly as if that parser had been called directly.
/// Per-alternative errors are discarded; when every alternative fails,
/// exactly one error is built through the [`SyntaxError`] capability,
/// from the original starting position and the caller-supplied context
/// data.
pub fn combine_parsers<T, E, C, Ast, P>(
    tokens: &[T],
    pos: usize,
    parsers: &Vec<P>,
    ctx: C,
) -> (r: Result<(Ast, usize), E>)
    where
        E: SyntaxError<C>,
        P: Parser<T, E, Ast>,
    requires
        pos <= tokens@.len(),
    ensures
        match ctx_free::alt_result(parsers@, tokens@, pos as int) {
            Some(ok) => widen(r) == Ok::<(Ast, int), E>(ok),
            None => r == Err::<(Ast, usize), E>(E::spec_syntax_error(pos as int, ctx)),
        },
        (r matches Ok(ok) ==> pos <= ok.1 <= tokens@.len()),
{
    let mut i: usize = 0;
    proof {
        assert(parsers@.skip(0) =~= parsers@);
    }
    while i < parsers.len()
        invariant
            pos <= tokens@.len(),
            i <= parsers@.len(),
            ctx_free::alt_result(parsers@, tokens@, pos as int) == ctx_free::alt_result(
                parsers@.skip(i as int),
                tokens@,
                pos as int,
            ),
        decreases parsers@.len() - i,
    {
        proof {
            assert(parsers@.skip(i as int)[0] == parsers@[i as int]);
        }
        match parsers[i].parse(tokens, pos) {
            Ok(ok) => {
                proof {
                    parsers@[i as int].lemma_parse_bounds(tokens@, pos as int);
                }
                return Ok(ok);
            },
            Err(_) => {
                proof {
                    assert(parsers@.skip(i as int).drop_first() =~= parsers@.skip(i as int + 1));
                }
                i = i + 1;
            },
        }
    }
    Err(E::syntax_error(pos, ctx))
}

} // verus!
