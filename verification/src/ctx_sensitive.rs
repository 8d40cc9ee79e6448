//! The context-sensitive combinator family: the same combinators as
//! `ctx_free`, but every parser also receives exclusive mutable access
//! to a caller-defined auxiliary context (a symbol table, a scope
//! stack, a counter) that is threaded through the whole parse.
//!
//! A failed attempt restores nothing: whatever the attempt wrote into
//! the context before failing stays visible, both to later alternatives
//! and to the caller. The contracts below state this exactly, through
//! each parser's `spec_next_ctx` function.

use vstd::prelude::*;
use vstd::std_specs::cmp::PartialEqSpec;
use crate::widen;
use crate::ctx_free::ToAst;

verus! {

/// The context-sensitive parsing capability. Like
/// [`crate::ctx_free::Parser`], but `parse` may also read and mutate
/// the shared context; `spec_next_ctx` says what it leaves there, on
/// success and on failure alike.
pub trait Parser<T, E, C, Ast>: Sized {
    /// What this parser returns on the given input and context.
    spec fn spec_parse(&self, tokens: Seq<T>, pos: int, ctx: C) -> Result<(Ast, int), E>;

    /// The context this parser leaves behind, whether it succeeds or
    /// fails.
    spec fn spec_next_ctx(&self, tokens: Seq<T>, pos: int, ctx: C) -> C;

    /// A successful parse starting inside the input ends at a position
    /// between its start and the end of the input.
    proof fn lemma_parse_bounds(&self, tokens: Seq<T>, pos: int, ctx: C)
        requires
            0 <= pos <= tokens.len(),
        ensures
            (self.spec_parse(tokens, pos, ctx) matches Ok(ok) ==> pos <= ok.1 <= tokens.len()),
    ;

    fn parse(&self, tokens: &[T], pos: usize, ctx: &mut C) -> (r: Result<(Ast, usize), E>)
        requires
            pos <= tokens@.len(),
        ensures
            widen(r) == self.spec_parse(tokens@, pos as int, *old(ctx)),
            *final(ctx) == self.spec_next_ctx(tokens@, pos as int, *old(ctx)),
    ;
}

/// The context-sensitive counterpart of [`crate::ctx_free::ParseValue`]:
/// a parse step producing a concrete value type, lifted into a
/// [`Parser`] by the blanket impl below.
pub trait ParseValue<T, E, C>: Sized {
    /// The concrete value this parse step produces.
    type Value;

    /// What this step returns on the given input and context.
    spec fn spec_parse_value(&self, tokens: Seq<T>, pos: int, ctx: C) -> Result<(Self::Value, int), E>;

    /// The context this step leaves behind.
    spec fn spec_value_next_ctx(&self, tokens: Seq<T>, pos: int, ctx: C) -> C;

    /// The same progress invariant as [`Parser::lemma_parse_bounds`].
    proof fn lemma_parse_value_bounds(&self, tokens: Seq<T>, pos: int, ctx: C)
        requires
            0 <= pos <= tokens.len(),
        ensures
            (self.spec_parse_value(tokens, pos, ctx) matches Ok(ok) ==> pos <= ok.1 <= tokens.len()),
    ;

    fn parse_value(&self, tokens: &[T], pos: usize, ctx: &mut C) -> (r: Result<(Self::Value, usize), E>)
        requires
            pos <= tokens@.len(),
        ensures
            widen(r) == self.spec_parse_value(tokens@, pos as int, *old(ctx)),
            *final(ctx) == self.spec_value_next_ctx(tokens@, pos as int, *old(ctx)),
    ;
}

/// The value-lifting adapter for the context-sensitive family.
impl<T, E, C, Ast, F> Parser<T, E, C, Ast> for F
where
    F: ParseValue<T, E, C>,
    <F as ParseValue<T, E, C>>::Value: ToAst<Ast>,
{
    open spec fn spec_parse(&self, tokens: Seq<T>, pos: int, ctx: C) -> Result<(Ast, int), E> {
        match self.spec_parse_value(tokens, pos, ctx) {
            Ok((val, next)) => Ok((val.spec_to_ast(), next)),
            Err(e) => Err(e),
        }
    }

    open spec fn spec_next_ctx(&self, tokens: Seq<T>, pos: int, ctx: C) -> C {
        self.spec_value_next_ctx(tokens, pos, ctx)
    }

    proof fn lemma_parse_bounds(&self, tokens: Seq<T>, pos: int, ctx: C) {
        self.lemma_parse_value_bounds(tokens, pos, ctx);
    }

    fn parse(&self, tokens: &[T], pos: usize, ctx: &mut C) -> (r: Result<(Ast, usize), E>) {
        match self.parse_value(tokens, pos, ctx) {
            Ok((val, next)) => Ok((val.to_ast(), next)),
            Err(e) => Err(e),
        }
    }
}

/// The outcome of trying a list of parsers in order at one position,
/// threading the context through the attempts: the result of the first
/// success (`None` when every alternative fails), paired with the
/// context as the attempts left it. A failing alternative's context
/// mutations are not rolled back: the next alternative, and the caller
/// after a total failure, see them.
pub open spec fn alt_result<T, E, C, Ast, P: Parser<T, E, C, Ast>>(
    parsers: Seq<P>,
    tokens: Seq<T>,
    pos: int,
    ctx: C,
) -> (Option<(Ast, int)>, C)
    decreases parsers.len(),
{
    if parsers.len() <= 0 {
        (None, ctx)
    } else {
        let attempted = parsers[0].spec_next_ctx(tokens, pos, ctx);
        match parsers[0].spec_parse(tokens, pos, ctx) {
            Ok(ok) => (Some(ok), attempted),
            Err(_) => alt_result(parsers.drop_first(), tokens, pos, attempted),
        }
    }
}

/// Ordered alternation: tries each parser in list order, all at the
/// same starting position, and returns the first success unchanged.
/// Per-alternative errors are discarded; only when every alternative
/// has failed does the caller-supplied error `e` come back. The
/// context is threaded through every attempt and keeps whatever the
/// failed ones wrote into it.
pub fn combine_parsers<T, E, C, Ast, P: Parser<T, E, C, Ast>>(
    tokens: &[T],
    pos: usize,
    ctx: &mut C,
    parsers: &Vec<P>,
    e: E,
) -> (r: Result<(Ast, usize), E>)
    requires
        pos <= tokens@.len(),
    ensures
        match alt_result(parsers@, tokens@, pos as int, *old(ctx)).0 {
            Some(ok) => widen(r) == Ok::<(Ast, int), E>(ok),
            None => r == Err::<(Ast, usize), E>(e),
        },
        *final(ctx) == alt_result(parsers@, tokens@, pos as int, *old(ctx)).1,
        (r matches Ok(ok) ==> pos <= ok.1 <= tokens@.len()),
{
    let mut i: usize = 0;
    proof {
        assert(parsers@.skip(0) =~= parsers@);
    }
    while i < parsers.len()
        invariant
            pos <= tokens@.len(),
            i <= parsers@.len(),
            alt_result(parsers@, tokens@, pos as int, *old(ctx)) == alt_result(
                parsers@.skip(i as int),
                tokens@,
                pos as int,
                *ctx,
            ),
        decreases parsers@.len() - i,
    {
        proof {
            assert(parsers@.skip(i as int)[0] == parsers@[i as int]);
        }
        let ghost before_attempt = *ctx;
        match parsers[i].parse(tokens, pos, ctx) {
            Ok(ok) => {
                proof {
                    parsers@[i as int].lemma_parse_bounds(tokens@, pos as int, before_attempt);
                }
                return Ok(ok);
            },
            Err(_) => {
                proof {
                    assert(parsers@.skip(i as int).drop_first() =~= parsers@.skip(i as int + 1));
                }
                i = i + 1;
            },
        }
    }
    Err(e)
}

/// The context as it stands when the alternative at index `i` is about
/// to be attempted: the starting context, reshaped in turn by each of
/// the `i` failed attempts before it.
pub open spec fn alt_ctx_at<T, E, C, Ast, P: Parser<T, E, C, Ast>>(
    parsers: Seq<P>,
    tokens: Seq<T>,
    pos: int,
    ctx: C,
    i: int,
) -> C
    decreases i,
{
    if i <= 0 {
        ctx
    } else {
        parsers[i - 1].spec_next_ctx(tokens, pos, alt_ctx_at(parsers, tokens, pos, ctx, i - 1))
    }
}

/// Dropping an already-attempted first alternative shifts the threaded
/// contexts by one.
proof fn lemma_alt_ctx_at_shift<T, E, C, Ast, P: Parser<T, E, C, Ast>>(
    parsers: Seq<P>,
    tokens: Seq<T>,
    pos: int,
    ctx: C,
    k: int,
)
    requires
        parsers.len() > 0,
        0 <= k < parsers.len(),
    ensures
        alt_ctx_at(
            parsers.drop_first(),
            tokens,
            pos,
            parsers[0].spec_next_ctx(tokens, pos, ctx),
            k,
        ) == alt_ctx_at(parsers, tokens, pos, ctx, k + 1),
    decreases k,
{
    if k == 0 {
        assert(alt_ctx_at(parsers, tokens, pos, ctx, 0) == ctx);
    } else {
        lemma_alt_ctx_at_shift(parsers, tokens, pos, ctx, k - 1);
        assert(parsers.drop_first()[k - 1] == parsers[k]);
    }
}

/// The first parser in list order that succeeds — each alternative
/// attempted under the context its failed predecessors left behind —
/// decides the outcome of [`alt_result`], exactly as if it had been
/// called directly on that context; the context afterwards is what
/// that succeeding attempt made of it.
pub proof fn lemma_alt_first_success<T, E, C, Ast, P: Parser<T, E, C, Ast>>(
    parsers: Seq<P>,
    tokens: Seq<T>,
    pos: int,
    ctx: C,
    i: int,
)
    requires
        0 <= i < parsers.len(),
        parsers[i].spec_parse(tokens, pos, alt_ctx_at(parsers, tokens, pos, ctx, i)) is Ok,
        forall|j: int|
            0 <= j < i ==> (#[trigger] parsers[j].spec_parse(
                tokens,
                pos,
                alt_ctx_at(parsers, tokens, pos, ctx, j),
            )) is Err,
    ensures
        alt_result(parsers, tokens, pos, ctx).0 == Some(
            parsers[i].spec_parse(tokens, pos, alt_ctx_at(parsers, tokens, pos, ctx, i))->Ok_0,
        ),
        alt_result(parsers, tokens, pos, ctx).1 == parsers[i].spec_next_ctx(
            tokens,
            pos,
            alt_ctx_at(parsers, tokens, pos, ctx, i),
        ),
    decreases i,
{
    if i > 0 {
        let attempted = parsers[0].spec_next_ctx(tokens, pos, ctx);
        assert(parsers[0].spec_parse(tokens, pos, alt_ctx_at(parsers, tokens, pos, ctx, 0)) is Err);
        assert(alt_ctx_at(parsers, tokens, pos, ctx, 0) == ctx);
        assert(parsers.drop_first()[i - 1] == parsers[i]);
        lemma_alt_ctx_at_shift(parsers, tokens, pos, ctx, i - 1);
        assert forall|j: int| 0 <= j < i - 1 implies (#[trigger] parsers.drop_first()[j].spec_parse(
            tokens,
            pos,
            alt_ctx_at(parsers.drop_first(), tokens, pos, attempted, j),
        )) is Err by {
            assert(parsers.drop_first()[j] == parsers[j + 1]);
            lemma_alt_ctx_at_shift(parsers, tokens, pos, ctx, j);
        }
        lemma_alt_first_success(parsers.drop_first(), tokens, pos, attempted, i - 1);
    }
}

/// When every parser in the list fails — each attempted under the
/// context its predecessors left behind — the whole alternation fails,
/// and the caller sees the context shaped by all the failed attempts.
pub proof fn lemma_alt_exhausted<T, E, C, Ast, P: Parser<T, E, C, Ast>>(
    parsers: Seq<P>,
    tokens: Seq<T>,
    pos: int,
    ctx: C,
)
    requires
        forall|j: int|
            0 <= j < parsers.len() ==> (#[trigger] parsers[j].spec_parse(
                tokens,
                pos,
                alt_ctx_at(parsers, tokens, pos, ctx, j),
            )) is Err,
    ensures
        alt_result(parsers, tokens, pos, ctx).0 is None,
        alt_result(parsers, tokens, pos, ctx).1 == alt_ctx_at(
            parsers,
            tokens,
            pos,
            ctx,
            parsers.len() as int,
        ),
    decreases parsers.len(),
{
    if parsers.len() > 0 {
        let attempted = parsers[0].spec_next_ctx(tokens, pos, ctx);
        assert(parsers[0].spec_parse(tokens, pos, alt_ctx_at(parsers, tokens, pos, ctx, 0)) is Err);
        assert(alt_ctx_at(parsers, tokens, pos, ctx, 0) == ctx);
        assert forall|j: int| 0 <= j < parsers.len() - 1 implies (#[trigger] parsers.drop_first()[j].spec_parse(
            tokens,
            pos,
            alt_ctx_at(parsers.drop_first(), tokens, pos, attempted, j),
        )) is Err by {
            assert(parsers.drop_first()[j] == parsers[j + 1]);
            lemma_alt_ctx_at_shift(parsers, tokens, pos, ctx, j);
        }
        lemma_alt_exhausted(parsers.drop_first(), tokens, pos, attempted);
        lemma_alt_ctx_at_shift(parsers, tokens, pos, ctx, parsers.len() - 1);
    }
}

/// The outcome of applying a parser over and over from `pos`, with the
/// context threaded through every attempt: the fragments of the
/// consecutive successes, the position where the last success ended,
/// and the context as it stands after the failing attempt that ended
/// the run — that attempt's mutations included. A success that
/// consumes nothing stops the repetition right after being recorded,
/// the same defensive cut-off as in the stateless family.
pub open spec fn many_result<T, E, C, Ast, P: Parser<T, E, C, Ast>>(
    parser: P,
    tokens: Seq<T>,
    pos: int,
    ctx: C,
) -> (Seq<Ast>, int, C)
    decreases tokens.len() - pos,
{
    let attempted = parser.spec_next_ctx(tokens, pos, ctx);
    match parser.spec_parse(tokens, pos, ctx) {
        Err(_) => (Seq::<Ast>::empty(), pos, attempted),
        Ok((ast, next)) => if pos < next <= tokens.len() {
            let (rest, fin, after) = many_result(parser, tokens, next, attempted);
            (seq![ast] + rest, fin, after)
        } else {
            (seq![ast], next, attempted)
        },
    }
}

/// Zero-or-more repetition: applies `parser` at advancing positions
/// until it fails, collecting the fragments in order and threading the
/// context through every attempt, the final failing one included.
/// Repetition never fails itself — zero successes is a valid outcome,
/// returning the starting position untouched.
pub fn many<T, E, C, Ast, P: Parser<T, E, C, Ast>>(
    tokens: &[T],
    pos: usize,
    ctx: &mut C,
    parser: P,
) -> (r: (Vec<Ast>, usize))
    requires
        pos <= tokens@.len(),
    ensures
        r.0@ == many_result(parser, tokens@, pos as int, *old(ctx)).0,
        r.1 as int == many_result(parser, tokens@, pos as int, *old(ctx)).1,
        *final(ctx) == many_result(parser, tokens@, pos as int, *old(ctx)).2,
        pos <= r.1 <= tokens@.len(),
{
    let ghost target = many_result(parser, tokens@, pos as int, *old(ctx));
    let mut list: Vec<Ast> = Vec::new();
    let mut cur: usize = pos;
    loop
        invariant
            pos <= cur <= tokens@.len(),
            target == many_result(parser, tokens@, pos as int, *old(ctx)),
            target.0 == list@ + many_result(parser, tokens@, cur as int, *ctx).0,
            target.1 == many_result(parser, tokens@, cur as int, *ctx).1,
            target.2 == many_result(parser, tokens@, cur as int, *ctx).2,
        decreases tokens@.len() - cur,
    {
        proof {
            parser.lemma_parse_bounds(tokens@, cur as int, *ctx);
        }
        match parser.parse(tokens, cur, ctx) {
            Err(_) => {
                proof {
                    assert(target.0 =~= list@);
                }
                return (list, cur);
            },
            Ok((ast, next)) => {
                list.push(ast);
                if next <= cur {
                    // A success that consumed nothing: stop here rather
                    // than repeat at the same position forever.
                    proof {
                        assert(target.0 =~= list@);
                    }
                    return (list, cur);
                }
                cur = next;
            },
        }
    }
}

/// The continuation of a delimited repetition, starting just after a
/// parsed element: another element is attempted only when the token at
/// `pos` equals the delimiter, and a trailing delimiter is left
/// unconsumed, the repetition ending right after the last element.
pub open spec fn delimited_tail<T: PartialEq, E, C, Ast, P: Parser<T, E, C, Ast>>(
    parser: P,
    tokens: Seq<T>,
    pos: int,
    delimiter: T,
    ctx: C,
) -> (Seq<Ast>, int, C)
    decreases tokens.len() - pos,
{
    if 0 <= pos < tokens.len() && tokens[pos].eq_spec(&delimiter) {
        let attempted = parser.spec_next_ctx(tokens, pos + 1, ctx);
        match parser.spec_parse(tokens, pos + 1, ctx) {
            Err(_) => (Seq::<Ast>::empty(), pos, attempted),
            Ok((ast, next)) => if pos + 1 <= next <= tokens.len() {
                let (rest, fin, after) = delimited_tail(parser, tokens, next, delimiter, attempted);
                (seq![ast] + rest, fin, after)
            } else {
                (seq![ast], next, attempted)
            },
        }
    } else {
        (Seq::<Ast>::empty(), pos, ctx)
    }
}

/// The outcome of a delimiter-separated repetition from `pos` with the
/// context threaded through: the first element, then as many
/// `delimiter`-then-element pairs as keep succeeding (see
/// [`delimited_tail`]), or no elements at all when the first attempt
/// fails.
pub open spec fn many_delimited_result<T: PartialEq, E, C, Ast, P: Parser<T, E, C, Ast>>(
    parser: P,
    tokens: Seq<T>,
    pos: int,
    delimiter: T,
    ctx: C,
) -> (Seq<Ast>, int, C)
{
    let attempted = parser.spec_next_ctx(tokens, pos, ctx);
    match parser.spec_parse(tokens, pos, ctx) {
        Err(_) => (Seq::<Ast>::empty(), pos, attempted),
        Ok((ast, next)) => if pos <= next <= tokens.len() {
            let (rest, fin, after) = delimited_tail(parser, tokens, next, delimiter, attempted);
            (seq![ast] + rest, fin, after)
        } else {
            (seq![ast], next, attempted)
        },
    }
}

/// Delimiter-separated repetition: like [`many`], but between
/// successive elements the next token must equal `delimiter`, which is
/// then consumed. The repetition stops right after the last parsed
/// element: a trailing delimiter with no element after it is not
/// consumed, and the position of that delimiter is returned.
pub fn many_delimited<T: PartialEq, E, C, Ast, P: Parser<T, E, C, Ast>>(
    tokens: &[T],
    pos: usize,
    ctx: &mut C,
    parser: P,
    delimiter: &T,
) -> (r: (Vec<Ast>, usize))
    requires
        pos <= tokens@.len(),
        T::obeys_eq_spec(),
    ensures
        r.0@ == many_delimited_result(parser, tokens@, pos as int, *delimiter, *old(ctx)).0,
        r.1 as int == many_delimited_result(parser, tokens@, pos as int, *delimiter, *old(ctx)).1,
        *final(ctx) == many_delimited_result(parser, tokens@, pos as int, *delimiter, *old(ctx)).2,
        pos <= r.1 <= tokens@.len(),
{
    let ghost target = many_delimited_result(parser, tokens@, pos as int, *delimiter, *old(ctx));
    let mut list: Vec<Ast> = Vec::new();
    proof {
        parser.lemma_parse_bounds(tokens@, pos as int, *old(ctx));
    }
    let mut cur: usize = pos;
    match parser.parse(tokens, pos, ctx) {
        Err(_) => {
            proof {
                assert(target.0 =~= list@);
            }
            return (list, pos);
        },
        Ok((ast, next)) => {
            list.push(ast);
            cur = next;
        },
    }
    loop
        invariant
            pos <= cur <= tokens@.len(),
            T::obeys_eq_spec(),
            target == many_delimited_result(parser, tokens@, pos as int, *delimiter, *old(ctx)),
            target.0 == list@ + delimited_tail(parser, tokens@, cur as int, *delimiter, *ctx).0,
            target.1 == delimited_tail(parser, tokens@, cur as int, *delimiter, *ctx).1,
            target.2 == delimited_tail(parser, tokens@, cur as int, *delimiter, *ctx).2,
        decreases tokens@.len() - cur,
    {
        if cur < tokens.len() {
            let tok = vstd::slice::slice_index_get(tokens, cur);
            if *tok == *delimiter {
                proof {
                    parser.lemma_parse_bounds(tokens@, cur as int + 1, *ctx);
                }
                match parser.parse(tokens, cur + 1, ctx) {
                    Err(_) => {
                        proof {
                            assert(target.0 =~= list@);
                        }
                        return (list, cur);
                    },
                    Ok((ast, next)) => {
                        list.push(ast);
                        cur = next;
                    },
                }
            } else {
                proof {
                    assert(target.0 =~= list@);
                }
                return (list, cur);
            }
        } else {
            proof {
                assert(target.0 =~= list@);
            }
            return (list, cur);
        }
    }
}

/// Runs `parser` once. On success the fragment comes back wrapped as
/// present, with the advanced position; on failure the result is
/// absent and the position is the original one, unchanged. Either way
/// the context keeps whatever the attempt left in it.
pub fn maybe<T, E, C, Ast, P: Parser<T, E, C, Ast>>(
    tokens: &[T],
    pos: usize,
    ctx: &mut C,
    parser: P,
) -> (r: (Option<Ast>, usize))
    requires
        pos <= tokens@.len(),
    ensures
        match parser.spec_parse(tokens@, pos as int, *old(ctx)) {
            Ok((ast, next)) => r.0 == Some(ast) && r.1 == next,
            Err(_) => r.0 == None::<Ast> && r.1 == pos,
        },
        *final(ctx) == parser.spec_next_ctx(tokens@, pos as int, *old(ctx)),
        pos <= r.1 <= tokens@.len(),
{
    proof {
        parser.lemma_parse_bounds(tokens@, pos as int, *ctx);
    }
    match parser.parse(tokens, pos, ctx) {
        Ok((ast, next)) => (Some(ast), next),
        Err(_) => (None, pos),
    }
}

} // verus!
