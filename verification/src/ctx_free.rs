//! The stateless combinator family: parsers that read only the token
//! sequence and a position, with no auxiliary context.

use vstd::prelude::*;
use vstd::std_specs::cmp::PartialEqSpec;
use vstd::slice::slice_index_get;
use crate::widen;

verus! {

/// The parsing capability. A parser attempts to recognize one grammar
/// unit starting at `pos`. On success it returns the produced fragment
/// and the position just past the consumed tokens; on failure it
/// returns an error and, from the caller's point of view, consumes
/// nothing — the caller still holds its own position, which is what
/// makes backtracking possible.
///
/// `spec_parse` is the mathematical model of the parser: `parse` must
/// return exactly what it says. `lemma_parse_bounds` is the progress
/// invariant every parser obeys: a success never rewinds past its own
/// start and never points past the end of the input.
pub trait Parser<T, E, Ast>: Sized {
    /// What this parser returns on the given input, as a function of
    /// the token sequence and the starting position.
    spec fn spec_parse(&self, tokens: Seq<T>, pos: int) -> Result<(Ast, int), E>;

    /// A successful parse starting inside the input ends at a position
    /// between its start and the end of the input.
    proof fn lemma_parse_bounds(&self, tokens: Seq<T>, pos: int)
        requires
            0 <= pos <= tokens.len(),
        ensures
            (self.spec_parse(tokens, pos) matches Ok(ok) ==> pos <= ok.1 <= tokens.len()),
    ;

    fn parse(&self, tokens: &[T], pos: usize) -> (r: Result<(Ast, usize), E>)
        requires
            pos <= tokens@.len(),
        ensures
            widen(r) == self.spec_parse(tokens@, pos as int),
    ;
}

/// The value-to-fragment conversion capability: how a concrete parsed
/// value becomes a node of the caller's output type.
pub trait ToAst<Ast>: Sized {
    spec fn spec_to_ast(self) -> Ast;

    fn to_ast(self) -> (r: Ast)
        ensures
            r == self.spec_to_ast(),
    ;
}

impl<A> ToAst<A> for A {
    open spec fn spec_to_ast(self) -> A {
        self
    }

    fn to_ast(self) -> A {
        self
    }
}

/// A parse step that produces some concrete value type, before any
/// conversion into a caller's fragment type. Implementing this is the
/// usual way to define a parser: the blanket impl below lifts any
/// `ParseValue` into a [`Parser`] for every fragment type its value
/// converts to.
pub trait ParseValue<T, E>: Sized {
    /// The concrete value this parse step produces.
    type Value;

    /// What this step returns on the given input.
    spec fn spec_parse_value(&self, tokens: Seq<T>, pos: int) -> Result<(Self::Value, int), E>;

    /// The same progress invariant as [`Parser::lemma_parse_bounds`].
    proof fn lemma_parse_value_bounds(&self, tokens: Seq<T>, pos: int)
        requires
            0 <= pos <= tokens.len(),
        ensures
            (self.spec_parse_value(tokens, pos) matches Ok(ok) ==> pos <= ok.1 <= tokens.len()),
    ;

    fn parse_value(&self, tokens: &[T], pos: usize) -> (r: Result<(Self::Value, usize), E>)
        requires
            pos <= tokens@.len(),
        ensures
            widen(r) == self.spec_parse_value(tokens@, pos as int),
    ;
}

/// The value-lifting adapter: any [`ParseValue`] step is a [`Parser`]
/// for every fragment type its value converts to, with the conversion
/// applied once, centrally, after a successful parse. Errors pass
/// through unchanged.
impl<T, E, Ast, F> Parser<T, E, Ast> for F
where
    F: ParseValue<T, E>,
    <F as ParseValue<T, E>>::Value: ToAst<Ast>,
{
    open spec fn spec_parse(&self, tokens: Seq<T>, pos: int) -> Result<(Ast, int), E> {
        match self.spec_parse_value(tokens, pos) {
            Ok((val, next)) => Ok((val.spec_to_ast(), next)),
            Err(e) => Err(e),
        }
    }

    proof fn lemma_parse_bounds(&self, tokens: Seq<T>, pos: int) {
        self.lemma_parse_value_bounds(tokens, pos);
    }

    fn parse(&self, tokens: &[T], pos: usize) -> (r: Result<(Ast, usize), E>) {
        match self.parse_value(tokens, pos) {
            Ok((val, next)) => Ok((val.to_ast(), next)),
            Err(e) => Err(e),
        }
    }
}

/// The combinator form of [`maybe`]: a parse step that runs the inner
/// one and absorbs its failure into a zero-width success, so that
/// optional grammar elements can stand wherever a parser is expected.
pub struct Optional<P> {
    pub inner: P,
}

impl<T, E, P> ParseValue<T, E> for Optional<P> where P: ParseValue<T, E> {
    type Value = Option<<P as ParseValue<T, E>>::Value>;

    open spec fn spec_parse_value(&self, tokens: Seq<T>, pos: int) -> Result<
        (Option<<P as ParseValue<T, E>>::Value>, int),
        E,
    > {
        match self.inner.spec_parse_value(tokens, pos) {
            Ok((val, next)) => Ok((Some(val), next)),
            Err(_) => Ok((None, pos)),
        }
    }

    proof fn lemma_parse_value_bounds(&self, tokens: Seq<T>, pos: int) {
        self.inner.lemma_parse_value_bounds(tokens, pos);
    }

    fn parse_value(&self, tokens: &[T], pos: usize) -> (r: Result<
        (Option<<P as ParseValue<T, E>>::Value>, usize),
        E,
    >) {
        match self.inner.parse_value(tokens, pos) {
            Ok((val, next)) => Ok((Some(val), next)),
            Err(_) => Ok((None, pos)),
        }
    }
}

/// The outcome of trying a list of parsers in order at one position:
/// the result of the first one that succeeds, or `None` when every
/// alternative fails.
pub open spec fn alt_result<T, E, Ast, P: Parser<T, E, Ast>>(
    parsers: Seq<P>,
    tokens: Seq<T>,
    pos: int,
) -> Option<(Ast, int)>
    decreases parsers.len(),
{
    if parsers.len() <= 0 {
        None
    } else {
        match parsers[0].spec_parse(tokens, pos) {
            Ok(ok) => Some(ok),
            Err(_) => alt_result(parsers.drop_first(), tokens, pos),
        }
    }
}

/// Ordered alternation: tries each parser in list order, all at the
/// same starting position, and returns the first success unchanged.
/// Per-alternative errors are discarded; only when every alternative
/// has failed does the caller-supplied error `e` come back, as the one
/// error for the whole attempt.
pub fn combine_parsers<T, E, Ast, P: Parser<T, E, Ast>>(
    tokens: &[T],
    pos: usize,
    parsers: &Vec<P>,
    e: E,
) -> (r: Result<(Ast, usize), E>)
    requires
        pos <= tokens@.len(),
    ensures
        match alt_result(parsers@, tokens@, pos as int) {
            Some(ok) => widen(r) == Ok::<(Ast, int), E>(ok),
            None => r == Err::<(Ast, usize), E>(e),
        },
        (r matches Ok(ok) ==> pos <= ok.1 <= tokens@.len()),
{
    let mut i: usize = 0;
    proof {
        assert(parsers@.skip(0) =~= parsers@);
    }
    while i < parsers.len()
        invariant
            pos <= tokens@.len(),
            i <= parsers@.len(),
            alt_result(parsers@, tokens@, pos as int) == alt_result(
                parsers@.skip(i as int),
                tokens@,
                pos as int,
            ),
        decreases parsers@.len() - i,
    {
        proof {
            assert(parsers@.skip(i as int)[0] == parsers@[i as int]);
        }
        match parsers[i].parse(tokens, pos) {
            Ok(ok) => {
                proof {
                    parsers@[i as int].lemma_parse_bounds(tokens@, pos as int);
                }
                return Ok(ok);
            },
            Err(_) => {
                proof {
                    assert(parsers@.skip(i as int).drop_first() =~= parsers@.skip(i as int + 1));
                }
                i = i + 1;
            },
        }
    }
    Err(e)
}

/// The first parser in list order that succeeds decides the outcome of
/// [`alt_result`], exactly as if it had been called directly.
pub proof fn lemma_alt_first_success<T, E, Ast, P: Parser<T, E, Ast>>(
    parsers: Seq<P>,
    tokens: Seq<T>,
    pos: int,
    i: int,
)
    requires
        0 <= i < parsers.len(),
        parsers[i].spec_parse(tokens, pos) is Ok,
        forall|j: int| 0 <= j < i ==> (#[trigger] parsers[j].spec_parse(tokens, pos)) is Err,
    ensures
        alt_result(parsers, tokens, pos) == Some(parsers[i].spec_parse(tokens, pos)->Ok_0),
    decreases i,
{
    if i > 0 {
        assert(parsers.drop_first()[i - 1] == parsers[i]);
        assert forall|j: int| 0 <= j < i - 1 implies (#[trigger] parsers.drop_first()[j].spec_parse(
            tokens,
            pos,
        )) is Err by {
            assert(parsers.drop_first()[j] == parsers[j + 1]);
        }
        lemma_alt_first_success(parsers.drop_first(), tokens, pos, i - 1);
    }
}

/// When every parser in the list fails, the whole alternation fails.
pub proof fn lemma_alt_exhausted<T, E, Ast, P: Parser<T, E, Ast>>(
    parsers: Seq<P>,
    tokens: Seq<T>,
    pos: int,
)
    requires
        forall|j: int|
            0 <= j < parsers.len() ==> (#[trigger] parsers[j].spec_parse(tokens, pos)) is Err,
    ensures
        alt_result(parsers, tokens, pos) is None,
    decreases parsers.len(),
{
    if parsers.len() > 0 {
        assert(parsers[0].spec_parse(tokens, pos) is Err);
        assert forall|j: int| 0 <= j < parsers.len() - 1 implies (#[trigger] parsers.drop_first()[j].spec_parse(
            tokens,
            pos,
        )) is Err by {
            assert(parsers.drop_first()[j] == parsers[j + 1]);
        }
        lemma_alt_exhausted(parsers.drop_first(), tokens, pos);
    }
}

/// The outcome of applying a parser over and over from `pos`: the
/// fragments of the consecutive successes, and the position where the
/// last success ended (or `pos` when the first attempt already fails).
///
/// A success that consumes nothing would repeat forever; the
/// repetition stops right after recording it, which is the defensive
/// cut-off `many` applies to stay terminating. A parser that either
/// fails or strictly advances — the obligation repetition places on
/// its callers — never reaches that branch.
pub open spec fn many_result<T, E, Ast, P: Parser<T, E, Ast>>(
    parser: P,
    tokens: Seq<T>,
    pos: int,
) -> (Seq<Ast>, int)
    decreases tokens.len() - pos,
{
    match parser.spec_parse(tokens, pos) {
        Err(_) => (Seq::<Ast>::empty(), pos),
        Ok((ast, next)) => if pos < next <= tokens.len() {
            let (rest, fin) = many_result(parser, tokens, next);
            (seq![ast] + rest, fin)
        } else {
            (seq![ast], next)
        },
    }
}

/// Zero-or-more repetition: applies `parser` at advancing positions
/// until it fails, collecting the fragments in order. Repetition never
/// fails itself — zero successes is a valid outcome, returning the
/// starting position untouched. A success that consumes nothing stops
/// the loop after being recorded (see [`many_result`]).
pub fn many<T, E, Ast, P: Parser<T, E, Ast>>(tokens: &[T], pos: usize, parser: P) -> (r: (
    Vec<Ast>,
    usize,
))
    requires
        pos <= tokens@.len(),
    ensures
        r.0@ == many_result(parser, tokens@, pos as int).0,
        r.1 as int == many_result(parser, tokens@, pos as int).1,
        pos <= r.1 <= tokens@.len(),
{
    let ghost target = many_result(parser, tokens@, pos as int);
    let mut list: Vec<Ast> = Vec::new();
    let mut cur: usize = pos;
    loop
        invariant
            pos <= cur <= tokens@.len(),
            target == many_result(parser, tokens@, pos as int),
            target.0 == list@ + many_result(parser, tokens@, cur as int).0,
            target.1 == many_result(parser, tokens@, cur as int).1,
        decreases tokens@.len() - cur,
    {
        proof {
            parser.lemma_parse_bounds(tokens@, cur as int);
        }
        match parser.parse(tokens, cur) {
            Err(_) => {
                proof {
                    assert(target.0 =~= list@);
                }
                return (list, cur);
            },
            Ok((ast, next)) => {
                list.push(ast);
                if next <= cur {
                    // A success that consumed nothing: stop here rather
                    // than repeat at the same position forever.
                    proof {
                        assert(target.0 =~= list@);
                    }
                    return (list, cur);
                }
                cur = next;
            },
        }
    }
}

/// Repetition collects the longest run of consecutive successes: at
/// the position where it stops, the parser fails, so the run cannot be
/// extended. This holds for any parser that strictly advances whenever
/// it succeeds.
pub proof fn lemma_many_longest_run<T, E, Ast, P: Parser<T, E, Ast>>(
    parser: P,
    tokens: Seq<T>,
    pos: int,
)
    requires
        0 <= pos <= tokens.len(),
        forall|q: int|
            0 <= q <= tokens.len() ==> ((#[trigger] parser.spec_parse(tokens, q)) matches Ok(ok)
                ==> ok.1 > q),
    ensures
        parser.spec_parse(tokens, many_result(parser, tokens, pos).1) is Err,
        pos <= many_result(parser, tokens, pos).1 <= tokens.len(),
    decreases tokens.len() - pos,
{
    parser.lemma_parse_bounds(tokens, pos);
    match parser.spec_parse(tokens, pos) {
        Err(_) => {},
        Ok((ast, next)) => {
            lemma_many_longest_run(parser, tokens, next);
        },
    }
}

/// The continuation of a delimited repetition, starting just after a
/// parsed element: another element is attempted only when the token at
/// `pos` equals the delimiter, and a delimiter that such an attempt
/// does not follow up — a trailing delimiter — is left unconsumed,
/// with the repetition ending at `pos`, right after the last element.
pub open spec fn delimited_tail<T: PartialEq, E, Ast, P: Parser<T, E, Ast>>(
    parser: P,
    tokens: Seq<T>,
    pos: int,
    delimiter: T,
) -> (Seq<Ast>, int)
    decreases tokens.len() - pos,
{
    if 0 <= pos < tokens.len() && tokens[pos].eq_spec(&delimiter) {
        match parser.spec_parse(tokens, pos + 1) {
            Err(_) => (Seq::<Ast>::empty(), pos),
            Ok((ast, next)) => if pos + 1 <= next <= tokens.len() {
                let (rest, fin) = delimited_tail(parser, tokens, next, delimiter);
                (seq![ast] + rest, fin)
            } else {
                (seq![ast], next)
            },
        }
    } else {
        (Seq::<Ast>::empty(), pos)
    }
}

/// The outcome of a delimiter-separated repetition from `pos`: the
/// first element, then as many `delimiter`-then-element pairs as keep
/// succeeding (see [`delimited_tail`]), or no elements at all when the
/// first attempt fails.
pub open spec fn many_delimited_result<T: PartialEq, E, Ast, P: Parser<T, E, Ast>>(
    parser: P,
    tokens: Seq<T>,
    pos: int,
    delimiter: T,
) -> (Seq<Ast>, int)
{
    match parser.spec_parse(tokens, pos) {
        Err(_) => (Seq::<Ast>::empty(), pos),
        Ok((ast, next)) => if pos <= next <= tokens.len() {
            let (rest, fin) = delimited_tail(parser, tokens, next, delimiter);
            (seq![ast] + rest, fin)
        } else {
            (seq![ast], next)
        },
    }
}

/// Delimiter-separated repetition: like [`many`], but between
/// successive elements the next token must equal `delimiter`, which is
/// then consumed. The repetition stops right after the last parsed
/// element: a trailing delimiter with no element after it is not
/// consumed, and the position of that delimiter is returned.
pub fn many_delimited<T: PartialEq, E, Ast, P: Parser<T, E, Ast>>(
    tokens: &[T],
    pos: usize,
    parser: P,
    delimiter: &T,
) -> (r: (Vec<Ast>, usize))
    requires
        pos <= tokens@.len(),
        T::obeys_eq_spec(),
    ensures
        r.0@ == many_delimited_result(parser, tokens@, pos as int, *delimiter).0,
        r.1 as int == many_delimited_result(parser, tokens@, pos as int, *delimiter).1,
        pos <= r.1 <= tokens@.len(),
{
    let ghost target = many_delimited_result(parser, tokens@, pos as int, *delimiter);
    let mut list: Vec<Ast> = Vec::new();
    proof {
        parser.lemma_parse_bounds(tokens@, pos as int);
    }
    let mut cur: usize = pos;
    match parser.parse(tokens, pos) {
        Err(_) => {
            proof {
                assert(target.0 =~= list@);
            }
            return (list, pos);
        },
        Ok((ast, next)) => {
            list.push(ast);
            cur = next;
        },
    }
    loop
        invariant
            pos <= cur <= tokens@.len(),
            T::obeys_eq_spec(),
            target == many_delimited_result(parser, tokens@, pos as int, *delimiter),
            target.0 == list@ + delimited_tail(parser, tokens@, cur as int, *delimiter).0,
            target.1 == delimited_tail(parser, tokens@, cur as int, *delimiter).1,
        decreases tokens@.len() - cur,
    {
        if cur < tokens.len() {
            let tok = slice_index_get(tokens, cur);
            if *tok == *delimiter {
                proof {
                    parser.lemma_parse_bounds(tokens@, cur as int + 1);
                }
                match parser.parse(tokens, cur + 1) {
                    Err(_) => {
                        proof {
                            assert(target.0 =~= list@);
                        }
                        return (list, cur);
                    },
                    Ok((ast, next)) => {
                        list.push(ast);
                        cur = next;
                    },
                }
            } else {
                proof {
                    assert(target.0 =~= list@);
                }
                return (list, cur);
            }
        } else {
            proof {
                assert(target.0 =~= list@);
            }
            return (list, cur);
        }
    }
}

/// A delimited repetition never ends just past a consumed delimiter:
/// its final position is the starting one when no element was parsed,
/// and otherwise the exact end of its last successfully parsed
/// element.
pub proof fn lemma_delimited_tail_ends_after_element<T: PartialEq, E, Ast, P: Parser<T, E, Ast>>(
    parser: P,
    tokens: Seq<T>,
    pos: int,
    delimiter: T,
)
    requires
        0 <= pos <= tokens.len(),
    ensures
        ({
            let (elems, fin) = delimited_tail(parser, tokens, pos, delimiter);
            &&& (elems.len() == 0 ==> fin == pos)
            &&& (elems.len() > 0 ==> exists|q: int|
                0 <= q <= tokens.len() && (#[trigger] parser.spec_parse(tokens, q))
                    == Ok::<(Ast, int), E>((elems.last(), fin)))
        }),
    decreases tokens.len() - pos,
{
    if 0 <= pos < tokens.len() && tokens[pos].eq_spec(&delimiter) {
        parser.lemma_parse_bounds(tokens, pos + 1);
        match parser.spec_parse(tokens, pos + 1) {
            Err(_) => {},
            Ok((ast, next)) => {
                lemma_delimited_tail_ends_after_element(parser, tokens, next, delimiter);
                let (rest, fin) = delimited_tail(parser, tokens, next, delimiter);
                if rest.len() == 0 {
                    assert((seq![ast] + rest).last() == ast);
                    assert(parser.spec_parse(tokens, pos + 1) == Ok::<(Ast, int), E>((ast, next)));
                } else {
                    assert((seq![ast] + rest).last() == rest.last());
                }
            },
        }
    }
}

/// See [`lemma_delimited_tail_ends_after_element`]: the whole
/// delimited repetition ends at its start (no element) or exactly
/// where its last element ended, never just past a delimiter.
pub proof fn lemma_many_delimited_no_trailing<T: PartialEq, E, Ast, P: Parser<T, E, Ast>>(
    parser: P,
    tokens: Seq<T>,
    pos: int,
    delimiter: T,
)
    requires
        0 <= pos <= tokens.len(),
    ensures
        ({
            let (elems, fin) = many_delimited_result(parser, tokens, pos, delimiter);
            &&& (elems.len() == 0 ==> fin == pos)
            &&& (elems.len() > 0 ==> exists|q: int|
                0 <= q <= tokens.len() && (#[trigger] parser.spec_parse(tokens, q))
                    == Ok::<(Ast, int), E>((elems.last(), fin)))
        }),
{
    parser.lemma_parse_bounds(tokens, pos);
    match parser.spec_parse(tokens, pos) {
        Err(_) => {},
        Ok((ast, next)) => {
            lemma_delimited_tail_ends_after_element(parser, tokens, next, delimiter);
            let (rest, fin) = delimited_tail(parser, tokens, next, delimiter);
            if rest.len() == 0 {
                assert((seq![ast] + rest).last() == ast);
                assert(parser.spec_parse(tokens, pos) == Ok::<(Ast, int), E>((ast, next)));
            } else {
                assert((seq![ast] + rest).last() == rest.last());
            }
        },
    }
}

/// The precise relationship between repeating a parser and repeating
/// its failure-absorbing form. Let `wrapped` behave like `maybe` of
/// `parser` at every position: it never fails, it returns `parser`'s
/// fragment as present where `parser` succeeds, and an absent fragment
/// at the unchanged position where `parser` fails. Then, provided
/// `parser` strictly advances whenever it succeeds, repeating
/// `wrapped` yields exactly the fragments of repeating `parser`, each
/// wrapped as present, followed by one absent fragment marking the
/// failure that ended the run, and stops at the same position. The two
/// repetitions thus differ only by that one absorbed failure — the
/// zero-width success on which plain repetition would never stop.
pub proof fn lemma_many_of_maybe<T, E, E2, Ast, P, Q>(
    parser: P,
    wrapped: Q,
    tokens: Seq<T>,
    pos: int,
)
    where
        P: Parser<T, E, Ast>,
        Q: Parser<T, E2, Option<Ast>>,
    requires
        0 <= pos <= tokens.len(),
        forall|q: int|
            0 <= q <= tokens.len() ==> ((#[trigger] parser.spec_parse(tokens, q)) matches Ok(ok)
                ==> ok.1 > q),
        forall|q: int|
            0 <= q <= tokens.len() ==> (#[trigger] wrapped.spec_parse(tokens, q)) == (
            match parser.spec_parse(tokens, q) {
                Ok((ast, next)) => Ok::<(Option<Ast>, int), E2>((Some(ast), next)),
                Err(_) => Ok::<(Option<Ast>, int), E2>((None, q)),
            }),
    ensures
        many_result(wrapped, tokens, pos).0 == many_result(parser, tokens, pos).0.map_values(
            |ast: Ast| Some(ast),
        ).push(None),
        many_result(wrapped, tokens, pos).1 == many_result(parser, tokens, pos).1,
    decreases tokens.len() - pos,
{
    parser.lemma_parse_bounds(tokens, pos);
    assert(wrapped.spec_parse(tokens, pos) == (match parser.spec_parse(tokens, pos) {
        Ok((ast, next)) => Ok::<(Option<Ast>, int), E2>((Some(ast), next)),
        Err(_) => Ok::<(Option<Ast>, int), E2>((None, pos)),
    }));
    match parser.spec_parse(tokens, pos) {
        Err(_) => {
            assert(many_result(wrapped, tokens, pos).0 =~= many_result(parser, tokens, pos)
                .0.map_values(|ast: Ast| Some(ast)).push(None));
        },
        Ok((ast, next)) => {
            lemma_many_of_maybe(parser, wrapped, tokens, next);
            assert(many_result(wrapped, tokens, pos).0 =~= many_result(parser, tokens, pos)
                .0.map_values(|ast: Ast| Some(ast)).push(None));
        },
    }
}

/// [`lemma_many_of_maybe`], instantiated at the library's own
/// [`Optional`] adapter: for a parse step that strictly advances
/// whenever it succeeds, repeating its optional form collects the same
/// values, wrapped as present, plus one trailing absent value, and
/// stops at the same position as repeating the step itself.
pub proof fn lemma_many_optional<T, E, P>(parser: P, tokens: Seq<T>, pos: int)
    where
        P: ParseValue<T, E>,
    requires
        0 <= pos <= tokens.len(),
        forall|q: int|
            0 <= q <= tokens.len() ==> ((#[trigger] parser.spec_parse_value(tokens, q)) matches Ok(
                ok,
            ) ==> ok.1 > q),
    ensures
        ({
            let plain = many_result::<T, E, <P as ParseValue<T, E>>::Value, P>(
                parser,
                tokens,
                pos,
            );
            let optional = many_result::<T, E, Option<<P as ParseValue<T, E>>::Value>, Optional<
                P,
            >>(Optional { inner: parser }, tokens, pos);
            &&& optional.0 == plain.0.map_values(
                |val: <P as ParseValue<T, E>>::Value| Some(val),
            ).push(None)
            &&& optional.1 == plain.1
        }),
{
    let wrapped = Optional { inner: parser };
    assert forall|q: int| 0 <= q <= tokens.len() implies ((#[trigger] Parser::<
        T,
        E,
        <P as ParseValue<T, E>>::Value,
    >::spec_parse(&parser, tokens, q)) matches Ok(ok) ==> ok.1 > q) by {
        assert(parser.spec_parse_value(tokens, q) matches Ok(ok) ==> ok.1 > q);
    }
    assert forall|q: int| 0 <= q <= tokens.len() implies (#[trigger] Parser::<
        T,
        E,
        Option<<P as ParseValue<T, E>>::Value>,
    >::spec_parse(&wrapped, tokens, q)) == (match Parser::<
        T,
        E,
        <P as ParseValue<T, E>>::Value,
    >::spec_parse(&parser, tokens, q) {
        Ok((ast, next)) => Ok::<(Option<<P as ParseValue<T, E>>::Value>, int), E>((
            Some(ast),
            next,
        )),
        Err(_) => Ok::<(Option<<P as ParseValue<T, E>>::Value>, int), E>((None, q)),
    }) by {
        assert(wrapped.spec_parse_value(tokens, q) == (match parser.spec_parse_value(tokens, q) {
            Ok((val, next)) => Ok::<(Option<<P as ParseValue<T, E>>::Value>, int), E>((
                Some(val),
                next,
            )),
            Err(_) => Ok::<(Option<<P as ParseValue<T, E>>::Value>, int), E>((None, q)),
        }));
    }
    lemma_many_of_maybe::<T, E, E, <P as ParseValue<T, E>>::Value, P, Optional<P>>(
        parser,
        wrapped,
        tokens,
        pos,
    );
}

/// Runs `parser` once. On success the fragment comes back wrapped as
/// present, with the advanced position; on failure the result is
/// absent and the position is the original one, unchanged — the
/// failure is absorbed, never propagated.
pub fn maybe<T, E, Ast, P: Parser<T, E, Ast>>(
    tokens: &[T],
    pos: usize,
    parser: P,
) -> (r: (Option<Ast>, usize))
    requires
        pos <= tokens@.len(),
    ensures
        match parser.spec_parse(tokens@, pos as int) {
            Ok((ast, next)) => r.0 == Some(ast) && r.1 == next,
            Err(_) => r.0 == None::<Ast> && r.1 == pos,
        },
        pos <= r.1 <= tokens@.len(),
{
    proof {
        parser.lemma_parse_bounds(tokens@, pos as int);
    }
    match parser.parse(tokens, pos) {
        Ok((ast, next)) => (Some(ast), next),
        Err(_) => (None, pos),
    }
}

} // verus!
