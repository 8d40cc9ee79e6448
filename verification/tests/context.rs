use parser_combinators::ctx_sensitive::{combine_parsers, many, many_delimited, maybe};
use parser_combinators::terminals::{
    Counted, FailParser, KeywordParser, NumParser, ParseErr, Token, EXPECTED_KEYWORD,
};

#[test]
fn context_many_counts_every_attempt() {
    let tokens = vec![Token::Num(1), Token::Num(2), Token::Comma];
    let mut attempts: u64 = 0;
    let (list, pos) = many::<Token, ParseErr, u64, u64, Counted<NumParser>>(
        &tokens,
        0,
        &mut attempts,
        Counted { inner: NumParser },
    );
    assert_eq!(list, vec![1, 2]);
    assert_eq!(pos, 2);
    // Two successes plus the failing attempt that ended the run.
    assert_eq!(attempts, 3);
}

#[test]
fn context_many_delimited_threads_context() {
    let tokens = vec![Token::Num(1), Token::Comma, Token::Num(2)];
    let mut attempts: u64 = 0;
    let (list, pos) = many_delimited::<Token, ParseErr, u64, u64, Counted<NumParser>>(
        &tokens,
        0,
        &mut attempts,
        Counted { inner: NumParser },
        &Token::Comma,
    );
    assert_eq!(list, vec![1, 2]);
    assert_eq!(pos, 3);
    assert_eq!(attempts, 2);
}

#[test]
fn context_many_delimited_keeps_trailing_delimiter() {
    let tokens = vec![Token::Num(1), Token::Comma];
    let mut attempts: u64 = 0;
    let (list, pos) = many_delimited::<Token, ParseErr, u64, u64, Counted<NumParser>>(
        &tokens,
        0,
        &mut attempts,
        Counted { inner: NumParser },
        &Token::Comma,
    );
    assert_eq!(list, vec![1]);
    assert_eq!(pos, 1);
    // The failed attempt after the delimiter left its mark in the
    // context even though the delimiter itself was not consumed.
    assert_eq!(attempts, 2);
}

#[test]
fn context_alternation_keeps_mutations_of_failed_alternatives() {
    let parsers = vec![
        Counted { inner: KeywordParser { keyword: Token::KwIf } },
        Counted { inner: KeywordParser { keyword: Token::KwWhile } },
    ];
    let tokens = vec![Token::KwWhile];
    let mut attempts: u64 = 0;
    let fallback = ParseErr { pos: 0, expected: EXPECTED_KEYWORD };
    let r = combine_parsers::<Token, ParseErr, u64, Token, Counted<KeywordParser>>(
        &tokens,
        0,
        &mut attempts,
        &parsers,
        fallback,
    );
    assert_eq!(r, Ok((Token::KwWhile, 1)));
    // The first alternative failed but its context mutation stayed.
    assert_eq!(attempts, 2);
}

#[test]
fn context_alternation_failure_reflects_all_attempts() {
    let parsers = vec![
        Counted { inner: KeywordParser { keyword: Token::KwIf } },
        Counted { inner: KeywordParser { keyword: Token::KwWhile } },
    ];
    let tokens = vec![Token::Comma];
    let mut attempts: u64 = 0;
    let fallback = ParseErr { pos: 0, expected: EXPECTED_KEYWORD };
    let r = combine_parsers::<Token, ParseErr, u64, Token, Counted<KeywordParser>>(
        &tokens,
        0,
        &mut attempts,
        &parsers,
        fallback,
    );
    assert_eq!(r, Err(fallback));
    assert_eq!(attempts, 2);
}

#[test]
fn context_maybe_keeps_position_but_not_context_on_failure() {
    let tokens = vec![Token::Num(1)];
    let mut attempts: u64 = 0;
    let (found, pos) = maybe::<Token, ParseErr, u64, u64, Counted<FailParser>>(
        &tokens,
        0,
        &mut attempts,
        Counted { inner: FailParser },
    );
    assert_eq!(found, None);
    assert_eq!(pos, 0);
    assert_eq!(attempts, 1);
}

#[test]
fn context_maybe_success() {
    let tokens = vec![Token::Num(5)];
    let mut attempts: u64 = 0;
    let (found, pos) = maybe::<Token, ParseErr, u64, u64, Counted<NumParser>>(
        &tokens,
        0,
        &mut attempts,
        Counted { inner: NumParser },
    );
    assert_eq!(found, Some(5));
    assert_eq!(pos, 1);
    assert_eq!(attempts, 1);
}
