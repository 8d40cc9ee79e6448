use parser_combinators::ctx_free::{combine_parsers, many, many_delimited, maybe, Optional};
use parser_combinators::terminals::{
    FailParser, KeywordParser, NumParser, ParseErr, Token, EXPECTED_KEYWORD, EXPECTED_NUMBER,
};

#[test]
fn maybe_success_advances() {
    let tokens = vec![Token::Num(7), Token::Comma];
    let (found, pos) = maybe::<Token, ParseErr, u64, NumParser>(&tokens, 0, NumParser);
    assert_eq!(found, Some(7));
    assert_eq!(pos, 1);
}

#[test]
fn maybe_failure_keeps_position() {
    let tokens = vec![Token::Comma, Token::Num(7)];
    let (found, pos) = maybe::<Token, ParseErr, u64, NumParser>(&tokens, 0, NumParser);
    assert_eq!(found, None);
    assert_eq!(pos, 0);
}

#[test]
fn maybe_failure_at_later_position() {
    let tokens = vec![Token::Num(1), Token::Comma];
    let (found, pos) = maybe::<Token, ParseErr, u64, NumParser>(&tokens, 1, NumParser);
    assert_eq!(found, None);
    assert_eq!(pos, 1);
}

#[test]
fn many_collects_consecutive_successes() {
    let tokens = vec![Token::Num(1), Token::Num(2), Token::KwIf];
    let (list, pos) = many::<Token, ParseErr, u64, NumParser>(&tokens, 0, NumParser);
    assert_eq!(list, vec![1, 2]);
    assert_eq!(pos, 2);
}

#[test]
fn many_zero_matches_is_success() {
    let tokens = vec![Token::KwIf, Token::Num(2)];
    let (list, pos) = many::<Token, ParseErr, u64, NumParser>(&tokens, 0, NumParser);
    assert_eq!(list, Vec::<u64>::new());
    assert_eq!(pos, 0);
}

#[test]
fn many_runs_to_end_of_input() {
    let tokens = vec![Token::Num(4), Token::Num(5)];
    let (list, pos) = many::<Token, ParseErr, u64, NumParser>(&tokens, 0, NumParser);
    assert_eq!(list, vec![4, 5]);
    assert_eq!(pos, 2);
}

#[test]
fn many_delimited_full_list() {
    let tokens = vec![
        Token::Num(1),
        Token::Comma,
        Token::Num(2),
        Token::Comma,
        Token::Num(3),
    ];
    let (list, pos) =
        many_delimited::<Token, ParseErr, u64, NumParser>(&tokens, 0, NumParser, &Token::Comma);
    assert_eq!(list, vec![1, 2, 3]);
    assert_eq!(pos, 5);
}

#[test]
fn many_delimited_trailing_delimiter_not_consumed() {
    let tokens = vec![Token::Num(1), Token::Comma];
    let (list, pos) =
        many_delimited::<Token, ParseErr, u64, NumParser>(&tokens, 0, NumParser, &Token::Comma);
    assert_eq!(list, vec![1]);
    assert_eq!(pos, 1);
}

#[test]
fn many_delimited_stops_at_last_delimiter() {
    let tokens = vec![Token::Num(1), Token::Comma, Token::Num(2), Token::Comma];
    let (list, pos) =
        many_delimited::<Token, ParseErr, u64, NumParser>(&tokens, 0, NumParser, &Token::Comma);
    assert_eq!(list, vec![1, 2]);
    assert_eq!(pos, 3);
}

#[test]
fn many_delimited_no_first_element() {
    let tokens = vec![Token::Comma, Token::Num(2)];
    let (list, pos) =
        many_delimited::<Token, ParseErr, u64, NumParser>(&tokens, 0, NumParser, &Token::Comma);
    assert_eq!(list, Vec::<u64>::new());
    assert_eq!(pos, 0);
}

#[test]
fn many_delimited_single_element() {
    let tokens = vec![Token::Num(9)];
    let (list, pos) =
        many_delimited::<Token, ParseErr, u64, NumParser>(&tokens, 0, NumParser, &Token::Comma);
    assert_eq!(list, vec![9]);
    assert_eq!(pos, 1);
}

#[test]
fn alternation_picks_second_when_input_starts_with_while() {
    let parsers = vec![
        KeywordParser { keyword: Token::KwIf },
        KeywordParser { keyword: Token::KwWhile },
    ];
    let tokens = vec![Token::KwWhile, Token::Num(3)];
    let fallback = ParseErr { pos: 0, expected: EXPECTED_KEYWORD };
    let r = combine_parsers::<Token, ParseErr, Token, KeywordParser>(&tokens, 0, &parsers, fallback);
    assert_eq!(r, Ok((Token::KwWhile, 1)));
}

#[test]
fn alternation_first_match_wins() {
    let parsers = vec![
        KeywordParser { keyword: Token::KwIf },
        KeywordParser { keyword: Token::KwWhile },
    ];
    let tokens = vec![Token::KwIf];
    let fallback = ParseErr { pos: 0, expected: EXPECTED_KEYWORD };
    let r = combine_parsers::<Token, ParseErr, Token, KeywordParser>(&tokens, 0, &parsers, fallback);
    assert_eq!(r, Ok((Token::KwIf, 1)));
}

#[test]
fn alternation_returns_given_error_when_all_fail() {
    let parsers = vec![
        KeywordParser { keyword: Token::KwIf },
        KeywordParser { keyword: Token::KwWhile },
    ];
    let tokens = vec![Token::Comma];
    let fallback = ParseErr { pos: 0, expected: EXPECTED_KEYWORD };
    let r = combine_parsers::<Token, ParseErr, Token, KeywordParser>(&tokens, 0, &parsers, fallback);
    assert_eq!(r, Err(fallback));
}

#[test]
fn alternation_of_no_parsers_fails() {
    let parsers: Vec<NumParser> = Vec::new();
    let tokens = vec![Token::Num(1)];
    let fallback = ParseErr { pos: 0, expected: EXPECTED_NUMBER };
    let r = combine_parsers::<Token, ParseErr, u64, NumParser>(&tokens, 0, &parsers, fallback);
    assert_eq!(r, Err(fallback));
}

#[test]
fn many_of_optional_differs_from_many_for_failing_parser() {
    let tokens = vec![Token::Comma];
    let (plain, plain_pos) = many::<Token, ParseErr, u64, FailParser>(&tokens, 0, FailParser);
    let (optional, optional_pos) = many::<Token, ParseErr, Option<u64>, Optional<FailParser>>(
        &tokens,
        0,
        Optional { inner: FailParser },
    );
    assert_eq!(plain, Vec::<u64>::new());
    assert_eq!(plain_pos, 0);
    // The absorbed failure shows up as exactly one absent element; the
    // position is the same.
    assert_eq!(optional, vec![None]);
    assert_eq!(optional_pos, 0);
}

#[test]
fn many_of_optional_matches_many_up_to_trailing_absent() {
    let tokens = vec![Token::Num(1), Token::Num(2), Token::Comma];
    let (plain, plain_pos) = many::<Token, ParseErr, u64, NumParser>(&tokens, 0, NumParser);
    let (optional, optional_pos) = many::<Token, ParseErr, Option<u64>, Optional<NumParser>>(
        &tokens,
        0,
        Optional { inner: NumParser },
    );
    assert_eq!(plain, vec![1, 2]);
    assert_eq!(plain_pos, 2);
    assert_eq!(optional, vec![Some(1), Some(2), None]);
    assert_eq!(optional_pos, 2);
}
