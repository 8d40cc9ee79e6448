use parser_combinators::ctx_free::{ParseValue, Parser};
use parser_combinators::terminals::{
    FailParser, KeywordParser, NumParser, ParseErr, Token, EXPECTED_KEYWORD, EXPECTED_NOTHING,
    EXPECTED_NUMBER,
};
use parser_combinators::SyntaxError;

#[test]
fn token_equality_follows_structure() {
    assert_eq!(Token::Num(1), Token::Num(1));
    assert_ne!(Token::Num(1), Token::Num(2));
    assert_ne!(Token::Comma, Token::KwIf);
    assert_eq!(Token::KwWhile, Token::KwWhile);
}

#[test]
fn num_parser_yields_value_and_advances() {
    let tokens = vec![Token::Num(42), Token::Comma];
    assert_eq!(NumParser.parse_value(&tokens, 0), Ok((42, 1)));
}

#[test]
fn num_parser_reports_expected_number() {
    let tokens = vec![Token::Comma];
    assert_eq!(
        NumParser.parse_value(&tokens, 0),
        Err(ParseErr { pos: 0, expected: EXPECTED_NUMBER })
    );
}

#[test]
fn num_parser_fails_at_end_of_input() {
    let tokens = vec![Token::Num(1)];
    assert_eq!(
        NumParser.parse_value(&tokens, 1),
        Err(ParseErr { pos: 1, expected: EXPECTED_NUMBER })
    );
}

#[test]
fn keyword_parser_matches_its_keyword_only() {
    let kw = KeywordParser { keyword: Token::KwIf };
    let tokens = vec![Token::KwIf, Token::KwWhile];
    assert_eq!(kw.parse_value(&tokens, 0), Ok((Token::KwIf, 1)));
    assert_eq!(
        kw.parse_value(&tokens, 1),
        Err(ParseErr { pos: 1, expected: EXPECTED_KEYWORD })
    );
}

#[test]
fn fail_parser_always_fails_in_place() {
    let tokens = vec![Token::Num(1)];
    assert_eq!(
        FailParser.parse_value(&tokens, 0),
        Err(ParseErr { pos: 0, expected: EXPECTED_NOTHING })
    );
    assert_eq!(
        FailParser.parse_value(&tokens, 1),
        Err(ParseErr { pos: 1, expected: EXPECTED_NOTHING })
    );
}

#[test]
fn lifting_adapter_converts_after_success() {
    let tokens = vec![Token::Num(5)];
    let r: Result<(u64, usize), ParseErr> = Parser::parse(&NumParser, &tokens, 0);
    assert_eq!(r, Ok((5, 1)));
}

#[test]
fn syntax_error_carries_position_and_context() {
    let e = ParseErr::syntax_error(3, 7);
    assert_eq!(e, ParseErr { pos: 3, expected: 7 });
}
