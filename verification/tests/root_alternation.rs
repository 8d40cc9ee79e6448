use parser_combinators::combine_parsers;
use parser_combinators::terminals::{
    KeywordParser, ParseErr, Token, EXPECTED_KEYWORD,
};

#[test]
fn synthesizing_alternation_returns_first_success() {
    let parsers = vec![
        KeywordParser { keyword: Token::KwIf },
        KeywordParser { keyword: Token::KwWhile },
    ];
    let tokens = vec![Token::KwWhile];
    let r = combine_parsers::<Token, ParseErr, u64, Token, KeywordParser>(
        &tokens,
        0,
        &parsers,
        EXPECTED_KEYWORD,
    );
    assert_eq!(r, Ok((Token::KwWhile, 1)));
}

#[test]
fn synthesized_error_carries_position_and_context() {
    let parsers = vec![
        KeywordParser { keyword: Token::KwIf },
        KeywordParser { keyword: Token::KwWhile },
    ];
    let tokens = vec![Token::Comma];
    let r = combine_parsers::<Token, ParseErr, u64, Token, KeywordParser>(
        &tokens,
        0,
        &parsers,
        EXPECTED_KEYWORD,
    );
    assert_eq!(r, Err(ParseErr { pos: 0, expected: EXPECTED_KEYWORD }));
}

#[test]
fn synthesized_error_references_starting_position() {
    let parsers = vec![
        KeywordParser { keyword: Token::KwIf },
        KeywordParser { keyword: Token::KwWhile },
    ];
    let tokens = vec![Token::Num(1), Token::Comma];
    let r = combine_parsers::<Token, ParseErr, u64, Token, KeywordParser>(
        &tokens,
        1,
        &parsers,
        EXPECTED_KEYWORD,
    );
    assert_eq!(r, Err(ParseErr { pos: 1, expected: EXPECTED_KEYWORD }));
}
