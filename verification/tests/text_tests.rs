use calculator::lexer::lexer;
use calculator::text::{decimal_string, digit_str};
use calculator::token::{Location, Token, TokenKind};

#[test]
fn digits_are_written_one_by_one() {
    let all: Vec<&str> = (0..10).map(digit_str).collect();
    assert_eq!(all, vec!["0", "1", "2", "3", "4", "5", "6", "7", "8", "9"]);
}

#[test]
fn numbers_are_written_in_base_ten() {
    assert_eq!(decimal_string(0), "0");
    assert_eq!(decimal_string(9), "9");
    assert_eq!(decimal_string(10), "10");
    assert_eq!(decimal_string(101), "101");
    assert_eq!(decimal_string(9007199254740993), "9007199254740993");
    assert_eq!(decimal_string(u64::MAX), "18446744073709551615");
    for n in [1u64, 19, 200, 4096, 65535, 1000000007] {
        assert_eq!(decimal_string(n), n.to_string());
    }
}

#[test]
fn the_text_of_a_token_is_read_back_as_that_token() {
    for kind in [
        TokenKind::Number(0),
        TokenKind::Number(42),
        TokenKind::Number(u64::MAX),
        TokenKind::Plus,
        TokenKind::Minus,
        TokenKind::Asterisk,
        TokenKind::Slash,
        TokenKind::LParen,
        TokenKind::RParen,
    ] {
        let text = kind.to_string();
        let expected = Token::new(kind, Location::new(0, text.len()));
        assert_eq!(lexer(&text), Ok(vec![expected]));
    }
}
