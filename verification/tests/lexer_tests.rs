use calculator::lexer::{
    consume_byte, is_digit_byte, is_space_byte, lex_number, lex_spaces, lex_symbol, lexer,
    parse_decimal, recognize_many,
};
use calculator::token::{LexError, Location, Token};

#[test]
fn test_lexer() {
    let result = lexer("1 + 2 * 3 - - 10");
    assert!(result.is_ok());

    let test_tokens = vec![
        Token::number(1, Location::new(0, 1)),
        Token::plus(Location::new(2, 3)),
        Token::number(2, Location::new(4, 5)),
        Token::asterisk(Location::new(6, 7)),
        Token::number(3, Location::new(8, 9)),
        Token::minus(Location::new(10, 11)),
        Token::minus(Location::new(12, 13)),
        Token::number(10, Location::new(14, 16)),
    ];

    assert_eq!(result, Ok(test_tokens));
}

#[test]
fn test_debug() {
    if [b' ', b'\n', b'\t'].contains(&b'\t') {
        println!("hekk")
    }
}

#[test]
fn empty_and_blank_inputs_have_no_tokens() {
    assert_eq!(lexer(""), Ok(vec![]));
    assert_eq!(lexer(" \t\n  "), Ok(vec![]));
}

#[test]
fn every_symbol_is_one_byte() {
    assert_eq!(
        lexer("+-*/()"),
        Ok(vec![
            Token::plus(Location::new(0, 1)),
            Token::minus(Location::new(1, 2)),
            Token::asterisk(Location::new(2, 3)),
            Token::slash(Location::new(3, 4)),
            Token::lparen(Location::new(4, 5)),
            Token::rparen(Location::new(5, 6)),
        ])
    );
}

#[test]
fn a_number_is_the_longest_run_of_digits() {
    assert_eq!(lexer("1234"), Ok(vec![Token::number(1234, Location::new(0, 4))]));
    assert_eq!(
        lexer("12 34"),
        Ok(vec![Token::number(12, Location::new(0, 2)), Token::number(34, Location::new(3, 5))])
    );
    assert_eq!(
        lexer("12(34"),
        Ok(vec![
            Token::number(12, Location::new(0, 2)),
            Token::lparen(Location::new(2, 3)),
            Token::number(34, Location::new(3, 5)),
        ])
    );
}

#[test]
fn leading_zeros_do_not_change_the_value() {
    assert_eq!(lexer("007"), Ok(vec![Token::number(7, Location::new(0, 3))]));
    assert_eq!(lexer("0"), Ok(vec![Token::number(0, Location::new(0, 1))]));
}

#[test]
fn the_largest_literal_is_read_exactly() {
    assert_eq!(
        lexer("18446744073709551615"),
        Ok(vec![Token::number(u64::MAX, Location::new(0, 20))])
    );
    assert_eq!(
        lexer("18446744073709551614"),
        Ok(vec![Token::number(u64::MAX - 1, Location::new(0, 20))])
    );
}

#[test]
fn a_literal_that_does_not_fit_saturates() {
    assert_eq!(
        lexer("18446744073709551616"),
        Ok(vec![Token::number(u64::MAX, Location::new(0, 20))])
    );
    assert_eq!(
        lexer("99999999999999999999999 1"),
        Ok(vec![
            Token::number(u64::MAX, Location::new(0, 23)),
            Token::number(1, Location::new(24, 25)),
        ])
    );
}

#[test]
fn whitespace_is_space_tab_and_newline() {
    assert_eq!(
        lexer("\t1\n+ 2"),
        Ok(vec![
            Token::number(1, Location::new(1, 2)),
            Token::plus(Location::new(3, 4)),
            Token::number(2, Location::new(5, 6)),
        ])
    );
}

#[test]
fn an_unknown_byte_is_an_error_at_its_place() {
    assert_eq!(lexer("1 @ 2"), Err(LexError::invalid_char('@', Location::new(2, 3))));
    assert_eq!(lexer("a"), Err(LexError::invalid_char('a', Location::new(0, 1))));
    assert_eq!(lexer("1 + 2\r"), Err(LexError::invalid_char('\r', Location::new(5, 6))));
}

#[test]
fn the_first_unknown_byte_is_the_error() {
    assert_eq!(lexer("12 $ 3 # 4"), Err(LexError::invalid_char('$', Location::new(3, 4))));
}

#[test]
fn a_byte_of_a_longer_character_fails_as_that_byte() {
    // U+00E9 is the two bytes 0xC3 0xA9.
    assert_eq!(lexer("1\u{e9}"), Err(LexError::invalid_char('\u{c3}', Location::new(1, 2))));
}

#[test]
fn bytes_are_classified() {
    for b in 0..=255u8 {
        assert_eq!(is_digit_byte(b), b.is_ascii_digit());
        assert_eq!(is_space_byte(b), b == b' ' || b == b'\t' || b == b'\n');
    }
}

#[test]
fn recognize_many_stops_at_the_first_byte_refused() {
    assert_eq!(recognize_many(b"123+4", 0, is_digit_byte), 3);
    assert_eq!(recognize_many(b"123+4", 1, is_digit_byte), 3);
    assert_eq!(recognize_many(b"123+4", 3, is_digit_byte), 3);
    assert_eq!(recognize_many(b"123", 0, is_digit_byte), 3);
    assert_eq!(recognize_many(b"123", 3, is_digit_byte), 3);
    assert_eq!(recognize_many(b"123", 7, is_digit_byte), 7);
    assert_eq!(recognize_many(b"aaab", 0, |b| b == b'a'), 3);
}

#[test]
fn consume_byte_takes_the_byte_asked_for() {
    assert_eq!(consume_byte(b"+1", 0, b'+'), Ok((b'+', 1)));
    assert_eq!(consume_byte(b"1+", 1, b'+'), Ok((b'+', 2)));
}

#[test]
fn consume_byte_refuses_another_byte() {
    assert_eq!(
        consume_byte(b"+1", 1, b'+'),
        Err(LexError::invalid_char('1', Location::new(1, 2)))
    );
}

#[test]
fn consume_byte_behind_the_end_is_eof() {
    assert_eq!(consume_byte(b"+1", 2, b'+'), Err(LexError::eof(Location::new(2, 2))));
    assert_eq!(consume_byte(b"", 0, b'+'), Err(LexError::eof(Location::new(0, 0))));
    assert_eq!(consume_byte(b"+", 5, b'+'), Err(LexError::eof(Location::new(5, 5))));
}

#[test]
fn lex_spaces_finds_the_end_of_the_whitespace() {
    assert_eq!(lex_spaces(b"  \t\n1 ", 0), Ok(4));
    assert_eq!(lex_spaces(b"  \t\n1 ", 2), Ok(4));
    assert_eq!(lex_spaces(b"  \t\n1 ", 4), Ok(4));
    assert_eq!(lex_spaces(b"1  ", 1), Ok(3));
}

#[test]
fn lex_number_reads_the_whole_run() {
    assert_eq!(lex_number(b"12+3", 0), Ok((Token::number(12, Location::new(0, 2)), 2)));
    assert_eq!(lex_number(b"12+3", 1), Ok((Token::number(2, Location::new(1, 2)), 2)));
    assert_eq!(lex_number(b"12+345", 3), Ok((Token::number(345, Location::new(3, 6)), 6)));
}

#[test]
fn lex_symbol_reads_one_byte() {
    assert_eq!(lex_symbol(b"1+2", 1), Ok((Token::plus(Location::new(1, 2)), 2)));
    assert_eq!(lex_symbol(b"-", 0), Ok((Token::minus(Location::new(0, 1)), 1)));
    assert_eq!(lex_symbol(b"*", 0), Ok((Token::asterisk(Location::new(0, 1)), 1)));
    assert_eq!(lex_symbol(b"/", 0), Ok((Token::slash(Location::new(0, 1)), 1)));
    assert_eq!(lex_symbol(b"(", 0), Ok((Token::lparen(Location::new(0, 1)), 1)));
    assert_eq!(lex_symbol(b")", 0), Ok((Token::rparen(Location::new(0, 1)), 1)));
    assert_eq!(lex_symbol(b"1+2", 0), Err(LexError::invalid_char('1', Location::new(0, 1))));
    assert_eq!(lex_symbol(b" ", 0), Err(LexError::invalid_char(' ', Location::new(0, 1))));
}

#[test]
fn parse_decimal_reads_base_ten() {
    assert_eq!(parse_decimal(b"x0123y", 1, 5), 123);
    assert_eq!(parse_decimal(b"x0123y", 1, 1), 0);
    assert_eq!(parse_decimal(b"18446744073709551615", 0, 20), u64::MAX);
    assert_eq!(parse_decimal(b"18446744073709551616", 0, 20), u64::MAX);
    assert_eq!(parse_decimal(b"18446744073709551616", 0, 19), 1844674407370955161);
    assert_eq!(parse_decimal(b"184467440737095516150", 0, 21), u64::MAX);
}

#[test]
fn every_text_over_the_alphabet_is_tokenized() {
    let texts = [
        "0123456789",
        "+-*/()",
        " \t\n",
        "((12+3)*45 - 6)/7\n",
        ")(*/ 9 9 +",
        "1+2*3--10",
        "  42  ",
    ];
    for text in texts {
        let tokens = lexer(text).unwrap();
        let mut spelled = String::new();
        let mut last_end = 0;
        for token in &tokens {
            let Location(start, end) = token.loc();
            assert!(last_end <= start && start < end && end <= text.len());
            // Between two tokens stands nothing but whitespace.
            assert!(text[last_end..start].bytes().all(is_space_byte));
            // No text here has leading zeros but the first, which is one number.
            if text != "0123456789" {
                assert_eq!(&text[start..end], token.value().to_string());
            }
            spelled.push_str(&text[start..end]);
            last_end = end;
        }
        assert!(text[last_end..].bytes().all(is_space_byte));
        let without_spaces: String = text.chars().filter(|c| !" \t\n".contains(*c)).collect();
        assert_eq!(spelled, without_spaces);
    }
    assert_eq!(lexer("0123456789"), Ok(vec![Token::number(123456789, Location::new(0, 10))]));
}

#[test]
fn whitespace_between_tokens_changes_no_token() {
    let kinds = |text: &str| -> Vec<String> {
        lexer(text).unwrap().iter().map(|t| t.value().to_string()).collect()
    };
    let dense = kinds("12+(3*4)");
    assert_eq!(dense, vec!["12", "+", "(", "3", "*", "4", ")"]);
    assert_eq!(kinds("12 +(3*4)"), dense);
    assert_eq!(kinds(" 12\t+\n(  3 * 4 )\n\n"), dense);
    // Inside a number whitespace is not between tokens.
    assert_eq!(kinds("1 2+(3*4)"), vec!["1", "2", "+", "(", "3", "*", "4", ")"]);
}
