use calculator::token::{Annotation, LexError, LexErrorKind, Location, Token, TokenKind};

#[test]
fn test_location_merge() {
    let loc1 = Location(1, 6);
    let loc2 = Location(2, 3);

    let merged_loc = loc1.merge(&loc2);

    assert_eq!(merged_loc, Location(1, 6))
}

#[test]
fn test_annotation_new() {
    let loc = Location(0, 1);
    let anno = Annotation::<String>::new("+".to_string(), loc);

    println!("{:?}", anno);
}

#[test]
fn location_new_keeps_both_ends() {
    assert_eq!(Location::new(3, 8), Location(3, 8));
    assert_eq!(Location::new(4, 4), Location(4, 4));
}

#[test]
fn merge_takes_least_start_and_greatest_end() {
    assert_eq!(Location::new(0, 2).merge(&Location::new(5, 9)), Location(0, 9));
    assert_eq!(Location::new(5, 9).merge(&Location::new(0, 2)), Location(0, 9));
    assert_eq!(Location::new(2, 7).merge(&Location::new(4, 12)), Location(2, 12));
    assert_eq!(Location::new(3, 4).merge(&Location::new(3, 4)), Location(3, 4));
}

#[test]
fn annotation_getters_return_what_was_stored() {
    let anno = Annotation::new(TokenKind::Number(42), Location::new(7, 9));
    assert_eq!(anno.value(), TokenKind::Number(42));
    assert_eq!(anno.loc(), Location(7, 9));
    assert_eq!(anno.value, TokenKind::Number(42));
}

#[test]
fn annotations_at_different_places_differ() {
    assert_ne!(Token::plus(Location::new(0, 1)), Token::plus(Location::new(2, 3)));
    assert_eq!(Token::plus(Location::new(2, 3)), Token::plus(Location::new(2, 3)));
    assert_ne!(Token::plus(Location::new(2, 3)), Token::minus(Location::new(2, 3)));
}

#[test]
fn token_constructors_set_the_kind() {
    let loc = Location::new(1, 2);
    assert_eq!(Token::number(5, loc.clone()).value, TokenKind::Number(5));
    assert_eq!(Token::plus(loc.clone()).value, TokenKind::Plus);
    assert_eq!(Token::minus(loc.clone()).value, TokenKind::Minus);
    assert_eq!(Token::asterisk(loc.clone()).value, TokenKind::Asterisk);
    assert_eq!(Token::slash(loc.clone()).value, TokenKind::Slash);
    assert_eq!(Token::lparen(loc.clone()).value, TokenKind::LParen);
    assert_eq!(Token::rparen(loc.clone()).value, TokenKind::RParen);
    assert_eq!(Token::rparen(loc.clone()).loc(), loc);
}

#[test]
fn lex_error_constructors_set_the_kind() {
    let e = LexError::invalid_char('@', Location::new(2, 3));
    assert_eq!(e.value(), LexErrorKind::InvalidChar('@'));
    assert_eq!(e.loc(), Location(2, 3));
    let e = LexError::eof(Location::new(4, 4));
    assert_eq!(e.value(), LexErrorKind::Eof);
    assert_eq!(e.loc(), Location(4, 4));
}

#[test]
fn clones_are_equal() {
    let t = Token::number(17, Location::new(0, 2));
    assert_eq!(t.clone(), t);
    let e = LexError::invalid_char('x', Location::new(1, 2));
    assert_eq!(e.clone(), e);
}

#[test]
fn a_location_is_written_as_start_hyphen_end() {
    assert_eq!(Location::new(3, 12).to_string(), "3-12");
    assert_eq!(Location::new(0, 0).to_string(), "0-0");
    assert_eq!(Location::new(100, 1009).to_string(), "100-1009");
    assert_eq!(
        Location::new(0, usize::MAX).to_string(),
        format!("0-{}", usize::MAX)
    );
}

#[test]
fn a_token_kind_is_written_as_in_the_source() {
    assert_eq!(TokenKind::Number(0).to_string(), "0");
    assert_eq!(TokenKind::Number(7).to_string(), "7");
    assert_eq!(TokenKind::Number(10).to_string(), "10");
    assert_eq!(TokenKind::Number(1234567890).to_string(), "1234567890");
    assert_eq!(TokenKind::Number(u64::MAX).to_string(), "18446744073709551615");
    assert_eq!(TokenKind::Plus.to_string(), "+");
    assert_eq!(TokenKind::Minus.to_string(), "-");
    assert_eq!(TokenKind::Asterisk.to_string(), "*");
    assert_eq!(TokenKind::Slash.to_string(), "/");
    assert_eq!(TokenKind::LParen.to_string(), "(");
    assert_eq!(TokenKind::RParen.to_string(), ")");
}

#[test]
fn a_lex_error_is_written_as_its_place() {
    assert_eq!(LexError::invalid_char('@', Location::new(2, 3)).to_string(), "2-3");
    assert_eq!(LexError::eof(Location::new(14, 14)).to_string(), "14-14");
}
