//! The tokenizer: from the bytes of a source text to a sequence of located
//! tokens.
//!
//! Tokens are cut by maximal munch: a number is the longest run of ASCII digits,
//! every operator and parenthesis is one byte, and space, tab and newline only
//! separate tokens. Any other byte stops the tokenizer with an error.
//!
//! A literal too large for `u64` is read as `u64::MAX`.

use crate::token::{LexError, LexErrorKind, Location, Token, TokenKind};
use vstd::prelude::*;
use vstd::string::StringSliceAdditionalSpecFns;

verus! {

/// The bytes of the source alphabet, by their ASCII codes.
pub const TAB: u8 = 0x09;

pub const NEWLINE: u8 = 0x0a;

pub const SPACE: u8 = 0x20;

pub const LPAREN: u8 = 0x28;

pub const RPAREN: u8 = 0x29;

pub const ASTERISK: u8 = 0x2a;

pub const PLUS: u8 = 0x2b;

pub const MINUS: u8 = 0x2d;

pub const SLASH: u8 = 0x2f;

pub const DIGIT_0: u8 = 0x30;

pub const DIGIT_9: u8 = 0x39;

/// `b` is an ASCII digit.
pub open spec fn is_digit(b: u8) -> bool {
    DIGIT_0 <= b <= DIGIT_9
}

/// `b` is whitespace: a space, a newline or a tab.
pub open spec fn is_space(b: u8) -> bool {
    b == SPACE || b == NEWLINE || b == TAB
}

/// The token that a one-byte symbol stands for, if `b` is one.
pub open spec fn symbol_kind(b: u8) -> Option<TokenKind> {
    if b == PLUS {
        Some(TokenKind::Plus)
    } else if b == MINUS {
        Some(TokenKind::Minus)
    } else if b == ASTERISK {
        Some(TokenKind::Asterisk)
    } else if b == SLASH {
        Some(TokenKind::Slash)
    } else if b == LPAREN {
        Some(TokenKind::LParen)
    } else if b == RPAREN {
        Some(TokenKind::RParen)
    } else {
        None
    }
}

/// The bytes that may occur in a source text.
pub open spec fn is_valid_byte(b: u8) -> bool {
    is_digit(b) || is_space(b) || symbol_kind(b) is Some
}

/// The end of the longest run of digits that starts at `pos`.
pub open spec fn digits_end(s: Seq<u8>, pos: int) -> int
    decreases s.len() - pos,
{
    if 0 <= pos < s.len() && is_digit(s[pos]) {
        digits_end(s, pos + 1)
    } else {
        pos
    }
}

/// The number that a run of digits denotes, read in base ten.
pub open spec fn decimal_value(digits: Seq<u8>) -> nat
    decreases digits.len(),
{
    if digits.len() == 0 {
        0
    } else {
        decimal_value(digits.drop_last()) * 10 + (digits.last() - DIGIT_0) as nat
    }
}

/// The value of a number token: the digits' value, or `u64::MAX` where that
/// does not fit.
pub open spec fn literal_value(digits: Seq<u8>) -> u64 {
    if decimal_value(digits) <= u64::MAX {
        decimal_value(digits) as u64
    } else {
        u64::MAX
    }
}

/// The location from `start` up to `end`.
pub open spec fn span(start: int, end: int) -> Location {
    Location(start as usize, end as usize)
}

/// The number token that starts at `pos`.
pub open spec fn number_at(s: Seq<u8>, pos: int) -> Token {
    let end = digits_end(s, pos);
    Token { value: TokenKind::Number(literal_value(s.subrange(pos, end))), loc: span(pos, end) }
}

/// The error for the byte at `pos`, which starts no token.
pub open spec fn invalid_at(s: Seq<u8>, pos: int) -> LexError {
    LexError { value: LexErrorKind::InvalidChar(s[pos] as char), loc: span(pos, pos + 1) }
}

/// `first` followed by the tokens of `rest`, or the error of `rest`.
pub open spec fn followed_by(first: Seq<Token>, rest: Result<Seq<Token>, LexError>) -> Result<
    Seq<Token>,
    LexError,
> {
    match rest {
        Ok(tokens) => Ok(first + tokens),
        Err(e) => Err(e),
    }
}

/// The tokens of `s` from `pos` on, or the first error met.
pub open spec fn lex_from(s: Seq<u8>, pos: int) -> Result<Seq<Token>, LexError>
    decreases s.len() - pos,
{
    if pos < 0 || pos >= s.len() {
        Ok(Seq::empty())
    } else if is_space(s[pos]) {
        lex_from(s, pos + 1)
    } else if is_digit(s[pos]) {
        proof {
            lemma_digits_end(s, pos);
        }
        followed_by(seq![number_at(s, pos)], lex_from(s, digits_end(s, pos)))
    } else {
        match symbol_kind(s[pos]) {
            Some(kind) => followed_by(
                seq![Token { value: kind, loc: span(pos, pos + 1) }],
                lex_from(s, pos + 1),
            ),
            None => Err(invalid_at(s, pos)),
        }
    }
}

/// The tokens of a whole source text.
pub open spec fn tokens_of(s: Seq<u8>) -> Result<Seq<Token>, LexError> {
    lex_from(s, 0)
}

/// A run of digits ends inside the text, after its start; every byte of it is a
/// digit and the byte behind it is none.
pub proof fn lemma_digits_end(s: Seq<u8>, pos: int)
    requires
        0 <= pos <= s.len(),
    ensures
        pos <= digits_end(s, pos) <= s.len(),
        pos < s.len() && is_digit(s[pos]) ==> pos < digits_end(s, pos),
        forall|i: int| pos <= i < digits_end(s, pos) ==> is_digit(#[trigger] s[i]),
        digits_end(s, pos) < s.len() ==> !is_digit(s[digits_end(s, pos)]),
    decreases s.len() - pos,
{
    if pos < s.len() && is_digit(s[pos]) {
        lemma_digits_end(s, pos + 1);
    }
}

/// A run of digits that nothing but digits fills, and that no digit follows,
/// is the longest one from its start.
pub proof fn lemma_digits_end_is(s: Seq<u8>, pos: int, end: int)
    requires
        0 <= pos <= end <= s.len(),
        forall|i: int| pos <= i < end ==> is_digit(#[trigger] s[i]),
        end < s.len() ==> !is_digit(s[end]),
    ensures
        digits_end(s, pos) == end,
    decreases end - pos,
{
    if pos < end {
        lemma_digits_end_is(s, pos + 1, end);
    }
}

/// Whitespace before a token changes nothing.
pub proof fn lemma_skip_spaces(s: Seq<u8>, pos: int, end: int)
    requires
        0 <= pos <= end <= s.len(),
        forall|i: int| pos <= i < end ==> is_space(#[trigger] s[i]),
    ensures
        lex_from(s, pos) == lex_from(s, end),
    decreases end - pos,
{
    if pos < end {
        lemma_skip_spaces(s, pos + 1, end);
    }
}

/// What consuming the byte `b` at `pos` gives: the byte and the position
/// behind it, or why `b` is not there.
pub open spec fn consumed(s: Seq<u8>, pos: int, b: u8) -> Result<(u8, usize), LexError> {
    if s.len() <= pos {
        Err(LexError { value: LexErrorKind::Eof, loc: span(pos, pos) })
    } else if s[pos] != b {
        Err(invalid_at(s, pos))
    } else {
        Ok((b, (pos + 1) as usize))
    }
}

/// What reading a one-byte symbol at `pos` gives: its token and the position
/// behind it, or the error for a byte that is no symbol.
pub open spec fn symbol_at(s: Seq<u8>, pos: int) -> Result<(Token, usize), LexError> {
    match symbol_kind(s[pos]) {
        Some(kind) => Ok((Token { value: kind, loc: span(pos, pos + 1) }, (pos + 1) as usize)),
        None => Err(invalid_at(s, pos)),
    }
}

/// Whether `b` is a space, a tab or a newline.
pub fn is_space_byte(b: u8) -> (r: bool)
    ensures
        r == is_space(b),
{
    b == SPACE || b == NEWLINE || b == TAB
}

/// Whether `b` is an ASCII digit.
pub fn is_digit_byte(b: u8) -> (r: bool)
    ensures
        r == is_digit(b),
{
    DIGIT_0 <= b && b <= DIGIT_9
}

/// Tokenizes a source text.
///
/// The result is exactly `tokens_of` of the text's bytes: all its tokens in
/// source order, each with the byte range it was read from, or the error for
/// the first byte that belongs to no token. A number too large for `u64` is
/// read as `u64::MAX`.
pub fn lexer(input: &str) -> (r: Result<Vec<Token>, LexError>)
    ensures
        match r {
            Ok(tokens) => tokens_of(input.spec_bytes()) == Ok::<Seq<Token>, LexError>(tokens@),
            Err(e) => tokens_of(input.spec_bytes()) == Err::<Seq<Token>, LexError>(e),
        },
{
    let mut tokens: Vec<Token> = Vec::new();

    let bytes = input.as_bytes();
    let mut pos: usize = 0;
    assert(Seq::<Token>::empty() + lex_from(bytes@, 0)->Ok_0 =~= lex_from(bytes@, 0)->Ok_0);

    while pos < bytes.len()
        invariant
            pos <= bytes.len(),
            bytes@ == input.spec_bytes(),
            tokens_of(bytes@) == followed_by(tokens@, lex_from(bytes@, pos as int)),
        decreases bytes.len() - pos,
    {
        if is_space_byte(bytes[pos]) {
            match lex_spaces(bytes, pos) {
                Ok(p) => {
                    proof {
                        lemma_skip_spaces(bytes@, pos as int, p as int);
                    }
                    pos = p;
                },
                Err(e) => {
                    return Err(e);
                },
            }
        } else {
            let lexed = if is_digit_byte(bytes[pos]) {
                lex_number(bytes, pos)
            } else {
                lex_symbol(bytes, pos)
            };
            match lexed {
                Ok((token, p)) => {
                    proof {
                        lemma_digits_end(bytes@, pos as int);
                        let rest = lex_from(bytes@, p as int);
                        if rest is Ok {
                            assert(tokens@ + (seq![token] + rest->Ok_0) =~= tokens@.push(token)
                                + rest->Ok_0);
                        }
                    }
                    tokens.push(token);
                    pos = p;
                },
                Err(e) => {
                    return Err(e);
                },
            }
        }
    }

    assert(tokens@ + Seq::<Token>::empty() =~= tokens@);
    Ok(tokens)
}

/// Walks over the bytes from `pos` on for as long as `f` accepts them, and
/// returns where it stopped.
pub fn recognize_many<F: Fn(u8) -> bool>(input: &[u8], pos: usize, f: F) -> (end: usize)
    requires
        forall|b: u8| call_requires(f, (b,)),
    ensures
        pos <= end,
        end <= input.len() || end == pos,
        forall|i: int| pos <= i < end ==> call_ensures(f, (#[trigger] input[i],), true),
        end < input.len() ==> call_ensures(f, (input[end as int],), false),
{
    let mut end: usize = pos;
    loop
        invariant
            pos <= end,
            end <= input.len() || end == pos,
            forall|b: u8| call_requires(f, (b,)),
            forall|i: int| pos <= i < end ==> call_ensures(f, (#[trigger] input[i],), true),
        ensures
            end < input.len() ==> call_ensures(f, (input[end as int],), false),
        decreases input.len() - end,
    {
        if end >= input.len() {
            break ;
        }
        let accepted = f(input[end]);
        if !accepted {
            break ;
        }
        end += 1;
    }
    end
}

/// Reads the byte `b` at `pos`.
pub fn consume_byte(input: &[u8], pos: usize, b: u8) -> (r: Result<(u8, usize), LexError>)
    ensures
        r == consumed(input@, pos as int, b),
{
    if input.len() <= pos {
        return Err(LexError::eof(Location::new(pos, pos)));
    }
    if input[pos] != b {
        return Err(LexError::invalid_char(input[pos] as char, Location::new(pos, pos + 1)));
    }
    Ok((b, pos + 1))
}

/// Finds the end of the whitespace that starts at `pos`.
pub fn lex_spaces(input: &[u8], pos: usize) -> (r: Result<usize, LexError>)
    ensures
        r is Ok,
        pos <= r->Ok_0,
        r->Ok_0 <= input.len() || r->Ok_0 == pos,
        forall|i: int| pos <= i < r->Ok_0 ==> is_space(#[trigger] input[i]),
        r->Ok_0 < input.len() ==> !is_space(input[r->Ok_0 as int]),
{
    let start = pos;
    let end = recognize_many(input, start, is_space_byte);

    Ok(end)
}

/// The value of the digits in `input[start..end]`.
pub fn parse_decimal(input: &[u8], start: usize, end: usize) -> (n: u64)
    requires
        start <= end <= input.len(),
        forall|i: int| start <= i < end ==> is_digit(#[trigger] input[i]),
    ensures
        n == literal_value(input@.subrange(start as int, end as int)),
{
    let mut n: u64 = 0;
    let mut i: usize = start;
    assert(input@.subrange(start as int, start as int) =~= Seq::<u8>::empty());
    while i < end
        invariant
            start <= i <= end <= input.len(),
            forall|j: int| start <= j < end ==> is_digit(#[trigger] input[j]),
            n == literal_value(input@.subrange(start as int, i as int)),
        decreases end - i,
    {
        let digit: u64 = (input[i] - DIGIT_0) as u64;
        proof {
            let before = input@.subrange(start as int, i as int);
            let now = input@.subrange(start as int, i + 1);
            assert(now.drop_last() =~= before);
            assert(now.last() == input[i as int]);
            assert(decimal_value(now) == decimal_value(before) * 10 + digit);
        }
        if n > (u64::MAX - digit) / 10 {
            n = u64::MAX;
        } else {
            n = n * 10 + digit;
        }
        i += 1;
    }
    n
}

/// Reads the number that starts at `pos`.
pub fn lex_number(input: &[u8], pos: usize) -> (r: Result<(Token, usize), LexError>)
    requires
        pos < input.len(),
        is_digit(input[pos as int]),
    ensures
        r == Ok::<(Token, usize), LexError>(
            (number_at(input@, pos as int), digits_end(input@, pos as int) as usize),
        ),
{
    let start = pos;
    let end = recognize_many(input, start, is_digit_byte);
    proof {
        lemma_digits_end_is(input@, start as int, end as int);
    }

    let n = parse_decimal(input, start, end);

    Ok((Token::number(n, Location::new(start, end)), end))
}

/// Reads the one-byte symbol at `start`.
pub fn lex_symbol(input: &[u8], start: usize) -> (r: Result<(Token, usize), LexError>)
    requires
        start < input.len(),
    ensures
        r == symbol_at(input@, start as int),
{
    let b = input[start];
    if b == PLUS {
        match consume_byte(input, start, b) {
            Ok((_, end)) => Ok((Token::plus(Location::new(start, end)), end)),
            Err(e) => Err(e),
        }
    } else if b == MINUS {
        match consume_byte(input, start, b) {
            Ok((_, end)) => Ok((Token::minus(Location::new(start, end)), end)),
            Err(e) => Err(e),
        }
    } else if b == ASTERISK {
        match consume_byte(input, start, b) {
            Ok((_, end)) => Ok((Token::asterisk(Location::new(start, end)), end)),
            Err(e) => Err(e),
        }
    } else if b == SLASH {
        match consume_byte(input, start, b) {
            Ok((_, end)) => Ok((Token::slash(Location::new(start, end)), end)),
            Err(e) => Err(e),
        }
    } else if b == LPAREN {
        match consume_byte(input, start, b) {
            Ok((_, end)) => Ok((Token::lparen(Location::new(start, end)), end)),
            Err(e) => Err(e),
        }
    } else if b == RPAREN {
        match consume_byte(input, start, b) {
            Ok((_, end)) => Ok((Token::rparen(Location::new(start, end)), end)),
            Err(e) => Err(e),
        }
    } else {
        Err(LexError::invalid_char(b as char, Location::new(start, start + 1)))
    }
}

} // verus!
