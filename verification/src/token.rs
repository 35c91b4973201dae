//! Source locations, the generic annotation wrapper, tokens and lexical errors.

use crate::text::{decimal_string, decimal_text};
use vstd::prelude::*;
use vstd::string::StringExecFns;

verus! {

/// A half-open byte range `[start, end)` into a source text.
#[derive(Debug, PartialEq, Eq, Hash)]
pub struct Location(pub usize, pub usize);

impl Clone for Location {
    fn clone(&self) -> (r: Self)
        ensures
            r == *self,
    {
        Location(self.0, self.1)
    }
}

impl Location {
    /// A location is well formed when it does not end before it starts.
    pub open spec fn well_formed(&self) -> bool {
        self.0 <= self.1
    }

    /// `other` lies inside `self`.
    pub open spec fn contains(&self, other: Location) -> bool {
        self.0 <= other.0 && other.1 <= self.1
    }

    /// The location from the lesser start to the greater end.
    pub open spec fn spec_merge(&self, other: Location) -> Location {
        Location(
            if self.0 <= other.0 { self.0 } else { other.0 },
            if self.1 >= other.1 { self.1 } else { other.1 },
        )
    }

    /// The location from `start` up to, and without, `end`.
    pub fn new(start: usize, end: usize) -> (r: Self)
        requires
            start <= end,
        ensures
            r == Location(start, end),
            r.well_formed(),
    {
        Location(start, end)
    }

    /// The smallest location that contains both `self` and `other`.
    pub fn merge(&self, other: &Location) -> (r: Location)
        ensures
            r == self.spec_merge(*other),
            self.well_formed() && other.well_formed() ==> r.well_formed(),
    {
        let start: usize = if self.0 <= other.0 { self.0 } else { other.0 };
        let end: usize = if self.1 >= other.1 { self.1 } else { other.1 };
        Location(start, end)
    }

    /// A merged location contains both parts, and every location that
    /// contains both parts contains it: it is the smallest such location.
    pub proof fn lemma_merge_is_smallest(self, other: Location, around: Location)
        ensures
            self.spec_merge(other).contains(self),
            self.spec_merge(other).contains(other),
            around.contains(self) && around.contains(other) ==> around.contains(
                self.spec_merge(other),
            ),
    {
    }

    /// Merging does not depend on the order or the grouping of the parts, and
    /// merging a location with itself changes nothing.
    pub proof fn lemma_merge_laws(self, b: Location, c: Location)
        ensures
            self.spec_merge(b) == b.spec_merge(self),
            self.spec_merge(b).spec_merge(c) == self.spec_merge(b.spec_merge(c)),
            self.spec_merge(self) == self,
    {
    }

    /// How a location is written: its two ends with a hyphen between them.
    pub open spec fn text(&self) -> Seq<char> {
        decimal_text(self.0 as nat) + seq!['-'] + decimal_text(self.1 as nat)
    }

    /// Writes the location as `start-end`.
    pub fn to_string(&self) -> (r: String)
        ensures
            r@ == self.text(),
    {
        proof {
            reveal_strlit("-");
        }
        let mut text = decimal_string(self.0 as u64);
        text.append("-");
        let end = decimal_string(self.1 as u64);
        text.append(end.as_str());
        assert(text@ =~= self.text());
        text
    }
}

/// A value together with the place in the source that it came from.
#[derive(Debug, PartialEq, Eq, Hash)]
pub struct Annotation<T> {
    pub value: T,
    pub loc: Location,
}

impl<T: Clone> Clone for Annotation<T> {
    fn clone(&self) -> (r: Self)
        ensures
            cloned(self.value, r.value),
            r.loc == self.loc,
    {
        Annotation { value: self.value.clone(), loc: self.loc.clone() }
    }
}

impl<T: Clone> Annotation<T> {
    /// Pairs a value with its place.
    pub fn new(value: T, loc: Location) -> (r: Self)
        ensures
            r == (Annotation { value, loc }),
    {
        Annotation { value, loc }
    }

    /// A clone of the value.
    pub fn value(&self) -> (r: T)
        ensures
            cloned(self.value, r),
    {
        self.value.clone()
    }

    /// The place.
    pub fn loc(&self) -> (r: Location)
        ensures
            r == self.loc,
    {
        self.loc.clone()
    }
}

/// The lexical categories. Whitespace has none: it separates tokens and is
/// never a token itself.
#[derive(Debug, Clone, Copy, PartialEq, Eq, Hash)]
pub enum TokenKind {
    Number(u64),
    Plus,
    Minus,
    Asterisk,
    Slash,
    LParen,
    RParen,
}

impl TokenKind {
    /// How a token of this kind is written in a source text: a number in
    /// base ten, a symbol as its one character.
    pub open spec fn text(&self) -> Seq<char> {
        match self {
            TokenKind::Number(n) => decimal_text(*n as nat),
            TokenKind::Plus => seq!['+'],
            TokenKind::Minus => seq!['-'],
            TokenKind::Asterisk => seq!['*'],
            TokenKind::Slash => seq!['/'],
            TokenKind::LParen => seq!['('],
            TokenKind::RParen => seq![')'],
        }
    }

    /// Writes the kind as it stands in a source text.
    pub fn to_string(&self) -> (r: String)
        ensures
            r@ == self.text(),
    {
        proof {
            reveal_strlit("+");
            reveal_strlit("-");
            reveal_strlit("*");
            reveal_strlit("/");
            reveal_strlit("(");
            reveal_strlit(")");
        }
        match self {
            TokenKind::Number(n) => decimal_string(*n),
            TokenKind::Plus => String::from_str("+"),
            TokenKind::Minus => String::from_str("-"),
            TokenKind::Asterisk => String::from_str("*"),
            TokenKind::Slash => String::from_str("/"),
            TokenKind::LParen => String::from_str("("),
            TokenKind::RParen => String::from_str(")"),
        }
    }
}

pub type Token = Annotation<TokenKind>;

impl Token {
    pub fn number(n: u64, loc: Location) -> (r: Self)
        ensures
            r == (Token { value: TokenKind::Number(n), loc }),
    {
        Self::new(TokenKind::Number(n), loc)
    }

    pub fn plus(loc: Location) -> (r: Self)
        ensures
            r == (Token { value: TokenKind::Plus, loc }),
    {
        Self::new(TokenKind::Plus, loc)
    }

    pub fn minus(loc: Location) -> (r: Self)
        ensures
            r == (Token { value: TokenKind::Minus, loc }),
    {
        Self::new(TokenKind::Minus, loc)
    }

    pub fn asterisk(loc: Location) -> (r: Self)
        ensures
            r == (Token { value: TokenKind::Asterisk, loc }),
    {
        Self::new(TokenKind::Asterisk, loc)
    }

    pub fn slash(loc: Location) -> (r: Self)
        ensures
            r == (Token { value: TokenKind::Slash, loc }),
    {
        Self::new(TokenKind::Slash, loc)
    }

    pub fn lparen(loc: Location) -> (r: Self)
        ensures
            r == (Token { value: TokenKind::LParen, loc }),
    {
        Self::new(TokenKind::LParen, loc)
    }

    pub fn rparen(loc: Location) -> (r: Self)
        ensures
            r == (Token { value: TokenKind::RParen, loc }),
    {
        Self::new(TokenKind::RParen, loc)
    }
}

/// The ways in which tokenizing can fail.
#[derive(Debug, PartialEq, Eq, Hash)]
pub enum LexErrorKind {
    /// A byte that starts no token and is no whitespace.
    InvalidChar(char),
    /// The input ended where a byte was expected.
    Eof,
}

impl Clone for LexErrorKind {
    fn clone(&self) -> (r: Self)
        ensures
            r == *self,
    {
        match self {
            LexErrorKind::InvalidChar(c) => LexErrorKind::InvalidChar(*c),
            LexErrorKind::Eof => LexErrorKind::Eof,
        }
    }
}

pub type LexError = Annotation<LexErrorKind>;

impl LexError {
    pub fn invalid_char(c: char, loc: Location) -> (r: Self)
        ensures
            r == (LexError { value: LexErrorKind::InvalidChar(c), loc }),
    {
        LexError::new(LexErrorKind::InvalidChar(c), loc)
    }

    pub fn eof(loc: Location) -> (r: Self)
        ensures
            r == (LexError { value: LexErrorKind::Eof, loc }),
    {
        LexError::new(LexErrorKind::Eof, loc)
    }

    /// Writes the error as the place where it was met.
    pub fn to_string(&self) -> (r: String)
        ensures
            r@ == self.loc.text(),
    {
        self.loc.to_string()
    }
}

} // verus!
