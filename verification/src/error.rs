//! The one error type that a caller of the whole front end handles.

use crate::parser::ParserError;
use crate::token::LexError;
use vstd::prelude::*;

verus! {

/// A lexical or a syntactic failure.
#[derive(Debug, PartialEq, Eq, Hash)]
pub enum Error {
    Lexer(LexError),
    Parser(ParserError),
}

impl Clone for Error {
    fn clone(&self) -> (r: Self)
        ensures
            r == *self,
    {
        match self {
            Error::Lexer(e) => Error::Lexer(e.clone()),
            Error::Parser(e) => Error::Parser(e.clone()),
        }
    }
}

impl From<LexError> for Error {
    fn from(e: LexError) -> (r: Self) {
        Error::Lexer(e)
    }
}

impl vstd::std_specs::convert::FromSpecImpl<LexError> for Error {
    open spec fn obeys_from_spec() -> bool {
        true
    }

    open spec fn from_spec(e: LexError) -> Self {
        Error::Lexer(e)
    }
}

impl From<ParserError> for Error {
    fn from(e: ParserError) -> (r: Self) {
        Error::Parser(e)
    }
}

impl vstd::std_specs::convert::FromSpecImpl<ParserError> for Error {
    open spec fn obeys_from_spec() -> bool {
        true
    }

    open spec fn from_spec(e: ParserError) -> Self {
        Error::Parser(e)
    }
}

} // verus!
