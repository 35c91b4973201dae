//! A small arithmetic-expression front end: a tokenizer and a recursive-descent
//! parser that track the source byte range of every token and syntax node.
//!
//! `lexer` cuts a source text into tokens, `parser` builds the syntax tree, and
//! `error` holds the one error type of the two together. What holds of every
//! result is proved in `lexer_proofs` and `parser_proofs`. Beside the front end
//! stand a growable array (`toy_vec`), trial division (`primes`) and the
//! writing of numbers in base ten (`text`).

pub mod error;
pub mod lexer;
pub mod lexer_proofs;
pub mod parser;
pub mod parser_proofs;
pub mod primes;
pub mod text;
pub mod token;
pub mod toy_vec;
