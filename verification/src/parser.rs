//! The syntax tree and the recursive-descent parser.
//!
//! ```text
//! expr           := additive
//! additive       := multiplicative ( ('+'|'-') multiplicative )*
//! multiplicative := unary ( ('*'|'/') unary )*
//! unary          := ('+'|'-') atom | atom
//! atom           := NUMBER | '(' expr ')'
//! ```
//!
//! Both binary levels associate to the left. The grammar is written down once
//! as specification functions over a token sequence and a position
//! (`atom_at`, `unary_at`, `binary_at`, `expr_at`); the executable parser is
//! proved to compute exactly what they say.

use crate::error::Error;
use crate::lexer::{lexer, tokens_of};
use crate::token::{Annotation, Location, Token, TokenKind};
use std::str::FromStr;
use vstd::prelude::*;
use vstd::string::StringSliceAdditionalSpecFns;

verus! {

#[derive(Debug, PartialEq, Eq, Hash)]
pub enum UniOpKind {
    Plus,
    Minus,
}

impl Clone for UniOpKind {
    fn clone(&self) -> (r: Self)
        ensures
            r == *self,
    {
        match self {
            UniOpKind::Plus => UniOpKind::Plus,
            UniOpKind::Minus => UniOpKind::Minus,
        }
    }
}

pub type UniOp = Annotation<UniOpKind>;

impl UniOp {
    pub fn plus(loc: Location) -> (r: Self)
        ensures
            r == (UniOp { value: UniOpKind::Plus, loc }),
    {
        Self::new(UniOpKind::Plus, loc)
    }

    pub fn minus(loc: Location) -> (r: Self)
        ensures
            r == (UniOp { value: UniOpKind::Minus, loc }),
    {
        Self::new(UniOpKind::Minus, loc)
    }
}

#[derive(Debug, PartialEq, Eq, Hash)]
pub enum BinOpKind {
    Add,
    Sub,
    Mul,
    Div,
}

impl Clone for BinOpKind {
    fn clone(&self) -> (r: Self)
        ensures
            r == *self,
    {
        match self {
            BinOpKind::Add => BinOpKind::Add,
            BinOpKind::Sub => BinOpKind::Sub,
            BinOpKind::Mul => BinOpKind::Mul,
            BinOpKind::Div => BinOpKind::Div,
        }
    }
}

pub type BinOp = Annotation<BinOpKind>;

impl BinOp {
    pub fn add(loc: Location) -> (r: Self)
        ensures
            r == (BinOp { value: BinOpKind::Add, loc }),
    {
        Self::new(BinOpKind::Add, loc)
    }

    pub fn sub(loc: Location) -> (r: Self)
        ensures
            r == (BinOp { value: BinOpKind::Sub, loc }),
    {
        Self::new(BinOpKind::Sub, loc)
    }

    pub fn mul(loc: Location) -> (r: Self)
        ensures
            r == (BinOp { value: BinOpKind::Mul, loc }),
    {
        Self::new(BinOpKind::Mul, loc)
    }

    pub fn div(loc: Location) -> (r: Self)
        ensures
            r == (BinOp { value: BinOpKind::Div, loc }),
    {
        Self::new(BinOpKind::Div, loc)
    }
}

/// The shapes of a syntax node. A node owns its subtrees.
#[derive(Debug, PartialEq, Eq, Hash)]
#[allow(inconsistent_fields)]
pub enum AstKind {
    Num(u64),
    UniOp { op: UniOp, e: Box<Ast> },
    BinOp { op: BinOp, l: Box<Ast>, r: Box<Ast> },
}

pub type Ast = Annotation<AstKind>;

impl Clone for AstKind {
    fn clone(&self) -> (r: Self)
        ensures
            r == *self,
        decreases *self,
    {
        match self {
            AstKind::Num(n) => AstKind::Num(*n),
            AstKind::UniOp { op, e } => AstKind::UniOp {
                op: op.clone(),
                e: Box::new(Ast { value: e.value.clone(), loc: e.loc.clone() }),
            },
            AstKind::BinOp { op, l, r } => AstKind::BinOp {
                op: op.clone(),
                l: Box::new(Ast { value: l.value.clone(), loc: l.loc.clone() }),
                r: Box::new(Ast { value: r.value.clone(), loc: r.loc.clone() }),
            },
        }
    }
}

impl Ast {
    pub fn num(n: u64, loc: Location) -> (r: Self)
        ensures
            r == (Ast { value: AstKind::Num(n), loc }),
    {
        Self::new(AstKind::Num(n), loc)
    }

    pub fn uniop(op: UniOp, e: Ast, loc: Location) -> (r: Self)
        ensures
            r == (Ast { value: AstKind::UniOp { op, e: Box::new(e) }, loc }),
    {
        Self::new(AstKind::UniOp { op, e: Box::new(e) }, loc)
    }

    pub fn binop(op: BinOp, l: Ast, r: Ast, loc: Location) -> (res: Self)
        ensures
            res == (Ast { value: AstKind::BinOp { op, l: Box::new(l), r: Box::new(r) }, loc }),
    {
        Self::new(AstKind::BinOp { op, l: Box::new(l), r: Box::new(r) }, loc)
    }
}

/// Why a token sequence is no expression.
#[derive(Debug, PartialEq, Eq, Hash)]
pub enum ParserError {
    UnexpectedToken(Token),
    /// A token stands where a number or `(` must stand.
    NotExpression(Token),
    /// A token stands where an operator was asked for.
    NotOperator(Token),
    /// The input ended before the `(` held here was closed.
    UnclosedOpenParen(Token),
    /// A token follows a complete expression.
    RedundantExpression(Token),
    /// The input ended where a token must stand.
    Eof,
}

impl Clone for ParserError {
    fn clone(&self) -> (r: Self)
        ensures
            r == *self,
    {
        match self {
            ParserError::UnexpectedToken(t) => ParserError::UnexpectedToken(t.clone()),
            ParserError::NotExpression(t) => ParserError::NotExpression(t.clone()),
            ParserError::NotOperator(t) => ParserError::NotOperator(t.clone()),
            ParserError::UnclosedOpenParen(t) => ParserError::UnclosedOpenParen(t.clone()),
            ParserError::RedundantExpression(t) => ParserError::RedundantExpression(t.clone()),
            ParserError::Eof => ParserError::Eof,
        }
    }
}

/// The two levels of binary operators.
#[derive(Debug, Clone, Copy, PartialEq, Eq, Hash)]
pub enum Level {
    /// `+` and `-`, which bind loosest.
    Additive,
    /// `*` and `/`.
    Multiplicative,
}

/// The binary operator that a token is at a level, if it is one there.
pub open spec fn binary_operator(level: Level, kind: TokenKind) -> Option<BinOpKind> {
    match (level, kind) {
        (Level::Additive, TokenKind::Plus) => Some(BinOpKind::Add),
        (Level::Additive, TokenKind::Minus) => Some(BinOpKind::Sub),
        (Level::Multiplicative, TokenKind::Asterisk) => Some(BinOpKind::Mul),
        (Level::Multiplicative, TokenKind::Slash) => Some(BinOpKind::Div),
        _ => None,
    }
}

/// The prefix operator that a token is, if it is one.
pub open spec fn unary_operator(kind: TokenKind) -> Option<UniOpKind> {
    match kind {
        TokenKind::Plus => Some(UniOpKind::Plus),
        TokenKind::Minus => Some(UniOpKind::Minus),
        _ => None,
    }
}

/// The node for a number token.
pub open spec fn number_node(n: u64, loc: Location) -> Ast {
    Ast { value: AstKind::Num(n), loc }
}

/// The node for a prefix operator and its operand. It spans both.
pub open spec fn unary_node(op: UniOp, e: Ast) -> Ast {
    Ast { value: AstKind::UniOp { op, e: Box::new(e) }, loc: op.loc.spec_merge(e.loc) }
}

/// The node for a binary operator and its operands. It spans both operands.
pub open spec fn binary_node(op: BinOp, l: Ast, r: Ast) -> Ast {
    Ast {
        value: AstKind::BinOp { op, l: Box::new(l), r: Box::new(r) },
        loc: l.loc.spec_merge(r.loc),
    }
}

/// What reading one production gives: the node and the position of the first
/// token behind it, or the error.
pub type Parsed = Result<(Ast, int), ParserError>;

/// A measure that falls from each production to the productions under it,
/// for the recursion through the grammar to be well founded.
pub open spec fn level_rank(level: Level) -> int {
    match level {
        Level::Multiplicative => 2,
        Level::Additive => 5,
    }
}

/// `atom := NUMBER | '(' expr ')'`, read at `pos`.
pub open spec fn atom_at(ts: Seq<Token>, pos: int) -> Parsed
    decreases ts.len() - pos, 0int,
{
    if pos < 0 || pos >= ts.len() {
        Err(ParserError::Eof)
    } else {
        match ts[pos].value {
            TokenKind::Number(n) => Ok((number_node(n, ts[pos].loc), pos + 1)),
            TokenKind::LParen => match expr_at(ts, pos + 1) {
                Ok((e, next)) => if next < 0 || next >= ts.len() {
                    Err(ParserError::UnclosedOpenParen(ts[pos]))
                } else if ts[next].value is RParen {
                    Ok((e, next + 1))
                } else {
                    Err(ParserError::RedundantExpression(ts[next]))
                },
                Err(err) => Err(err),
            },
            _ => Err(ParserError::NotExpression(ts[pos])),
        }
    }
}

/// `unary := ('+'|'-') atom | atom`, read at `pos`.
pub open spec fn unary_at(ts: Seq<Token>, pos: int) -> Parsed
    decreases ts.len() - pos, 1int,
{
    if 0 <= pos < ts.len() && unary_operator(ts[pos].value) is Some {
        let op = UniOp { value: unary_operator(ts[pos].value)->Some_0, loc: ts[pos].loc };
        match atom_at(ts, pos + 1) {
            Ok((e, next)) => Ok((unary_node(op, e), next)),
            Err(err) => Err(err),
        }
    } else {
        atom_at(ts, pos)
    }
}

/// One operand of a binary level, read at `pos`: a `multiplicative` under
/// `+` and `-`, a `unary` under `*` and `/`.
pub open spec fn operand_at(ts: Seq<Token>, pos: int, level: Level) -> Parsed
    decreases ts.len() - pos, level_rank(level),
{
    match level {
        Level::Additive => binary_at(ts, pos, Level::Multiplicative),
        Level::Multiplicative => unary_at(ts, pos),
    }
}

/// `operand ( operator operand )*` at one level, read at `pos`.
pub open spec fn binary_at(ts: Seq<Token>, pos: int, level: Level) -> Parsed
    decreases ts.len() - pos, level_rank(level) + 1,
{
    match operand_at(ts, pos, level) {
        Ok((left, next)) => if pos < next <= ts.len() {
            fold_at(ts, next, level, left)
        } else {
            // Never so: an operand takes at least one token and ends inside
            // the input (`lemma_operand_advances`). The test makes the
            // recursion well founded by itself.
            Err(ParserError::Eof)
        },
        Err(err) => Err(err),
    }
}

/// `( operator operand )*` at one level, read at `pos` with `left` already
/// read: each further operand is folded into the left one. It ends, with no
/// error, at the first token that is no operator of the level, or at the end
/// of the input.
pub open spec fn fold_at(ts: Seq<Token>, pos: int, level: Level, left: Ast) -> Parsed
    decreases ts.len() - pos, 0int,
{
    if 0 <= pos < ts.len() && binary_operator(level, ts[pos].value) is Some {
        let op = BinOp { value: binary_operator(level, ts[pos].value)->Some_0, loc: ts[pos].loc };
        match operand_at(ts, pos + 1, level) {
            Ok((right, next)) => if pos < next <= ts.len() {
                fold_at(ts, next, level, binary_node(op, left, right))
            } else {
                // Never so, as in `binary_at`.
                Err(ParserError::Eof)
            },
            Err(err) => Err(err),
        }
    } else {
        Ok((left, pos))
    }
}

/// `expr := additive`, read at `pos`.
pub open spec fn expr_at(ts: Seq<Token>, pos: int) -> Parsed
    decreases ts.len() - pos, 8int,
{
    binary_at(ts, pos, Level::Additive)
}

/// The tree of a whole token sequence: one expression with nothing behind it.
pub open spec fn parsed(ts: Seq<Token>) -> Result<Ast, ParserError> {
    match expr_at(ts, 0) {
        Ok((ast, next)) => if 0 <= next < ts.len() {
            Err(ParserError::RedundantExpression(ts[next]))
        } else {
            Ok(ast)
        },
        Err(err) => Err(err),
    }
}

/// A production that succeeds at `pos` ends behind `pos`, inside the input.
pub open spec fn advances(ts: Seq<Token>, pos: int, r: Parsed) -> bool {
    r is Ok ==> 0 <= pos < r->Ok_0.1 <= ts.len()
}

/// An atom that is read takes at least one token and ends inside the input.
pub proof fn lemma_atom_advances(ts: Seq<Token>, pos: int)
    ensures
        advances(ts, pos, atom_at(ts, pos)),
    decreases ts.len() - pos, 0int,
{
    if 0 <= pos < ts.len() && ts[pos].value is LParen {
        lemma_expr_advances(ts, pos + 1);
    }
}

/// A unary expression that is read takes at least one token and ends inside
/// the input.
pub proof fn lemma_unary_advances(ts: Seq<Token>, pos: int)
    ensures
        advances(ts, pos, unary_at(ts, pos)),
    decreases ts.len() - pos, 1int,
{
    if 0 <= pos < ts.len() && unary_operator(ts[pos].value) is Some {
        lemma_atom_advances(ts, pos + 1);
    } else {
        lemma_atom_advances(ts, pos);
    }
}

/// An operand that is read takes at least one token and ends inside the
/// input, so the tests on `next` in `binary_at` and `fold_at` never fail.
pub proof fn lemma_operand_advances(ts: Seq<Token>, pos: int, level: Level)
    ensures
        advances(ts, pos, operand_at(ts, pos, level)),
    decreases ts.len() - pos, level_rank(level),
{
    match level {
        Level::Additive => lemma_binary_advances(ts, pos, Level::Multiplicative),
        Level::Multiplicative => lemma_unary_advances(ts, pos),
    }
}

/// A binary level that is read takes at least one token and ends inside the
/// input.
pub proof fn lemma_binary_advances(ts: Seq<Token>, pos: int, level: Level)
    ensures
        advances(ts, pos, binary_at(ts, pos, level)),
    decreases ts.len() - pos, level_rank(level) + 1,
{
    lemma_operand_advances(ts, pos, level);
    if let Ok((left, next)) = operand_at(ts, pos, level) {
        lemma_fold_advances(ts, next, level, left);
    }
}

/// Folding further operands in never moves back, and ends inside the input.
pub proof fn lemma_fold_advances(ts: Seq<Token>, pos: int, level: Level, left: Ast)
    requires
        0 <= pos <= ts.len(),
    ensures
        fold_at(ts, pos, level, left) is Ok ==> pos <= fold_at(ts, pos, level, left)->Ok_0.1
            <= ts.len(),
    decreases ts.len() - pos, 0int,
{
    if 0 <= pos < ts.len() && binary_operator(level, ts[pos].value) is Some {
        let op = BinOp { value: binary_operator(level, ts[pos].value)->Some_0, loc: ts[pos].loc };
        lemma_operand_advances(ts, pos + 1, level);
        if let Ok((right, next)) = operand_at(ts, pos + 1, level) {
            lemma_fold_advances(ts, next, level, binary_node(op, left, right));
        }
    }
}

/// An expression that is read takes at least one token and ends inside the
/// input.
pub proof fn lemma_expr_advances(ts: Seq<Token>, pos: int)
    ensures
        advances(ts, pos, expr_at(ts, pos)),
    decreases ts.len() - pos, 8int,
{
    lemma_binary_advances(ts, pos, Level::Additive);
}

/// What reading a binary operator of a level at `pos` gives.
pub open spec fn operator_at(ts: Seq<Token>, pos: int, level: Level) -> Result<
    BinOp,
    ParserError,
> {
    if pos < 0 || pos >= ts.len() {
        Err(ParserError::Eof)
    } else {
        match binary_operator(level, ts[pos].value) {
            Some(kind) => Ok(BinOp { value: kind, loc: ts[pos].loc }),
            None => Err(ParserError::NotOperator(ts[pos])),
        }
    }
}

/// A cursor over a token sequence with one token of lookahead: `peek` shows
/// the next token, `next` takes it. The cursor never stands behind the end.
pub struct TokenCursor {
    tokens: Vec<Token>,
    pos: usize,
}

impl TokenCursor {
    #[verifier::type_invariant]
    spec fn position_inside(self) -> bool {
        self.pos <= self.tokens.len()
    }

    /// The whole token sequence, taken tokens included.
    pub closed spec fn view(&self) -> Seq<Token> {
        self.tokens@
    }

    /// How many tokens have been taken.
    pub closed spec fn position(&self) -> int {
        self.pos as int
    }

    /// How many tokens are left to take.
    pub open spec fn rest(&self) -> int {
        self@.len() - self.position()
    }

    /// `after` is `self` moved on as reading `expected` says, and `r` is what
    /// was read. After an error the cursor stands somewhere in the same
    /// sequence.
    pub open spec fn read(
        &self,
        after: TokenCursor,
        r: Result<Ast, ParserError>,
        expected: Parsed,
    ) -> bool {
        &&& after@ == self@
        &&& 0 <= after.position() <= after@.len()
        &&& match expected {
            Ok((ast, next)) => r == Ok::<Ast, ParserError>(ast) && after.position() == next,
            Err(err) => r == Err::<Ast, ParserError>(err),
        }
    }

    /// `after` is `self` moved over the operator that `r` holds, or `self`
    /// where `r` is an error.
    pub open spec fn read_operator(
        &self,
        after: TokenCursor,
        r: Result<BinOp, ParserError>,
        level: Level,
    ) -> bool {
        &&& after@ == self@
        &&& r == operator_at(self@, self.position(), level)
        &&& after.position() == if r is Ok {
            self.position() + 1
        } else {
            self.position()
        }
    }

    /// A cursor before the first of the tokens.
    pub fn new(tokens: Vec<Token>) -> (r: Self)
        ensures
            r@ == tokens@,
            r.position() == 0,
    {
        TokenCursor { tokens, pos: 0 }
    }

    /// The next token, if one is left. The cursor stays.
    pub fn peek(&self) -> (r: Option<&Token>)
        ensures
            0 <= self.position() <= self@.len(),
            self.position() < self@.len() ==> r == Some(&self@[self.position()]),
            self.position() == self@.len() ==> r is None,
    {
        proof {
            use_type_invariant(self);
        }
        if self.pos < self.tokens.len() {
            Some(&self.tokens[self.pos])
        } else {
            None
        }
    }

    /// Takes the next token, if one is left, and moves behind it.
    pub fn next(&mut self) -> (r: Option<Token>)
        ensures
            final(self)@ == old(self)@,
            0 <= old(self).position() <= old(self)@.len(),
            old(self).position() < old(self)@.len() ==> r == Some(
                old(self)@[old(self).position()],
            ) && final(self).position() == old(self).position() + 1,
            old(self).position() == old(self)@.len() ==> r is None && final(self).position()
                == old(self).position(),
    {
        proof {
            use_type_invariant(&*self);
        }
        if self.pos < self.tokens.len() {
            let t = self.tokens[self.pos].clone();
            self.pos += 1;
            Some(t)
        } else {
            None
        }
    }
}

/// Parses a token sequence as one expression.
///
/// The result is exactly `parsed` of the tokens: the tree of the expression
/// that they spell, or the first error that reading the grammar meets.
pub fn parse(tokens: Vec<Token>) -> (r: Result<Ast, ParserError>)
    ensures
        r == parsed(tokens@),
{
    let mut tokens = TokenCursor::new(tokens);

    let ret = match parse_entry(&mut tokens) {
        Ok(ret) => ret,
        Err(e) => {
            return Err(e);
        },
    };

    match tokens.next() {
        Some(t) => Err(ParserError::RedundantExpression(t)),
        None => Ok(ret),
    }
}

/// The tree of a source text: its tokens, parsed; or the error of whichever
/// of the two steps fails.
pub open spec fn expression_of(s: Seq<u8>) -> Result<Ast, Error> {
    match tokens_of(s) {
        Ok(ts) => match parsed(ts) {
            Ok(ast) => Ok(ast),
            Err(e) => Err(Error::Parser(e)),
        },
        Err(e) => Err(Error::Lexer(e)),
    }
}

/// Tokenizes and parses a source text.
pub fn parse_expression(source: &str) -> (r: Result<Ast, Error>)
    ensures
        r == expression_of(source.spec_bytes()),
{
    let tokens = match lexer(source) {
        Ok(tokens) => tokens,
        Err(e) => {
            return Err(Error::from(e));
        },
    };
    match parse(tokens) {
        Ok(ast) => Ok(ast),
        Err(e) => Err(Error::from(e)),
    }
}

impl FromStr for Ast {
    type Err = Error;

    /// The same as `parse_expression`.
    fn from_str(s: &str) -> (r: Result<Self, Self::Err>)
        ensures
            r == expression_of(s.spec_bytes()),
    {
        parse_expression(s)
    }
}

/// Reads one expression from the cursor on.
pub fn parse_entry(tokens: &mut TokenCursor) -> (r: Result<Ast, ParserError>)
    ensures
        old(tokens).read(*final(tokens), r, expr_at(old(tokens)@, old(tokens).position())),
    decreases old(tokens).rest(), 8int,
{
    parse_expr3(tokens)
}

/// Reads the additive level: terms joined by `+` and `-`.
pub fn parse_expr3(tokens: &mut TokenCursor) -> (r: Result<Ast, ParserError>)
    ensures
        old(tokens).read(
            *final(tokens),
            r,
            binary_at(old(tokens)@, old(tokens).position(), Level::Additive),
        ),
    decreases old(tokens).rest(), 7int,
{
    parse_left_binop(tokens, Level::Additive)
}

/// Reads the multiplicative level: factors joined by `*` and `/`.
pub fn parse_expr2(tokens: &mut TokenCursor) -> (r: Result<Ast, ParserError>)
    ensures
        old(tokens).read(
            *final(tokens),
            r,
            binary_at(old(tokens)@, old(tokens).position(), Level::Multiplicative),
        ),
    decreases old(tokens).rest(), 4int,
{
    parse_left_binop(tokens, Level::Multiplicative)
}

/// Reads the unary level: an atom, or `+` or `-` before one atom.
pub fn parse_expr1(tokens: &mut TokenCursor) -> (r: Result<Ast, ParserError>)
    ensures
        old(tokens).read(*final(tokens), r, unary_at(old(tokens)@, old(tokens).position())),
    decreases old(tokens).rest(), 1int,
{
    let kind = match tokens.peek() {
        Some(t) => Some(t.value()),
        None => None,
    };
    match kind {
        Some(TokenKind::Plus) => {
            let loc = tokens.next().unwrap().loc();
            let op = UniOp::plus(loc);
            let e = match parse_atom(tokens) {
                Ok(e) => e,
                Err(err) => {
                    return Err(err);
                },
            };
            let loc = op.loc().merge(&e.loc());
            Ok(Ast::uniop(op, e, loc))
        },
        Some(TokenKind::Minus) => {
            let loc = tokens.next().unwrap().loc();
            let op = UniOp::minus(loc);
            let e = match parse_atom(tokens) {
                Ok(e) => e,
                Err(err) => {
                    return Err(err);
                },
            };
            let loc = op.loc().merge(&e.loc());
            Ok(Ast::uniop(op, e, loc))
        },
        _ => parse_atom(tokens),
    }
}

/// Reads a number or a parenthesized expression.
pub fn parse_atom(tokens: &mut TokenCursor) -> (r: Result<Ast, ParserError>)
    ensures
        old(tokens).read(*final(tokens), r, atom_at(old(tokens)@, old(tokens).position())),
    decreases old(tokens).rest(), 0int,
{
    let t = match tokens.next() {
        Some(t) => t,
        None => {
            return Err(ParserError::Eof);
        },
    };
    match t.value() {
        TokenKind::Number(n) => Ok(Ast::new(AstKind::Num(n), t.loc())),
        TokenKind::LParen => {
            let e = match parse_entry(tokens) {
                Ok(e) => e,
                Err(err) => {
                    return Err(err);
                },
            };
            match tokens.next() {
                Some(Token { value: TokenKind::RParen, .. }) => Ok(e),
                Some(t) => Err(ParserError::RedundantExpression(t)),
                _ => Err(ParserError::UnclosedOpenParen(t)),
            }
        },
        _ => Err(ParserError::NotExpression(t)),
    }
}

/// Reads one operand of a level.
pub fn parse_operand(tokens: &mut TokenCursor, level: Level) -> (r: Result<Ast, ParserError>)
    ensures
        old(tokens).read(
            *final(tokens),
            r,
            operand_at(old(tokens)@, old(tokens).position(), level),
        ),
    decreases old(tokens).rest(), level_rank(level),
{
    match level {
        Level::Additive => parse_expr2(tokens),
        Level::Multiplicative => parse_expr1(tokens),
    }
}

/// Takes the next token if it is `+` or `-`.
pub fn additive_operator(tokens: &mut TokenCursor) -> (r: Result<BinOp, ParserError>)
    ensures
        old(tokens).read_operator(*final(tokens), r, Level::Additive),
{
    let op = match tokens.peek() {
        None => {
            return Err(ParserError::Eof);
        },
        Some(t) => match t.value() {
            TokenKind::Plus => BinOp::add(t.loc()),
            TokenKind::Minus => BinOp::sub(t.loc()),
            _ => {
                return Err(ParserError::NotOperator(t.clone()));
            },
        },
    };
    tokens.next();
    Ok(op)
}

/// Takes the next token if it is `*` or `/`.
pub fn multiplicative_operator(tokens: &mut TokenCursor) -> (r: Result<BinOp, ParserError>)
    ensures
        old(tokens).read_operator(*final(tokens), r, Level::Multiplicative),
{
    let op = match tokens.peek() {
        None => {
            return Err(ParserError::Eof);
        },
        Some(t) => match t.value() {
            TokenKind::Asterisk => BinOp::mul(t.loc()),
            TokenKind::Slash => BinOp::div(t.loc()),
            _ => {
                return Err(ParserError::NotOperator(t.clone()));
            },
        },
    };
    tokens.next();
    Ok(op)
}

/// Takes the next token if it is an operator of the level.
pub fn parse_operator(tokens: &mut TokenCursor, level: Level) -> (r: Result<BinOp, ParserError>)
    ensures
        old(tokens).read_operator(*final(tokens), r, level),
{
    match level {
        Level::Additive => additive_operator(tokens),
        Level::Multiplicative => multiplicative_operator(tokens),
    }
}

/// Reads `operand ( operator operand )*` at one level and folds it to the
/// left: `a - b - c` becomes `(a - b) - c`.
pub fn parse_left_binop(tokens: &mut TokenCursor, level: Level) -> (r: Result<Ast, ParserError>)
    ensures
        old(tokens).read(
            *final(tokens),
            r,
            binary_at(old(tokens)@, old(tokens).position(), level),
        ),
    decreases old(tokens).rest(), level_rank(level) + 1,
{
    let ghost ts = tokens@;
    let ghost start = tokens.position();
    let mut l = match parse_operand(tokens, level) {
        Ok(l) => l,
        Err(e) => {
            return Err(e);
        },
    };
    proof {
        lemma_operand_advances(ts, start, level);
    }

    loop
        invariant
            tokens@ == ts,
            old(tokens)@ == ts,
            old(tokens).position() == start,
            start < tokens.position() <= ts.len(),
            binary_at(ts, start, level) == fold_at(ts, tokens.position(), level, l),
        ensures
            tokens@ == ts,
            0 <= tokens.position() <= ts.len(),
            binary_at(ts, start, level) == Ok::<(Ast, int), ParserError>((l, tokens.position())),
        decreases tokens.rest(),
    {
        match tokens.peek() {
            Some(_) => {
                let ghost at = tokens.position();
                let op = match parse_operator(tokens, level) {
                    Ok(op) => op,
                    Err(_) => {
                        break ;
                    },
                };

                let r = match parse_operand(tokens, level) {
                    Ok(r) => r,
                    Err(e) => {
                        return Err(e);
                    },
                };
                proof {
                    lemma_operand_advances(ts, at + 1, level);
                }
                let loc = l.loc().merge(&r.loc());
                l = Ast::binop(op, l, r, loc)
            },
            _ => {
                break ;
            },
        }
    }

    Ok(l)
}

} // verus!
