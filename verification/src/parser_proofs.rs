//! What holds of every parsed tree: where its locations come from, and that
//! its shape depends on the kinds of the tokens alone.

use crate::error::Error;
use crate::lexer::tokens_of;
use crate::lexer_proofs::{
    between_tokens, placed, theorem_tokens_spell_the_text, theorem_whitespace_keeps_tokens,
    token_kinds,
};
use crate::parser::{
    atom_at, binary_at, binary_node, binary_operator, expr_at, expression_of, fold_at,
    lemma_atom_advances, lemma_expr_advances, lemma_operand_advances, level_rank, number_node,
    operand_at, parsed, unary_at, unary_operator, Ast, AstKind, BinOp, BinOpKind, Level, Parsed,
    ParserError, UniOp, UniOpKind,
};
use crate::token::{Location, Token, TokenKind};
use vstd::prelude::*;

verus! {

/// Every operator node of the tree spans exactly its parts: a prefix
/// operation its operator and its operand, a binary operation its two
/// operands.
pub open spec fn spans_parts(ast: Ast) -> bool
    decreases ast,
{
    match ast.value {
        AstKind::Num(_) => true,
        AstKind::UniOp { op, e } => ast.loc == op.loc.spec_merge(e.loc) && spans_parts(*e),
        AstKind::BinOp { op, l, r } => ast.loc == l.loc.spec_merge(r.loc) && spans_parts(*l)
            && spans_parts(*r),
    }
}

/// A production that succeeds gives a tree whose nodes span their parts.
spec fn gives_spans_parts(r: Parsed) -> bool {
    r is Ok ==> spans_parts(r->Ok_0.0)
}

proof fn lemma_atom_spans_parts(ts: Seq<Token>, pos: int)
    ensures
        gives_spans_parts(atom_at(ts, pos)),
    decreases ts.len() - pos, 0int,
{
    if 0 <= pos < ts.len() && ts[pos].value is LParen {
        lemma_expr_spans_parts(ts, pos + 1);
    }
}

proof fn lemma_unary_spans_parts(ts: Seq<Token>, pos: int)
    ensures
        gives_spans_parts(unary_at(ts, pos)),
    decreases ts.len() - pos, 1int,
{
    if 0 <= pos < ts.len() && unary_operator(ts[pos].value) is Some {
        lemma_atom_spans_parts(ts, pos + 1);
    } else {
        lemma_atom_spans_parts(ts, pos);
    }
}

proof fn lemma_operand_spans_parts(ts: Seq<Token>, pos: int, level: Level)
    ensures
        gives_spans_parts(operand_at(ts, pos, level)),
    decreases ts.len() - pos, level_rank(level),
{
    match level {
        Level::Additive => lemma_binary_spans_parts(ts, pos, Level::Multiplicative),
        Level::Multiplicative => lemma_unary_spans_parts(ts, pos),
    }
}

proof fn lemma_binary_spans_parts(ts: Seq<Token>, pos: int, level: Level)
    ensures
        gives_spans_parts(binary_at(ts, pos, level)),
    decreases ts.len() - pos, level_rank(level) + 1,
{
    lemma_operand_spans_parts(ts, pos, level);
    if let Ok((left, next)) = operand_at(ts, pos, level) {
        if pos < next <= ts.len() {
            lemma_fold_spans_parts(ts, next, level, left);
        }
    }
}

proof fn lemma_fold_spans_parts(ts: Seq<Token>, pos: int, level: Level, left: Ast)
    requires
        spans_parts(left),
    ensures
        gives_spans_parts(fold_at(ts, pos, level, left)),
    decreases ts.len() - pos, 0int,
{
    if 0 <= pos < ts.len() && binary_operator(level, ts[pos].value) is Some {
        let op = BinOp { value: binary_operator(level, ts[pos].value)->Some_0, loc: ts[pos].loc };
        lemma_operand_spans_parts(ts, pos + 1, level);
        if let Ok((right, next)) = operand_at(ts, pos + 1, level) {
            if pos < next <= ts.len() {
                lemma_fold_spans_parts(ts, next, level, binary_node(op, left, right));
            }
        }
    }
}

proof fn lemma_expr_spans_parts(ts: Seq<Token>, pos: int)
    ensures
        gives_spans_parts(expr_at(ts, pos)),
    decreases ts.len() - pos, 8int,
{
    lemma_binary_spans_parts(ts, pos, Level::Additive);
}

/// In every parsed tree each node spans exactly its parts, whatever the
/// locations of the tokens are.
pub proof fn theorem_nodes_span_their_parts(ts: Seq<Token>)
    ensures
        parsed(ts) is Ok ==> spans_parts(parsed(ts)->Ok_0),
{
    lemma_expr_spans_parts(ts, 0);
}

/// The smallest location that holds every token of the tree: its numbers
/// and its operators. Parentheses leave no node, so they are none of these.
pub open spec fn tokens_span(ast: Ast) -> Location
    decreases ast,
{
    match ast.value {
        AstKind::Num(_) => ast.loc,
        AstKind::UniOp { op, e } => op.loc.spec_merge(tokens_span(*e)),
        AstKind::BinOp { op, l, r } => tokens_span(*l).spec_merge(op.loc).spec_merge(
            tokens_span(*r),
        ),
    }
}

/// Every node of the tree spans exactly the tokens under it.
pub open spec fn spans_tokens(ast: Ast) -> bool
    decreases ast,
{
    &&& ast.loc == tokens_span(ast)
    &&& match ast.value {
        AstKind::Num(_) => true,
        AstKind::UniOp { op, e } => spans_tokens(*e),
        AstKind::BinOp { op, l, r } => spans_tokens(*l) && spans_tokens(*r),
    }
}

/// The tokens stand as in a source text: none ends before it starts, and each
/// ends before the next one starts.
pub open spec fn in_source_order(ts: Seq<Token>) -> bool {
    &&& forall|k: int| 0 <= k < ts.len() ==> (#[trigger] ts[k]).loc.well_formed()
    &&& forall|j: int, k: int|
        0 <= j < k < ts.len() ==> (#[trigger] ts[j]).loc.1 <= (#[trigger] ts[k]).loc.0
}

/// The tree spans its tokens, and lies between the start of token `from` and
/// the end of the token before `to`.
spec fn fits(ts: Seq<Token>, from: int, to: int, ast: Ast) -> bool {
    &&& 0 <= from < to <= ts.len()
    &&& spans_tokens(ast)
    &&& ts[from].loc.0 <= ast.loc.0 <= ast.loc.1 <= ts[to - 1].loc.1
}

spec fn gives_fit(ts: Seq<Token>, pos: int, r: Parsed) -> bool {
    r is Ok ==> fits(ts, pos, r->Ok_0.1, r->Ok_0.0)
}

proof fn lemma_atom_fits(ts: Seq<Token>, pos: int)
    requires
        in_source_order(ts),
    ensures
        gives_fit(ts, pos, atom_at(ts, pos)),
    decreases ts.len() - pos, 0int,
{
    if 0 <= pos < ts.len() && ts[pos].value is LParen {
        lemma_expr_fits(ts, pos + 1);
        if let Ok((e, next)) = expr_at(ts, pos + 1) {
            if 0 <= next < ts.len() {
                assert(ts[pos].loc.1 <= ts[pos + 1].loc.0);
                assert(ts[next - 1].loc.1 <= ts[next].loc.0);
            }
        }
    }
}

proof fn lemma_unary_fits(ts: Seq<Token>, pos: int)
    requires
        in_source_order(ts),
    ensures
        gives_fit(ts, pos, unary_at(ts, pos)),
    decreases ts.len() - pos, 1int,
{
    if 0 <= pos < ts.len() && unary_operator(ts[pos].value) is Some {
        lemma_atom_fits(ts, pos + 1);
        if atom_at(ts, pos + 1) is Ok {
            assert(ts[pos].loc.1 <= ts[pos + 1].loc.0);
        }
    } else {
        lemma_atom_fits(ts, pos);
    }
}

proof fn lemma_operand_fits(ts: Seq<Token>, pos: int, level: Level)
    requires
        in_source_order(ts),
    ensures
        gives_fit(ts, pos, operand_at(ts, pos, level)),
    decreases ts.len() - pos, level_rank(level),
{
    match level {
        Level::Additive => lemma_binary_fits(ts, pos, Level::Multiplicative),
        Level::Multiplicative => lemma_unary_fits(ts, pos),
    }
}

proof fn lemma_binary_fits(ts: Seq<Token>, pos: int, level: Level)
    requires
        in_source_order(ts),
    ensures
        gives_fit(ts, pos, binary_at(ts, pos, level)),
    decreases ts.len() - pos, level_rank(level) + 1,
{
    lemma_operand_fits(ts, pos, level);
    if let Ok((left, next)) = operand_at(ts, pos, level) {
        if pos < next <= ts.len() {
            lemma_fold_fits(ts, pos, next, level, left);
        }
    }
}

proof fn lemma_fold_fits(ts: Seq<Token>, from: int, pos: int, level: Level, left: Ast)
    requires
        in_source_order(ts),
        fits(ts, from, pos, left),
    ensures
        fold_at(ts, pos, level, left) is Ok ==> fits(
            ts,
            from,
            fold_at(ts, pos, level, left)->Ok_0.1,
            fold_at(ts, pos, level, left)->Ok_0.0,
        ),
    decreases ts.len() - pos, 0int,
{
    if 0 <= pos < ts.len() && binary_operator(level, ts[pos].value) is Some {
        let op = BinOp { value: binary_operator(level, ts[pos].value)->Some_0, loc: ts[pos].loc };
        lemma_operand_fits(ts, pos + 1, level);
        if let Ok((right, next)) = operand_at(ts, pos + 1, level) {
            if pos < next <= ts.len() {
                assert(ts[pos - 1].loc.1 <= ts[pos].loc.0);
                assert(ts[pos].loc.1 <= ts[pos + 1].loc.0);
                assert(ts[pos].loc.well_formed());
                lemma_fold_fits(ts, from, next, level, binary_node(op, left, right));
            }
        }
    }
}

proof fn lemma_expr_fits(ts: Seq<Token>, pos: int)
    requires
        in_source_order(ts),
    ensures
        gives_fit(ts, pos, expr_at(ts, pos)),
    decreases ts.len() - pos, 8int,
{
    lemma_binary_fits(ts, pos, Level::Additive);
}

/// Where the tokens stand as in a source text, every node of the parsed tree
/// spans exactly the tokens under it, no more and no less.
pub proof fn theorem_nodes_span_their_tokens(ts: Seq<Token>)
    requires
        in_source_order(ts),
    ensures
        parsed(ts) is Ok ==> spans_tokens(parsed(ts)->Ok_0),
{
    lemma_expr_fits(ts, 0);
}

/// In the tree of a source text every node spans exactly the tokens under
/// it: the node's location starts where its first token starts and ends where
/// its last token ends.
pub proof fn theorem_expression_spans_its_tokens(s: Seq<u8>)
    requires
        s.len() <= usize::MAX,
    ensures
        expression_of(s) is Ok ==> spans_tokens(expression_of(s)->Ok_0),
{
    if tokens_of(s) is Ok {
        let ts = tokens_of(s)->Ok_0;
        theorem_tokens_spell_the_text(s);
        assert forall|k: int| 0 <= k < ts.len() implies (#[trigger] ts[k]).loc.well_formed() by {
            assert(placed(s, 0, ts[k]));
        }
        theorem_nodes_span_their_tokens(ts);
    }
}

/// A tree without its locations.
pub enum Shape {
    Num(u64),
    UniOp(UniOpKind, Box<Shape>),
    BinOp(BinOpKind, Box<Shape>, Box<Shape>),
}

/// The operators, the numbers and the nesting of a tree.
pub open spec fn shape_of(ast: Ast) -> Shape
    decreases ast,
{
    match ast.value {
        AstKind::Num(n) => Shape::Num(n),
        AstKind::UniOp { op, e } => Shape::UniOp(op.value, Box::new(shape_of(*e))),
        AstKind::BinOp { op, l, r } => Shape::BinOp(
            op.value,
            Box::new(shape_of(*l)),
            Box::new(shape_of(*r)),
        ),
    }
}

/// Two productions ended alike: both failed, or both succeeded at the same
/// place with trees of one shape.
spec fn alike(r1: Parsed, r2: Parsed) -> bool {
    match (r1, r2) {
        (Ok((a1, n1)), Ok((a2, n2))) => n1 == n2 && shape_of(a1) == shape_of(a2),
        (Err(_), Err(_)) => true,
        _ => false,
    }
}

/// The two sequences have the same kinds of tokens in the same order.
pub open spec fn same_kinds(ts1: Seq<Token>, ts2: Seq<Token>) -> bool {
    &&& ts1.len() == ts2.len()
    &&& forall|k: int| 0 <= k < ts1.len() ==> (#[trigger] ts1[k]).value == ts2[k].value
}

proof fn lemma_atom_alike(ts1: Seq<Token>, ts2: Seq<Token>, pos: int)
    requires
        same_kinds(ts1, ts2),
    ensures
        alike(atom_at(ts1, pos), atom_at(ts2, pos)),
    decreases ts1.len() - pos, 0int,
{
    if 0 <= pos < ts1.len() {
        assert(ts1[pos].value == ts2[pos].value);
        if ts1[pos].value is LParen {
            lemma_expr_alike(ts1, ts2, pos + 1);
            if let Ok((e, next)) = expr_at(ts1, pos + 1) {
                if 0 <= next < ts1.len() {
                    assert(ts1[next].value == ts2[next].value);
                }
            }
        }
    }
}

proof fn lemma_unary_alike(ts1: Seq<Token>, ts2: Seq<Token>, pos: int)
    requires
        same_kinds(ts1, ts2),
    ensures
        alike(unary_at(ts1, pos), unary_at(ts2, pos)),
    decreases ts1.len() - pos, 1int,
{
    if 0 <= pos < ts1.len() {
        assert(ts1[pos].value == ts2[pos].value);
    }
    if 0 <= pos < ts1.len() && unary_operator(ts1[pos].value) is Some {
        lemma_atom_alike(ts1, ts2, pos + 1);
    } else {
        lemma_atom_alike(ts1, ts2, pos);
    }
}

proof fn lemma_operand_alike(ts1: Seq<Token>, ts2: Seq<Token>, pos: int, level: Level)
    requires
        same_kinds(ts1, ts2),
    ensures
        alike(operand_at(ts1, pos, level), operand_at(ts2, pos, level)),
    decreases ts1.len() - pos, level_rank(level),
{
    match level {
        Level::Additive => lemma_binary_alike(ts1, ts2, pos, Level::Multiplicative),
        Level::Multiplicative => lemma_unary_alike(ts1, ts2, pos),
    }
}

proof fn lemma_binary_alike(ts1: Seq<Token>, ts2: Seq<Token>, pos: int, level: Level)
    requires
        same_kinds(ts1, ts2),
    ensures
        alike(binary_at(ts1, pos, level), binary_at(ts2, pos, level)),
    decreases ts1.len() - pos, level_rank(level) + 1,
{
    lemma_operand_alike(ts1, ts2, pos, level);
    if let Ok((left1, next)) = operand_at(ts1, pos, level) {
        if pos < next <= ts1.len() {
            let left2 = operand_at(ts2, pos, level)->Ok_0.0;
            lemma_fold_alike(ts1, ts2, next, level, left1, left2);
        }
    }
}

proof fn lemma_fold_alike(
    ts1: Seq<Token>,
    ts2: Seq<Token>,
    pos: int,
    level: Level,
    left1: Ast,
    left2: Ast,
)
    requires
        same_kinds(ts1, ts2),
        shape_of(left1) == shape_of(left2),
    ensures
        alike(fold_at(ts1, pos, level, left1), fold_at(ts2, pos, level, left2)),
    decreases ts1.len() - pos, 0int,
{
    if 0 <= pos < ts1.len() {
        assert(ts1[pos].value == ts2[pos].value);
    }
    if 0 <= pos < ts1.len() && binary_operator(level, ts1[pos].value) is Some {
        let kind = binary_operator(level, ts1[pos].value)->Some_0;
        lemma_operand_alike(ts1, ts2, pos + 1, level);
        if let Ok((right1, next)) = operand_at(ts1, pos + 1, level) {
            if pos < next <= ts1.len() {
                let right2 = operand_at(ts2, pos + 1, level)->Ok_0.0;
                lemma_fold_alike(
                    ts1,
                    ts2,
                    next,
                    level,
                    binary_node(BinOp { value: kind, loc: ts1[pos].loc }, left1, right1),
                    binary_node(BinOp { value: kind, loc: ts2[pos].loc }, left2, right2),
                );
            }
        }
    }
}

proof fn lemma_expr_alike(ts1: Seq<Token>, ts2: Seq<Token>, pos: int)
    requires
        same_kinds(ts1, ts2),
    ensures
        alike(expr_at(ts1, pos), expr_at(ts2, pos)),
    decreases ts1.len() - pos, 8int,
{
    lemma_binary_alike(ts1, ts2, pos, Level::Additive);
}

/// The shape of a parser's result: that of the tree, or nothing where
/// parsing failed.
pub open spec fn parsed_shape(r: Result<Ast, ParserError>) -> Option<Shape> {
    match r {
        Ok(ast) => Some(shape_of(ast)),
        Err(_) => None,
    }
}

/// The shape of a parsed tree depends on the kinds of the tokens alone: two
/// sequences of the same kinds give trees of the same shape, or both give
/// none.
pub proof fn theorem_shape_ignores_locations(ts1: Seq<Token>, ts2: Seq<Token>)
    requires
        same_kinds(ts1, ts2),
    ensures
        parsed_shape(parsed(ts1)) == parsed_shape(parsed(ts2)),
{
    lemma_expr_alike(ts1, ts2, 0);
}

/// The shape of the tree of a source text, or nothing where the text is no
/// expression.
pub open spec fn expression_shape(r: Result<Ast, Error>) -> Option<Shape> {
    match r {
        Ok(ast) => Some(shape_of(ast)),
        Err(_) => None,
    }
}

/// Whitespace between tokens does not change what a text means: with or
/// without `ws` between `a` and `b`, the text has a tree of the same shape,
/// with the same operators and numbers, or it has none either way.
pub proof fn theorem_whitespace_keeps_shape(a: Seq<u8>, ws: Seq<u8>, b: Seq<u8>)
    requires
        between_tokens(a, ws, b),
    ensures
        expression_shape(expression_of(a + ws + b)) == expression_shape(expression_of(a + b)),
{
    theorem_whitespace_keeps_tokens(a, ws, b);
    let r1 = tokens_of(a + ws + b);
    let r2 = tokens_of(a + b);
    if r1 is Ok {
        let ts1 = r1->Ok_0;
        let ts2 = r2->Ok_0;
        assert(token_kinds(ts1) == token_kinds(ts2));
        assert(ts1.len() == token_kinds(ts1).len());
        assert(ts2.len() == token_kinds(ts2).len());
        assert forall|k: int| 0 <= k < ts1.len() implies (#[trigger] ts1[k]).value
            == ts2[k].value by {
            assert(token_kinds(ts1)[k] == ts1[k].value);
            assert(token_kinds(ts2)[k] == ts2[k].value);
        }
        theorem_shape_ignores_locations(ts1, ts2);
    }
}

/// The token that a prefix operator was read from.
pub open spec fn unary_token(op: UniOp) -> Token {
    Token {
        value: match op.value {
            UniOpKind::Plus => TokenKind::Plus,
            UniOpKind::Minus => TokenKind::Minus,
        },
        loc: op.loc,
    }
}

/// The token that a binary operator was read from.
pub open spec fn binary_token(op: BinOp) -> Token {
    Token {
        value: match op.value {
            BinOpKind::Add => TokenKind::Plus,
            BinOpKind::Sub => TokenKind::Minus,
            BinOpKind::Mul => TokenKind::Asterisk,
            BinOpKind::Div => TokenKind::Slash,
        },
        loc: op.loc,
    }
}

/// The tokens of a tree, read from left to right: its numbers and operators.
pub open spec fn leaves(ast: Ast) -> Seq<Token>
    decreases ast,
{
    match ast.value {
        AstKind::Num(n) => seq![Token { value: TokenKind::Number(n), loc: ast.loc }],
        AstKind::UniOp { op, e } => seq![unary_token(op)] + leaves(*e),
        AstKind::BinOp { op, l, r } => leaves(*l) + seq![binary_token(op)] + leaves(*r),
    }
}

pub open spec fn is_paren(t: Token) -> bool {
    t.value is LParen || t.value is RParen
}

/// The tokens from `from` up to `to` that are no parentheses.
pub open spec fn without_parens(ts: Seq<Token>, from: int, to: int) -> Seq<Token>
    decreases to - from,
{
    if from < 0 || to > ts.len() || from >= to {
        Seq::empty()
    } else if is_paren(ts[from]) {
        without_parens(ts, from + 1, to)
    } else {
        seq![ts[from]] + without_parens(ts, from + 1, to)
    }
}

proof fn lemma_without_parens_split(ts: Seq<Token>, from: int, mid: int, to: int)
    requires
        0 <= from <= mid <= to <= ts.len(),
    ensures
        without_parens(ts, from, to) == without_parens(ts, from, mid) + without_parens(ts, mid, to),
    decreases mid - from,
{
    if from < mid {
        lemma_without_parens_split(ts, from + 1, mid, to);
        assert(seq![ts[from]] + (without_parens(ts, from + 1, mid) + without_parens(ts, mid, to))
            =~= seq![ts[from]] + without_parens(ts, from + 1, mid) + without_parens(ts, mid, to));
    } else {
        assert(without_parens(ts, from, mid) + without_parens(ts, mid, to) =~= without_parens(
            ts,
            mid,
            to,
        ));
    }
}

proof fn lemma_without_parens_one(ts: Seq<Token>, at: int)
    requires
        0 <= at < ts.len(),
    ensures
        without_parens(ts, at, at + 1) == if is_paren(ts[at]) {
            Seq::<Token>::empty()
        } else {
            seq![ts[at]]
        },
{
    assert(without_parens(ts, at + 1, at + 1) =~= Seq::<Token>::empty());
    assert(seq![ts[at]] + Seq::<Token>::empty() =~= seq![ts[at]]);
}

/// A production that succeeds gives a tree whose tokens are those that it
/// has read, but for the parentheses.
spec fn gives_leaves(ts: Seq<Token>, pos: int, r: Parsed) -> bool {
    r is Ok ==> leaves(r->Ok_0.0) == without_parens(ts, pos, r->Ok_0.1)
}

proof fn lemma_atom_leaves(ts: Seq<Token>, pos: int)
    ensures
        gives_leaves(ts, pos, atom_at(ts, pos)),
    decreases ts.len() - pos, 0int,
{
    if 0 <= pos < ts.len() {
        lemma_without_parens_one(ts, pos);
        if ts[pos].value is LParen {
            lemma_expr_leaves(ts, pos + 1);
            lemma_expr_advances(ts, pos + 1);
            if let Ok((e, next)) = expr_at(ts, pos + 1) {
                if 0 <= next < ts.len() && ts[next].value is RParen {
                    lemma_without_parens_one(ts, next);
                    lemma_without_parens_split(ts, pos, pos + 1, next + 1);
                    lemma_without_parens_split(ts, pos + 1, next, next + 1);
                    assert(Seq::<Token>::empty() + (leaves(e) + Seq::<Token>::empty()) =~= leaves(
                        e,
                    ));
                }
            }
        }
    }
}

proof fn lemma_unary_leaves(ts: Seq<Token>, pos: int)
    ensures
        gives_leaves(ts, pos, unary_at(ts, pos)),
    decreases ts.len() - pos, 1int,
{
    if 0 <= pos < ts.len() && unary_operator(ts[pos].value) is Some {
        lemma_atom_leaves(ts, pos + 1);
        lemma_atom_advances(ts, pos + 1);
        if let Ok((e, next)) = atom_at(ts, pos + 1) {
            lemma_without_parens_one(ts, pos);
            lemma_without_parens_split(ts, pos, pos + 1, next);
        }
    } else {
        lemma_atom_leaves(ts, pos);
    }
}

proof fn lemma_operand_leaves(ts: Seq<Token>, pos: int, level: Level)
    ensures
        gives_leaves(ts, pos, operand_at(ts, pos, level)),
    decreases ts.len() - pos, level_rank(level),
{
    match level {
        Level::Additive => lemma_binary_leaves(ts, pos, Level::Multiplicative),
        Level::Multiplicative => lemma_unary_leaves(ts, pos),
    }
}

proof fn lemma_binary_leaves(ts: Seq<Token>, pos: int, level: Level)
    ensures
        gives_leaves(ts, pos, binary_at(ts, pos, level)),
    decreases ts.len() - pos, level_rank(level) + 1,
{
    lemma_operand_leaves(ts, pos, level);
    lemma_operand_advances(ts, pos, level);
    if let Ok((left, next)) = operand_at(ts, pos, level) {
        lemma_fold_leaves(ts, pos, next, level, left);
    }
}

proof fn lemma_fold_leaves(ts: Seq<Token>, from: int, pos: int, level: Level, left: Ast)
    requires
        0 <= from <= pos <= ts.len(),
        leaves(left) == without_parens(ts, from, pos),
    ensures
        fold_at(ts, pos, level, left) is Ok ==> leaves(fold_at(ts, pos, level, left)->Ok_0.0)
            == without_parens(ts, from, fold_at(ts, pos, level, left)->Ok_0.1),
    decreases ts.len() - pos, 0int,
{
    if 0 <= pos < ts.len() && binary_operator(level, ts[pos].value) is Some {
        let op = BinOp { value: binary_operator(level, ts[pos].value)->Some_0, loc: ts[pos].loc };
        lemma_operand_leaves(ts, pos + 1, level);
        lemma_operand_advances(ts, pos + 1, level);
        if let Ok((right, next)) = operand_at(ts, pos + 1, level) {
            lemma_without_parens_one(ts, pos);
            lemma_without_parens_split(ts, from, pos, next);
            lemma_without_parens_split(ts, pos, pos + 1, next);
            assert(binary_token(op) == ts[pos]);
            assert(leaves(left) + seq![ts[pos]] + leaves(right) =~= leaves(left) + (seq![ts[pos]]
                + leaves(right)));
            lemma_fold_leaves(ts, from, next, level, binary_node(op, left, right));
        }
    }
}

proof fn lemma_expr_leaves(ts: Seq<Token>, pos: int)
    ensures
        gives_leaves(ts, pos, expr_at(ts, pos)),
    decreases ts.len() - pos, 8int,
{
    lemma_binary_leaves(ts, pos, Level::Additive);
}

/// A parsed tree holds every token that was given, each once and in the
/// order given, but for the parentheses: read from left to right, the numbers
/// and operators of the tree are the tokens without the parentheses.
pub proof fn theorem_tree_keeps_the_tokens(ts: Seq<Token>)
    ensures
        parsed(ts) is Ok ==> leaves(parsed(ts)->Ok_0) == without_parens(ts, 0, ts.len() as int),
{
    lemma_expr_leaves(ts, 0);
    lemma_expr_advances(ts, 0);
}

/// The errors that parsing a token sequence can end in: the end of the
/// input, or one of the given tokens, which then is a token that the error
/// can be about.
pub open spec fn raised_by(ts: Seq<Token>, e: ParserError) -> bool {
    match e {
        ParserError::Eof => true,
        ParserError::NotExpression(t) => ts.contains(t) && !(t.value is Number) && !(t.value
            is LParen),
        ParserError::UnclosedOpenParen(t) => ts.contains(t) && t.value is LParen,
        ParserError::RedundantExpression(t) => ts.contains(t),
        ParserError::UnexpectedToken(_) => false,
        ParserError::NotOperator(_) => false,
    }
}

spec fn fails_as_raised(ts: Seq<Token>, r: Parsed) -> bool {
    r is Err ==> raised_by(ts, r->Err_0)
}

proof fn lemma_atom_errors(ts: Seq<Token>, pos: int)
    ensures
        fails_as_raised(ts, atom_at(ts, pos)),
    decreases ts.len() - pos, 0int,
{
    if 0 <= pos < ts.len() {
        assert(ts.contains(ts[pos]));
        if ts[pos].value is LParen {
            lemma_expr_errors(ts, pos + 1);
            if let Ok((e, next)) = expr_at(ts, pos + 1) {
                if 0 <= next < ts.len() {
                    assert(ts.contains(ts[next]));
                }
            }
        }
    }
}

proof fn lemma_unary_errors(ts: Seq<Token>, pos: int)
    ensures
        fails_as_raised(ts, unary_at(ts, pos)),
    decreases ts.len() - pos, 1int,
{
    if 0 <= pos < ts.len() && unary_operator(ts[pos].value) is Some {
        lemma_atom_errors(ts, pos + 1);
    } else {
        lemma_atom_errors(ts, pos);
    }
}

proof fn lemma_operand_errors(ts: Seq<Token>, pos: int, level: Level)
    ensures
        fails_as_raised(ts, operand_at(ts, pos, level)),
    decreases ts.len() - pos, level_rank(level),
{
    match level {
        Level::Additive => lemma_binary_errors(ts, pos, Level::Multiplicative),
        Level::Multiplicative => lemma_unary_errors(ts, pos),
    }
}

proof fn lemma_binary_errors(ts: Seq<Token>, pos: int, level: Level)
    ensures
        fails_as_raised(ts, binary_at(ts, pos, level)),
    decreases ts.len() - pos, level_rank(level) + 1,
{
    lemma_operand_errors(ts, pos, level);
    if let Ok((left, next)) = operand_at(ts, pos, level) {
        if pos < next <= ts.len() {
            lemma_fold_errors(ts, next, level, left);
        }
    }
}

proof fn lemma_fold_errors(ts: Seq<Token>, pos: int, level: Level, left: Ast)
    ensures
        fails_as_raised(ts, fold_at(ts, pos, level, left)),
    decreases ts.len() - pos, 0int,
{
    if 0 <= pos < ts.len() && binary_operator(level, ts[pos].value) is Some {
        let op = BinOp { value: binary_operator(level, ts[pos].value)->Some_0, loc: ts[pos].loc };
        lemma_operand_errors(ts, pos + 1, level);
        if let Ok((right, next)) = operand_at(ts, pos + 1, level) {
            if pos < next <= ts.len() {
                lemma_fold_errors(ts, next, level, binary_node(op, left, right));
            }
        }
    }
}

proof fn lemma_expr_errors(ts: Seq<Token>, pos: int)
    ensures
        fails_as_raised(ts, expr_at(ts, pos)),
    decreases ts.len() - pos, 8int,
{
    lemma_binary_errors(ts, pos, Level::Additive);
}

/// Parsing fails in four ways only: `Eof`, `NotExpression`,
/// `UnclosedOpenParen` and `RedundantExpression`, each but `Eof` about one of
/// the given tokens. It never ends in `UnexpectedToken` or `NotOperator`: a
/// token that is no operator ends a run of operands without an error.
pub proof fn theorem_parse_errors(ts: Seq<Token>)
    ensures
        parsed(ts) is Err ==> raised_by(ts, parsed(ts)->Err_0),
{
    lemma_expr_errors(ts, 0);
    lemma_expr_advances(ts, 0);
    if let Ok((ast, next)) = expr_at(ts, 0) {
        if 0 <= next < ts.len() {
            assert(ts.contains(ts[next]));
        }
    }
}

/// The node of a number token.
pub open spec fn number_of(t: Token) -> Ast {
    number_node(t.value->Number_0, t.loc)
}

/// The operator that a token is at a level.
pub open spec fn operator_of(level: Level, t: Token) -> BinOp {
    BinOp { value: binary_operator(level, t.value)->Some_0, loc: t.loc }
}

/// A number is a whole operand of `*` and `/`.
proof fn lemma_number_is_a_factor(ts: Seq<Token>, pos: int)
    requires
        0 <= pos < ts.len(),
        ts[pos].value is Number,
    ensures
        operand_at(ts, pos, Level::Multiplicative) == Ok::<(Ast, int), ParserError>(
            (number_of(ts[pos]), pos + 1),
        ),
{
    assert(atom_at(ts, pos) == Ok::<(Ast, int), ParserError>((number_of(ts[pos]), pos + 1)));
    assert(unary_at(ts, pos) == atom_at(ts, pos));
}

/// A number that no `*` or `/` follows is a whole operand of `+` and `-`.
proof fn lemma_number_is_a_term(ts: Seq<Token>, pos: int)
    requires
        0 <= pos < ts.len(),
        ts[pos].value is Number,
        pos + 1 < ts.len() ==> binary_operator(Level::Multiplicative, ts[pos + 1].value) is None,
    ensures
        operand_at(ts, pos, Level::Additive) == Ok::<(Ast, int), ParserError>(
            (number_of(ts[pos]), pos + 1),
        ),
{
    lemma_number_is_a_factor(ts, pos);
    assert(fold_at(ts, pos + 1, Level::Multiplicative, number_of(ts[pos])) == Ok::<
        (Ast, int),
        ParserError,
    >((number_of(ts[pos]), pos + 1)));
    assert(binary_at(ts, pos, Level::Multiplicative) == Ok::<(Ast, int), ParserError>(
        (number_of(ts[pos]), pos + 1),
    ));
}

/// Three numbers joined by two operators of `level` group to the left.
proof fn lemma_chain_of_three(ts: Seq<Token>, level: Level)
    requires
        ts.len() == 5,
        ts[0].value is Number,
        ts[2].value is Number,
        ts[4].value is Number,
        binary_operator(level, ts[1].value) is Some,
        binary_operator(level, ts[3].value) is Some,
    ensures
        binary_at(ts, 0, level) == Ok::<(Ast, int), ParserError>(
            (
                binary_node(
                    operator_of(level, ts[3]),
                    binary_node(operator_of(level, ts[1]), number_of(ts[0]), number_of(ts[2])),
                    number_of(ts[4]),
                ),
                5,
            ),
        ),
{
    let first = binary_node(operator_of(level, ts[1]), number_of(ts[0]), number_of(ts[2]));
    let both = binary_node(operator_of(level, ts[3]), first, number_of(ts[4]));
    match level {
        Level::Additive => {
            lemma_number_is_a_term(ts, 0);
            lemma_number_is_a_term(ts, 2);
            lemma_number_is_a_term(ts, 4);
        },
        Level::Multiplicative => {
            lemma_number_is_a_factor(ts, 0);
            lemma_number_is_a_factor(ts, 2);
            lemma_number_is_a_factor(ts, 4);
        },
    }
    assert(fold_at(ts, 5, level, both) == Ok::<(Ast, int), ParserError>((both, 5)));
    assert(fold_at(ts, 3, level, first) == Ok::<(Ast, int), ParserError>((both, 5)));
    assert(fold_at(ts, 1, level, number_of(ts[0])) == Ok::<(Ast, int), ParserError>((both, 5)));
}

/// Operators of one level associate to the left: whatever the numbers, the
/// places and the two operators of one level are, `a op1 b op2 c` is parsed as
/// `(a op1 b) op2 c`.
pub proof fn theorem_left_associative(
    a: Token,
    op1: Token,
    b: Token,
    op2: Token,
    c: Token,
    level: Level,
)
    requires
        a.value is Number,
        b.value is Number,
        c.value is Number,
        binary_operator(level, op1.value) is Some,
        binary_operator(level, op2.value) is Some,
    ensures
        parsed(seq![a, op1, b, op2, c]) == Ok::<Ast, ParserError>(
            binary_node(
                operator_of(level, op2),
                binary_node(operator_of(level, op1), number_of(a), number_of(b)),
                number_of(c),
            ),
        ),
{
    let ts = seq![a, op1, b, op2, c];
    let tree = binary_node(
        operator_of(level, op2),
        binary_node(operator_of(level, op1), number_of(a), number_of(b)),
        number_of(c),
    );
    lemma_chain_of_three(ts, level);
    match level {
        Level::Additive => {},
        Level::Multiplicative => {
            assert(operand_at(ts, 0, Level::Additive) == binary_at(ts, 0, Level::Multiplicative));
            assert(fold_at(ts, 5, Level::Additive, tree) == Ok::<(Ast, int), ParserError>(
                (tree, 5),
            ));
            assert(binary_at(ts, 0, Level::Additive) == Ok::<(Ast, int), ParserError>((tree, 5)));
        },
    }
    assert(expr_at(ts, 0) == binary_at(ts, 0, Level::Additive));
}

/// `*` and `/` bind tighter than `+` and `-`: whatever the numbers, the
/// places and the operators are, `a + b * c` is parsed as `a + (b * c)` and
/// `a * b + c` as `(a * b) + c`.
pub proof fn theorem_precedence(a: Token, b: Token, c: Token, plus: Token, times: Token)
    requires
        a.value is Number,
        b.value is Number,
        c.value is Number,
        binary_operator(Level::Additive, plus.value) is Some,
        binary_operator(Level::Multiplicative, times.value) is Some,
    ensures
        parsed(seq![a, plus, b, times, c]) == Ok::<Ast, ParserError>(
            binary_node(
                operator_of(Level::Additive, plus),
                number_of(a),
                binary_node(operator_of(Level::Multiplicative, times), number_of(b), number_of(c)),
            ),
        ),
        parsed(seq![a, times, b, plus, c]) == Ok::<Ast, ParserError>(
            binary_node(
                operator_of(Level::Additive, plus),
                binary_node(operator_of(Level::Multiplicative, times), number_of(a), number_of(b)),
                number_of(c),
            ),
        ),
{
    let add = operator_of(Level::Additive, plus);
    let mul = operator_of(Level::Multiplicative, times);
    {
        let ts = seq![a, plus, b, times, c];
        let product = binary_node(mul, number_of(b), number_of(c));
        let tree = binary_node(add, number_of(a), product);
        lemma_number_is_a_term(ts, 0);
        lemma_number_is_a_factor(ts, 2);
        lemma_number_is_a_factor(ts, 4);
        assert(fold_at(ts, 5, Level::Multiplicative, product) == Ok::<(Ast, int), ParserError>(
            (product, 5),
        ));
        assert(fold_at(ts, 3, Level::Multiplicative, number_of(b)) == Ok::<
            (Ast, int),
            ParserError,
        >((product, 5)));
        assert(binary_at(ts, 2, Level::Multiplicative) == Ok::<(Ast, int), ParserError>(
            (product, 5),
        ));
        assert(operand_at(ts, 2, Level::Additive) == binary_at(ts, 2, Level::Multiplicative));
        assert(fold_at(ts, 5, Level::Additive, tree) == Ok::<(Ast, int), ParserError>((tree, 5)));
        assert(fold_at(ts, 1, Level::Additive, number_of(a)) == Ok::<(Ast, int), ParserError>(
            (tree, 5),
        ));
        assert(binary_at(ts, 0, Level::Additive) == Ok::<(Ast, int), ParserError>((tree, 5)));
        assert(expr_at(ts, 0) == binary_at(ts, 0, Level::Additive));
    }
    {
        let ts = seq![a, times, b, plus, c];
        let product = binary_node(mul, number_of(a), number_of(b));
        let tree = binary_node(add, product, number_of(c));
        lemma_number_is_a_factor(ts, 0);
        lemma_number_is_a_factor(ts, 2);
        lemma_number_is_a_term(ts, 4);
        assert(fold_at(ts, 3, Level::Multiplicative, product) == Ok::<(Ast, int), ParserError>(
            (product, 3),
        ));
        assert(fold_at(ts, 1, Level::Multiplicative, number_of(a)) == Ok::<
            (Ast, int),
            ParserError,
        >((product, 3)));
        assert(binary_at(ts, 0, Level::Multiplicative) == Ok::<(Ast, int), ParserError>(
            (product, 3),
        ));
        assert(operand_at(ts, 0, Level::Additive) == binary_at(ts, 0, Level::Multiplicative));
        assert(fold_at(ts, 5, Level::Additive, tree) == Ok::<(Ast, int), ParserError>((tree, 5)));
        assert(fold_at(ts, 3, Level::Additive, product) == Ok::<(Ast, int), ParserError>(
            (tree, 5),
        ));
        assert(binary_at(ts, 0, Level::Additive) == Ok::<(Ast, int), ParserError>((tree, 5)));
        assert(expr_at(ts, 0) == binary_at(ts, 0, Level::Additive));
    }
}

} // verus!
