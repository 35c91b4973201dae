use calculator::error::Error;
use calculator::lexer::lexer;
use calculator::parser::{
    additive_operator, multiplicative_operator, parse, parse_atom, parse_entry, parse_expr1,
    parse_expr2, parse_expr3, parse_expression, parse_left_binop, parse_operand, parse_operator,
    Ast, AstKind, BinOp, BinOpKind, Level, ParserError, TokenCursor, UniOp, UniOpKind,
};
use calculator::token::{LexError, Location, Token, TokenKind};

fn num(n: u64, start: usize, end: usize) -> Ast {
    Ast::num(n, Location::new(start, end))
}

fn bin(op: BinOp, l: Ast, r: Ast) -> Ast {
    let loc = l.loc().merge(&r.loc());
    Ast::binop(op, l, r, loc)
}

#[test]
fn a_number_is_an_expression() {
    assert_eq!(parse_expression("42"), Ok(num(42, 0, 2)));
    assert_eq!("42".parse::<Ast>(), Ok(num(42, 0, 2)));
}

#[test]
fn subtraction_associates_to_the_left() {
    // (8 - 4) - 2
    let inner = bin(BinOp::sub(Location::new(2, 3)), num(8, 0, 1), num(4, 4, 5));
    let expected = bin(BinOp::sub(Location::new(6, 7)), inner, num(2, 8, 9));
    assert_eq!(parse_expression("8 - 4 - 2"), Ok(expected.clone()));
    assert_eq!(expected.loc(), Location(0, 9));
    match expected.value() {
        AstKind::BinOp { l, r, .. } => {
            assert_eq!(l.loc(), Location(0, 5));
            assert_eq!(*r, num(2, 8, 9));
        }
        _ => panic!("a binary operation was expected"),
    }
}

#[test]
fn division_associates_to_the_left() {
    let inner = bin(BinOp::div(Location::new(1, 2)), num(8, 0, 1), num(4, 2, 3));
    let expected = bin(BinOp::mul(Location::new(3, 4)), inner, num(2, 4, 5));
    assert_eq!(parse_expression("8/4*2"), Ok(expected));
}

#[test]
fn multiplication_binds_tighter_than_addition() {
    // 2 + (3 * 4)
    let product = bin(BinOp::mul(Location::new(6, 7)), num(3, 4, 5), num(4, 8, 9));
    let expected = bin(BinOp::add(Location::new(2, 3)), num(2, 0, 1), product);
    assert_eq!(parse_expression("2 + 3 * 4"), Ok(expected));

    // (2 * 3) + 4
    let product = bin(BinOp::mul(Location::new(2, 3)), num(2, 0, 1), num(3, 4, 5));
    let expected = bin(BinOp::add(Location::new(6, 7)), product, num(4, 8, 9));
    assert_eq!(parse_expression("2 * 3 + 4"), Ok(expected));
}

#[test]
fn parentheses_group_and_leave_no_node() {
    // (1 + 2) * 3
    let sum = bin(BinOp::add(Location::new(3, 4)), num(1, 1, 2), num(2, 5, 6));
    let expected = bin(BinOp::mul(Location::new(8, 9)), sum, num(3, 10, 11));
    let parsed = parse_expression("(1 + 2) * 3");
    assert_eq!(parsed, Ok(expected));
    // The root spans its operands, and the opening parenthesis is none.
    assert_eq!(parsed.unwrap().loc(), Location(1, 11));

    assert_eq!(parse_expression("((7))"), Ok(num(7, 2, 3)));
}

#[test]
fn a_prefix_operator_applies_to_one_atom() {
    let expected = Ast::uniop(UniOp::minus(Location::new(0, 1)), num(10, 2, 4), Location::new(0, 4));
    assert_eq!(parse_expression("- 10"), Ok(expected));

    let expected = Ast::uniop(UniOp::plus(Location::new(0, 1)), num(1, 1, 2), Location::new(0, 2));
    assert_eq!(parse_expression("+1"), Ok(expected));

    // -(1 + 2)
    let sum = bin(BinOp::add(Location::new(4, 5)), num(1, 2, 3), num(2, 6, 7));
    let expected = Ast::uniop(UniOp::minus(Location::new(0, 1)), sum, Location::new(0, 7));
    assert_eq!(parse_expression("-(1 + 2)"), Ok(expected));
}

#[test]
fn a_prefix_operator_binds_tighter_than_a_binary_one() {
    // 1 + 2 * 3 - (- 10)
    let product = bin(BinOp::mul(Location::new(6, 7)), num(2, 4, 5), num(3, 8, 9));
    let sum = bin(BinOp::add(Location::new(2, 3)), num(1, 0, 1), product);
    let negated =
        Ast::uniop(UniOp::minus(Location::new(12, 13)), num(10, 14, 16), Location::new(12, 16));
    let expected = bin(BinOp::sub(Location::new(10, 11)), sum, negated);
    assert_eq!(parse_expression("1 + 2 * 3 - - 10"), Ok(expected));
}

#[test]
fn two_prefix_operators_in_a_row_are_no_expression() {
    assert_eq!(
        parse_expression("- - 1"),
        Err(Error::Parser(ParserError::NotExpression(Token::minus(Location::new(2, 3)))))
    );
}

#[test]
fn a_missing_operand_is_eof() {
    assert_eq!(parse_expression("1 + "), Err(Error::Parser(ParserError::Eof)));
    assert_eq!(parse_expression(""), Err(Error::Parser(ParserError::Eof)));
    assert_eq!(parse_expression("-"), Err(Error::Parser(ParserError::Eof)));
    assert_eq!(parse_expression("("), Err(Error::Parser(ParserError::Eof)));
    assert_eq!(parse(vec![]), Err(ParserError::Eof));
}

#[test]
fn a_token_behind_the_expression_is_redundant() {
    assert_eq!(
        parse_expression("1 2"),
        Err(Error::Parser(ParserError::RedundantExpression(Token::number(2, Location::new(2, 3)))))
    );
    assert_eq!(
        parse_expression("1 + 2 3"),
        Err(Error::Parser(ParserError::RedundantExpression(Token::number(3, Location::new(6, 7)))))
    );
    assert_eq!(
        parse_expression("1)"),
        Err(Error::Parser(ParserError::RedundantExpression(Token::rparen(Location::new(1, 2)))))
    );
    assert_eq!(
        parse_expression("(1 2)"),
        Err(Error::Parser(ParserError::RedundantExpression(Token::number(2, Location::new(3, 4)))))
    );
}

#[test]
fn an_open_parenthesis_must_be_closed() {
    assert_eq!(
        parse_expression("(1 + 2"),
        Err(Error::Parser(ParserError::UnclosedOpenParen(Token::lparen(Location::new(0, 1)))))
    );
    assert_eq!(
        parse_expression("1 * ((2)"),
        Err(Error::Parser(ParserError::UnclosedOpenParen(Token::lparen(Location::new(4, 5)))))
    );
}

#[test]
fn an_operator_where_an_atom_must_stand_is_no_expression() {
    assert_eq!(
        parse_expression("* 1"),
        Err(Error::Parser(ParserError::NotExpression(Token::asterisk(Location::new(0, 1)))))
    );
    assert_eq!(
        parse_expression("1 + )"),
        Err(Error::Parser(ParserError::NotExpression(Token::rparen(Location::new(4, 5)))))
    );
    assert_eq!(
        parse_expression("()"),
        Err(Error::Parser(ParserError::NotExpression(Token::rparen(Location::new(1, 2)))))
    );
}

#[test]
fn a_lexical_error_comes_before_any_syntax_error() {
    assert_eq!(
        parse_expression("1 @ 2"),
        Err(Error::Lexer(LexError::invalid_char('@', Location::new(2, 3))))
    );
    assert_eq!(
        parse_expression("1 + + @"),
        Err(Error::Lexer(LexError::invalid_char('@', Location::new(6, 7))))
    );
}

#[test]
fn errors_lift_into_the_common_type() {
    let lex = LexError::eof(Location::new(3, 3));
    assert_eq!(Error::from(lex.clone()), Error::Lexer(lex));
    let syntax = ParserError::NotOperator(Token::number(1, Location::new(0, 1)));
    assert_eq!(Error::from(syntax.clone()), Error::Parser(syntax.clone()));
    let unexpected = ParserError::UnexpectedToken(Token::slash(Location::new(0, 1)));
    assert_ne!(Error::from(unexpected), Error::Parser(syntax));
}

#[test]
fn parse_takes_the_tokens_as_they_are_given() {
    // The locations need not come from a text.
    let tokens = vec![
        Token::number(1, Location::new(10, 11)),
        Token::plus(Location::new(50, 51)),
        Token::number(2, Location::new(0, 3)),
    ];
    let expected = Ast::binop(
        BinOp::add(Location::new(50, 51)),
        Ast::num(1, Location::new(10, 11)),
        Ast::num(2, Location::new(0, 3)),
        Location::new(0, 11),
    );
    assert_eq!(parse(tokens), Ok(expected));
}

#[test]
fn parse_after_lexer_is_parse_expression() {
    for text in ["1 + 2 * 3 - - 10", "(1 + 2) * 3", "1 + ", "1 2", "(1 + 2", "8/(4-2)"] {
        let tokens = lexer(text).unwrap();
        assert_eq!(parse(tokens).map_err(Error::Parser), parse_expression(text));
    }
}

#[test]
fn whitespace_between_tokens_changes_only_the_locations() {
    fn shape(ast: &Ast) -> String {
        match &ast.value {
            AstKind::Num(n) => format!("{}", n),
            AstKind::UniOp { op, e } => format!("({:?} {})", op.value, shape(e)),
            AstKind::BinOp { op, l, r } => format!("({:?} {} {})", op.value, shape(l), shape(r)),
        }
    }
    let dense = parse_expression("1+2*(3-4)/-5").unwrap();
    let airy = parse_expression(" 1 +\t2 * ( 3\n-  4 ) / - 5 ").unwrap();
    assert_eq!(shape(&dense), shape(&airy));
    assert_eq!(shape(&dense), "(Add 1 (Div (Mul 2 (Sub 3 4)) (Minus 5)))");
    assert_ne!(dense, airy);
    assert_eq!(dense.loc(), Location(0, 12));
    assert_eq!(airy.loc(), Location(1, 25));
}

#[test]
fn operator_constructors_set_the_kind() {
    let loc = Location::new(0, 1);
    assert_eq!(UniOp::plus(loc.clone()).value(), UniOpKind::Plus);
    assert_eq!(UniOp::minus(loc.clone()).value(), UniOpKind::Minus);
    assert_eq!(BinOp::add(loc.clone()).value(), BinOpKind::Add);
    assert_eq!(BinOp::sub(loc.clone()).value(), BinOpKind::Sub);
    assert_eq!(BinOp::mul(loc.clone()).value(), BinOpKind::Mul);
    assert_eq!(BinOp::div(loc.clone()).value(), BinOpKind::Div);
    assert_eq!(BinOp::div(loc.clone()).loc(), loc);
}

#[test]
fn node_constructors_keep_their_parts() {
    let e = Ast::num(3, Location::new(1, 2));
    assert_eq!(e.value(), AstKind::Num(3));
    let u = Ast::uniop(UniOp::minus(Location::new(0, 1)), e.clone(), Location::new(0, 2));
    assert_eq!(
        u.value(),
        AstKind::UniOp { op: UniOp::minus(Location::new(0, 1)), e: Box::new(e.clone()) }
    );
    let b = Ast::binop(BinOp::mul(Location::new(2, 3)), u.clone(), e.clone(), Location::new(0, 9));
    assert_eq!(
        b.value(),
        AstKind::BinOp {
            op: BinOp::mul(Location::new(2, 3)),
            l: Box::new(u),
            r: Box::new(e)
        }
    );
    assert_eq!(b.loc(), Location(0, 9));
    assert_eq!(b.clone(), b);
}

fn cursor(text: &str) -> TokenCursor {
    TokenCursor::new(lexer(text).unwrap())
}

#[test]
fn a_cursor_shows_and_takes_the_next_token() {
    let mut tokens = cursor("1 +");
    assert_eq!(tokens.peek(), Some(&Token::number(1, Location::new(0, 1))));
    assert_eq!(tokens.peek(), Some(&Token::number(1, Location::new(0, 1))));
    assert_eq!(tokens.next(), Some(Token::number(1, Location::new(0, 1))));
    assert_eq!(tokens.peek(), Some(&Token::plus(Location::new(2, 3))));
    assert_eq!(tokens.next(), Some(Token::plus(Location::new(2, 3))));
    assert_eq!(tokens.peek(), None);
    assert_eq!(tokens.next(), None);
    assert_eq!(tokens.next(), None);
}

#[test]
fn an_operator_of_another_level_is_not_taken() {
    let mut tokens = cursor("* +");
    assert_eq!(
        additive_operator(&mut tokens),
        Err(ParserError::NotOperator(Token::asterisk(Location::new(0, 1))))
    );
    assert_eq!(
        parse_operator(&mut tokens, Level::Additive),
        Err(ParserError::NotOperator(Token::asterisk(Location::new(0, 1))))
    );
    assert_eq!(multiplicative_operator(&mut tokens), Ok(BinOp::mul(Location::new(0, 1))));
    assert_eq!(
        multiplicative_operator(&mut tokens),
        Err(ParserError::NotOperator(Token::plus(Location::new(2, 3))))
    );
    assert_eq!(parse_operator(&mut tokens, Level::Additive), Ok(BinOp::add(Location::new(2, 3))));
    assert_eq!(additive_operator(&mut tokens), Err(ParserError::Eof));
    assert_eq!(multiplicative_operator(&mut tokens), Err(ParserError::Eof));
}

#[test]
fn each_operator_is_read_at_its_level() {
    let mut tokens = cursor("+ - * / 1");
    assert_eq!(additive_operator(&mut tokens), Ok(BinOp::add(Location::new(0, 1))));
    assert_eq!(additive_operator(&mut tokens), Ok(BinOp::sub(Location::new(2, 3))));
    assert_eq!(multiplicative_operator(&mut tokens), Ok(BinOp::mul(Location::new(4, 5))));
    assert_eq!(
        parse_operator(&mut tokens, Level::Multiplicative),
        Ok(BinOp::div(Location::new(6, 7)))
    );
    assert_eq!(
        parse_operator(&mut tokens, Level::Multiplicative),
        Err(ParserError::NotOperator(Token::number(1, Location::new(8, 9))))
    );
    assert_eq!(tokens.peek(), Some(&Token::number(1, Location::new(8, 9))));
}

#[test]
fn an_atom_is_a_number_or_a_parenthesized_expression() {
    let mut tokens = cursor("1 (2 + 3) *");
    assert_eq!(parse_atom(&mut tokens), Ok(num(1, 0, 1)));
    let sum = bin(BinOp::add(Location::new(5, 6)), num(2, 3, 4), num(3, 7, 8));
    assert_eq!(parse_atom(&mut tokens), Ok(sum));
    assert_eq!(
        parse_atom(&mut tokens),
        Err(ParserError::NotExpression(Token::asterisk(Location::new(10, 11))))
    );
    assert_eq!(parse_atom(&mut cursor("")), Err(ParserError::Eof));
}

#[test]
fn each_level_stops_at_the_first_token_that_is_not_its_own() {
    let mut tokens = cursor("1 * 2 + 3");
    assert_eq!(parse_expr1(&mut tokens), Ok(num(1, 0, 1)));
    assert_eq!(tokens.peek(), Some(&Token::asterisk(Location::new(2, 3))));

    let product = bin(BinOp::mul(Location::new(2, 3)), num(1, 0, 1), num(2, 4, 5));
    let mut tokens = cursor("1 * 2 + 3");
    assert_eq!(parse_expr2(&mut tokens), Ok(product.clone()));
    assert_eq!(tokens.peek(), Some(&Token::plus(Location::new(6, 7))));

    let mut tokens = cursor("1 * 2 + 3");
    assert_eq!(parse_left_binop(&mut tokens, Level::Multiplicative), Ok(product.clone()));
    let mut tokens = cursor("1 * 2 + 3");
    assert_eq!(parse_operand(&mut tokens, Level::Additive), Ok(product.clone()));
    let mut tokens = cursor("1 * 2 + 3");
    assert_eq!(parse_operand(&mut tokens, Level::Multiplicative), Ok(num(1, 0, 1)));

    let sum = bin(BinOp::add(Location::new(6, 7)), product, num(3, 8, 9));
    let mut tokens = cursor("1 * 2 + 3 )");
    assert_eq!(parse_expr3(&mut tokens), Ok(sum.clone()));
    assert_eq!(tokens.peek(), Some(&Token::rparen(Location::new(10, 11))));
    let mut tokens = cursor("1 * 2 + 3 )");
    assert_eq!(parse_entry(&mut tokens), Ok(sum.clone()));
    let mut tokens = cursor("1 * 2 + 3 )");
    assert_eq!(parse_left_binop(&mut tokens, Level::Additive), Ok(sum));
}

/// The tokens of a tree from left to right, and the smallest location that
/// holds them all.
fn leaves(ast: &Ast, out: &mut Vec<Token>) -> Location {
    match &ast.value {
        AstKind::Num(n) => {
            out.push(Token::number(*n, ast.loc()));
            ast.loc()
        }
        AstKind::UniOp { op, e } => {
            out.push(match op.value {
                UniOpKind::Plus => Token::plus(op.loc()),
                UniOpKind::Minus => Token::minus(op.loc()),
            });
            let inner = leaves(e, out);
            assert_eq!(e.loc(), inner);
            op.loc().merge(&inner)
        }
        AstKind::BinOp { op, l, r } => {
            let left = leaves(l, out);
            assert_eq!(l.loc(), left);
            out.push(match op.value {
                BinOpKind::Add => Token::plus(op.loc()),
                BinOpKind::Sub => Token::minus(op.loc()),
                BinOpKind::Mul => Token::asterisk(op.loc()),
                BinOpKind::Div => Token::slash(op.loc()),
            });
            let right = leaves(r, out);
            assert_eq!(r.loc(), right);
            left.merge(&op.loc()).merge(&right)
        }
    }
}

#[test]
fn every_node_spans_exactly_its_tokens() {
    for text in ["1", "-1", "1 + 2", "1 + 2 * 3 - - 10", "(1 + 2) * 3", " ( ( 4 ) ) / -(5*6+7) "] {
        let tree = parse_expression(text).unwrap();
        let mut tokens = vec![];
        let span = leaves(&tree, &mut tokens);
        assert_eq!(tree.loc(), span);
        assert_eq!(span.0, tokens.first().unwrap().loc().0);
        assert_eq!(span.1, tokens.last().unwrap().loc().1);
    }
}

#[test]
fn a_tree_keeps_every_token_but_the_parentheses() {
    for text in ["1", "-1", "1 + 2 * 3 - - 10", "(1 + 2) * 3", "((4)) / -(5*6+7)"] {
        let tree = parse_expression(text).unwrap();
        let mut tokens = vec![];
        leaves(&tree, &mut tokens);
        let given: Vec<Token> = lexer(text)
            .unwrap()
            .into_iter()
            .filter(|t| t.value() != TokenKind::LParen && t.value() != TokenKind::RParen)
            .collect();
        assert_eq!(tokens, given);
    }
}

#[test]
fn removing_whitespace_between_tokens_keeps_the_tree() {
    let with = parse_expression("( 1 + 2 ) * 3").unwrap();
    let without = parse_expression("(1+2)*3").unwrap();
    let mut a = vec![];
    let mut b = vec![];
    leaves(&with, &mut a);
    leaves(&without, &mut b);
    let kinds = |ts: &Vec<Token>| -> Vec<TokenKind> { ts.iter().map(|t| t.value()).collect() };
    assert_eq!(kinds(&a), kinds(&b));
    // Where whitespace cuts a number in two, the text is another one.
    assert_eq!(
        parse_expression("1 2"),
        Err(Error::Parser(ParserError::RedundantExpression(Token::number(2, Location::new(2, 3)))))
    );
    assert_eq!(parse_expression("12"), Ok(num(12, 0, 2)));
}
