use expression_parser::ast::{BinaryOp, Expr};
use expression_parser::error::ParseError;
use expression_parser::lexer::tokenize;
use expression_parser::parser::{parse_expression, parse_tokens};
use expression_parser::token::{
    infix_binding_power, postfix_binding_power, prefix_binding_power, Token,
};

fn num(start: usize, end: usize) -> Expr {
    Expr::Number { start, end }
}

fn bin(op: BinaryOp, l: Expr, r: Expr) -> Expr {
    Expr::Binary(op, Box::new(l), Box::new(r))
}

fn op_token(op: &BinaryOp) -> Token {
    match op {
        BinaryOp::Add => Token::Plus,
        BinaryOp::Subtract => Token::Minus,
        BinaryOp::Multiply => Token::Multiply,
        BinaryOp::Divide => Token::Divide,
        BinaryOp::Power => Token::Power,
    }
}

/// The tokens of a tree written out left to right.
fn flatten(e: &Expr, out: &mut Vec<Token>) {
    match e {
        Expr::Number { start, end } => out.push(Token::Number { start: *start, end: *end }),
        Expr::Group(x) => {
            out.push(Token::LParen);
            flatten(x, out);
            out.push(Token::RParen);
        }
        Expr::Plus(x) => {
            out.push(Token::Plus);
            flatten(x, out);
        }
        Expr::Minus(x) => {
            out.push(Token::Minus);
            flatten(x, out);
        }
        Expr::Percent(x) => {
            flatten(x, out);
            out.push(Token::Percent);
        }
        Expr::Binary(op, l, r) => {
            flatten(l, out);
            out.push(op_token(op));
            flatten(r, out);
        }
    }
}

fn written_out(e: &Expr) -> Vec<Token> {
    let mut out = Vec::new();
    flatten(e, &mut out);
    out
}

// ---------- Lexer ----------

#[test]
fn tokenize_spans_numbers_and_operators() {
    let (toks, err) = tokenize("1.5e+2 ** (3)%");
    assert_eq!(err, None);
    assert_eq!(
        toks,
        vec![
            Token::Number { start: 0, end: 6 },
            Token::Power,
            Token::LParen,
            Token::Number { start: 11, end: 12 },
            Token::RParen,
            Token::Percent,
        ]
    );
}

#[test]
fn tokenize_stops_at_unexpected_char() {
    let (toks, err) = tokenize("1 + a 2");
    assert_eq!(toks, vec![Token::Number { start: 0, end: 1 }, Token::Plus]);
    assert_eq!(err, Some(ParseError::UnexpectedChar('a')));
}

#[test]
fn exponent_without_digits_is_not_part_of_the_number() {
    let (toks, err) = tokenize("1e");
    assert_eq!(toks, vec![Token::Number { start: 0, end: 1 }]);
    assert_eq!(err, Some(ParseError::UnexpectedChar('e')));
    let (toks, err) = tokenize("2E-");
    assert_eq!(toks, vec![Token::Number { start: 0, end: 1 }]);
    assert_eq!(err, Some(ParseError::UnexpectedChar('E')));
}

#[test]
fn numbers_are_read_by_longest_match() {
    let (toks, err) = tokenize("1.2.3");
    assert_eq!(err, None);
    assert_eq!(
        toks,
        vec![Token::Number { start: 0, end: 3 }, Token::Number { start: 3, end: 5 }]
    );
    assert_eq!(parse_expression("1.2.3"), Err(ParseError::ExpectedOperator));
}

#[test]
fn lone_dot_is_unexpected() {
    assert_eq!(parse_expression("."), Err(ParseError::UnexpectedChar('.')));
}

#[test]
fn form_feed_is_skipped_but_carriage_return_is_not() {
    assert_eq!(parse_expression("\u{c}7\u{c}"), Ok(num(1, 2)));
    assert_eq!(parse_expression("7\r"), Err(ParseError::UnexpectedChar('\r')));
}

#[test]
fn number_spans_count_characters() {
    let (toks, err) = tokenize("\u{3000}");
    assert_eq!(toks, vec![]);
    assert_eq!(err, Some(ParseError::UnexpectedChar('\u{3000}')));
    assert_eq!(parse_expression("1 + é"), Err(ParseError::UnexpectedChar('é')));
}

// ---------- Binding powers ----------

#[test]
fn binding_powers() {
    assert_eq!(prefix_binding_power(&Token::Minus), 7);
    assert_eq!(prefix_binding_power(&Token::Plus), 7);
    assert_eq!(postfix_binding_power(&Token::Percent), Some(9));
    assert_eq!(postfix_binding_power(&Token::Plus), None);
    assert_eq!(infix_binding_power(&Token::Plus), Some((1, 2)));
    assert_eq!(infix_binding_power(&Token::Divide), Some((3, 4)));
    assert_eq!(infix_binding_power(&Token::Power), Some((6, 5)));
    assert_eq!(infix_binding_power(&Token::Percent), None);
}

// ---------- Trees ----------

#[test]
fn tree_of_mixed_precedence() {
    // 1 + 2 * 3 ** 4
    assert_eq!(
        parse_expression("1 + 2 * 3 ** 4"),
        Ok(bin(
            BinaryOp::Add,
            num(0, 1),
            bin(BinaryOp::Multiply, num(4, 5), bin(BinaryOp::Power, num(8, 9), num(13, 14)))
        ))
    );
}

#[test]
fn tree_of_signs_and_percent() {
    // -2 ** 50% is (-2) ** (50%)
    assert_eq!(
        parse_expression("-2 ** 50%"),
        Ok(bin(
            BinaryOp::Power,
            Expr::Minus(Box::new(num(1, 2))),
            Expr::Percent(Box::new(num(6, 8)))
        ))
    );
}

#[test]
fn stray_close_paren_ends_the_expression() {
    assert_eq!(parse_expression("1 ) 2"), Ok(num(0, 1)));
    assert_eq!(parse_expression("1 ) 2 a"), Ok(num(0, 1)));
    // the lexer is asked for the token after `)` before the parser stops
    assert_eq!(parse_expression("1 ) a"), Err(ParseError::UnexpectedChar('a')));
}

#[test]
fn lexical_error_surfaces_only_when_reached() {
    // two operands in a row, then a bad character one token further on
    assert_eq!(parse_expression("1 2"), Err(ParseError::ExpectedOperator));
    assert_eq!(parse_expression("1 2 a"), Err(ParseError::UnexpectedChar('a')));
}

#[test]
fn parse_tokens_reports_the_early_lexical_error() {
    assert_eq!(
        parse_tokens(&vec![Token::Number { start: 0, end: 1 }], Some(ParseError::UnexpectedChar('x'))),
        Err(ParseError::UnexpectedChar('x'))
    );
    assert_eq!(parse_tokens(&vec![], None), Err(ParseError::InvalidLHS));
}

// ---------- Laws on concrete values ----------

#[test]
fn parsed_tree_writes_out_to_its_tokens() {
    for s in ["1 + 2 * 3", "-(1 + 2) ** 3 % - 4 / 5", "((1))%%", "2 ** -3 ** 2 - 1 - 1"] {
        let (toks, err) = tokenize(s);
        assert_eq!(err, None);
        let e = parse_expression(s).unwrap();
        assert_eq!(written_out(&e), toks);
    }
}

#[test]
fn well_formed_tree_is_parsed_back() {
    // (a - b) - c, a ** (b ** c), -(x%) * (y + z)
    let trees = vec![
        bin(BinaryOp::Subtract, bin(BinaryOp::Subtract, num(0, 1), num(1, 2)), num(2, 3)),
        bin(BinaryOp::Power, num(0, 1), bin(BinaryOp::Power, num(1, 2), num(2, 3))),
        bin(
            BinaryOp::Multiply,
            Expr::Minus(Box::new(Expr::Percent(Box::new(num(0, 1))))),
            Expr::Group(Box::new(bin(BinaryOp::Add, num(1, 2), num(2, 3)))),
        ),
    ];
    for e in trees {
        assert_eq!(parse_tokens(&written_out(&e), None), Ok(e));
    }
}

#[test]
fn ill_formed_tree_is_not_parsed_back() {
    // a - (b - c) without its parentheses reads as (a - b) - c
    let e = bin(BinaryOp::Subtract, num(0, 1), bin(BinaryOp::Subtract, num(1, 2), num(2, 3)));
    assert_ne!(parse_tokens(&written_out(&e), None), Ok(e));
}

// ---------- Errors ----------

#[test]
fn error_messages() {
    assert_eq!(ParseError::UnexpectedChar('a').message(), "Unexpected character: a");
    assert_eq!(ParseError::UnexpectedEOF.message(), "Unexpected EOF");
    assert_eq!(ParseError::ExpectedChar(')').message(), "Expected a \")\" character");
    assert_eq!(ParseError::ExpectedOperator.message(), "Expected an operator");
    assert_eq!(ParseError::InvalidLHS.message(), "Invalid left-hand side");
    assert_eq!(ParseError::Other.message(), "Unknown error");
}

#[test]
fn default_error_is_other() {
    assert_eq!(ParseError::default(), ParseError::Other);
}

// ---------- Whitespace and composition ----------

/// A tree with the number spans that start at `from` or later moved by `d`.
fn shifted(e: &Expr, from: usize, d: usize) -> Expr {
    match e {
        Expr::Number { start, end } => {
            if *start >= from {
                num(start + d, end + d)
            } else {
                num(*start, *end)
            }
        }
        Expr::Group(x) => Expr::Group(Box::new(shifted(x, from, d))),
        Expr::Plus(x) => Expr::Plus(Box::new(shifted(x, from, d))),
        Expr::Minus(x) => Expr::Minus(Box::new(shifted(x, from, d))),
        Expr::Percent(x) => Expr::Percent(Box::new(shifted(x, from, d))),
        Expr::Binary(op, l, r) => bin(*op, shifted(l, from, d), shifted(r, from, d)),
    }
}

#[test]
fn whitespace_between_tokens_only_moves_spans() {
    // "12+3*4" with "\t \n" put in after "12" (position 2)
    let plain = parse_expression("12+3*4").unwrap();
    let spaced = parse_expression("12\t \n+3*4").unwrap();
    assert_eq!(spaced, shifted(&plain, 2, 3));
    let (toks, _) = tokenize("12\t \n+3*4");
    let (plain_toks, _) = tokenize("12+3*4");
    assert_eq!(toks.len(), plain_toks.len());
    assert_eq!(toks[2], Token::Number { start: 6, end: 7 });
    // errors stay the same
    assert_eq!(parse_expression("1 +"), parse_expression("1 +  "));
    // also after the character at which lexing stops
    assert_eq!(parse_expression("a"), Err(ParseError::UnexpectedChar('a')));
    assert_eq!(parse_expression("a \t"), Err(ParseError::UnexpectedChar('a')));
    assert_eq!(parse_expression("1+x2"), parse_expression("1+x 2"));
}

#[test]
fn parenthesized_operands_compose() {
    let a = parse_expression("1+2").unwrap();
    let b = parse_expression("3**4").unwrap();
    // "(" a ")" "*" "(" b ")": b starts at len(a) + len("*") + 3 = 7
    assert_eq!(
        parse_expression("(1+2)*(3**4)"),
        Ok(bin(
            BinaryOp::Multiply,
            Expr::Group(Box::new(shifted(&a, 0, 1))),
            Expr::Group(Box::new(shifted(&b, 0, 7)))
        ))
    );
    assert_eq!(
        parse_expression("-(1+2)"),
        Ok(Expr::Minus(Box::new(Expr::Group(Box::new(shifted(&a, 0, 2))))))
    );
    assert_eq!(
        parse_expression("(1+2)%"),
        Ok(Expr::Percent(Box::new(Expr::Group(Box::new(shifted(&a, 0, 1))))))
    );
}

#[test]
fn two_operators_on_text() {
    // `-` then `*`: the product takes the middle operand
    assert_eq!(
        parse_expression("1.5-2e3*4"),
        Ok(bin(BinaryOp::Subtract, num(0, 3), bin(BinaryOp::Multiply, num(4, 7), num(8, 9))))
    );
    // `/` then `/`: left-associative
    assert_eq!(
        parse_expression("8/4/2"),
        Ok(bin(BinaryOp::Divide, bin(BinaryOp::Divide, num(0, 1), num(2, 3)), num(4, 5)))
    );
    // `**` then `**`: right-associative
    assert_eq!(
        parse_expression("2**3**.5"),
        Ok(bin(BinaryOp::Power, num(0, 1), bin(BinaryOp::Power, num(3, 4), num(6, 8))))
    );
}

#[test]
fn error_causes_stand_in_the_tokens() {
    // an operand after a `%`
    assert_eq!(parse_expression("5% 3"), Err(ParseError::ExpectedOperator));
    // an unclosed `(`
    assert_eq!(parse_expression("((1)"), Err(ParseError::ExpectedChar(')')));
    // an operand due before `*`
    assert_eq!(parse_expression("1 + * 2"), Err(ParseError::InvalidLHS));
}

#[test]
fn from_lexer_names_the_character() {
    assert_eq!(ParseError::from_lexer(&vec!['a', 'b'], 0), ParseError::UnexpectedChar('a'));
    assert_eq!(ParseError::from_lexer(&vec!['a', 'b'], 1), ParseError::UnexpectedChar('b'));
    assert_eq!(ParseError::from_lexer(&vec![], 0), ParseError::UnexpectedEOF);
}
