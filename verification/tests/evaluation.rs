use expression_parser::ast::{BinaryOp, Expr};
use expression_parser::error::ParseError;
use expression_parser::parser::parse_expression;

/// The value of a number literal spelled by the characters `[start, end)`.
fn number_value(s: &str, start: usize, end: usize) -> f64 {
    let text: String = s.chars().skip(start).take(end - start).collect();
    text.parse::<f64>().expect("a number token spells a number")
}

/// The value of a syntax tree in `f64` arithmetic.
fn value(s: &str, e: &Expr) -> f64 {
    match e {
        Expr::Number { start, end } => number_value(s, *start, *end),
        Expr::Group(x) | Expr::Plus(x) => value(s, x),
        Expr::Minus(x) => -value(s, x),
        Expr::Percent(x) => value(s, x) * 0.01,
        Expr::Binary(op, l, r) => {
            let l = value(s, l);
            let r = value(s, r);
            match op {
                BinaryOp::Add => l + r,
                BinaryOp::Subtract => l - r,
                BinaryOp::Multiply => l * r,
                BinaryOp::Divide => l / r,
                BinaryOp::Power => l.powf(r),
            }
        }
    }
}

fn eval(s: &str) -> f64 {
    let e = parse_expression(s).expect("expected expression to parse");
    value(s, &e)
}

fn err(s: &str) -> ParseError {
    parse_expression(s).expect_err("expected expression to fail to parse")
}

// ---------- Numbers ----------

#[test]
fn parses_integer() {
    assert_eq!(eval("42"), 42.0);
}

#[test]
fn parses_zero() {
    assert_eq!(eval("0"), 0.0);
}

#[test]
fn parses_decimal() {
    assert_eq!(eval("1.25"), 1.25);
}

#[test]
fn parses_decimal_leading_dot() {
    assert_eq!(eval(".5"), 0.5);
}

#[test]
fn parses_decimal_trailing_dot() {
    assert_eq!(eval("5."), 5.0);
}

#[test]
fn parses_scientific_notation_positive_exponent() {
    assert_eq!(eval("1e+5"), 100_000.0);
}

#[test]
fn parses_scientific_notation_negative_exponent() {
    assert_eq!(eval("1e-5"), 0.000_01);
}

#[test]
fn parses_decimal_with_scientific_notation() {
    assert_eq!(eval("1.5e+2"), 150.0);
}

#[test]
fn uppercase_e_in_scientific_notation() {
    assert_eq!(eval("1E+5"), 100_000.0);
}

#[test]
fn unsigned_exponent_is_valid() {
    assert_eq!(eval("2e5"), 200_000.0);
}

// ---------- Individual operators ----------

#[test]
fn addition() {
    assert_eq!(eval("1 + 2"), 3.0);
}

#[test]
fn subtraction() {
    assert_eq!(eval("5 - 3"), 2.0);
}

#[test]
fn multiplication() {
    assert_eq!(eval("4 * 3"), 12.0);
}

#[test]
fn division() {
    assert_eq!(eval("10 / 4"), 2.5);
}

#[test]
fn power() {
    assert_eq!(eval("2 ** 10"), 1024.0);
}

#[test]
fn power_fractional_exponent() {
    assert!((eval("9 ** 0.5") - 3.0).abs() < 1e-12);
}

#[test]
fn percent_postfix() {
    assert_eq!(eval("50%"), 0.5);
}

#[test]
fn percent_chained() {
    // 5% = 0.05, then 0.05% = 0.0005
    assert_eq!(eval("5%%"), 0.0005);
}

// ---------- Unary operators ----------

#[test]
fn unary_plus() {
    assert_eq!(eval("+5"), 5.0);
}

#[test]
fn unary_minus() {
    assert_eq!(eval("-5"), -5.0);
}

#[test]
fn double_negation() {
    assert_eq!(eval("--5"), 5.0);
}

#[test]
fn mixed_unary_signs() {
    assert_eq!(eval("-+-+5"), 5.0);
}

#[test]
fn unary_minus_on_decimal() {
    assert_eq!(eval("-3.5"), -3.5);
}

#[test]
fn binary_op_followed_by_unary() {
    // `1 + + 2` -> 1 + (+2) = 3
    assert_eq!(eval("1 + + 2"), 3.0);
}

#[test]
fn binary_op_followed_by_unary_minus() {
    // `1 - -2` -> 1 - (-2) = 3
    assert_eq!(eval("1 - -2"), 3.0);
}

// ---------- Precedence ----------

#[test]
fn multiplication_binds_tighter_than_addition() {
    assert_eq!(eval("1 + 2 * 3"), 7.0);
    assert_eq!(eval("2 * 3 + 1"), 7.0);
}

#[test]
fn division_binds_tighter_than_subtraction() {
    assert_eq!(eval("10 - 6 / 2"), 7.0);
}

#[test]
fn power_binds_tighter_than_multiplication() {
    assert_eq!(eval("2 * 3 ** 2"), 18.0);
}

#[test]
fn power_binds_tighter_than_addition() {
    assert_eq!(eval("1 + 2 ** 3"), 9.0);
}

#[test]
fn unary_minus_binds_tighter_than_power() {
    // Prefix minus has binding power 7, `**` has (6, 5).
    // So `-2 ** 2` parses as `(-2) ** 2` = 4.
    assert_eq!(eval("-2 ** 2"), 4.0);
}

#[test]
fn percent_binds_tighter_than_addition() {
    assert_eq!(eval("100 + 50%"), 100.5);
}

#[test]
fn percent_binds_tighter_than_multiplication() {
    assert_eq!(eval("2 * 50%"), 1.0);
}

#[test]
fn percent_binds_tighter_than_power() {
    // `2 ** 50%` -> `2 ** 0.5` = sqrt(2)
    assert!((eval("2 ** 50%") - 2f64.sqrt()).abs() < 1e-12);
}

#[test]
fn percent_binds_tighter_than_unary_minus() {
    // Postfix `%` (bp 9) is tighter than prefix `-` (bp 7).
    // So `-50%` is `-(50%)` = -0.5.
    assert_eq!(eval("-50%"), -0.5);
}

#[test]
fn precedence_combined() {
    // 1 + 2 * 3 ** 2 = 1 + 2 * 9 = 19
    assert_eq!(eval("1 + 2 * 3 ** 2"), 19.0);
}

// ---------- Associativity ----------

#[test]
fn subtraction_is_left_associative() {
    // (10 - 3) - 2 = 5, not 10 - (3 - 2) = 9
    assert_eq!(eval("10 - 3 - 2"), 5.0);
}

#[test]
fn division_is_left_associative() {
    // (16 / 4) / 2 = 2, not 16 / (4 / 2) = 8
    assert_eq!(eval("16 / 4 / 2"), 2.0);
}

#[test]
fn addition_is_left_associative() {
    assert_eq!(eval("1 + 2 + 3"), 6.0);
}

#[test]
fn multiplication_is_left_associative() {
    assert_eq!(eval("2 * 3 * 4"), 24.0);
}

#[test]
fn power_is_right_associative() {
    // 2 ** (3 ** 2) = 2 ** 9 = 512, not (2 ** 3) ** 2 = 64
    assert_eq!(eval("2 ** 3 ** 2"), 512.0);
}

// ---------- Parentheses ----------

#[test]
fn simple_parentheses() {
    assert_eq!(eval("(1 + 2)"), 3.0);
}

#[test]
fn parentheses_override_precedence() {
    assert_eq!(eval("(1 + 2) * 3"), 9.0);
}

#[test]
fn parentheses_on_right_side() {
    assert_eq!(eval("3 * (1 + 2)"), 9.0);
}

#[test]
fn nested_parentheses() {
    assert_eq!(eval("((1 + 2) * (3 + 4))"), 21.0);
}

#[test]
fn parentheses_with_unary_minus() {
    assert_eq!(eval("-(1 + 2)"), -3.0);
}

#[test]
fn parenthesized_power_left_associative() {
    // (2 ** 3) ** 2 = 64, contrasting with right-associativity test above.
    assert_eq!(eval("(2 ** 3) ** 2"), 64.0);
}

#[test]
fn parentheses_with_percent() {
    // (1 + 1)% = 2% = 0.02
    assert_eq!(eval("(1 + 1)%"), 0.02);
}

// ---------- Whitespace ----------

#[test]
fn leading_and_trailing_whitespace() {
    assert_eq!(eval("   1 + 2   "), 3.0);
}

#[test]
fn whitespace_between_all_tokens() {
    assert_eq!(eval(" ( 1 + 2 ) * 3 "), 9.0);
}

#[test]
fn no_whitespace_required() {
    assert_eq!(eval("1+2*3"), 7.0);
}

#[test]
fn tabs_and_newlines_skipped() {
    assert_eq!(eval("1\t+\n2"), 3.0);
}

// ---------- Errors ----------

#[test]
fn empty_string_is_invalid_lhs() {
    assert_eq!(err(""), ParseError::InvalidLHS);
}

#[test]
fn whitespace_only_is_invalid_lhs() {
    assert_eq!(err("   "), ParseError::InvalidLHS);
}

#[test]
fn lone_operator_is_invalid_lhs() {
    // `*` cannot start an expression.
    assert_eq!(err("*"), ParseError::InvalidLHS);
}

#[test]
fn lone_close_paren_is_invalid_lhs() {
    assert_eq!(err(")"), ParseError::InvalidLHS);
}

#[test]
fn empty_parentheses_are_invalid_lhs() {
    assert_eq!(err("()"), ParseError::InvalidLHS);
}

#[test]
fn trailing_binary_operator_is_invalid_lhs() {
    assert_eq!(err("1 +"), ParseError::InvalidLHS);
}

#[test]
fn trailing_binary_operator_after_expression() {
    assert_eq!(err("1 + 2 *"), ParseError::InvalidLHS);
}

#[test]
fn unary_with_no_operand_is_invalid_lhs() {
    assert_eq!(err("-"), ParseError::InvalidLHS);
}

#[test]
fn unclosed_paren_expects_close() {
    assert_eq!(err("(1 + 2"), ParseError::ExpectedChar(')'));
}

#[test]
fn unclosed_outer_paren_with_inner_close() {
    assert_eq!(err("((1 + 2)"), ParseError::ExpectedChar(')'));
}

#[test]
fn lone_open_paren_is_invalid_lhs() {
    // The inner expression is empty, so the LHS check trips first.
    assert_eq!(err("("), ParseError::InvalidLHS);
}

#[test]
fn two_numbers_in_a_row_expect_operator() {
    assert_eq!(err("1 2"), ParseError::ExpectedOperator);
}

#[test]
fn number_followed_by_open_paren_expects_operator() {
    // No implicit multiplication.
    assert_eq!(err("2(3)"), ParseError::ExpectedOperator);
}

#[test]
fn unrecognized_character_at_start() {
    assert_eq!(err("a"), ParseError::UnexpectedChar('a'));
}

#[test]
fn unrecognized_character_mid_expression() {
    assert_eq!(err("1 + a"), ParseError::UnexpectedChar('a'));
}

// ---------- IEEE 754 edge cases ----------

#[test]
fn division_by_zero_yields_infinity() {
    assert!(eval("1 / 0").is_infinite());
    assert!(eval("1 / 0").is_sign_positive());
}

#[test]
fn negative_division_by_zero_yields_negative_infinity() {
    let v = eval("-1 / 0");
    assert!(v.is_infinite() && v.is_sign_negative());
}

#[test]
fn zero_divided_by_zero_is_nan() {
    assert!(eval("0 / 0").is_nan());
}


// ---------- Meaning of compositions ----------

#[test]
fn parenthesized_operands_compose_in_value() {
    let a = "2*(3+1)";
    let b = "10/4";
    let (va, vb) = (eval(a), eval(b));
    assert_eq!(eval("(2*(3+1))+(10/4)"), va + vb);
    assert_eq!(eval("(2*(3+1))-(10/4)"), va - vb);
    assert_eq!(eval("(2*(3+1))*(10/4)"), va * vb);
    assert_eq!(eval("(2*(3+1))/(10/4)"), va / vb);
    assert_eq!(eval("(2*(3+1))**(10/4)"), va.powf(vb));
    assert_eq!(eval("-(2*(3+1))"), -va);
    assert_eq!(eval("+(2*(3+1))"), va);
    assert_eq!(eval("(2*(3+1))"), va);
    assert_eq!(eval("(2*(3+1))%"), va * 0.01);
}

#[test]
fn two_operators_group_by_precedence_in_value() {
    assert_eq!(eval("1-2*3"), eval("1-(2*3)"));
    assert_eq!(eval("7-2-3"), eval("(7-2)-3"));
    assert_eq!(eval("8/4/2"), eval("(8/4)/2"));
    assert_eq!(eval("2**3**2"), eval("2**(3**2)"));
    assert_eq!(eval("2*3**2"), eval("2*(3**2)"));
    assert_eq!(eval("2**3*2"), eval("(2**3)*2"));
    assert_eq!(eval("1.5/2e1+4"), eval("(1.5/2e1)+4"));
}
