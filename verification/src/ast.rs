use vstd::prelude::*;

use crate::token::Token;

verus! {

/// A binary operator.
#[derive(Debug, Clone, Copy, PartialEq, Eq, Structural)]
pub enum BinaryOp {
    Add,
    Subtract,
    Multiply,
    Divide,
    Power,
}

/// The syntax tree of an expression.
///
/// `Group` records a pair of parentheses; it does not change the value of
/// what it encloses.
#[derive(Debug, PartialEq)]
pub enum Expr {
    /// A number literal: the characters `[start, end)` of the input.
    Number { start: usize, end: usize },
    /// `( e )`
    Group(Box<Expr>),
    /// `+e`: unary plus.
    Plus(Box<Expr>),
    /// `-e`: negation.
    Minus(Box<Expr>),
    /// `e%`: `e` divided by 100.
    Percent(Box<Expr>),
    /// `l op r`
    Binary(BinaryOp, Box<Expr>, Box<Expr>),
}

/// The token that spells a binary operator.
pub open spec fn op_token(op: BinaryOp) -> Token {
    match op {
        BinaryOp::Add => Token::Plus,
        BinaryOp::Subtract => Token::Minus,
        BinaryOp::Multiply => Token::Multiply,
        BinaryOp::Divide => Token::Divide,
        BinaryOp::Power => Token::Power,
    }
}

/// The tokens of an expression written out left to right, with its groups
/// in parentheses.
pub open spec fn flatten(e: Expr) -> Seq<Token>
    decreases e,
{
    match e {
        Expr::Number { start, end } => seq![Token::Number { start, end }],
        Expr::Group(x) => seq![Token::LParen] + flatten(*x) + seq![Token::RParen],
        Expr::Plus(x) => seq![Token::Plus] + flatten(*x),
        Expr::Minus(x) => seq![Token::Minus] + flatten(*x),
        Expr::Percent(x) => flatten(*x) + seq![Token::Percent],
        Expr::Binary(op, l, r) => flatten(*l) + seq![op_token(op)] + flatten(*r),
    }
}

/// The grammatical class of an expression, from loosest to tightest:
/// 1 sum or difference, 2 product or quotient, 3 power, 4 signed operand,
/// 5 percentage, number or parenthesised group.
pub open spec fn level(e: Expr) -> int {
    match e {
        Expr::Binary(BinaryOp::Add, _, _) | Expr::Binary(BinaryOp::Subtract, _, _) => 1,
        Expr::Binary(BinaryOp::Multiply, _, _) | Expr::Binary(BinaryOp::Divide, _, _) => 2,
        Expr::Binary(BinaryOp::Power, _, _) => 3,
        Expr::Plus(_) | Expr::Minus(_) => 4,
        _ => 5,
    }
}

/// The least class that the left operand of `op` may have without
/// parentheses.
pub open spec fn left_level(op: BinaryOp) -> int {
    match op {
        BinaryOp::Add | BinaryOp::Subtract => 1,
        BinaryOp::Multiply | BinaryOp::Divide => 2,
        BinaryOp::Power => 4,
    }
}

/// The least class that the right operand of `op` may have without
/// parentheses.
pub open spec fn right_level(op: BinaryOp) -> int {
    match op {
        BinaryOp::Add | BinaryOp::Subtract => 2,
        BinaryOp::Multiply | BinaryOp::Divide => 3,
        BinaryOp::Power => 3,
    }
}

/// The tree obeys the precedence grammar
///
/// ```text
/// sum     ::= sum ("+" | "-") product | product
/// product ::= product ("*" | "/") power | power
/// power   ::= signed "**" power | signed
/// signed  ::= ("+" | "-") signed | postfix
/// postfix ::= postfix "%" | number | "(" sum ")"
/// ```
///
/// so `+`, `-`, `*`, `/` associate to the left, `**` to the right, a sign
/// binds tighter than `**`, and `%` tighter than a sign.
pub open spec fn well_formed(e: Expr) -> bool
    decreases e,
{
    match e {
        Expr::Number { .. } => true,
        Expr::Group(x) => well_formed(*x),
        Expr::Plus(x) | Expr::Minus(x) => well_formed(*x) && level(*x) >= 4,
        Expr::Percent(x) => well_formed(*x) && level(*x) == 5,
        Expr::Binary(op, l, r) => well_formed(*l) && well_formed(*r) && level(*l) >= left_level(op)
            && level(*r) >= right_level(op),
    }
}

} // verus!
