use vstd::prelude::*;

verus! {

/// A lexical token of an expression.
///
/// A number is kept as the span of characters `[start, end)` of the input
/// that spells it; turning that text into a value is left to the caller.
#[derive(Debug, Clone, Copy, PartialEq, Eq, Structural)]
pub enum Token {
    Number { start: usize, end: usize },
    Plus,
    Minus,
    Multiply,
    Divide,
    Power,
    Percent,
    LParen,
    RParen,
}

/// How tightly a prefix operator binds its operand.
pub open spec fn spec_prefix_binding_power(op: Token) -> usize {
    7
}

/// How tightly a postfix operator binds its operand, if `op` is one.
pub open spec fn spec_postfix_binding_power(op: Token) -> Option<usize> {
    match op {
        Token::Percent => Some(9),
        _ => None,
    }
}

/// The left and right binding powers of an infix operator, if `op` is one.
/// A left power below the right one makes the operator left-associative.
pub open spec fn spec_infix_binding_power(op: Token) -> Option<(usize, usize)> {
    match op {
        Token::Plus | Token::Minus => Some((1, 2)),
        Token::Multiply | Token::Divide => Some((3, 4)),
        Token::Power => Some((6, 5)),
        _ => None,
    }
}

/// The binding power of the prefix operators `+` and `-`.
pub fn prefix_binding_power(op: &Token) -> (bp: usize)
    requires
        *op == Token::Plus || *op == Token::Minus,
    ensures
        bp == spec_prefix_binding_power(*op),
{
    match op {
        Token::Plus | Token::Minus => 7,
        _ => 7,
    }
}

/// The binding power of the postfix operator `%`; `None` for any other token.
pub fn postfix_binding_power(op: &Token) -> (bp: Option<usize>)
    ensures
        bp == spec_postfix_binding_power(*op),
{
    match op {
        Token::Percent => Some(9),
        _ => None,
    }
}

/// The binding powers of the infix operators; `None` for any other token.
pub fn infix_binding_power(op: &Token) -> (bp: Option<(usize, usize)>)
    ensures
        bp == spec_infix_binding_power(*op),
{
    match op {
        Token::Plus | Token::Minus => Some((1, 2)),
        Token::Multiply | Token::Divide => Some((3, 4)),
        Token::Power => Some((6, 5)),
        _ => None,
    }
}

} // verus!
