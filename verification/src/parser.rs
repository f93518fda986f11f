use vstd::prelude::*;

use crate::ast::{BinaryOp, Expr, flatten, well_formed};
use crate::grammar::{
    lemma_lexical_error_timing,
    lemma_parse_by_automaton,
    token_automaton,
    error_cause,
    lemma_parse_error_causes,
    lemma_parse_characterized,
    lemma_parse_errors,
    lemma_parse_sound,
    parser_error,
    lemma_parse_complete,
    lemma_parse_expression_errors,
    lemma_parse_expression_sound,
};
use crate::error::ParseError;
use crate::lexer::{no_token_at, spec_tokenize, tokenize};
use crate::token::{
    Token,
    infix_binding_power,
    postfix_binding_power,
    prefix_binding_power,
    spec_infix_binding_power,
    spec_postfix_binding_power,
    spec_prefix_binding_power,
};

verus! {

// The parser reads the tokens one at a time with one token of lookahead.
// The lexer is asked for a token only when the parser moves onto the token
// before it, so a lexical error surfaces only once the parser gets that far:
// making token `p` the current one requires the token at `p + 1` to lex.
// With `toks` the tokens that lexed and `err` the error after them, moving
// onto token `p + 1` fails exactly when `p + 2 == toks.len()` and `err` is set.

/// Moving from token `p` onto token `p + 1` fails with the lexical error.
pub open spec fn advance_fails(toks: Seq<Token>, err: Option<ParseError>, p: int) -> bool {
    err is Some && p + 2 == toks.len()
}

/// The binary operator that an infix token spells.
pub open spec fn token_op(t: Token) -> BinaryOp {
    match t {
        Token::Plus => BinaryOp::Add,
        Token::Minus => BinaryOp::Subtract,
        Token::Multiply => BinaryOp::Multiply,
        Token::Divide => BinaryOp::Divide,
        _ => BinaryOp::Power,
    }
}

/// A parse result whose end position lies after `p` and within the tokens.
/// Every successful parse from `p` ends so (`grammar::lemma_parse_errors`
/// shows that the `Other` results below, for the case it does not, never
/// occur); the check is what makes the recursion below well-founded.
pub open spec fn advanced(p: int, q: int, n: int) -> bool {
    p < q <= n
}

/// Parses an expression that starts at token `p`, taking in only operators
/// whose left binding power is at least `min_bp`. On success, returns the
/// tree and the index of the first token not taken.
pub open spec fn spec_parse_expr(toks: Seq<Token>, err: Option<ParseError>, p: int, min_bp: int) -> Result<
    (Expr, int),
    ParseError,
>
    decreases toks.len() - p, 1int,
{
    if p < 0 || p >= toks.len() {
        Err(ParseError::InvalidLHS)
    } else {
        match toks[p] {
            Token::LParen => {
                if advance_fails(toks, err, p) {
                    Err(err->0)
                } else {
                    match spec_parse_expr(toks, err, p + 1, 0) {
                        Err(e) => Err(e),
                        Ok((inner, q)) => {
                            if !advanced(p, q, toks.len() as int) {
                                Err(ParseError::Other)
                            } else if !(q < toks.len() && toks[q] == Token::RParen) {
                                Err(ParseError::ExpectedChar(')'))
                            } else if advance_fails(toks, err, q) {
                                Err(err->0)
                            } else {
                                spec_parse_loop(toks, err, Expr::Group(Box::new(inner)), q + 1, min_bp)
                            }
                        },
                    }
                }
            },
            Token::Number { start, end } => {
                if advance_fails(toks, err, p) {
                    Err(err->0)
                } else {
                    spec_parse_loop(toks, err, Expr::Number { start, end }, p + 1, min_bp)
                }
            },
            Token::Plus | Token::Minus => {
                if advance_fails(toks, err, p) {
                    Err(err->0)
                } else {
                    match spec_parse_expr(toks, err, p + 1, spec_prefix_binding_power(toks[p]) as int) {
                        Err(e) => Err(e),
                        Ok((x, q)) => {
                            if !advanced(p, q, toks.len() as int) {
                                Err(ParseError::Other)
                            } else if toks[p] == Token::Plus {
                                spec_parse_loop(toks, err, Expr::Plus(Box::new(x)), q, min_bp)
                            } else {
                                spec_parse_loop(toks, err, Expr::Minus(Box::new(x)), q, min_bp)
                            }
                        },
                    }
                }
            },
            _ => Err(ParseError::InvalidLHS),
        }
    }
}

/// Extends the operand `lhs` that ends before token `p` with the postfix
/// and infix operators that follow, as long as their left binding power is
/// at least `min_bp`.
pub open spec fn spec_parse_loop(
    toks: Seq<Token>,
    err: Option<ParseError>,
    lhs: Expr,
    p: int,
    min_bp: int,
) -> Result<(Expr, int), ParseError>
    decreases toks.len() - p, 0int,
{
    if p < 0 || p >= toks.len() {
        Ok((lhs, p))
    } else {
        let t = toks[p];
        match t {
            Token::RParen => Ok((lhs, p)),
            Token::Number { .. } | Token::LParen => Err(ParseError::ExpectedOperator),
            Token::Percent => {
                if (spec_postfix_binding_power(t)->0 as int) < min_bp {
                    Ok((lhs, p))
                } else if advance_fails(toks, err, p) {
                    Err(err->0)
                } else {
                    spec_parse_loop(toks, err, Expr::Percent(Box::new(lhs)), p + 1, min_bp)
                }
            },
            _ => {
                let (l_bp, r_bp) = spec_infix_binding_power(t)->0;
                if (l_bp as int) < min_bp {
                    Ok((lhs, p))
                } else if advance_fails(toks, err, p) {
                    Err(err->0)
                } else {
                    match spec_parse_expr(toks, err, p + 1, r_bp as int) {
                        Err(e) => Err(e),
                        Ok((rhs, q)) => {
                            if !advanced(p, q, toks.len() as int) {
                                Err(ParseError::Other)
                            } else {
                                spec_parse_loop(
                                    toks,
                                    err,
                                    Expr::Binary(token_op(t), Box::new(lhs), Box::new(rhs)),
                                    q,
                                    min_bp,
                                )
                            }
                        },
                    }
                }
            },
        }
    }
}

/// The result of parsing a token sequence that lexing `err` ended, if set.
///
/// The lexer is asked for the first two tokens before parsing starts, so an
/// error among them comes first. Parsing starts at the first token and takes
/// in every operator; tokens left after a `)` that closes no group are not
/// looked at.
pub open spec fn spec_parse_tokens(toks: Seq<Token>, err: Option<ParseError>) -> Result<Expr, ParseError> {
    if err is Some && toks.len() <= 1 {
        Err(err->0)
    } else {
        match spec_parse_expr(toks, err, 0, 0) {
            Ok((e, _)) => Ok(e),
            Err(e) => Err(e),
        }
    }
}

/// The result of parsing a string.
pub open spec fn spec_parse(s: Seq<char>) -> Result<Expr, ParseError> {
    spec_parse_tokens(spec_tokenize(s).0, spec_tokenize(s).1)
}

/// A parse result with its position taken as an integer.
pub open spec fn result_view(r: Result<(Expr, usize), ParseError>) -> Result<(Expr, int), ParseError> {
    match r {
        Ok((e, q)) => Ok((e, q as int)),
        Err(e) => Err(e),
    }
}

fn advance_check(toks: &Vec<Token>, err: &Option<ParseError>, p: usize) -> (r: Option<ParseError>)
    ensures
        r is Some <==> advance_fails(toks@, *err, p as int),
        r is Some ==> r == *err,
{
    match err {
        Some(e) => {
            if toks.len() >= 2 && p == toks.len() - 2 {
                Some(*e)
            } else {
                None
            }
        },
        None => None,
    }
}

fn binary_op(t: &Token) -> (op: BinaryOp)
    ensures
        op == token_op(*t),
{
    match t {
        Token::Plus => BinaryOp::Add,
        Token::Minus => BinaryOp::Subtract,
        Token::Multiply => BinaryOp::Multiply,
        Token::Divide => BinaryOp::Divide,
        _ => BinaryOp::Power,
    }
}

/// Parses an expression that starts at token `p` and takes in only
/// operators whose left binding power is at least `min_bp`.
fn parse_expr(toks: &Vec<Token>, err: &Option<ParseError>, p: usize, min_bp: usize) -> (r: Result<
    (Expr, usize),
    ParseError,
>)
    requires
        p <= toks.len(),
    ensures
        result_view(r) == spec_parse_expr(toks@, *err, p as int, min_bp as int),
        r matches Ok((_, q)) ==> advanced(p as int, q as int, toks.len() as int),
    decreases toks.len() - p,
{
    if p >= toks.len() {
        return Err(ParseError::InvalidLHS);
    }
    let t = toks[p];
    let (mut lhs, mut pos) = match t {
        Token::LParen => {
            if let Some(e) = advance_check(toks, err, p) {
                return Err(e);
            }
            let (inner, q) = match parse_expr(toks, err, p + 1, 0) {
                Ok(v) => v,
                Err(e) => return Err(e),
            };
            if !(q < toks.len() && toks[q] == Token::RParen) {
                return Err(ParseError::ExpectedChar(')'));
            }
            if let Some(e) = advance_check(toks, err, q) {
                return Err(e);
            }
            (Expr::Group(Box::new(inner)), q + 1)
        },
        Token::Number { start, end } => {
            if let Some(e) = advance_check(toks, err, p) {
                return Err(e);
            }
            (Expr::Number { start, end }, p + 1)
        },
        Token::Plus | Token::Minus => {
            if let Some(e) = advance_check(toks, err, p) {
                return Err(e);
            }
            let (x, q) = match parse_expr(toks, err, p + 1, prefix_binding_power(&t)) {
                Ok(v) => v,
                Err(e) => return Err(e),
            };
            if t == Token::Plus {
                (Expr::Plus(Box::new(x)), q)
            } else {
                (Expr::Minus(Box::new(x)), q)
            }
        },
        _ => {
            return Err(ParseError::InvalidLHS);
        },
    };
    loop
        invariant
            p < pos <= toks.len(),
            spec_parse_loop(toks@, *err, lhs, pos as int, min_bp as int) == spec_parse_expr(
                toks@,
                *err,
                p as int,
                min_bp as int,
            ),
        decreases toks.len() - pos,
    {
        if pos >= toks.len() {
            return Ok((lhs, pos));
        }
        let op = toks[pos];
        match op {
            Token::RParen => {
                return Ok((lhs, pos));
            },
            Token::Number { .. } | Token::LParen => {
                return Err(ParseError::ExpectedOperator);
            },
            _ => {},
        }
        if let Some(left_bp) = postfix_binding_power(&op) {
            if left_bp < min_bp {
                return Ok((lhs, pos));
            }
            if let Some(e) = advance_check(toks, err, pos) {
                return Err(e);
            }
            lhs = Expr::Percent(Box::new(lhs));
            pos = pos + 1;
            continue ;
        }
        if let Some((left_bp, right_bp)) = infix_binding_power(&op) {
            if left_bp < min_bp {
                return Ok((lhs, pos));
            }
            if let Some(e) = advance_check(toks, err, pos) {
                return Err(e);
            }
            let (rhs, q) = match parse_expr(toks, err, pos + 1, right_bp) {
                Ok(v) => v,
                Err(e) => return Err(e),
            };
            lhs = Expr::Binary(binary_op(&op), Box::new(lhs), Box::new(rhs));
            pos = q;
            continue ;
        }
        return Ok((lhs, pos));
    }
}

/// Parses a token sequence that lexing ended with `err`, if set.
///
/// Beside the exact result: a returned tree obeys the precedence grammar
/// and writes out to the tokens up to a `)` that closes no group, or to all
/// of them; for tokens that lexed without error, that is exactly when a
/// tree is returned; and the error is `err` or one that the parser reports,
/// and for tokens that lexed without error its cause stands in the tokens
/// (`error_cause`).
pub fn parse_tokens(toks: &Vec<Token>, err: Option<ParseError>) -> (r: Result<Expr, ParseError>)
    ensures
        r == spec_parse_tokens(toks@, err),
        r matches Ok(e) ==> {
            let n = flatten(e).len() as int;
            &&& well_formed(e)
            &&& n <= toks@.len()
            &&& toks@.subrange(0, n) == flatten(e)
            &&& n == toks@.len() || toks@[n] == Token::RParen
        },
        err is None ==> forall|e: Expr|
            r == Ok::<Expr, ParseError>(e) <==> {
                let n = (#[trigger] flatten(e)).len() as int;
                &&& well_formed(e)
                &&& n <= toks@.len()
                &&& toks@.subrange(0, n) == flatten(e)
                &&& n == toks@.len() || toks@[n] == Token::RParen
            },
        r matches Err(x) ==> parser_error(x, err),
        err is None ==> (r matches Err(x) ==> error_cause(x, toks@)),
        err is None ==> (token_automaton(toks@, 0, true, 0) matches Err(x) ==> r == Err::<
            Expr,
            ParseError,
        >(x)),
        err is None ==> (r is Ok) == (token_automaton(toks@, 0, true, 0) is Ok),
        err matches Some(x) ==> spec_parse_tokens(toks@, None) matches Ok(e) ==> r == if flatten(
            e,
        ).len() + 1 < toks@.len() {
            Ok::<Expr, ParseError>(e)
        } else {
            Err::<Expr, ParseError>(x)
        },
{
    proof {
        lemma_parse_error_causes(toks@);
        lemma_parse_by_automaton(toks@);
        if let Some(x) = err {
            lemma_lexical_error_timing(toks@, x);
        }
        if spec_parse_tokens(toks@, err) is Ok {
            lemma_parse_sound(toks@, err);
        }
        if err is None {
            assert forall|e: Expr|
                spec_parse_tokens(toks@, err) == Ok::<Expr, ParseError>(e) <==> {
                    let n = (#[trigger] flatten(e)).len() as int;
                    &&& well_formed(e)
                    &&& n <= toks@.len()
                    &&& toks@.subrange(0, n) == flatten(e)
                    &&& n == toks@.len() || toks@[n] == Token::RParen
                } by {
                lemma_parse_characterized(toks@, e);
            }
        }
        lemma_parse_errors(toks@, err);
    }
    if let Some(e) = err {
        if toks.len() <= 1 {
            return Err(e);
        }
    }
    match parse_expr(toks, &err, 0, 0) {
        Ok((e, _)) => Ok(e),
        Err(e) => Err(e),
    }
}

/// Parses a string into the syntax tree of the expression it spells.
///
/// Beside the exact result, the contract states what it means: a returned
/// tree obeys the precedence grammar and writes out to the string's tokens
/// (up to a `)` that closes no group); every tree that obeys the grammar and
/// writes out to all of them is returned; and an error names a character at
/// which no token starts, a missing `)`, a missing operator, or a missing
/// operand.
pub fn parse_expression(string: &str) -> (r: Result<Expr, ParseError>)
    ensures
        r == spec_parse(string@),
        r matches Ok(e) ==> {
            let toks = spec_tokenize(string@).0;
            let n = flatten(e).len() as int;
            &&& well_formed(e)
            &&& n <= toks.len()
            &&& toks.subrange(0, n) == flatten(e)
            &&& n == toks.len() || toks[n] == Token::RParen
        },
        forall|e: Expr|
            well_formed(e) && spec_tokenize(string@) == (#[trigger] flatten(e), None::<ParseError>)
                ==> r == Ok::<Expr, ParseError>(e),
        r matches Err(x) ==> {
            ||| exists|j: int|
                no_token_at(string@, j) && x == ParseError::UnexpectedChar(#[trigger] string@[j])
            ||| x == ParseError::ExpectedChar(')')
            ||| x == ParseError::ExpectedOperator
            ||| x == ParseError::InvalidLHS
        },
{
    let (toks, err) = tokenize(string);
    proof {
        if spec_parse(string@) is Ok {
            lemma_parse_expression_sound(string@);
        }
        assert forall|e: Expr|
            well_formed(e) && spec_tokenize(string@) == (#[trigger] flatten(e), None::<ParseError>)
                implies spec_parse(string@) == Ok::<Expr, ParseError>(e) by {
            lemma_parse_complete(e);
        }
        lemma_parse_expression_errors(string@);
    }
    parse_tokens(&toks, err)
}

} // verus!
