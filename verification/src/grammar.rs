use vstd::prelude::*;

use crate::ast::{BinaryOp, Expr, flatten, level, op_token, well_formed};
use crate::error::ParseError;
use crate::lexer::{lemma_tokenize_sound, no_token_at, spec_tokenize};
use crate::parser::{spec_parse, spec_parse_expr, spec_parse_loop, spec_parse_tokens, token_op};
use crate::token::{Token, spec_infix_binding_power};

verus! {

/// The least grammatical class (see `level`) of what the parser returns
/// when it takes in only operators of left binding power at least `bp`.
pub open spec fn bp_level(bp: int) -> int {
    if bp <= 1 {
        1
    } else if bp <= 3 {
        2
    } else if bp <= 6 {
        3
    } else {
        4
    }
}

/// The least class that an operand must have to be the left operand of
/// the operator token `t`; 0 when `t` is no infix or postfix operator.
pub open spec fn needs(t: Token) -> int {
    match t {
        Token::Plus | Token::Minus => 1,
        Token::Multiply | Token::Divide => 2,
        Token::Power => 4,
        Token::Percent => 5,
        _ => 0,
    }
}

/// The parser, taking in only operators of left binding power at least
/// `bp`, stops before token `q`: the tokens end there, or a `)` or an
/// operator that binds too loosely stands there.
pub open spec fn stops_at(toks: Seq<Token>, q: int, bp: int) -> bool {
    ||| q == toks.len()
    ||| 0 <= q < toks.len() && toks[q] == Token::RParen
    ||| 0 <= q < toks.len() && (spec_infix_binding_power(toks[q]) matches Some((l, _)) && (l as int) < bp)
    ||| 0 <= q < toks.len() && toks[q] == Token::Percent && 9 < bp
}

/// The operand `lhs` may stand to the left of token `p`.
pub open spec fn fits(lhs: Expr, toks: Seq<Token>, p: int) -> bool {
    0 <= p < toks.len() ==> level(lhs) >= needs(toks[p])
}

proof fn lemma_loop_sound(
    toks: Seq<Token>,
    err: Option<ParseError>,
    lhs: Expr,
    p0: int,
    p: int,
    bp: int,
)
    requires
        spec_parse_loop(toks, err, lhs, p, bp) is Ok,
        0 <= p0 < p <= toks.len(),
        toks.subrange(p0, p) == flatten(lhs),
        well_formed(lhs),
        level(lhs) >= bp_level(bp),
        fits(lhs, toks, p),
        err is Some ==> p + 1 < toks.len(),
    ensures
        ({
            let (e, q) = spec_parse_loop(toks, err, lhs, p, bp)->Ok_0;
            &&& p <= q <= toks.len()
            &&& (err is Some ==> q + 1 < toks.len())
            &&& toks.subrange(p0, q) == flatten(e)
            &&& well_formed(e)
            &&& level(e) >= bp_level(bp)
            &&& stops_at(toks, q, bp)
        }),
    decreases toks.len() - p, 0int,
{
    if p < toks.len() {
        let t = toks[p];
        match t {
            Token::RParen => {},
            Token::Number { .. } | Token::LParen => {},
            Token::Percent => {
                if 9 >= bp {
                    let e1 = Expr::Percent(Box::new(lhs));
                    assert(toks.subrange(p0, p + 1) =~= toks.subrange(p0, p) + seq![t]);
                    lemma_loop_sound(toks, err, e1, p0, p + 1, bp);
                }
            },
            _ => {
                let (l_bp, r_bp) = spec_infix_binding_power(t)->0;
                if l_bp as int >= bp {
                    let (rhs, q) = spec_parse_expr(toks, err, p + 1, r_bp as int)->Ok_0;
                    lemma_expr_sound(toks, err, p + 1, r_bp as int);
                    let e1 = Expr::Binary(token_op(t), Box::new(lhs), Box::new(rhs));
                    assert(toks.subrange(p0, q) =~= toks.subrange(p0, p) + seq![t] + toks.subrange(
                        p + 1,
                        q,
                    ));
                    lemma_loop_sound(toks, err, e1, p0, q, bp);
                }
            },
        }
    }
}

/// What parsing from token `p` with least binding power `bp` returns: a
/// tree of class at least `bp_level(bp)` that obeys the grammar and spells
/// the tokens it took in, and the parser stops at the end of the tokens,
/// before a `)`, or before an operator whose left binding power is below
/// `bp` (never before an operand or a `(`).
pub proof fn lemma_expr_sound(toks: Seq<Token>, err: Option<ParseError>, p: int, bp: int)
    requires
        spec_parse_expr(toks, err, p, bp) is Ok,
        err is Some ==> p + 1 < toks.len(),
    ensures
        ({
            let (e, q) = spec_parse_expr(toks, err, p, bp)->Ok_0;
            &&& 0 <= p < q <= toks.len()
            &&& (err is Some ==> q + 1 < toks.len())
            &&& toks.subrange(p, q) == flatten(e)
            &&& well_formed(e)
            &&& level(e) >= bp_level(bp)
            &&& stops_at(toks, q, bp)
        }),
    decreases toks.len() - p, 1int,
{
    let t = toks[p];
    match t {
        Token::LParen => {
            lemma_expr_sound(toks, err, p + 1, 0);
            let (inner, q) = spec_parse_expr(toks, err, p + 1, 0)->Ok_0;
            let g = Expr::Group(Box::new(inner));
            assert(toks.subrange(p, q + 1) =~= seq![Token::LParen] + toks.subrange(p + 1, q)
                + seq![Token::RParen]);
            lemma_loop_sound(toks, err, g, p, q + 1, bp);
        },
        Token::Number { start, end } => {
            assert(toks.subrange(p, p + 1) =~= seq![t]);
            lemma_loop_sound(toks, err, Expr::Number { start, end }, p, p + 1, bp);
        },
        Token::Plus | Token::Minus => {
            lemma_expr_sound(toks, err, p + 1, 7);
            let (x, q) = spec_parse_expr(toks, err, p + 1, 7)->Ok_0;
            assert(toks.subrange(p, q) =~= seq![t] + toks.subrange(p + 1, q));
            if t == Token::Plus {
                lemma_loop_sound(toks, err, Expr::Plus(Box::new(x)), p, q, bp);
            } else {
                lemma_loop_sound(toks, err, Expr::Minus(Box::new(x)), p, q, bp);
            }
        },
        _ => {},
    }
}

/// Soundness of the parser: whatever it returns obeys the precedence
/// grammar (`well_formed`), and written out it gives back the tokens it was
/// parsed from, up to a `)` that closes no group or the end of the tokens.
/// After a lexical error it succeeds only where such a `)` and one more
/// token stand before the error.
pub proof fn lemma_parse_sound(toks: Seq<Token>, err: Option<ParseError>)
    requires
        spec_parse_tokens(toks, err) is Ok,
    ensures
        ({
            let e = spec_parse_tokens(toks, err)->Ok_0;
            let n = flatten(e).len() as int;
            &&& well_formed(e)
            &&& n <= toks.len()
            &&& toks.subrange(0, n) == flatten(e)
            &&& n == toks.len() || toks[n] == Token::RParen
            &&& err is Some ==> n + 1 < toks.len()
        }),
{
    lemma_expr_sound(toks, err, 0, 0);
}


/// The number of nodes of a tree.
pub open spec fn size(e: Expr) -> nat
    decreases e,
{
    match e {
        Expr::Number { .. } => 1,
        Expr::Group(x) | Expr::Plus(x) | Expr::Minus(x) | Expr::Percent(x) => 1 + size(*x),
        Expr::Binary(_, l, r) => 1 + size(*l) + size(*r),
    }
}

/// The number of steps from a tree down its chain of left operands (of
/// binary and percent nodes) to the operand that the parser reads first.
pub open spec fn spine_depth(e: Expr) -> nat
    decreases e,
{
    match e {
        Expr::Binary(_, l, _) | Expr::Percent(l) => 1 + spine_depth(*l),
        _ => 0,
    }
}

/// The node `k` steps down the chain of left operands.
pub open spec fn spine_at(e: Expr, k: nat) -> Expr
    decreases e,
{
    if k == 0 {
        e
    } else {
        match e {
            Expr::Binary(_, l, _) | Expr::Percent(l) => spine_at(*l, (k - 1) as nat),
            _ => e,
        }
    }
}

/// The tokens of `e` that follow those of `spine_at(e, k)`.
pub open spec fn spine_tail(e: Expr, k: nat) -> Seq<Token>
    decreases e,
{
    if k == 0 {
        seq![]
    } else {
        match e {
            Expr::Binary(op, l, r) => spine_tail(*l, (k - 1) as nat) + seq![op_token(op)] + flatten(*r),
            Expr::Percent(l) => spine_tail(*l, (k - 1) as nat) + seq![Token::Percent],
            _ => seq![],
        }
    }
}

proof fn lemma_spine(e: Expr, k: nat)
    requires
        k <= spine_depth(e),
    ensures
        flatten(e) == flatten(spine_at(e, k)) + spine_tail(e, k),
        size(spine_at(e, k)) <= size(e),
        well_formed(e) ==> well_formed(spine_at(e, k)) && level(spine_at(e, k)) >= level(e),
        k == spine_depth(e) ==> !(spine_at(e, k) is Binary) && !(spine_at(e, k) is Percent),
    decreases e,
{
    if k == 0 {
        assert(flatten(e) =~= flatten(e) + seq![]);
        if k == spine_depth(e) {
        }
    } else {
        match e {
            Expr::Binary(op, l, r) => {
                lemma_spine(*l, (k - 1) as nat);
                assert(flatten(e) =~= flatten(spine_at(e, k)) + spine_tail(e, k));
            },
            Expr::Percent(l) => {
                lemma_spine(*l, (k - 1) as nat);
                assert(flatten(e) =~= flatten(spine_at(e, k)) + spine_tail(e, k));
            },
            _ => {},
        }
    }
}

proof fn lemma_spine_step(e: Expr, k: nat)
    requires
        1 <= k <= spine_depth(e),
    ensures
        match spine_at(e, (k - 1) as nat) {
            Expr::Binary(op, l, r) => *l == spine_at(e, k) && spine_tail(e, k) == seq![op_token(op)]
                + flatten(*r) + spine_tail(e, (k - 1) as nat),
            Expr::Percent(l) => *l == spine_at(e, k) && spine_tail(e, k) == seq![Token::Percent]
                + spine_tail(e, (k - 1) as nat),
            _ => false,
        },
    decreases e,
{
    match e {
        Expr::Binary(op, l, r) => {
            if k == 1 {
                assert(spine_tail(*l, 0) =~= seq![]);
                assert(spine_tail(e, k) =~= seq![op_token(op)] + flatten(*r) + spine_tail(e, 0));
            } else {
                lemma_spine_step(*l, (k - 1) as nat);
                match spine_at(*l, (k - 2) as nat) {
                    Expr::Binary(op2, l2, r2) => {
                        assert(spine_tail(e, k) =~= seq![op_token(op2)] + flatten(*r2) + spine_tail(
                            e,
                            (k - 1) as nat,
                        ));
                    },
                    Expr::Percent(l2) => {
                        assert(spine_tail(e, k) =~= seq![Token::Percent] + spine_tail(
                            e,
                            (k - 1) as nat,
                        ));
                    },
                    _ => {},
                }
            }
        },
        Expr::Percent(l) => {
            if k == 1 {
                assert(spine_tail(*l, 0) =~= seq![]);
                assert(spine_tail(e, k) =~= seq![Token::Percent] + spine_tail(e, 0));
            } else {
                lemma_spine_step(*l, (k - 1) as nat);
                match spine_at(*l, (k - 2) as nat) {
                    Expr::Binary(op2, l2, r2) => {
                        assert(spine_tail(e, k) =~= seq![op_token(op2)] + flatten(*r2) + spine_tail(
                            e,
                            (k - 1) as nat,
                        ));
                    },
                    Expr::Percent(l2) => {
                        assert(spine_tail(e, k) =~= seq![Token::Percent] + spine_tail(
                            e,
                            (k - 1) as nat,
                        ));
                    },
                    _ => {},
                }
            }
        },
        _ => {},
    }
}


proof fn lemma_loop_complete(toks: Seq<Token>, e: Expr, k: nat, pos: int, bp: int)
    requires
        well_formed(e),
        level(e) >= bp_level(bp),
        bp <= 9,
        k <= spine_depth(e),
        0 <= pos,
        pos + spine_tail(e, k).len() <= toks.len(),
        toks.subrange(pos, pos + spine_tail(e, k).len()) == spine_tail(e, k),
        stops_at(toks, pos + spine_tail(e, k).len(), bp),
    ensures
        spec_parse_loop(toks, None, spine_at(e, k), pos, bp) == Ok::<(Expr, int), ParseError>(
            (e, pos + spine_tail(e, k).len()),
        ),
    decreases size(e), 0int, k,
{
    if k == 0 {
        assert(spine_tail(e, 0).len() == 0);
    } else {
        let tail = spine_tail(e, k);
        let end = pos + tail.len();
        lemma_spine_step(e, k);
        lemma_spine(e, (k - 1) as nat);
        lemma_spine(e, k);
        let parent = spine_at(e, (k - 1) as nat);
        let rest = spine_tail(e, (k - 1) as nat);
        assert(toks[pos] == tail[0]);
        match parent {
            Expr::Binary(op, l, r) => {
                let t = op_token(op);
                let q = pos + 1 + flatten(*r).len();
                assert(toks.subrange(pos + 1, q) =~= tail.subrange(1, 1 + flatten(*r).len() as int));
                assert(toks.subrange(pos + 1, q) =~= flatten(*r));
                let sub = toks.subrange(pos, end);
                let head = seq![t] + flatten(*r);
                assert(tail == head + rest);
                assert(toks.subrange(q, end) =~= sub.subrange(q - pos, end - pos));
                assert((head + rest).subrange(head.len() as int, (head + rest).len() as int) =~= rest);
                let (l_bp, r_bp) = spec_infix_binding_power(t)->0;
                if k == 1 {
                    assert(rest.len() == 0);
                } else {
                    lemma_spine_step(e, (k - 1) as nat);
                    lemma_spine(e, (k - 2) as nat);
                    assert(toks[q] == rest[0]);
                }
                assert(stops_at(toks, q, r_bp as int));
                lemma_expr_complete(toks, *r, pos + 1, r_bp as int);
                assert(Expr::Binary(token_op(t), Box::new(spine_at(e, k)), Box::new(*r)) == parent);
                lemma_loop_complete(toks, e, (k - 1) as nat, q, bp);
            },
            Expr::Percent(l) => {
                let sub = toks.subrange(pos, end);
                assert(tail == seq![Token::Percent] + rest);
                assert(toks.subrange(pos + 1, end) =~= sub.subrange(1, end - pos));
                assert((seq![Token::Percent] + rest).subrange(1, tail.len() as int) =~= rest);
                lemma_loop_complete(toks, e, (k - 1) as nat, pos + 1, bp);
            },
            _ => {},
        }
    }
}

proof fn lemma_expr_complete(toks: Seq<Token>, e: Expr, p: int, bp: int)
    requires
        well_formed(e),
        level(e) >= bp_level(bp),
        bp <= 9,
        0 <= p,
        p + flatten(e).len() <= toks.len(),
        toks.subrange(p, p + flatten(e).len()) == flatten(e),
        stops_at(toks, p + flatten(e).len(), bp),
    ensures
        spec_parse_expr(toks, None, p, bp) == Ok::<(Expr, int), ParseError>(
            (e, p + flatten(e).len()),
        ),
    decreases size(e), 1int, 0nat,
{
    let d = spine_depth(e);
    lemma_spine(e, d);
    let u = spine_at(e, d);
    let tail = spine_tail(e, d);
    let n = flatten(e).len();
    let nu = flatten(u).len();
    assert(toks.subrange(p, p + nu) =~= flatten(u));
    let sub = toks.subrange(p, p + n);
    assert(toks.subrange(p + nu, p + n) =~= sub.subrange(nu as int, n as int));
    assert((flatten(u) + tail).subrange(nu as int, n as int) =~= tail);
    assert(toks[p] == flatten(u)[0]);
    match u {
        Expr::Number { start, end } => {
            lemma_loop_complete(toks, e, d, p + 1, bp);
        },
        Expr::Group(x) => {
            let q = p + 1 + flatten(*x).len();
            assert(toks.subrange(p + 1, q) =~= flatten(u).subrange(1, 1 + flatten(*x).len() as int));
            assert(toks.subrange(p + 1, q) =~= flatten(*x));
            assert(toks[q] == flatten(u)[1 + flatten(*x).len() as int]);
            lemma_expr_complete(toks, *x, p + 1, 0);
            lemma_loop_complete(toks, e, d, q + 1, bp);
        },
        Expr::Plus(x) | Expr::Minus(x) => {
            let q = p + 1 + flatten(*x).len();
            assert(toks.subrange(p + 1, q) =~= flatten(u).subrange(1, 1 + flatten(*x).len() as int));
            assert(toks.subrange(p + 1, q) =~= flatten(*x));
            if d > 0 {
                lemma_spine_step(e, d);
                lemma_spine(e, (d - 1) as nat);
                assert(toks[q] == tail[0]);
            }
            assert(stops_at(toks, q, 7));
            lemma_expr_complete(toks, *x, p + 1, 7);
            lemma_loop_complete(toks, e, d, q, bp);
        },
        _ => {},
    }
}

/// Completeness of the parser: every tree that obeys the precedence
/// grammar is what the parser returns for the tokens it writes out to.
/// With `lemma_parse_sound`, a token sequence without a stray `)` has at
/// most one such tree, and the parser finds it.
pub proof fn lemma_parse_complete(e: Expr)
    requires
        well_formed(e),
    ensures
        spec_parse_tokens(flatten(e), None) == Ok::<Expr, ParseError>(e),
{
    let toks = flatten(e);
    assert(toks.subrange(0, toks.len() as int) =~= toks);
    lemma_expr_complete(toks, e, 0, 0);
}

/// What the parser returns on a token sequence that lexed without error,
/// exactly: `e` is returned if and only if it obeys the precedence grammar
/// and the tokens are its tokens, followed by nothing or by a `)`.
pub proof fn lemma_parse_characterized(toks: Seq<Token>, e: Expr)
    ensures
        spec_parse_tokens(toks, None) == Ok::<Expr, ParseError>(e) <==> {
            let n = flatten(e).len() as int;
            &&& well_formed(e)
            &&& n <= toks.len()
            &&& toks.subrange(0, n) == flatten(e)
            &&& n == toks.len() || toks[n] == Token::RParen
        },
{
    let n = flatten(e).len() as int;
    if spec_parse_tokens(toks, None) == Ok::<Expr, ParseError>(e) {
        lemma_parse_sound(toks, None);
    }
    if well_formed(e) && n <= toks.len() && toks.subrange(0, n) == flatten(e) && (n == toks.len()
        || toks[n] == Token::RParen) {
        lemma_expr_complete(toks, e, 0, 0);
    }
}

/// The precedence grammar is unambiguous: two trees that obey it and write
/// out to the same tokens are the same tree.
pub proof fn lemma_grammar_unambiguous(e1: Expr, e2: Expr)
    requires
        well_formed(e1),
        well_formed(e2),
        flatten(e1) == flatten(e2),
    ensures
        e1 == e2,
{
    lemma_parse_complete(e1);
    lemma_parse_complete(e2);
}

/// `lemma_parse_sound` for the result of parsing a string.
pub proof fn lemma_parse_expression_sound(s: Seq<char>)
    requires
        spec_parse(s) is Ok,
    ensures
        ({
            let e = spec_parse(s)->Ok_0;
            let toks = spec_tokenize(s).0;
            let n = flatten(e).len() as int;
            &&& well_formed(e)
            &&& n <= toks.len()
            &&& toks.subrange(0, n) == flatten(e)
            &&& n == toks.len() || toks[n] == Token::RParen
            &&& spec_tokenize(s).1 is Some ==> n + 1 < toks.len()
        }),
{
    lemma_parse_sound(spec_tokenize(s).0, spec_tokenize(s).1);
}

/// `lemma_parse_characterized` for a string that lexes without error.
pub proof fn lemma_parse_expression_characterized(s: Seq<char>, e: Expr)
    requires
        spec_tokenize(s).1 is None,
    ensures
        spec_parse(s) == Ok::<Expr, ParseError>(e) <==> {
            let toks = spec_tokenize(s).0;
            let n = flatten(e).len() as int;
            &&& well_formed(e)
            &&& n <= toks.len()
            &&& toks.subrange(0, n) == flatten(e)
            &&& n == toks.len() || toks[n] == Token::RParen
        },
{
    lemma_parse_characterized(spec_tokenize(s).0, e);
}

/// The errors that the parser itself reports, besides the lexical one.
pub open spec fn parser_error(x: ParseError, err: Option<ParseError>) -> bool {
    ||| err == Some(x)
    ||| x == ParseError::ExpectedChar(')')
    ||| x == ParseError::ExpectedOperator
    ||| x == ParseError::InvalidLHS
}

proof fn lemma_loop_errors(toks: Seq<Token>, err: Option<ParseError>, lhs: Expr, p: int, bp: int)
    requires
        0 <= p <= toks.len(),
        err is Some ==> p + 1 < toks.len(),
    ensures
        spec_parse_loop(toks, err, lhs, p, bp) matches Err(x) ==> parser_error(x, err),
    decreases toks.len() - p, 0int,
{
    if p < toks.len() {
        let t = toks[p];
        match t {
            Token::RParen | Token::Number { .. } | Token::LParen => {},
            Token::Percent => {
                if !(err is Some && p + 2 == toks.len()) {
                    lemma_loop_errors(toks, err, Expr::Percent(Box::new(lhs)), p + 1, bp);
                }
            },
            _ => {
                let (l_bp, r_bp) = spec_infix_binding_power(t)->0;
                if l_bp as int >= bp && !(err is Some && p + 2 == toks.len()) {
                    lemma_expr_errors(toks, err, p + 1, r_bp as int);
                    if spec_parse_expr(toks, err, p + 1, r_bp as int) is Ok {
                        lemma_expr_sound(toks, err, p + 1, r_bp as int);
                        let (rhs, q) = spec_parse_expr(toks, err, p + 1, r_bp as int)->Ok_0;
                        lemma_loop_errors(
                            toks,
                            err,
                            Expr::Binary(token_op(t), Box::new(lhs), Box::new(rhs)),
                            q,
                            bp,
                        );
                    }
                }
            },
        }
    }
}

proof fn lemma_expr_errors(toks: Seq<Token>, err: Option<ParseError>, p: int, bp: int)
    requires
        0 <= p <= toks.len(),
        err is Some ==> p + 1 < toks.len(),
    ensures
        spec_parse_expr(toks, err, p, bp) matches Err(x) ==> parser_error(x, err),
    decreases toks.len() - p, 1int,
{
    if p < toks.len() && !(err is Some && p + 2 == toks.len()) {
        let t = toks[p];
        match t {
            Token::LParen => {
                lemma_expr_errors(toks, err, p + 1, 0);
                if spec_parse_expr(toks, err, p + 1, 0) is Ok {
                    lemma_expr_sound(toks, err, p + 1, 0);
                    let (inner, q) = spec_parse_expr(toks, err, p + 1, 0)->Ok_0;
                    if q < toks.len() && toks[q] == Token::RParen && !(err is Some && q + 2
                        == toks.len()) {
                        lemma_loop_errors(toks, err, Expr::Group(Box::new(inner)), q + 1, bp);
                    }
                }
            },
            Token::Number { start, end } => {
                lemma_loop_errors(toks, err, Expr::Number { start, end }, p + 1, bp);
            },
            Token::Plus | Token::Minus => {
                lemma_expr_errors(toks, err, p + 1, 7);
                if spec_parse_expr(toks, err, p + 1, 7) is Ok {
                    lemma_expr_sound(toks, err, p + 1, 7);
                    let (x, q) = spec_parse_expr(toks, err, p + 1, 7)->Ok_0;
                    lemma_loop_errors(toks, err, Expr::Plus(Box::new(x)), q, bp);
                    lemma_loop_errors(toks, err, Expr::Minus(Box::new(x)), q, bp);
                }
            },
            _ => {},
        }
    }
}

/// The parser fails only with the lexical error, a missing `)`, an operand
/// where an operator was needed, or a missing operand: never with
/// `UnexpectedEOF` or `Other`.
pub proof fn lemma_parse_errors(toks: Seq<Token>, err: Option<ParseError>)
    ensures
        spec_parse_tokens(toks, err) matches Err(x) ==> parser_error(x, err),
{
    if !(err is Some && toks.len() <= 1) {
        lemma_expr_errors(toks, err, 0, 0);
    }
}

/// The error for a string that does not parse: a character at which no
/// token starts, a missing `)`, an operand where an operator was needed, or
/// a missing operand.
pub proof fn lemma_parse_expression_errors(s: Seq<char>)
    requires
        s.len() <= usize::MAX,
    ensures
        spec_parse(s) matches Err(x) ==> {
            ||| exists|j: int| no_token_at(s, j) && x == ParseError::UnexpectedChar(#[trigger] s[j])
            ||| x == ParseError::ExpectedChar(')')
            ||| x == ParseError::ExpectedOperator
            ||| x == ParseError::InvalidLHS
        },
{
    lemma_parse_errors(spec_tokenize(s).0, spec_tokenize(s).1);
    lemma_tokenize_sound(s);
}

/// How tightly a binary operator binds: `+ -` below `* /` below `**`.
pub open spec fn precedence(op: BinaryOp) -> int {
    match op {
        BinaryOp::Add | BinaryOp::Subtract => 1,
        BinaryOp::Multiply | BinaryOp::Divide => 2,
        BinaryOp::Power => 3,
    }
}

/// Precedence and associativity of two operators between three operands
/// `x o1 y o2 z`: the second operator takes `y` when it binds tighter, or
/// when both are `**` (right-associative); otherwise the first one does
/// (left-associative).
pub proof fn lemma_two_operators(x: Expr, o1: BinaryOp, y: Expr, o2: BinaryOp, z: Expr)
    requires
        x is Number,
        y is Number,
        z is Number,
    ensures
        spec_parse_tokens(
            flatten(x) + seq![op_token(o1)] + flatten(y) + seq![op_token(o2)] + flatten(z),
            None,
        ) == Ok::<Expr, ParseError>(
            if precedence(o2) > precedence(o1) || (o1 == BinaryOp::Power && o2 == BinaryOp::Power) {
                Expr::Binary(o1, Box::new(x), Box::new(Expr::Binary(o2, Box::new(y), Box::new(z))))
            } else {
                Expr::Binary(o2, Box::new(Expr::Binary(o1, Box::new(x), Box::new(y))), Box::new(z))
            },
        ),
{
    let right = Expr::Binary(o1, Box::new(x), Box::new(Expr::Binary(o2, Box::new(y), Box::new(z))));
    let left = Expr::Binary(o2, Box::new(Expr::Binary(o1, Box::new(x), Box::new(y))), Box::new(z));
    reveal_with_fuel(flatten, 3);
    reveal_with_fuel(well_formed, 3);
    if precedence(o2) > precedence(o1) || (o1 == BinaryOp::Power && o2 == BinaryOp::Power) {
        assert(flatten(right) =~= flatten(x) + seq![op_token(o1)] + flatten(y) + seq![op_token(o2)]
            + flatten(z));
        lemma_parse_complete(right);
    } else {
        assert(flatten(left) =~= flatten(x) + seq![op_token(o1)] + flatten(y) + seq![op_token(o2)]
            + flatten(z));
        lemma_parse_complete(left);
    }
}

/// How many more `(` than `)` a token sequence holds.
pub open spec fn depth(toks: Seq<Token>) -> int
    decreases toks.len(),
{
    if toks.len() == 0 {
        0
    } else {
        depth(toks.drop_last()) + if toks.last() == Token::LParen {
            1int
        } else if toks.last() == Token::RParen {
            -1int
        } else {
            0int
        }
    }
}

pub(crate) proof fn lemma_depth_add(a: Seq<Token>, b: Seq<Token>)
    ensures
        depth(a + b) == depth(a) + depth(b),
    decreases b.len(),
{
    if b.len() == 0 {
        assert(a + b =~= a);
    } else {
        lemma_depth_add(a, b.drop_last());
        assert((a + b).drop_last() =~= a + b.drop_last());
    }
}

pub(crate) proof fn lemma_depth_single(t: Token)
    ensures
        depth(seq![t]) == if t == Token::LParen {
            1int
        } else if t == Token::RParen {
            -1int
        } else {
            0int
        },
{
    assert(seq![t].drop_last() =~= Seq::<Token>::empty());
    assert(depth(Seq::<Token>::empty()) == 0);
}

/// A tree writes out to balanced parentheses and ends with a number, a `)`
/// or a `%`.
pub(crate) proof fn lemma_flatten_shape(e: Expr)
    ensures
        depth(flatten(e)) == 0,
        flatten(e).len() > 0,
        ends_operand(flatten(e).last()),
    decreases e,
{
    match e {
        Expr::Number { .. } => {
            lemma_depth_single(flatten(e)[0]);
            assert(flatten(e) =~= seq![flatten(e)[0]]);
        },
        Expr::Group(x) => {
            lemma_flatten_shape(*x);
            lemma_depth_add(seq![Token::LParen], flatten(*x));
            lemma_depth_add(seq![Token::LParen] + flatten(*x), seq![Token::RParen]);
            lemma_depth_single(Token::LParen);
            lemma_depth_single(Token::RParen);
        },
        Expr::Plus(x) | Expr::Minus(x) => {
            lemma_flatten_shape(*x);
            let t = flatten(e)[0];
            lemma_depth_add(seq![t], flatten(*x));
            lemma_depth_single(t);
        },
        Expr::Percent(x) => {
            lemma_flatten_shape(*x);
            lemma_depth_add(flatten(*x), seq![Token::Percent]);
            lemma_depth_single(Token::Percent);
        },
        Expr::Binary(op, l, r) => {
            lemma_flatten_shape(*l);
            lemma_flatten_shape(*r);
            lemma_depth_add(flatten(*l), seq![op_token(op)]);
            lemma_depth_add(flatten(*l) + seq![op_token(op)], flatten(*r));
            lemma_depth_single(op_token(op));
        },
    }
}

/// A token that ends an operand: a number, a `)` or a `%`.
pub open spec fn ends_operand(t: Token) -> bool {
    t is Number || t == Token::RParen || t == Token::Percent
}

/// An operand is due at token `p`: at the start, or after a `(`, a sign or
/// a binary operator.
pub open spec fn expects_operand(toks: Seq<Token>, p: int) -> bool {
    p == 0 || (1 <= p <= toks.len() && (toks[p - 1] == Token::LParen || toks[p - 1] == Token::Plus
        || toks[p - 1] == Token::Minus || toks[p - 1] == Token::Multiply || toks[p - 1]
        == Token::Divide || toks[p - 1] == Token::Power))
}

/// Token `p` cannot start an operand: the tokens end there, or a `)` or an
/// operator other than a sign stands there.
pub open spec fn no_operand_at(toks: Seq<Token>, p: int) -> bool {
    p == toks.len() || (0 <= p < toks.len() && (toks[p] == Token::RParen || toks[p]
        == Token::Multiply || toks[p] == Token::Divide || toks[p] == Token::Power || toks[p]
        == Token::Percent))
}

/// Why parsing tokens that lexed without error fails, stated on the tokens.
pub open spec fn error_cause(x: ParseError, toks: Seq<Token>) -> bool {
    match x {
        ParseError::InvalidLHS => exists|p: int| expects_operand(toks, p) && #[trigger] no_operand_at(toks, p),
        ParseError::ExpectedOperator => exists|p: int|
            1 <= p < toks.len() && ends_operand(toks[p - 1]) && (#[trigger] toks[p] is Number
                || toks[p] == Token::LParen),
        ParseError::ExpectedChar(c) => c == ')' && depth(toks) > 0,
        _ => false,
    }
}

pub(crate) proof fn lemma_depth_prefix(toks: Seq<Token>, p: int, q: int)
    requires
        0 <= p <= q <= toks.len(),
    ensures
        depth(toks.subrange(0, q)) == depth(toks.subrange(0, p)) + depth(toks.subrange(p, q)),
{
    lemma_depth_add(toks.subrange(0, p), toks.subrange(p, q));
    assert(toks.subrange(0, p) + toks.subrange(p, q) =~= toks.subrange(0, q));
}

proof fn lemma_depth_one(toks: Seq<Token>, p: int)
    requires
        0 <= p < toks.len(),
    ensures
        depth(toks.subrange(p, p + 1)) == if toks[p] == Token::LParen {
            1int
        } else if toks[p] == Token::RParen {
            -1int
        } else {
            0int
        },
{
    assert(toks.subrange(p, p + 1).drop_last() =~= Seq::<Token>::empty());
    assert(depth(Seq::<Token>::empty()) == 0);
}

proof fn lemma_loop_causes(toks: Seq<Token>, lhs: Expr, p: int, bp: int)
    requires
        1 <= p <= toks.len(),
        ends_operand(toks[p - 1]),
        depth(toks.subrange(0, p)) >= 0,
    ensures
        spec_parse_loop(toks, None, lhs, p, bp) matches Err(x) ==> error_cause(x, toks),
    decreases toks.len() - p, 0int,
{
    if p < toks.len() {
        let t = toks[p];
        lemma_depth_prefix(toks, p, p + 1);
        lemma_depth_one(toks, p);
        match t {
            Token::RParen => {},
            Token::Number { .. } | Token::LParen => {
                assert(toks[p] is Number || toks[p] == Token::LParen);
            },
            Token::Percent => {
                lemma_loop_causes(toks, Expr::Percent(Box::new(lhs)), p + 1, bp);
            },
            _ => {
                let (l_bp, r_bp) = spec_infix_binding_power(t)->0;
                lemma_expr_causes(toks, p + 1, r_bp as int);
                if spec_parse_expr(toks, None, p + 1, r_bp as int) is Ok {
                    lemma_expr_sound(toks, None, p + 1, r_bp as int);
                    let (rhs, q) = spec_parse_expr(toks, None, p + 1, r_bp as int)->Ok_0;
                    lemma_flatten_shape(rhs);
                    lemma_depth_prefix(toks, p + 1, q);
                    assert(toks[q - 1] == toks.subrange(p + 1, q).last());
                    lemma_loop_causes(
                        toks,
                        Expr::Binary(token_op(t), Box::new(lhs), Box::new(rhs)),
                        q,
                        bp,
                    );
                }
            },
        }
    }
}

proof fn lemma_expr_causes(toks: Seq<Token>, p: int, bp: int)
    requires
        0 <= p <= toks.len(),
        expects_operand(toks, p),
        depth(toks.subrange(0, p)) >= 0,
    ensures
        spec_parse_expr(toks, None, p, bp) matches Err(x) ==> error_cause(x, toks),
    decreases toks.len() - p, 1int,
{
    if p == toks.len() {
        assert(no_operand_at(toks, p));
    } else {
        let t = toks[p];
        lemma_depth_prefix(toks, p, p + 1);
        lemma_depth_one(toks, p);
        match t {
            Token::LParen => {
                lemma_expr_causes(toks, p + 1, 0);
                if spec_parse_expr(toks, None, p + 1, 0) is Ok {
                    lemma_expr_sound(toks, None, p + 1, 0);
                    let (inner, q) = spec_parse_expr(toks, None, p + 1, 0)->Ok_0;
                    lemma_flatten_shape(inner);
                    lemma_depth_prefix(toks, p + 1, q);
                    if q < toks.len() && toks[q] == Token::RParen {
                        lemma_depth_prefix(toks, q, q + 1);
                        lemma_depth_one(toks, q);
                        lemma_loop_causes(toks, Expr::Group(Box::new(inner)), q + 1, bp);
                    } else {
                        assert(q == toks.len());
                        assert(toks.subrange(0, q) =~= toks);
                    }
                }
            },
            Token::Number { start, end } => {
                lemma_loop_causes(toks, Expr::Number { start, end }, p + 1, bp);
            },
            Token::Plus | Token::Minus => {
                lemma_expr_causes(toks, p + 1, 7);
                if spec_parse_expr(toks, None, p + 1, 7) is Ok {
                    lemma_expr_sound(toks, None, p + 1, 7);
                    let (x, q) = spec_parse_expr(toks, None, p + 1, 7)->Ok_0;
                    lemma_flatten_shape(x);
                    lemma_depth_prefix(toks, p + 1, q);
                    assert(toks[q - 1] == toks.subrange(p + 1, q).last());
                    lemma_loop_causes(toks, Expr::Plus(Box::new(x)), q, bp);
                    lemma_loop_causes(toks, Expr::Minus(Box::new(x)), q, bp);
                }
            },
            _ => {
                assert(no_operand_at(toks, p));
            },
        }
    }
}

/// Why parsing fails, for tokens that lexed without error: `InvalidLHS`
/// when an operand is due at a token that cannot start one (or at the end);
/// `ExpectedOperator` when an operand or a `(` directly follows the end of
/// an operand; `ExpectedChar(')')` only when a `(` is left unclosed.
pub proof fn lemma_parse_error_causes(toks: Seq<Token>)
    ensures
        spec_parse_tokens(toks, None) matches Err(x) ==> error_cause(x, toks),
{
    assert(toks.subrange(0, 0) =~= Seq::<Token>::empty());
    lemma_expr_causes(toks, 0, 0);
}

proof fn lemma_loop_moves(toks: Seq<Token>, err: Option<ParseError>, lhs: Expr, p: int, bp: int)
    ensures
        spec_parse_loop(toks, err, lhs, p, bp) matches Ok((_, q)) ==> p <= q,
    decreases toks.len() - p, 0int,
{
    if 0 <= p < toks.len() {
        let t = toks[p];
        match t {
            Token::Percent => {
                lemma_loop_moves(toks, err, Expr::Percent(Box::new(lhs)), p + 1, bp);
            },
            Token::Plus | Token::Minus | Token::Multiply | Token::Divide | Token::Power => {
                let (l_bp, r_bp) = spec_infix_binding_power(t)->0;
                if let Ok((rhs, q)) = spec_parse_expr(toks, err, p + 1, r_bp as int) {
                    if p < q <= toks.len() {
                        lemma_loop_moves(
                            toks,
                            err,
                            Expr::Binary(token_op(t), Box::new(lhs), Box::new(rhs)),
                            q,
                            bp,
                        );
                    }
                }
            },
            _ => {},
        }
    }
}

proof fn lemma_expr_moves(toks: Seq<Token>, err: Option<ParseError>, p: int, bp: int)
    ensures
        spec_parse_expr(toks, err, p, bp) matches Ok((_, q)) ==> p < q,
    decreases toks.len() - p, 1int,
{
    if 0 <= p < toks.len() {
        match toks[p] {
            Token::LParen => {
                if let Ok((inner, q)) = spec_parse_expr(toks, err, p + 1, 0) {
                    if p < q < toks.len() {
                        lemma_loop_moves(toks, err, Expr::Group(Box::new(inner)), q + 1, bp);
                    }
                }
            },
            Token::Number { start, end } => {
                lemma_loop_moves(toks, err, Expr::Number { start, end }, p + 1, bp);
            },
            Token::Plus | Token::Minus => {
                if let Ok((x, q)) = spec_parse_expr(toks, err, p + 1, 7) {
                    if p < q <= toks.len() {
                        lemma_loop_moves(toks, err, Expr::Plus(Box::new(x)), q, bp);
                        lemma_loop_moves(toks, err, Expr::Minus(Box::new(x)), q, bp);
                    }
                }
            },
            _ => {},
        }
    }
}

/// How a parse result with a lexical error `x` after the tokens relates to
/// the one without: the same where the parse stops two tokens or more
/// before the end, `x` where it would get further, and, where parsing the
/// tokens alone fails, that error or `x`.
pub open spec fn lexical_relation<T>(
    with_error: Result<(T, int), ParseError>,
    without: Result<(T, int), ParseError>,
    n: int,
    x: ParseError,
) -> bool {
    match without {
        Ok((_, q)) => if q + 1 < n {
            with_error == without
        } else {
            with_error == Err::<(T, int), ParseError>(x)
        },
        Err(_) => with_error == without || with_error == Err::<(T, int), ParseError>(x),
    }
}

proof fn lemma_loop_lexical(toks: Seq<Token>, x: ParseError, lhs: Expr, p: int, bp: int)
    requires
        0 <= p,
        p + 1 < toks.len(),
    ensures
        lexical_relation(
            spec_parse_loop(toks, Some(x), lhs, p, bp),
            spec_parse_loop(toks, None, lhs, p, bp),
            toks.len() as int,
            x,
        ),
    decreases toks.len() - p, 0int,
{
    let n = toks.len() as int;
    let t = toks[p];
    match t {
        Token::Percent => {
            let e1 = Expr::Percent(Box::new(lhs));
            if p + 2 == n {
                lemma_loop_moves(toks, None, e1, p + 1, bp);
            } else {
                lemma_loop_lexical(toks, x, e1, p + 1, bp);
            }
        },
        Token::Plus | Token::Minus | Token::Multiply | Token::Divide | Token::Power => {
            let (l_bp, r_bp) = spec_infix_binding_power(t)->0;
            lemma_expr_moves(toks, None, p + 1, r_bp as int);
            if p + 2 < n {
                lemma_expr_lexical(toks, x, p + 1, r_bp as int);
            }
            if let Ok((rhs, q)) = spec_parse_expr(toks, None, p + 1, r_bp as int) {
                if p < q <= n {
                    let e1 = Expr::Binary(token_op(t), Box::new(lhs), Box::new(rhs));
                    lemma_loop_moves(toks, None, e1, q, bp);
                    if q + 1 < n {
                        lemma_loop_lexical(toks, x, e1, q, bp);
                    }
                }
            }
        },
        _ => {},
    }
}

proof fn lemma_expr_lexical(toks: Seq<Token>, x: ParseError, p: int, bp: int)
    requires
        0 <= p,
        p + 1 < toks.len(),
    ensures
        lexical_relation(
            spec_parse_expr(toks, Some(x), p, bp),
            spec_parse_expr(toks, None, p, bp),
            toks.len() as int,
            x,
        ),
    decreases toks.len() - p, 1int,
{
    let n = toks.len() as int;
    match toks[p] {
        Token::LParen => {
            lemma_expr_moves(toks, None, p + 1, 0);
            if p + 2 < n {
                lemma_expr_lexical(toks, x, p + 1, 0);
            }
            if let Ok((inner, q)) = spec_parse_expr(toks, None, p + 1, 0) {
                if p < q < n {
                    let g = Expr::Group(Box::new(inner));
                    lemma_loop_moves(toks, None, g, q + 1, bp);
                    if q + 2 < n {
                        lemma_loop_lexical(toks, x, g, q + 1, bp);
                    }
                }
            }
        },
        Token::Number { start, end } => {
            let e1 = Expr::Number { start, end };
            lemma_loop_moves(toks, None, e1, p + 1, bp);
            if p + 2 < n {
                lemma_loop_lexical(toks, x, e1, p + 1, bp);
            }
        },
        Token::Plus | Token::Minus => {
            lemma_expr_moves(toks, None, p + 1, 7);
            if p + 2 < n {
                lemma_expr_lexical(toks, x, p + 1, 7);
            }
            if let Ok((y, q)) = spec_parse_expr(toks, None, p + 1, 7) {
                if p < q <= n {
                    lemma_loop_moves(toks, None, Expr::Plus(Box::new(y)), q, bp);
                    lemma_loop_moves(toks, None, Expr::Minus(Box::new(y)), q, bp);
                    if q + 1 < n {
                        lemma_loop_lexical(toks, x, Expr::Plus(Box::new(y)), q, bp);
                        lemma_loop_lexical(toks, x, Expr::Minus(Box::new(y)), q, bp);
                    }
                }
            }
        },
        _ => {},
    }
}

/// When a lexical error surfaces. The parser reads one token ahead, so an
/// error `x` after the tokens `toks` changes the parse of `toks` exactly
/// where the parser would make the last token current: a tree whose tokens
/// stop two or more before the end (at a `)` that closes no group) is
/// returned as without the error; any other tree gives way to `x`; and a
/// parser error is kept or comes after `x`.
pub proof fn lemma_lexical_error_timing(toks: Seq<Token>, x: ParseError)
    ensures
        spec_parse_tokens(toks, None) matches Ok(e) ==> spec_parse_tokens(toks, Some(x)) == if flatten(
            e,
        ).len() + 1 < toks.len() {
            Ok::<Expr, ParseError>(e)
        } else {
            Err::<Expr, ParseError>(x)
        },
        spec_parse_tokens(toks, None) matches Err(y) ==> spec_parse_tokens(toks, Some(x)) == Err::<
            Expr,
            ParseError,
        >(y) || spec_parse_tokens(toks, Some(x)) == Err::<Expr, ParseError>(x),
{
    if spec_parse_tokens(toks, None) is Ok {
        lemma_expr_sound(toks, None, 0, 0);
    }
    if toks.len() >= 2 {
        lemma_expr_lexical(toks, x, 0, 0);
    }
}

/// The token sequence read left to right by a counter automaton: in state
/// `operand_due` a number, `(`, `+` or `-` must come; otherwise a binary
/// operator, `%` or `)` must come, and `)` either closes one of the `depth`
/// open groups or ends the expression. Gives where the expression ends, or
/// the error at the first token that cannot come.
pub open spec fn token_automaton(toks: Seq<Token>, i: int, operand_due: bool, depth: int) -> Result<
    int,
    ParseError,
>
    decreases toks.len() - i,
{
    if i < 0 || i >= toks.len() {
        if operand_due {
            Err(ParseError::InvalidLHS)
        } else if depth > 0 {
            Err(ParseError::ExpectedChar(')'))
        } else {
            Ok(i)
        }
    } else if operand_due {
        match toks[i] {
            Token::Number { .. } => token_automaton(toks, i + 1, false, depth),
            Token::LParen => token_automaton(toks, i + 1, true, depth + 1),
            Token::Plus | Token::Minus => token_automaton(toks, i + 1, true, depth),
            _ => Err(ParseError::InvalidLHS),
        }
    } else {
        match toks[i] {
            Token::Number { .. } | Token::LParen => Err(ParseError::ExpectedOperator),
            Token::RParen => if depth > 0 {
                token_automaton(toks, i + 1, false, depth - 1)
            } else {
                Ok(i)
            },
            Token::Percent => token_automaton(toks, i + 1, false, depth),
            _ => token_automaton(toks, i + 1, true, depth),
        }
    }
}

/// What a parse result from `p` says of the automaton from `p`: an error is
/// the automaton's error; a result that ends at `q` brings the automaton
/// from `p` to the state after an operand at `q`, with the same depth.
pub open spec fn automaton_agrees(
    r: Result<(Expr, int), ParseError>,
    toks: Seq<Token>,
    p: int,
    operand_due: bool,
    depth: int,
) -> bool {
    match r {
        Err(x) => token_automaton(toks, p, operand_due, depth) == Err::<int, ParseError>(x),
        Ok((_, q)) => token_automaton(toks, p, operand_due, depth) == token_automaton(
            toks,
            q,
            false,
            depth,
        ),
    }
}

proof fn lemma_loop_automaton(toks: Seq<Token>, lhs: Expr, p: int, bp: int, depth: int)
    requires
        0 <= p <= toks.len(),
        depth >= 0,
    ensures
        automaton_agrees(spec_parse_loop(toks, None, lhs, p, bp), toks, p, false, depth),
    decreases toks.len() - p, 0int,
{
    if p < toks.len() {
        let t = toks[p];
        match t {
            Token::Percent => {
                lemma_loop_automaton(toks, Expr::Percent(Box::new(lhs)), p + 1, bp, depth);
            },
            Token::Plus | Token::Minus | Token::Multiply | Token::Divide | Token::Power => {
                let (l_bp, r_bp) = spec_infix_binding_power(t)->0;
                if l_bp as int >= bp {
                    lemma_expr_automaton(toks, p + 1, r_bp as int, depth);
                    if spec_parse_expr(toks, None, p + 1, r_bp as int) is Ok {
                        lemma_expr_sound(toks, None, p + 1, r_bp as int);
                        let (rhs, q) = spec_parse_expr(toks, None, p + 1, r_bp as int)->Ok_0;
                        lemma_loop_automaton(
                            toks,
                            Expr::Binary(token_op(t), Box::new(lhs), Box::new(rhs)),
                            q,
                            bp,
                            depth,
                        );
                    }
                }
            },
            _ => {},
        }
    }
}

proof fn lemma_expr_automaton(toks: Seq<Token>, p: int, bp: int, depth: int)
    requires
        0 <= p <= toks.len(),
        depth >= 0,
    ensures
        automaton_agrees(spec_parse_expr(toks, None, p, bp), toks, p, true, depth),
    decreases toks.len() - p, 1int,
{
    if p < toks.len() {
        match toks[p] {
            Token::LParen => {
                lemma_expr_automaton(toks, p + 1, 0, depth + 1);
                if spec_parse_expr(toks, None, p + 1, 0) is Ok {
                    lemma_expr_sound(toks, None, p + 1, 0);
                    let (inner, q) = spec_parse_expr(toks, None, p + 1, 0)->Ok_0;
                    if q < toks.len() && toks[q] == Token::RParen {
                        lemma_loop_automaton(toks, Expr::Group(Box::new(inner)), q + 1, bp, depth);
                    }
                }
            },
            Token::Number { start, end } => {
                lemma_loop_automaton(toks, Expr::Number { start, end }, p + 1, bp, depth);
            },
            Token::Plus | Token::Minus => {
                lemma_expr_automaton(toks, p + 1, 7, depth);
                if spec_parse_expr(toks, None, p + 1, 7) is Ok {
                    lemma_expr_sound(toks, None, p + 1, 7);
                    let (x, q) = spec_parse_expr(toks, None, p + 1, 7)->Ok_0;
                    lemma_loop_automaton(toks, Expr::Plus(Box::new(x)), q, bp, depth);
                    lemma_loop_automaton(toks, Expr::Minus(Box::new(x)), q, bp, depth);
                }
            },
            _ => {},
        }
    }
}

/// Whether tokens that lexed without error parse, and with which error,
/// is decided by the counter automaton: the parser fails exactly where the
/// automaton does, with the same error, and otherwise returns a tree whose
/// tokens end where the automaton ends the expression.
pub proof fn lemma_parse_by_automaton(toks: Seq<Token>)
    ensures
        (spec_parse_tokens(toks, None) is Ok) == (token_automaton(toks, 0, true, 0) is Ok),
        token_automaton(toks, 0, true, 0) matches Err(x) ==> spec_parse_tokens(toks, None) == Err::<
            Expr,
            ParseError,
        >(x),
        spec_parse_tokens(toks, None) matches Ok(e) ==> token_automaton(toks, 0, true, 0) == Ok::<
            int,
            ParseError,
        >(flatten(e).len() as int),
{
    lemma_expr_automaton(toks, 0, 0, 0);
    if spec_parse_tokens(toks, None) is Ok {
        lemma_expr_sound(toks, None, 0, 0);
    }
}

} // verus!
