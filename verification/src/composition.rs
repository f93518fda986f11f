use vstd::prelude::*;

use crate::ast::{BinaryOp, Expr, flatten, level, op_token, well_formed};
use crate::error::ParseError;
use crate::grammar::{lemma_parse_complete, precedence};
use crate::lexer::{is_number_literal, is_skipped, spec_tokenize};
use crate::locality::{
    insert_at,
    lemma_shift_tokens_add,
    lemma_shift_tokens_twice,
    lemma_tokenize_empty,
    lemma_literal_shape,
    lemma_tokenize_group,
    lemma_tokenize_literal_then,
    lemma_tokenize_power,
    lemma_tokenize_single,
    lemma_tokenize_spans,
    lemma_tokenize_star,
    single_token,
    lemma_tokenize_insert_whitespace,
    lexer_passes,
    shift_token,
    shift_tokens,
};
use crate::parser::{spec_parse, spec_parse_expr, spec_parse_loop, spec_parse_tokens};
use crate::token::{Token, spec_infix_binding_power};

verus! {

/// A tree with the number spans that start at `from` or later moved `d`
/// characters to the right.
pub open spec fn shift_expr(e: Expr, from: int, d: int) -> Expr
    decreases e,
{
    match e {
        Expr::Number { start, end } => if start >= from {
            Expr::Number { start: (start + d) as usize, end: (end + d) as usize }
        } else {
            e
        },
        Expr::Group(x) => Expr::Group(Box::new(shift_expr(*x, from, d))),
        Expr::Plus(x) => Expr::Plus(Box::new(shift_expr(*x, from, d))),
        Expr::Minus(x) => Expr::Minus(Box::new(shift_expr(*x, from, d))),
        Expr::Percent(x) => Expr::Percent(Box::new(shift_expr(*x, from, d))),
        Expr::Binary(op, l, r) => Expr::Binary(
            op,
            Box::new(shift_expr(*l, from, d)),
            Box::new(shift_expr(*r, from, d)),
        ),
    }
}

/// A parse result with its number spans from `from` on moved by `d`.
pub open spec fn shift_parse(r: Result<Expr, ParseError>, from: int, d: int) -> Result<
    Expr,
    ParseError,
> {
    match r {
        Ok(e) => Ok(shift_expr(e, from, d)),
        Err(x) => Err(x),
    }
}

pub open spec fn shift_partial(r: Result<(Expr, int), ParseError>, from: int, d: int) -> Result<
    (Expr, int),
    ParseError,
> {
    match r {
        Ok((e, q)) => Ok((shift_expr(e, from, d), q)),
        Err(x) => Err(x),
    }
}

proof fn lemma_shift_loop(
    toks: Seq<Token>,
    err: Option<ParseError>,
    lhs: Expr,
    p: int,
    bp: int,
    from: int,
    d: int,
)
    ensures
        spec_parse_loop(shift_tokens(toks, from, d), err, shift_expr(lhs, from, d), p, bp)
            == shift_partial(spec_parse_loop(toks, err, lhs, p, bp), from, d),
    decreases toks.len() - p, 0int,
{
    let ts = shift_tokens(toks, from, d);
    if 0 <= p < toks.len() {
        let t = toks[p];
        assert(ts[p] == shift_token(t, from, d));
        match t {
            Token::Percent => {
                lemma_shift_loop(toks, err, Expr::Percent(Box::new(lhs)), p + 1, bp, from, d);
            },
            Token::Plus | Token::Minus | Token::Multiply | Token::Divide | Token::Power => {
                let (l_bp, r_bp) = spec_infix_binding_power(t)->0;
                lemma_shift_expr(toks, err, p + 1, r_bp as int, from, d);
                if let Ok((rhs, q)) = spec_parse_expr(toks, err, p + 1, r_bp as int) {
                    if p < q <= toks.len() {
                        lemma_shift_loop(
                            toks,
                            err,
                            Expr::Binary(crate::parser::token_op(t), Box::new(lhs), Box::new(rhs)),
                            q,
                            bp,
                            from,
                            d,
                        );
                    }
                }
            },
            _ => {},
        }
    }
}

proof fn lemma_shift_expr(
    toks: Seq<Token>,
    err: Option<ParseError>,
    p: int,
    bp: int,
    from: int,
    d: int,
)
    ensures
        spec_parse_expr(shift_tokens(toks, from, d), err, p, bp) == shift_partial(
            spec_parse_expr(toks, err, p, bp),
            from,
            d,
        ),
    decreases toks.len() - p, 1int,
{
    let ts = shift_tokens(toks, from, d);
    if 0 <= p < toks.len() {
        let t = toks[p];
        assert(ts[p] == shift_token(t, from, d));
        match t {
            Token::LParen => {
                lemma_shift_expr(toks, err, p + 1, 0, from, d);
                if let Ok((inner, q)) = spec_parse_expr(toks, err, p + 1, 0) {
                    if p < q < toks.len() {
                        assert(ts[q] == shift_token(toks[q], from, d));
                        lemma_shift_loop(toks, err, Expr::Group(Box::new(inner)), q + 1, bp, from, d);
                    }
                }
            },
            Token::Number { start, end } => {
                lemma_shift_loop(toks, err, Expr::Number { start, end }, p + 1, bp, from, d);
            },
            Token::Plus | Token::Minus => {
                lemma_shift_expr(toks, err, p + 1, 7, from, d);
                if let Ok((x, q)) = spec_parse_expr(toks, err, p + 1, 7) {
                    if p < q <= toks.len() {
                        lemma_shift_loop(toks, err, Expr::Plus(Box::new(x)), q, bp, from, d);
                        lemma_shift_loop(toks, err, Expr::Minus(Box::new(x)), q, bp, from, d);
                    }
                }
            },
            _ => {},
        }
    }
}

/// Parsing does not look at number spans: moving them moves the spans of
/// the tree and changes nothing else.
pub proof fn lemma_parse_shift(toks: Seq<Token>, err: Option<ParseError>, from: int, d: int)
    ensures
        spec_parse_tokens(shift_tokens(toks, from, d), err) == shift_parse(
            spec_parse_tokens(toks, err),
            from,
            d,
        ),
{
    lemma_shift_expr(toks, err, 0, 0, from, d);
}

/// Whitespace insensitivity: skipped characters (space, tab, line feed,
/// form feed) put in at the start, at the end, between two tokens, or after
/// the character at which lexing stops give the same tokens, the same
/// lexical error and the same parse, up to moving the number spans after
/// them.
pub proof fn lemma_whitespace_insensitive(s: Seq<char>, w: Seq<char>, i: int)
    requires
        lexer_passes(s, 0, i),
        forall|m: int| 0 <= m < w.len() ==> is_skipped(#[trigger] w[m]),
        s.len() + w.len() <= usize::MAX,
    ensures
        spec_tokenize(insert_at(s, i, w)).0 == shift_tokens(spec_tokenize(s).0, i, w.len() as int),
        spec_tokenize(insert_at(s, i, w)).1 == spec_tokenize(s).1,
        spec_parse(insert_at(s, i, w)) == shift_parse(spec_parse(s), i, w.len() as int),
{
    lemma_tokenize_insert_whitespace(s, w, i);
    lemma_parse_shift(spec_tokenize(s).0, spec_tokenize(s).1, i, w.len() as int);
}

pub(crate) proof fn lemma_shift_expr_facts(e: Expr, from: int, d: int)
    ensures
        flatten(shift_expr(e, from, d)) == shift_tokens(flatten(e), from, d),
        well_formed(shift_expr(e, from, d)) == well_formed(e),
        level(shift_expr(e, from, d)) == level(e),
    decreases e,
{
    match e {
        Expr::Number { .. } => {
            assert(shift_tokens(flatten(e), from, d) =~= flatten(shift_expr(e, from, d)));
        },
        Expr::Group(x) => {
            lemma_shift_expr_facts(*x, from, d);
            lemma_shift_tokens_add(seq![Token::LParen] + flatten(*x), seq![Token::RParen], from, d);
            lemma_shift_tokens_add(seq![Token::LParen], flatten(*x), from, d);
            assert(shift_tokens(seq![Token::LParen], from, d) =~= seq![Token::LParen]);
            assert(shift_tokens(seq![Token::RParen], from, d) =~= seq![Token::RParen]);
        },
        Expr::Plus(x) => {
            lemma_shift_expr_facts(*x, from, d);
            lemma_shift_tokens_add(seq![Token::Plus], flatten(*x), from, d);
            assert(shift_tokens(seq![Token::Plus], from, d) =~= seq![Token::Plus]);
        },
        Expr::Minus(x) => {
            lemma_shift_expr_facts(*x, from, d);
            lemma_shift_tokens_add(seq![Token::Minus], flatten(*x), from, d);
            assert(shift_tokens(seq![Token::Minus], from, d) =~= seq![Token::Minus]);
        },
        Expr::Percent(x) => {
            lemma_shift_expr_facts(*x, from, d);
            lemma_shift_tokens_add(flatten(*x), seq![Token::Percent], from, d);
            assert(shift_tokens(seq![Token::Percent], from, d) =~= seq![Token::Percent]);
        },
        Expr::Binary(op, l, r) => {
            lemma_shift_expr_facts(*l, from, d);
            lemma_shift_expr_facts(*r, from, d);
            lemma_shift_tokens_add(flatten(*l) + seq![op_token(op)], flatten(*r), from, d);
            lemma_shift_tokens_add(flatten(*l), seq![op_token(op)], from, d);
            assert(shift_tokens(seq![op_token(op)], from, d) =~= seq![op_token(op)]);
        },
    }
}

/// The characters that spell a binary operator.
pub open spec fn op_chars(op: BinaryOp) -> Seq<char> {
    match op {
        BinaryOp::Add => seq!['+'],
        BinaryOp::Subtract => seq!['-'],
        BinaryOp::Multiply => seq!['*'],
        BinaryOp::Divide => seq!['/'],
        BinaryOp::Power => seq!['*', '*'],
    }
}

pub(crate) proof fn lemma_tokenize_op(op: BinaryOp, r: Seq<char>)
    requires
        r.len() > 0,
        r[0] != '*',
        r.len() + 2 <= usize::MAX,
    ensures
        spec_tokenize(op_chars(op) + r) == (
            seq![op_token(op)] + shift_tokens(spec_tokenize(r).0, 0, op_chars(op).len() as int),
            spec_tokenize(r).1,
        ),
{
    match op {
        BinaryOp::Add => lemma_tokenize_single('+', r),
        BinaryOp::Subtract => lemma_tokenize_single('-', r),
        BinaryOp::Multiply => lemma_tokenize_star(r),
        BinaryOp::Divide => lemma_tokenize_single('/', r),
        BinaryOp::Power => lemma_tokenize_power(r),
    }
}

/// `a` lexes without error and parses to `e`, taking in all its tokens.
pub open spec fn parses_exactly(a: Seq<char>, e: Expr) -> bool {
    &&& spec_parse(a) == Ok::<Expr, ParseError>(e)
    &&& spec_tokenize(a) == (flatten(e), None::<ParseError>)
}

/// `(a)`
pub open spec fn parenthesized(a: Seq<char>) -> Seq<char> {
    seq!['('] + a + seq![')']
}

pub(crate) proof fn lemma_tokenize_parenthesized(a: Seq<char>, y: Seq<char>, e: Expr)
    requires
        parses_exactly(a, e),
        a.len() + y.len() + 2 <= usize::MAX,
    ensures
        spec_tokenize(parenthesized(a) + y) == (
            flatten(Expr::Group(Box::new(shift_expr(e, 0, 1)))) + shift_tokens(
                spec_tokenize(y).0,
                0,
                a.len() + 2int,
            ),
            spec_tokenize(y).1,
        ),
        well_formed(e),
{
    crate::grammar::lemma_parse_expression_sound(a);
    lemma_tokenize_group(a, y);
    lemma_shift_expr_facts(e, 0, 1);
}

/// Moving the spans of a parenthesized tree twice.
pub(crate) proof fn lemma_group_tokens(e: Expr, n: int, d1: int, d2: int)
    requires
        crate::locality::spans_within(flatten(e), n),
        0 <= d1,
        0 <= d2,
        n + d1 + d2 <= usize::MAX,
    ensures
        shift_tokens(flatten(Expr::Group(Box::new(shift_expr(e, 0, d1)))), 0, d2) == flatten(
            Expr::Group(Box::new(shift_expr(e, 0, d1 + d2))),
        ),
{
    let te = flatten(e);
    lemma_shift_expr_facts(e, 0, d1);
    lemma_shift_expr_facts(e, 0, d1 + d2);
    lemma_shift_tokens_twice(te, n, d1, d2);
    let mid = shift_tokens(te, 0, d1);
    assert(flatten(Expr::Group(Box::new(shift_expr(e, 0, d1)))) == seq![Token::LParen] + mid
        + seq![Token::RParen]);
    lemma_shift_tokens_add(seq![Token::LParen] + mid, seq![Token::RParen], 0, d2);
    lemma_shift_tokens_add(seq![Token::LParen], mid, 0, d2);
    assert(shift_tokens(seq![Token::LParen], 0, d2) =~= seq![Token::LParen]);
    assert(shift_tokens(seq![Token::RParen], 0, d2) =~= seq![Token::RParen]);
}

/// `op (b)` lexes to the operator and the tokens of the group of `b`.
pub(crate) proof fn lemma_tokenize_op_group(op: BinaryOp, b: Seq<char>, eb: Expr)
    requires
        parses_exactly(b, eb),
        b.len() + 4 <= usize::MAX,
    ensures
        spec_tokenize(op_chars(op) + parenthesized(b)) == (
            seq![op_token(op)] + flatten(
                Expr::Group(Box::new(shift_expr(eb, 0, 1 + op_chars(op).len() as int))),
            ),
            None::<ParseError>,
        ),
        well_formed(eb),
{
    let pb = parenthesized(b);
    lemma_parse_group(b, eb);
    assert(pb[0] == '(');
    lemma_tokenize_op(op, pb);
    crate::grammar::lemma_parse_expression_sound(b);
    lemma_tokenize_spans(b);
    lemma_group_tokens(eb, b.len() as int, 1, op_chars(op).len() as int);
}

/// `(a)` parses to the tree of `a` in a group, its spans moved past the `(`.
pub proof fn lemma_parse_group(a: Seq<char>, e: Expr)
    requires
        parses_exactly(a, e),
        a.len() + 2 <= usize::MAX,
    ensures
        parses_exactly(parenthesized(a), Expr::Group(Box::new(shift_expr(e, 0, 1)))),
{
    let g = Expr::Group(Box::new(shift_expr(e, 0, 1)));
    lemma_tokenize_empty();
    lemma_tokenize_parenthesized(a, Seq::<char>::empty(), e);
    assert(parenthesized(a) + Seq::<char>::empty() =~= parenthesized(a));
    assert(shift_tokens(Seq::<Token>::empty(), 0, a.len() + 2int) =~= Seq::<Token>::empty());
    assert(flatten(g) + Seq::<Token>::empty() =~= flatten(g));
    lemma_shift_expr_facts(e, 0, 1);
    lemma_parse_complete(g);
}

/// `(a)%` parses to the percentage of the group of `a`.
pub proof fn lemma_parse_percent(a: Seq<char>, e: Expr)
    requires
        parses_exactly(a, e),
        a.len() + 3 <= usize::MAX,
    ensures
        parses_exactly(
            parenthesized(a) + seq!['%'],
            Expr::Percent(Box::new(Expr::Group(Box::new(shift_expr(e, 0, 1))))),
        ),
{
    let g = Expr::Group(Box::new(shift_expr(e, 0, 1)));
    let t = Expr::Percent(Box::new(g));
    lemma_tokenize_empty();
    lemma_tokenize_single('%', Seq::<char>::empty());
    assert(seq!['%'] + Seq::<char>::empty() =~= seq!['%']);
    assert(shift_tokens(Seq::<Token>::empty(), 0, 1) =~= Seq::<Token>::empty());
    lemma_tokenize_parenthesized(a, seq!['%'], e);
    assert(shift_tokens(seq![Token::Percent], 0, a.len() + 2int) =~= seq![Token::Percent]);
    lemma_shift_expr_facts(e, 0, 1);
    assert(flatten(t) =~= flatten(g) + seq![Token::Percent]);
    assert(well_formed(g));
    lemma_parse_complete(t);
}

/// `-(a)` and `+(a)` parse to the sign applied to the group of `a`.
pub proof fn lemma_parse_signed(a: Seq<char>, e: Expr, negative: bool)
    requires
        parses_exactly(a, e),
        a.len() + 3 <= usize::MAX,
    ensures
        parses_exactly(
            seq![if negative { '-' } else { '+' }] + parenthesized(a),
            if negative {
                Expr::Minus(Box::new(Expr::Group(Box::new(shift_expr(e, 0, 2)))))
            } else {
                Expr::Plus(Box::new(Expr::Group(Box::new(shift_expr(e, 0, 2)))))
            },
        ),
{
    let c = if negative { '-' } else { '+' };
    let g1 = Expr::Group(Box::new(shift_expr(e, 0, 1)));
    let g2 = Expr::Group(Box::new(shift_expr(e, 0, 2)));
    let t = if negative { Expr::Minus(Box::new(g2)) } else { Expr::Plus(Box::new(g2)) };
    lemma_parse_group(a, e);
    lemma_tokenize_single(c, parenthesized(a));
    crate::grammar::lemma_parse_expression_sound(a);
    lemma_tokenize_spans(a);
    lemma_group_tokens(e, a.len() as int, 1, 1);
    lemma_shift_expr_facts(e, 0, 2);
    assert(well_formed(g2));
    assert(flatten(t) =~= seq![single_token(c)] + flatten(g2));
    lemma_parse_complete(t);
}

/// `(a) op (b)` parses to `op` applied to the groups of `a` and `b`, with
/// their spans moved to where they stand.
pub proof fn lemma_parse_binary(a: Seq<char>, op: BinaryOp, b: Seq<char>, ea: Expr, eb: Expr)
    requires
        parses_exactly(a, ea),
        parses_exactly(b, eb),
        a.len() + b.len() + 6 <= usize::MAX,
    ensures
        parses_exactly(
            parenthesized(a) + op_chars(op) + parenthesized(b),
            Expr::Binary(
                op,
                Box::new(Expr::Group(Box::new(shift_expr(ea, 0, 1)))),
                Box::new(
                    Expr::Group(Box::new(shift_expr(eb, 0, a.len() + op_chars(op).len() + 3int))),
                ),
            ),
        ),
{
    let k = op_chars(op).len() as int;
    let na = a.len() as int;
    let ga = Expr::Group(Box::new(shift_expr(ea, 0, 1)));
    let gbk = Expr::Group(Box::new(shift_expr(eb, 0, 1 + k)));
    let gb = Expr::Group(Box::new(shift_expr(eb, 0, na + k + 3)));
    let t = Expr::Binary(op, Box::new(ga), Box::new(gb));
    let y = op_chars(op) + parenthesized(b);
    assert(parenthesized(a) + op_chars(op) + parenthesized(b) =~= parenthesized(a) + y);
    lemma_tokenize_op_group(op, b, eb);
    lemma_tokenize_parenthesized(a, y, ea);
    lemma_tokenize_spans(b);
    lemma_group_tokens(eb, b.len() as int, 1 + k, na + 2);
    lemma_shift_tokens_add(seq![op_token(op)], flatten(gbk), 0, na + 2);
    assert(shift_tokens(seq![op_token(op)], 0, na + 2) =~= seq![op_token(op)]);
    lemma_shift_expr_facts(ea, 0, 1);
    lemma_shift_expr_facts(eb, 0, na + k + 3);
    assert(flatten(t) =~= flatten(ga) + (seq![op_token(op)] + flatten(gb)));
    assert(well_formed(ga));
    assert(well_formed(gb));
    lemma_parse_complete(t);
}

pub(crate) proof fn lemma_tokens_op_literal(o: BinaryOp, z: Seq<char>)
    requires
        is_number_literal(z),
        z.len() + 2 <= usize::MAX,
    ensures
        spec_tokenize(op_chars(o) + z) == (
            seq![
                op_token(o),
                Token::Number {
                    start: op_chars(o).len() as usize,
                    end: (op_chars(o).len() + z.len()) as usize,
                },
            ],
            None::<ParseError>,
        ),
{
    let e = Seq::<char>::empty();
    lemma_literal_shape(z);
    lemma_tokenize_empty();
    lemma_tokenize_literal_then(z, e);
    assert(z + e =~= z);
    assert(shift_tokens(Seq::<Token>::empty(), 0, z.len() as int) =~= Seq::<Token>::empty());
    assert(spec_tokenize(z).0 =~= seq![Token::Number { start: 0, end: z.len() as usize }]);
    lemma_tokenize_op(o, z);
    let k = op_chars(o).len() as int;
    assert(shift_tokens(seq![Token::Number { start: 0, end: z.len() as usize }], 0, k) =~= seq![
        Token::Number { start: k as usize, end: (k + z.len()) as usize },
    ]);
    assert(spec_tokenize(op_chars(o) + z).0 =~= seq![
        op_token(o),
        Token::Number { start: k as usize, end: (k + z.len()) as usize },
    ]);
}

pub(crate) proof fn lemma_tokens_literal_op_literal(y: Seq<char>, o: BinaryOp, z: Seq<char>)
    requires
        is_number_literal(y),
        is_number_literal(z),
        y.len() + z.len() + 2 <= usize::MAX,
    ensures
        ({
            let k = op_chars(o).len() as int;
            spec_tokenize(y + (op_chars(o) + z)) == (
                seq![
                    Token::Number { start: 0, end: y.len() as usize },
                    op_token(o),
                    Token::Number {
                        start: (y.len() + k) as usize,
                        end: (y.len() + k + z.len()) as usize,
                    },
                ],
                None::<ParseError>,
            )
        }),
{
    let k = op_chars(o).len() as int;
    let r = op_chars(o) + z;
    lemma_tokens_op_literal(o, z);
    assert(r[0] == op_chars(o)[0]);
    lemma_tokenize_literal_then(y, r);
    let t = seq![op_token(o), Token::Number { start: k as usize, end: (k + z.len()) as usize }];
    assert(shift_tokens(t, 0, y.len() as int) =~= seq![
        op_token(o),
        Token::Number { start: (y.len() + k) as usize, end: (y.len() + k + z.len()) as usize },
    ]);
}

proof fn lemma_tokens_op_literal_op_literal(o1: BinaryOp, y: Seq<char>, o2: BinaryOp, z: Seq<char>)
    requires
        is_number_literal(y),
        is_number_literal(z),
        y.len() + z.len() + 4 <= usize::MAX,
    ensures
        ({
            let k1 = op_chars(o1).len() as int;
            let k2 = op_chars(o2).len() as int;
            spec_tokenize(op_chars(o1) + (y + (op_chars(o2) + z))) == (
                seq![
                    op_token(o1),
                    Token::Number { start: k1 as usize, end: (k1 + y.len()) as usize },
                    op_token(o2),
                    Token::Number {
                        start: (k1 + y.len() + k2) as usize,
                        end: (k1 + y.len() + k2 + z.len()) as usize,
                    },
                ],
                None::<ParseError>,
            )
        }),
{
    let k1 = op_chars(o1).len() as int;
    let k2 = op_chars(o2).len() as int;
    let ry = y + (op_chars(o2) + z);
    lemma_tokens_literal_op_literal(y, o2, z);
    lemma_literal_shape(y);
    assert(ry[0] == y[0]);
    lemma_tokenize_op(o1, ry);
    let t = seq![
        Token::Number { start: 0, end: y.len() as usize },
        op_token(o2),
        Token::Number { start: (y.len() + k2) as usize, end: (y.len() + k2 + z.len()) as usize },
    ];
    assert(shift_tokens(t, 0, k1) =~= seq![
        Token::Number { start: k1 as usize, end: (k1 + y.len()) as usize },
        op_token(o2),
        Token::Number {
            start: (k1 + y.len() + k2) as usize,
            end: (k1 + y.len() + k2 + z.len()) as usize,
        },
    ]);
}

#[verifier::rlimit(60)]
proof fn lemma_tokens_text(x: Seq<char>, o1: BinaryOp, y: Seq<char>, o2: BinaryOp, z: Seq<char>)
    requires
        is_number_literal(x),
        is_number_literal(y),
        is_number_literal(z),
        x.len() + y.len() + z.len() + 4 <= usize::MAX,
    ensures
        ({
            let a = x.len() + op_chars(o1).len();
            let b = a + y.len();
            let c = b + op_chars(o2).len();
            spec_tokenize(x + op_chars(o1) + y + op_chars(o2) + z) == (
                flatten(Expr::Number { start: 0, end: x.len() as usize }) + seq![op_token(o1)]
                    + flatten(Expr::Number { start: a as usize, end: b as usize }) + seq![
                    op_token(o2),
                ] + flatten(Expr::Number { start: c as usize, end: (c + z.len()) as usize }),
                None::<ParseError>,
            )
        }),
{
    let k1 = op_chars(o1).len() as int;
    let k2 = op_chars(o2).len() as int;
    let a = x.len() + k1;
    let b = a + y.len();
    let c = b + k2;
    let r1 = op_chars(o1) + (y + (op_chars(o2) + z));
    assert(x + op_chars(o1) + y + op_chars(o2) + z =~= x + r1);
    lemma_tokens_op_literal_op_literal(o1, y, o2, z);
    assert(r1[0] == op_chars(o1)[0]);
    lemma_tokenize_literal_then(x, r1);
    let t1 = spec_tokenize(r1).0;
    assert(shift_tokens(t1, 0, x.len() as int) =~= seq![
        op_token(o1),
        Token::Number { start: a as usize, end: b as usize },
        op_token(o2),
        Token::Number { start: c as usize, end: (c + z.len()) as usize },
    ]);
    assert(spec_tokenize(x + r1).0 =~= flatten(Expr::Number { start: 0, end: x.len() as usize })
        + seq![op_token(o1)] + flatten(Expr::Number { start: a as usize, end: b as usize })
        + seq![op_token(o2)] + flatten(
        Expr::Number { start: c as usize, end: (c + z.len()) as usize },
    ));
}

/// Precedence and associativity on text: for number literals `x`, `y`,
/// `z` and operators `o1`, `o2`, the string `x o1 y o2 z` parses with `o2`
/// taking `y` when it binds tighter than `o1`, or when both are `**`, and
/// with `o1` taking `y` otherwise.
pub proof fn lemma_two_operators_text(
    x: Seq<char>,
    o1: BinaryOp,
    y: Seq<char>,
    o2: BinaryOp,
    z: Seq<char>,
)
    requires
        is_number_literal(x),
        is_number_literal(y),
        is_number_literal(z),
        x.len() + y.len() + z.len() + 4 <= usize::MAX,
    ensures
        ({
            let a = x.len() + op_chars(o1).len();
            let b = a + y.len();
            let c = b + op_chars(o2).len();
            let nx = Expr::Number { start: 0, end: x.len() as usize };
            let ny = Expr::Number { start: a as usize, end: b as usize };
            let nz = Expr::Number { start: c as usize, end: (c + z.len()) as usize };
            spec_parse(x + op_chars(o1) + y + op_chars(o2) + z) == Ok::<Expr, ParseError>(
                if precedence(o2) > precedence(o1) || (o1 == BinaryOp::Power && o2
                    == BinaryOp::Power) {
                    Expr::Binary(
                        o1,
                        Box::new(nx),
                        Box::new(Expr::Binary(o2, Box::new(ny), Box::new(nz))),
                    )
                } else {
                    Expr::Binary(
                        o2,
                        Box::new(Expr::Binary(o1, Box::new(nx), Box::new(ny))),
                        Box::new(nz),
                    )
                },
            )
        }),
{
    let a = x.len() + op_chars(o1).len();
    let b = a + y.len();
    let c = b + op_chars(o2).len();
    let nx = Expr::Number { start: 0, end: x.len() as usize };
    let ny = Expr::Number { start: a as usize, end: b as usize };
    let nz = Expr::Number { start: c as usize, end: (c + z.len()) as usize };
    lemma_tokens_text(x, o1, y, o2, z);
    crate::grammar::lemma_two_operators(nx, o1, ny, o2, nz);
}

} // verus!
