use vstd::prelude::*;

use crate::ast::{Expr, flatten};
use crate::error::ParseError;
use crate::grammar::{lemma_parse_expression_sound, size};
use crate::lexer::{is_skipped, spec_tokenize};
use crate::locality::{
    insert_at,
    lemma_tokenize_insert_whitespace,
    lemma_tokenize_spans,
    lexer_passes,
    no_straddle,
    shift_token,
    spans_within,
};
use crate::ast::BinaryOp;
use crate::composition::{
    lemma_parse_binary,
    lemma_parse_group,
    lemma_parse_percent,
    lemma_parse_signed,
    lemma_two_operators_text,
    lemma_whitespace_insensitive,
    op_chars,
    parenthesized,
    parses_exactly,
    shift_expr,
};
use crate::parens::{closes_only_opened, lemma_parse_whole};
use crate::parser::spec_parse;
use crate::ast::{level, op_token, well_formed};
use crate::composition::{
    lemma_group_tokens,
    lemma_shift_expr_facts,
    lemma_tokenize_op_group,
    lemma_tokenize_parenthesized,
    lemma_tokens_literal_op_literal,
    lemma_tokens_op_literal,
};
use crate::grammar::{lemma_parse_complete, precedence};
use crate::lexer::is_number_literal;
use crate::locality::{lemma_shift_tokens_add, lemma_tokenize_literal_then, shift_tokens};
use crate::token::Token;

verus! {

// A tree's value depends on its operators and on the text of its number
// literals; parentheses change nothing. `same_meaning` compares two trees,
// each read against the text it was parsed from, on exactly that.

/// `e1` read in `s1` and `e2` read in `s2` have the same operators in the
/// same places and number literals with the same text, once parentheses are
/// dropped.
pub open spec fn same_meaning(e1: Expr, s1: Seq<char>, e2: Expr, s2: Seq<char>) -> bool
    decreases size(e1) + size(e2),
{
    match e1 {
        Expr::Group(x) => same_meaning(*x, s1, e2, s2),
        _ => match e2 {
            Expr::Group(y) => same_meaning(e1, s1, *y, s2),
            _ => match (e1, e2) {
                (Expr::Number { start: a1, end: b1 }, Expr::Number { start: a2, end: b2 }) => s1.subrange(
                    a1 as int,
                    b1 as int,
                ) == s2.subrange(a2 as int, b2 as int),
                (Expr::Plus(x), Expr::Plus(y)) => same_meaning(*x, s1, *y, s2),
                (Expr::Minus(x), Expr::Minus(y)) => same_meaning(*x, s1, *y, s2),
                (Expr::Percent(x), Expr::Percent(y)) => same_meaning(*x, s1, *y, s2),
                (Expr::Binary(o1, l1, r1), Expr::Binary(o2, l2, r2)) => o1 == o2 && same_meaning(
                    *l1,
                    s1,
                    *l2,
                    s2,
                ) && same_meaning(*r1, s1, *r2, s2),
                _ => false,
            },
        },
    }
}

/// Parentheses on the right change no meaning either.
pub proof fn lemma_group_right(e1: Expr, s1: Seq<char>, y: Expr, s2: Seq<char>)
    ensures
        same_meaning(e1, s1, Expr::Group(Box::new(y)), s2) == same_meaning(e1, s1, y, s2),
    decreases size(e1),
{
    if let Expr::Group(x1) = e1 {
        lemma_group_right(*x1, s1, y, s2);
    }
}

/// Every number token of `toks`, read in `s`, has the same text as the
/// token moved by `shift_token(.., from, d)`, read in `t`.
pub open spec fn numbers_keep_text(toks: Seq<Token>, s: Seq<char>, t: Seq<char>, from: int, d: int) -> bool {
    forall|m: int|
        0 <= m < toks.len() ==> match (#[trigger] toks[m], shift_token(toks[m], from, d)) {
            (Token::Number { start: a, end: b }, Token::Number { start: a2, end: b2 }) => t.subrange(
                a2 as int,
                b2 as int,
            ) == s.subrange(a as int, b as int),
            _ => true,
        }
}

proof fn lemma_keep_split(a: Seq<Token>, b: Seq<Token>, s: Seq<char>, t: Seq<char>, from: int, d: int)
    requires
        numbers_keep_text(a + b, s, t, from, d),
    ensures
        numbers_keep_text(a, s, t, from, d),
        numbers_keep_text(b, s, t, from, d),
{
    assert forall|m: int| 0 <= m < a.len() implies #[trigger] a[m] == (a + b)[m] by {}
    assert forall|m: int| 0 <= m < b.len() implies #[trigger] b[m] == (a + b)[m + a.len()] by {}
}

/// A tree with its spans moved means in `t` what it meant in `s`, when the
/// moved number spans keep their text.
pub proof fn lemma_meaning_shift(e: Expr, s: Seq<char>, t: Seq<char>, from: int, d: int)
    requires
        numbers_keep_text(flatten(e), s, t, from, d),
    ensures
        same_meaning(shift_expr(e, from, d), t, e, s),
    decreases e,
{
    let e1 = shift_expr(e, from, d);
    match e {
        Expr::Number { start, end } => {
            assert(flatten(e)[0] == Token::Number { start, end });
        },
        Expr::Group(x) => {
            lemma_keep_split(seq![Token::LParen] + flatten(*x), seq![Token::RParen], s, t, from, d);
            lemma_keep_split(seq![Token::LParen], flatten(*x), s, t, from, d);
            lemma_meaning_shift(*x, s, t, from, d);
            lemma_group_right(shift_expr(*x, from, d), t, *x, s);
        },
        Expr::Plus(x) => {
            lemma_keep_split(seq![Token::Plus], flatten(*x), s, t, from, d);
            lemma_meaning_shift(*x, s, t, from, d);
        },
        Expr::Minus(x) => {
            lemma_keep_split(seq![Token::Minus], flatten(*x), s, t, from, d);
            lemma_meaning_shift(*x, s, t, from, d);
        },
        Expr::Percent(x) => {
            lemma_keep_split(flatten(*x), seq![Token::Percent], s, t, from, d);
            lemma_meaning_shift(*x, s, t, from, d);
        },
        Expr::Binary(op, l, r) => {
            lemma_keep_split(
                flatten(*l) + seq![crate::ast::op_token(op)],
                flatten(*r),
                s,
                t,
                from,
                d,
            );
            lemma_keep_split(flatten(*l), seq![crate::ast::op_token(op)], s, t, from, d);
            lemma_meaning_shift(*l, s, t, from, d);
            lemma_meaning_shift(*r, s, t, from, d);
        },
    }
}

/// Whitespace insensitivity of what an expression means: skipped
/// characters put in at the start, at the end, between two tokens, or after
/// the character at which lexing stops give the same error, or a tree that
/// means the same (so the same value).
pub proof fn lemma_whitespace_same_meaning(s: Seq<char>, w: Seq<char>, i: int)
    requires
        lexer_passes(s, 0, i),
        forall|m: int| 0 <= m < w.len() ==> is_skipped(#[trigger] w[m]),
        s.len() + w.len() <= usize::MAX,
    ensures
        spec_parse(s) is Err ==> spec_parse(insert_at(s, i, w)) == spec_parse(s),
        spec_parse(s) is Ok ==> spec_parse(insert_at(s, i, w)) is Ok && same_meaning(
            spec_parse(insert_at(s, i, w))->Ok_0,
            insert_at(s, i, w),
            spec_parse(s)->Ok_0,
            s,
        ),
{
    let s2 = insert_at(s, i, w);
    let d = w.len() as int;
    lemma_whitespace_insensitive(s, w, i);
    lemma_tokenize_insert_whitespace(s, w, i);
    if let Ok(e) = spec_parse(s) {
        lemma_parse_expression_sound(s);
        lemma_tokenize_spans(s);
        let toks = spec_tokenize(s).0;
        let n = flatten(e).len() as int;
        assert forall|m: int| 0 <= m < toks.len() implies match (
            #[trigger] toks[m],
            shift_token(toks[m], i, d),
        ) {
            (Token::Number { start: a, end: b }, Token::Number { start: a2, end: b2 }) => s2.subrange(
                a2 as int,
                b2 as int,
            ) == s.subrange(a as int, b as int),
            _ => true,
        } by {
            if let Token::Number { start: a, end: b } = toks[m] {
                if a >= i {
                    assert(s2.subrange(a + d, b + d) =~= s.subrange(a as int, b as int));
                } else {
                    assert(s2.subrange(a as int, b as int) =~= s.subrange(a as int, b as int));
                }
            }
        }
        assert forall|m: int| 0 <= m < n implies #[trigger] flatten(e)[m] == toks[m] by {
            assert(toks.subrange(0, n)[m] == toks[m]);
        }
        lemma_meaning_shift(e, s, s2, i, d);
    }
}

/// A tree parsed from `a`, moved to where `a` stands inside `full` and put
/// in parentheses, means in `full` what it meant in `a`.
pub proof fn lemma_embedded_meaning(e: Expr, a: Seq<char>, full: Seq<char>, d: int)
    requires
        parses_exactly(a, e),
        0 <= d,
        d + a.len() <= full.len() <= usize::MAX,
        full.subrange(d, d + a.len()) == a,
    ensures
        same_meaning(Expr::Group(Box::new(shift_expr(e, 0, d))), full, e, a),
{
    lemma_tokenize_spans(a);
    let toks = flatten(e);
    assert forall|m: int| 0 <= m < toks.len() implies match (
        #[trigger] toks[m],
        shift_token(toks[m], 0, d),
    ) {
        (Token::Number { start: x, end: y }, Token::Number { start: x2, end: y2 }) => full.subrange(
            x2 as int,
            y2 as int,
        ) == a.subrange(x as int, y as int),
        _ => true,
    } by {
        if let Token::Number { start: x, end: y } = toks[m] {
            assert forall|z: int| 0 <= z < y - x implies #[trigger] full.subrange(x + d, y + d)[z]
                == a.subrange(x as int, y as int)[z] by {
                assert(full.subrange(d, d + a.len())[x + z] == full[x + z + d]);
            }
            assert(full.subrange(x + d, y + d) =~= a.subrange(x as int, y as int));
        }
    }
    lemma_meaning_shift(e, a, full, 0, d);
}

/// Parenthesized operands compose, in meaning: where `a` and `b` parse
/// and each closes only the groups it opens, `(a) op (b)`, `(a)`, `-(a)`,
/// `+(a)` and `(a)%` parse to `op`, nothing, the sign or the percent
/// applied to trees that mean what `a` and `b` mean.
pub proof fn lemma_compose_meaning(a: Seq<char>, op: BinaryOp, b: Seq<char>, ea: Expr, eb: Expr)
    requires
        spec_parse(a) == Ok::<Expr, ParseError>(ea),
        spec_parse(b) == Ok::<Expr, ParseError>(eb),
        closes_only_opened(a),
        closes_only_opened(b),
        a.len() + b.len() + 6 <= usize::MAX,
    ensures
        spec_parse(parenthesized(a) + op_chars(op) + parenthesized(b)) matches Ok(
            Expr::Binary(o, l, r),
        ) && o == op && same_meaning(*l, parenthesized(a) + op_chars(op) + parenthesized(b), ea, a)
            && same_meaning(*r, parenthesized(a) + op_chars(op) + parenthesized(b), eb, b),
        spec_parse(parenthesized(a)) matches Ok(g) && same_meaning(g, parenthesized(a), ea, a),
        spec_parse(seq!['-'] + parenthesized(a)) matches Ok(Expr::Minus(x)) && same_meaning(
            *x,
            seq!['-'] + parenthesized(a),
            ea,
            a,
        ),
        spec_parse(seq!['+'] + parenthesized(a)) matches Ok(Expr::Plus(x)) && same_meaning(
            *x,
            seq!['+'] + parenthesized(a),
            ea,
            a,
        ),
        spec_parse(parenthesized(a) + seq!['%']) matches Ok(Expr::Percent(x)) && same_meaning(
            *x,
            parenthesized(a) + seq!['%'],
            ea,
            a,
        ),
{
    lemma_parse_whole(a);
    lemma_parse_whole(b);
    let na = a.len() as int;
    let k = op_chars(op).len() as int;
    let full = parenthesized(a) + op_chars(op) + parenthesized(b);
    lemma_parse_binary(a, op, b, ea, eb);
    assert(full.subrange(1, 1 + na) =~= a);
    assert(full.subrange(na + k + 3, na + k + 3 + b.len()) =~= b);
    lemma_embedded_meaning(ea, a, full, 1);
    lemma_embedded_meaning(eb, b, full, na + k + 3);
    let p = parenthesized(a);
    lemma_parse_group(a, ea);
    assert(p.subrange(1, 1 + na) =~= a);
    lemma_embedded_meaning(ea, a, p, 1);
    lemma_parse_signed(a, ea, true);
    lemma_parse_signed(a, ea, false);
    let pm = seq!['-'] + p;
    let pp = seq!['+'] + p;
    assert(pm.subrange(2, 2 + na) =~= a);
    assert(pp.subrange(2, 2 + na) =~= a);
    lemma_embedded_meaning(ea, a, pm, 2);
    lemma_embedded_meaning(ea, a, pp, 2);
    lemma_parse_percent(a, ea);
    let pc = p + seq!['%'];
    assert(pc.subrange(1, 1 + na) =~= a);
    lemma_embedded_meaning(ea, a, pc, 1);
}

/// `y o z`, for number literals `y` and `z`, parses exactly to `o` applied
/// to the two numbers.
proof fn lemma_literal_op_literal(y: Seq<char>, o: BinaryOp, z: Seq<char>)
    requires
        is_number_literal(y),
        is_number_literal(z),
        y.len() + z.len() + 2 <= usize::MAX,
    ensures
        parses_exactly(
            y + op_chars(o) + z,
            Expr::Binary(
                o,
                Box::new(Expr::Number { start: 0, end: y.len() as usize }),
                Box::new(
                    Expr::Number {
                        start: (y.len() + op_chars(o).len()) as usize,
                        end: (y.len() + op_chars(o).len() + z.len()) as usize,
                    },
                ),
            ),
        ),
{
    let k = op_chars(o).len() as int;
    let e = Expr::Binary(
        o,
        Box::new(Expr::Number { start: 0, end: y.len() as usize }),
        Box::new(
            Expr::Number {
                start: (y.len() + k) as usize,
                end: (y.len() + k + z.len()) as usize,
            },
        ),
    );
    assert(y + op_chars(o) + z =~= y + (op_chars(o) + z));
    lemma_tokens_literal_op_literal(y, o, z);
    let l = Expr::Number { start: 0, end: y.len() as usize };
    let r = Expr::Number { start: (y.len() + k) as usize, end: (y.len() + k + z.len()) as usize };
    assert(flatten(l) == seq![Token::Number { start: 0, end: y.len() as usize }]);
    assert(flatten(r) == seq![
        Token::Number { start: (y.len() + k) as usize, end: (y.len() + k + z.len()) as usize },
    ]);
    assert(flatten(e) =~= spec_tokenize(y + op_chars(o) + z).0);
    assert(well_formed(l) && well_formed(r) && level(l) == 5 && level(r) == 5);
    assert(well_formed(e));
    lemma_parse_complete(e);
}

#[verifier::rlimit(40)]
/// `x o1 (y o2 z)` parses to `o1` applied to `x` and the group of `y o2 z`.
proof fn lemma_right_grouping(x: Seq<char>, o1: BinaryOp, y: Seq<char>, o2: BinaryOp, z: Seq<char>)
    requires
        is_number_literal(x),
        is_number_literal(y),
        is_number_literal(z),
        x.len() + y.len() + z.len() + 6 <= usize::MAX,
    ensures
        ({
            let a = x.len() + op_chars(o1).len();
            let b = a + y.len();
            let c = b + op_chars(o2).len();
            spec_parse(x + op_chars(o1) + parenthesized(y + op_chars(o2) + z)) == Ok::<
                Expr,
                ParseError,
            >(
                Expr::Binary(
                    o1,
                    Box::new(Expr::Number { start: 0, end: x.len() as usize }),
                    Box::new(
                        Expr::Group(
                            Box::new(
                                Expr::Binary(
                                    o2,
                                    Box::new(
                                        Expr::Number {
                                            start: (a + 1) as usize,
                                            end: (b + 1) as usize,
                                        },
                                    ),
                                    Box::new(
                                        Expr::Number {
                                            start: (c + 1) as usize,
                                            end: (c + 1 + z.len()) as usize,
                                        },
                                    ),
                                ),
                            ),
                        ),
                    ),
                ),
            )
        }),
{
    let k1 = op_chars(o1).len() as int;
    let k2 = op_chars(o2).len() as int;
    let a = x.len() + k1;
    let inner = y + op_chars(o2) + z;
    let e_in = Expr::Binary(
        o2,
        Box::new(Expr::Number { start: 0, end: y.len() as usize }),
        Box::new(
            Expr::Number {
                start: (y.len() + k2) as usize,
                end: (y.len() + k2 + z.len()) as usize,
            },
        ),
    );
    lemma_literal_op_literal(y, o2, z);
    let rt = op_chars(o1) + parenthesized(inner);
    lemma_tokenize_op_group(o1, inner, e_in);
    assert(rt[0] == op_chars(o1)[0]);
    lemma_tokenize_literal_then(x, rt);
    assert(x + op_chars(o1) + parenthesized(inner) =~= x + rt);
    lemma_tokenize_spans(inner);
    let g1 = Expr::Group(Box::new(shift_expr(e_in, 0, 1 + k1)));
    let g = Expr::Group(Box::new(shift_expr(e_in, 0, a + 1)));
    lemma_group_tokens(e_in, inner.len() as int, 1 + k1, x.len() as int);
    lemma_shift_tokens_add(seq![op_token(o1)], flatten(g1), 0, x.len() as int);
    assert(shift_tokens(seq![op_token(o1)], 0, x.len() as int) =~= seq![op_token(o1)]);
    lemma_shift_expr_facts(e_in, 0, a + 1);
    let t = Expr::Binary(
        o1,
        Box::new(Expr::Number { start: 0, end: x.len() as usize }),
        Box::new(g),
    );
    let nx = Expr::Number { start: 0, end: x.len() as usize };
    assert(flatten(nx) == seq![Token::Number { start: 0, end: x.len() as usize }]);
    assert(spec_tokenize(x + rt).0 == seq![Token::Number { start: 0, end: x.len() as usize }]
        + shift_tokens(spec_tokenize(rt).0, 0, x.len() as int));
    assert(shift_tokens(spec_tokenize(rt).0, 0, x.len() as int) == seq![op_token(o1)] + flatten(g));
    assert(flatten(t) =~= spec_tokenize(x + rt).0);
    assert(well_formed(g));
    assert(well_formed(nx) && level(nx) == 5 && level(g) == 5);
    assert(well_formed(t));
    lemma_parse_complete(t);
    let b = a + y.len();
    let c = b + k2;
    assert(shift_expr(Expr::Number { start: 0, end: y.len() as usize }, 0, a + 1)
        == Expr::Number { start: (a + 1) as usize, end: (b + 1) as usize });
    assert(shift_expr(
        Expr::Number { start: (y.len() + k2) as usize, end: (y.len() + k2 + z.len()) as usize },
        0,
        a + 1,
    ) == Expr::Number { start: (c + 1) as usize, end: (c + 1 + z.len()) as usize });
    assert(shift_expr(e_in, 0, a + 1) == Expr::Binary(
        o2,
        Box::new(Expr::Number { start: (a + 1) as usize, end: (b + 1) as usize }),
        Box::new(Expr::Number { start: (c + 1) as usize, end: (c + 1 + z.len()) as usize }),
    ));
    assert(spec_tokenize(x + rt).1 is None);
}

/// `(x o1 y) o2 z` parses to `o2` applied to the group of `x o1 y` and `z`.
proof fn lemma_left_grouping(x: Seq<char>, o1: BinaryOp, y: Seq<char>, o2: BinaryOp, z: Seq<char>)
    requires
        is_number_literal(x),
        is_number_literal(y),
        is_number_literal(z),
        x.len() + y.len() + z.len() + 6 <= usize::MAX,
    ensures
        ({
            let a = x.len() + op_chars(o1).len();
            let b = a + y.len();
            let c = b + op_chars(o2).len();
            spec_parse(parenthesized(x + op_chars(o1) + y) + op_chars(o2) + z) == Ok::<
                Expr,
                ParseError,
            >(
                Expr::Binary(
                    o2,
                    Box::new(
                        Expr::Group(
                            Box::new(
                                Expr::Binary(
                                    o1,
                                    Box::new(Expr::Number { start: 1, end: (x.len() + 1) as usize }),
                                    Box::new(
                                        Expr::Number {
                                            start: (a + 1) as usize,
                                            end: (b + 1) as usize,
                                        },
                                    ),
                                ),
                            ),
                        ),
                    ),
                    Box::new(
                        Expr::Number { start: (c + 2) as usize, end: (c + 2 + z.len()) as usize },
                    ),
                ),
            )
        }),
{
    let k1 = op_chars(o1).len() as int;
    let k2 = op_chars(o2).len() as int;
    let a = x.len() + k1;
    let b = a + y.len();
    let c = b + k2;
    let inner = x + op_chars(o1) + y;
    let e_in = Expr::Binary(
        o1,
        Box::new(Expr::Number { start: 0, end: x.len() as usize }),
        Box::new(Expr::Number { start: a as usize, end: b as usize }),
    );
    lemma_literal_op_literal(x, o1, y);
    let rz = op_chars(o2) + z;
    lemma_tokens_op_literal(o2, z);
    lemma_tokenize_parenthesized(inner, rz, e_in);
    assert(parenthesized(inner) + op_chars(o2) + z =~= parenthesized(inner) + rz);
    assert(shift_tokens(spec_tokenize(rz).0, 0, inner.len() + 2int) =~= seq![
        op_token(o2),
        Token::Number { start: (c + 2) as usize, end: (c + 2 + z.len()) as usize },
    ]);
    lemma_shift_expr_facts(e_in, 0, 1);
    let g = Expr::Group(Box::new(shift_expr(e_in, 0, 1)));
    let t = Expr::Binary(
        o2,
        Box::new(g),
        Box::new(Expr::Number { start: (c + 2) as usize, end: (c + 2 + z.len()) as usize }),
    );
    let nz = Expr::Number { start: (c + 2) as usize, end: (c + 2 + z.len()) as usize };
    assert(flatten(nz) == seq![
        Token::Number { start: (c + 2) as usize, end: (c + 2 + z.len()) as usize },
    ]);
    assert(flatten(t) =~= spec_tokenize(parenthesized(inner) + rz).0);
    assert(well_formed(g));
    assert(well_formed(nz) && level(nz) == 5 && level(g) == 5);
    assert(well_formed(t));
    lemma_parse_complete(t);
    assert(shift_expr(Expr::Number { start: 0, end: x.len() as usize }, 0, 1)
        == Expr::Number { start: 1, end: (x.len() + 1) as usize });
    assert(shift_expr(Expr::Number { start: a as usize, end: b as usize }, 0, 1)
        == Expr::Number { start: (a + 1) as usize, end: (b + 1) as usize });
    assert(shift_expr(e_in, 0, 1) == Expr::Binary(
        o1,
        Box::new(Expr::Number { start: 1, end: (x.len() + 1) as usize }),
        Box::new(Expr::Number { start: (a + 1) as usize, end: (b + 1) as usize }),
    ));
    assert(spec_tokenize(parenthesized(inner) + rz).1 is None);
}

/// Where the three literals stand in `x o1 y o2 z`.
proof fn lemma_plain_texts(x: Seq<char>, o1: BinaryOp, y: Seq<char>, o2: BinaryOp, z: Seq<char>)
    ensures
        ({
            let s = x + op_chars(o1) + y + op_chars(o2) + z;
            let a = x.len() + op_chars(o1).len();
            let b = a + y.len();
            let c = b + op_chars(o2).len();
            &&& s.subrange(0, x.len() as int) == x
            &&& s.subrange(a as int, b as int) == y
            &&& s.subrange(c as int, (c + z.len()) as int) == z
        }),
{
    let s = x + op_chars(o1) + y + op_chars(o2) + z;
    let a: int = x.len() + op_chars(o1).len() as int;
    let b: int = a + y.len();
    let c: int = b + op_chars(o2).len();
    assert(s.subrange(0, x.len() as int) =~= x);
    assert(s.subrange(a, b) =~= y);
    assert(s.subrange(c, c + z.len()) =~= z);
}

/// `x o1 y o2 z` means what `x o1 (y o2 z)` means when `o2` takes `y`.
#[verifier::rlimit(40)]
proof fn lemma_right_meaning(x: Seq<char>, o1: BinaryOp, y: Seq<char>, o2: BinaryOp, z: Seq<char>)
    requires
        x.len() + y.len() + z.len() + 6 <= usize::MAX,
    ensures
        ({
            let s = x + op_chars(o1) + y + op_chars(o2) + z;
            let tr = x + op_chars(o1) + parenthesized(y + op_chars(o2) + z);
            let a = x.len() + op_chars(o1).len();
            let b = a + y.len();
            let c = b + op_chars(o2).len();
            same_meaning(
                Expr::Binary(
                    o1,
                    Box::new(Expr::Number { start: 0, end: x.len() as usize }),
                    Box::new(
                        Expr::Binary(
                            o2,
                            Box::new(Expr::Number { start: a as usize, end: b as usize }),
                            Box::new(
                                Expr::Number { start: c as usize, end: (c + z.len()) as usize },
                            ),
                        ),
                    ),
                ),
                s,
                Expr::Binary(
                    o1,
                    Box::new(Expr::Number { start: 0, end: x.len() as usize }),
                    Box::new(
                        Expr::Group(
                            Box::new(
                                Expr::Binary(
                                    o2,
                                    Box::new(
                                        Expr::Number {
                                            start: (a + 1) as usize,
                                            end: (b + 1) as usize,
                                        },
                                    ),
                                    Box::new(
                                        Expr::Number {
                                            start: (c + 1) as usize,
                                            end: (c + 1 + z.len()) as usize,
                                        },
                                    ),
                                ),
                            ),
                        ),
                    ),
                ),
                tr,
            )
        }),
{
    let s = x + op_chars(o1) + y + op_chars(o2) + z;
    let tr = x + op_chars(o1) + parenthesized(y + op_chars(o2) + z);
    let a: int = x.len() + op_chars(o1).len() as int;
    let b: int = a + y.len();
    let c: int = b + op_chars(o2).len();
    let nx = Expr::Number { start: 0, end: x.len() as usize };
    let ny = Expr::Number { start: a as usize, end: b as usize };
    let nz = Expr::Number { start: c as usize, end: (c + z.len()) as usize };
    let my = Expr::Number { start: (a + 1) as usize, end: (b + 1) as usize };
    let mz = Expr::Number { start: (c + 1) as usize, end: (c + 1 + z.len()) as usize };
    let inner = Expr::Binary(o2, Box::new(my), Box::new(mz));
    lemma_plain_texts(x, o1, y, o2, z);
    assert(tr.subrange(0, x.len() as int) =~= x);
    assert(tr.subrange(a + 1, b + 1) =~= y);
    assert(tr.subrange(c + 1, c + 1 + z.len()) =~= z);
    assert(same_meaning(nx, s, nx, tr));
    assert(same_meaning(ny, s, my, tr));
    assert(same_meaning(nz, s, mz, tr));
    assert(same_meaning(Expr::Binary(o2, Box::new(ny), Box::new(nz)), s, inner, tr));
    assert(same_meaning(
        Expr::Binary(o2, Box::new(ny), Box::new(nz)),
        s,
        Expr::Group(Box::new(inner)),
        tr,
    ));
}

/// `x o1 y o2 z` means what `(x o1 y) o2 z` means when `o1` takes `y`.
#[verifier::rlimit(40)]
proof fn lemma_left_meaning(x: Seq<char>, o1: BinaryOp, y: Seq<char>, o2: BinaryOp, z: Seq<char>)
    requires
        x.len() + y.len() + z.len() + 6 <= usize::MAX,
    ensures
        ({
            let s = x + op_chars(o1) + y + op_chars(o2) + z;
            let tl = parenthesized(x + op_chars(o1) + y) + op_chars(o2) + z;
            let a = x.len() + op_chars(o1).len();
            let b = a + y.len();
            let c = b + op_chars(o2).len();
            same_meaning(
                Expr::Binary(
                    o2,
                    Box::new(
                        Expr::Binary(
                            o1,
                            Box::new(Expr::Number { start: 0, end: x.len() as usize }),
                            Box::new(Expr::Number { start: a as usize, end: b as usize }),
                        ),
                    ),
                    Box::new(Expr::Number { start: c as usize, end: (c + z.len()) as usize }),
                ),
                s,
                Expr::Binary(
                    o2,
                    Box::new(
                        Expr::Group(
                            Box::new(
                                Expr::Binary(
                                    o1,
                                    Box::new(Expr::Number { start: 1, end: (x.len() + 1) as usize }),
                                    Box::new(
                                        Expr::Number {
                                            start: (a + 1) as usize,
                                            end: (b + 1) as usize,
                                        },
                                    ),
                                ),
                            ),
                        ),
                    ),
                    Box::new(
                        Expr::Number { start: (c + 2) as usize, end: (c + 2 + z.len()) as usize },
                    ),
                ),
                tl,
            )
        }),
{
    let s = x + op_chars(o1) + y + op_chars(o2) + z;
    let tl = parenthesized(x + op_chars(o1) + y) + op_chars(o2) + z;
    let a: int = x.len() + op_chars(o1).len() as int;
    let b: int = a + y.len();
    let c: int = b + op_chars(o2).len();
    let nx = Expr::Number { start: 0, end: x.len() as usize };
    let ny = Expr::Number { start: a as usize, end: b as usize };
    let nz = Expr::Number { start: c as usize, end: (c + z.len()) as usize };
    let mx = Expr::Number { start: 1, end: (x.len() + 1) as usize };
    let my = Expr::Number { start: (a + 1) as usize, end: (b + 1) as usize };
    let mz = Expr::Number { start: (c + 2) as usize, end: (c + 2 + z.len()) as usize };
    let inner = Expr::Binary(o1, Box::new(mx), Box::new(my));
    lemma_plain_texts(x, o1, y, o2, z);
    assert(tl.subrange(1, x.len() + 1int) =~= x);
    assert(tl.subrange(a + 1, b + 1) =~= y);
    assert(tl.subrange(c + 2, c + 2 + z.len()) =~= z);
    assert(same_meaning(nx, s, mx, tl));
    assert(same_meaning(ny, s, my, tl));
    assert(same_meaning(nz, s, mz, tl));
    assert(same_meaning(Expr::Binary(o1, Box::new(nx), Box::new(ny)), s, inner, tl));
    assert(same_meaning(
        Expr::Binary(o1, Box::new(nx), Box::new(ny)),
        s,
        Expr::Group(Box::new(inner)),
        tl,
    ));
}

/// Precedence and associativity in meaning: for number literals `x`, `y`,
/// `z` and operators `o1`, `o2`, the text `x o1 y o2 z` means what
/// `x o1 (y o2 z)` means when `o2` binds tighter than `o1` or both are
/// `**`, and what `(x o1 y) o2 z` means otherwise; all three parse.
pub proof fn lemma_two_operators_meaning(
    x: Seq<char>,
    o1: BinaryOp,
    y: Seq<char>,
    o2: BinaryOp,
    z: Seq<char>,
)
    requires
        is_number_literal(x),
        is_number_literal(y),
        is_number_literal(z),
        x.len() + y.len() + z.len() + 6 <= usize::MAX,
    ensures
        ({
            let s = x + op_chars(o1) + y + op_chars(o2) + z;
            let right = x + op_chars(o1) + parenthesized(y + op_chars(o2) + z);
            let left = parenthesized(x + op_chars(o1) + y) + op_chars(o2) + z;
            &&& spec_parse(s) is Ok
            &&& spec_parse(right) is Ok
            &&& spec_parse(left) is Ok
            &&& if precedence(o2) > precedence(o1) || (o1 == BinaryOp::Power && o2
                == BinaryOp::Power) {
                same_meaning(spec_parse(s)->Ok_0, s, spec_parse(right)->Ok_0, right)
            } else {
                same_meaning(spec_parse(s)->Ok_0, s, spec_parse(left)->Ok_0, left)
            }
        }),
{
    lemma_two_operators_text(x, o1, y, o2, z);
    lemma_right_grouping(x, o1, y, o2, z);
    lemma_left_grouping(x, o1, y, o2, z);
    lemma_right_meaning(x, o1, y, o2, z);
    lemma_left_meaning(x, o1, y, o2, z);
}

} // verus!
