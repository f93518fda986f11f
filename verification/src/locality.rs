use vstd::prelude::*;

use crate::error::ParseError;
use crate::lexer::{
    is_digit,
    is_number_literal,
    is_exponent,
    is_mantissa,
    is_skipped,
    lemma_lex_step_advances,
    lemma_number_end_longest,
    lemma_skip_end,
    lex_from,
    lex_step,
    number_end,
    skip_end,
    spec_tokenize,
};
use crate::token::Token;

verus! {

// Lexing is local: the token read at a position depends only on the
// characters from there up to the end of the token, plus the one character
// after it.

/// A number token moved `d` characters to the right if it starts at `from`
/// or later; any other token unchanged.
pub open spec fn shift_token(t: Token, from: int, d: int) -> Token {
    match t {
        Token::Number { start, end } => if start >= from {
            Token::Number { start: (start + d) as usize, end: (end + d) as usize }
        } else {
            t
        },
        _ => t,
    }
}

pub open spec fn shift_tokens(toks: Seq<Token>, from: int, d: int) -> Seq<Token> {
    toks.map_values(|t: Token| shift_token(t, from, d))
}

/// A lexing result with its number tokens from `from` on moved by `d`.
pub open spec fn shift_lexed(r: (Seq<Token>, Option<ParseError>), from: int, d: int) -> (
    Seq<Token>,
    Option<ParseError>,
) {
    (shift_tokens(r.0, from, d), r.1)
}

/// A character that can occur in a number literal.
pub open spec fn is_literal_char(c: char) -> bool {
    is_digit(c) || c == '.' || c == 'e' || c == 'E' || c == '+' || c == '-'
}

/// A character that ends any token before it: no number literal and no
/// `**` goes on across it.
pub open spec fn is_inert(c: char) -> bool {
    !is_literal_char(c) && c != '*'
}

proof fn lemma_all_digits_chars(t: Seq<char>)
    requires
        crate::lexer::all_digits(t),
    ensures
        forall|m: int| 0 <= m < t.len() ==> is_literal_char(#[trigger] t[m]),
{
}

proof fn lemma_sub_chars(t: Seq<char>, a: int, b: int)
    requires
        0 <= a <= b <= t.len(),
        forall|m: int| 0 <= m < b - a ==> is_literal_char(#[trigger] t.subrange(a, b)[m]),
    ensures
        forall|m: int| a <= m < b ==> is_literal_char(#[trigger] t[m]),
{
    assert forall|m: int| a <= m < b implies is_literal_char(#[trigger] t[m]) by {
        assert(t.subrange(a, b)[m - a] == t[m]);
    }
}

/// Every character of a number literal is a digit, `.`, `e`, `E`, `+` or `-`.
pub proof fn lemma_literal_chars(t: Seq<char>)
    requires
        is_number_literal(t),
    ensures
        forall|m: int| 0 <= m < t.len() ==> is_literal_char(#[trigger] t[m]),
{
    let j = choose|j: int|
        0 <= j <= t.len() && is_mantissa(#[trigger] t.subrange(0, j)) && is_exponent(
            t.subrange(j, t.len() as int),
        );
    let m = t.subrange(0, j);
    let x = t.subrange(j, t.len() as int);
    if m.len() >= 1 && crate::lexer::all_digits(m) {
        lemma_all_digits_chars(m);
    } else if exists|k: int|
        1 <= k < m.len() && crate::lexer::all_digits(#[trigger] m.subrange(0, k)) && m[k] == '.'
            && crate::lexer::all_digits(m.subrange(k + 1, m.len() as int)) {
        let k = choose|k: int|
            1 <= k < m.len() && crate::lexer::all_digits(#[trigger] m.subrange(0, k)) && m[k]
                == '.' && crate::lexer::all_digits(m.subrange(k + 1, m.len() as int));
        lemma_all_digits_chars(m.subrange(0, k));
        lemma_all_digits_chars(m.subrange(k + 1, m.len() as int));
        lemma_sub_chars(m, 0, k);
        lemma_sub_chars(m, k + 1, m.len() as int);
    } else {
        lemma_all_digits_chars(m.subrange(1, m.len() as int));
        lemma_sub_chars(m, 1, m.len() as int);
    }
    if x.len() >= 3 && (x[1] == '+' || x[1] == '-') && crate::lexer::all_digits(
        x.subrange(2, x.len() as int),
    ) {
        lemma_all_digits_chars(x.subrange(2, x.len() as int));
        lemma_sub_chars(x, 2, x.len() as int);
    } else if x.len() >= 2 {
        lemma_all_digits_chars(x.subrange(1, x.len() as int));
        lemma_sub_chars(x, 1, x.len() as int);
    }
    assert forall|n: int| 0 <= n < m.len() implies is_literal_char(#[trigger] m[n]) by {}
    assert forall|n: int| 0 <= n < x.len() implies is_literal_char(#[trigger] x[n]) by {}
    assert forall|n: int| 0 <= n < t.len() implies is_literal_char(#[trigger] t[n]) by {
        if n < j {
            assert(t[n] == m[n]);
        } else {
            assert(t[n] == x[n - j]);
        }
    }
}

/// `number_end` is determined by which prefixes are literals: the longest one.
pub proof fn lemma_number_end_unique(s: Seq<char>, i: int, e: int)
    requires
        0 <= i < e <= s.len(),
        is_number_literal(s.subrange(i, e)),
        forall|e2: int| e < e2 <= s.len() ==> !is_number_literal(#[trigger] s.subrange(i, e2)),
    ensures
        number_end(s, i) == Some(e),
{
    lemma_number_end_longest(s, i);
    if let Some(e1) = number_end(s, i) {
        if e1 < e {
            assert(!is_number_literal(s.subrange(i, e)));
        }
        if e1 > e {
            assert(!is_number_literal(s.subrange(i, e1)));
        }
    } else {
        assert(!is_number_literal(s.subrange(i, e)));
    }
}

/// From position `a` on, `s` is `t` moved `d` characters to the right.
pub open spec fn corresponds(s: Seq<char>, t: Seq<char>, a: int, d: int) -> bool {
    &&& 0 <= d <= a <= s.len()
    &&& s.len() == t.len() + d
    &&& forall|x: int| a <= x < s.len() ==> s[x] == #[trigger] t[x - d]
}

/// A lexer step with its positions moved by `d`.
pub open spec fn shift_step(r: Result<Option<(Token, int)>, ParseError>, d: int) -> Result<
    Option<(Token, int)>,
    ParseError,
> {
    match r {
        Ok(Some((tok, j))) => Ok(Some((shift_token(tok, 0, d), j + d))),
        _ => r,
    }
}

proof fn lemma_skip_end_shift(s: Seq<char>, t: Seq<char>, a: int, d: int, x: int)
    requires
        corresponds(s, t, a, d),
        a <= x <= s.len(),
    ensures
        skip_end(s, x) == skip_end(t, x - d) + d,
    decreases s.len() - x,
{
    if x < s.len() {
        assert(s[x] == t[x - d]);
        if is_skipped(s[x]) {
            lemma_skip_end_shift(s, t, a, d, x + 1);
        }
    }
}

proof fn lemma_number_end_shift(s: Seq<char>, t: Seq<char>, a: int, d: int, x: int)
    requires
        corresponds(s, t, a, d),
        a <= x <= s.len(),
    ensures
        match number_end(t, x - d) {
            Some(e) => number_end(s, x) == Some(e + d),
            None => number_end(s, x) is None,
        },
{
    assert forall|e2: int| x <= e2 <= s.len() implies #[trigger] s.subrange(x, e2) == t.subrange(
        x - d,
        e2 - d,
    ) by {
        assert forall|m: int| 0 <= m < e2 - x implies s.subrange(x, e2)[m] == t.subrange(
            x - d,
            e2 - d,
        )[m] by {
            assert(s[x + m] == t[(x + m) - d]);
        }
        assert(s.subrange(x, e2) =~= t.subrange(x - d, e2 - d));
    }
    lemma_number_end_longest(t, x - d);
    lemma_number_end_longest(s, x);
    match number_end(t, x - d) {
        Some(e) => {
            assert(s.subrange(x, e + d) == t.subrange(x - d, e));
            assert forall|e2: int| e + d < e2 <= s.len() implies !is_number_literal(
                #[trigger] s.subrange(x, e2),
            ) by {
                assert(s.subrange(x, e2) == t.subrange(x - d, e2 - d));
            }
            lemma_number_end_unique(s, x, e + d);
        },
        None => {
            if let Some(e) = number_end(s, x) {
                assert(s.subrange(x, e) == t.subrange(x - d, e - d));
            }
        },
    }
}

proof fn lemma_lex_step_shift(s: Seq<char>, t: Seq<char>, a: int, d: int, x: int)
    requires
        corresponds(s, t, a, d),
        s.len() <= usize::MAX,
        a <= x <= s.len(),
    ensures
        lex_step(s, x) == shift_step(lex_step(t, x - d), d),
{
    lemma_skip_end_shift(s, t, a, d, x);
    lemma_skip_end(t, x - d);
    let j = skip_end(s, x);
    if j < s.len() {
        assert(s[j] == t[j - d]);
        if j + 1 < s.len() {
            assert(s[j + 1] == t[j + 1 - d]);
        }
        lemma_number_end_shift(s, t, a, d, j);
        lemma_number_end_longest(t, j - d);
    }
}

/// Lexing from position `x` in `s` is lexing from `x - d` in `t`, moved by
/// `d`, when `s` from `a` on is `t` moved by `d`.
pub proof fn lemma_lex_from_shift(s: Seq<char>, t: Seq<char>, a: int, d: int, x: int)
    requires
        corresponds(s, t, a, d),
        s.len() <= usize::MAX,
        a <= x <= s.len(),
    ensures
        lex_from(s, x as nat) == shift_lexed(lex_from(t, (x - d) as nat), 0, d),
    decreases s.len() - x,
{
    lemma_lex_step_shift(s, t, a, d, x);
    lemma_lex_step_advances(t, x - d);
    match lex_step(t, x - d) {
        Ok(Some((tok, j))) => {
            lemma_lex_from_shift(s, t, a, d, j + d);
            let rest = lex_from(t, j as nat);
            assert(shift_tokens(seq![tok] + rest.0, 0, d) =~= seq![shift_token(tok, 0, d)]
                + shift_tokens(rest.0, 0, d));
        },
        _ => {
            assert(shift_tokens(Seq::<Token>::empty(), 0, d) =~= Seq::<Token>::empty());
        },
    }
}

/// Skipped characters before position `i` change nothing of what the
/// lexer reads from there.
pub proof fn lemma_skip_prefix(s: Seq<char>, k: int, i: int)
    requires
        0 <= k <= i <= s.len(),
        forall|x: int| k <= x < i ==> is_skipped(#[trigger] s[x]),
    ensures
        skip_end(s, k) == skip_end(s, i),
        lex_step(s, k) == lex_step(s, i),
        lex_from(s, k as nat) == lex_from(s, i as nat),
    decreases i - k,
{
    if k < i {
        assert(is_skipped(s[k]));
        lemma_skip_prefix(s, k + 1, i);
    }
}

/// `s` and `s2` have the same characters before position `i`.
pub open spec fn agrees_before(s: Seq<char>, s2: Seq<char>, i: int) -> bool {
    &&& 0 <= i <= s.len()
    &&& i <= s2.len()
    &&& forall|x: int| 0 <= x < i ==> #[trigger] s2[x] == s[x]
}

proof fn lemma_skip_end_agree(s: Seq<char>, s2: Seq<char>, i: int, x: int)
    requires
        agrees_before(s, s2, i),
        0 <= x <= i,
        skip_end(s, x) < i,
    ensures
        skip_end(s2, x) == skip_end(s, x),
    decreases i - x,
{
    lemma_skip_end(s, x);
    assert(s2[x] == s[x]);
    if is_skipped(s[x]) {
        lemma_skip_end_agree(s, s2, i, x + 1);
    }
}

/// A token that the lexer reads from `k` in `s` and that ends by `i` is
/// read the same from `k` in any `s2` with the same characters before `i`,
/// as long as `s2` ends at `i` or has an inert character there.
pub proof fn lemma_lex_step_agree(s: Seq<char>, s2: Seq<char>, i: int, k: int)
    requires
        agrees_before(s, s2, i),
        0 <= k <= i,
        lex_step(s, k) matches Ok(Some((_, j))) && j <= i,
        i == s2.len() || is_inert(s2[i]),
    ensures
        lex_step(s2, k) == lex_step(s, k),
{
    lemma_skip_end(s, k);
    let t0 = skip_end(s, k);
    crate::lexer::lemma_number_end(s, t0);
    lemma_skip_end_agree(s, s2, i, k);
    assert(s2[t0] == s[t0]);
    if t0 + 1 < i {
        assert(s2[t0 + 1] == s[t0 + 1]);
    }
    let c = s[t0];
    if !(c == '+' || c == '-' || c == '*' || c == '/' || c == '%' || c == '(' || c == ')') {
        let j = number_end(s, t0)->0;
        lemma_number_end_longest(s, t0);
        assert(s2.subrange(t0, j) =~= s.subrange(t0, j));
        assert forall|e2: int| j < e2 <= s2.len() implies !is_number_literal(
            #[trigger] s2.subrange(t0, e2),
        ) by {
            if e2 <= i {
                assert(s2.subrange(t0, e2) =~= s.subrange(t0, e2));
            } else {
                if is_number_literal(s2.subrange(t0, e2)) {
                    lemma_literal_chars(s2.subrange(t0, e2));
                    assert(s2.subrange(t0, e2)[i - t0] == s2[i]);
                }
            }
        }
        lemma_number_end_unique(s2, t0, j);
    }
}

/// Lexing `x + y`, where `x` lexes without error and `y` is empty or
/// starts with an inert character: the tokens of `x`, then those of `y`
/// moved by the length of `x`, and the error of `y`.
pub proof fn lemma_lex_glue(x: Seq<char>, y: Seq<char>, k: int)
    requires
        0 <= k <= x.len(),
        lex_from(x, k as nat).1 is None,
        y.len() == 0 || is_inert(y[0]),
        x.len() + y.len() <= usize::MAX,
    ensures
        lex_from(x + y, k as nat) == (
            lex_from(x, k as nat).0 + shift_tokens(lex_from(y, 0).0, 0, x.len() as int),
            lex_from(y, 0).1,
        ),
    decreases x.len() - k,
{
    let s2 = x + y;
    let n = x.len() as int;
    lemma_lex_step_advances(x, k);
    assert(agrees_before(x, s2, n));
    assert(corresponds(s2, y, n, n));
    match lex_step(x, k) {
        Ok(None) => {
            lemma_skip_end(x, k);
            assert forall|z: int| k <= z < n implies is_skipped(#[trigger] s2[z]) by {
                assert(s2[z] == x[z]);
            }
            lemma_skip_prefix(s2, k, n);
            lemma_lex_from_shift(s2, y, n, n, n);
            assert(lex_from(x, k as nat).0 =~= Seq::<Token>::empty());
            assert(Seq::<Token>::empty() + shift_tokens(lex_from(y, 0).0, 0, n) =~= shift_tokens(
                lex_from(y, 0).0,
                0,
                n,
            ));
        },
        Ok(Some((tok, j))) => {
            if n < s2.len() {
                assert(s2[n] == y[0]);
            }
            lemma_lex_step_agree(x, s2, n, k);
            lemma_lex_glue(x, y, j);
            let rx = lex_from(x, j as nat);
            assert(seq![tok] + (rx.0 + shift_tokens(lex_from(y, 0).0, 0, n)) =~= (seq![tok] + rx.0)
                + shift_tokens(lex_from(y, 0).0, 0, n));
        },
        Err(_) => {},
    }
}

/// The error that the lexer reports from `k` in `s`, at a character
/// before `i`, is reported the same from `k` in any `s2` with the same
/// characters before `i`, as long as `s2` ends at `i` or has an inert
/// character there.
pub proof fn lemma_lex_step_agree_err(s: Seq<char>, s2: Seq<char>, i: int, k: int)
    requires
        agrees_before(s, s2, i),
        0 <= k <= i,
        lex_step(s, k) is Err,
        skip_end(s, k) < i,
        i == s2.len() || is_inert(s2[i]),
    ensures
        lex_step(s2, k) == lex_step(s, k),
{
    lemma_skip_end(s, k);
    let t0 = skip_end(s, k);
    lemma_skip_end_agree(s, s2, i, k);
    assert(s2[t0] == s[t0]);
    lemma_number_end_longest(s, t0);
    lemma_number_end_longest(s2, t0);
    if let Some(e) = number_end(s2, t0) {
        if e <= i {
            assert(s2.subrange(t0, e) =~= s.subrange(t0, e));
        } else {
            lemma_literal_chars(s2.subrange(t0, e));
            assert(s2.subrange(t0, e)[i - t0] == s2[i]);
        }
    }
}

/// Lexing `s` from position `k` passes position `i` between tokens, or
/// stops before it: `i` lies in the run of skipped characters before the
/// next token (or before the end of the input, or before a character that
/// starts no token), or after a character at which lexing stops with an
/// error, or a token read from `k` ends by `i` and lexing passes `i` from
/// its end.
pub open spec fn lexer_passes(s: Seq<char>, k: int, i: int) -> bool
    decreases i - k,
{
    if !(0 <= k <= i && i <= s.len()) {
        false
    } else if i <= skip_end(s, k) {
        true
    } else {
        match lex_step(s, k) {
            Ok(Some((_, j))) => if k < j <= i {
                lexer_passes(s, j, i)
            } else {
                false
            },
            Err(_) => true,
            Ok(None) => false,
        }
    }
}

/// `s` with `w` put in at position `i`.
pub open spec fn insert_at(s: Seq<char>, i: int, w: Seq<char>) -> Seq<char> {
    s.subrange(0, i) + w + s.subrange(i, s.len() as int)
}

proof fn lemma_lex_from_starts(s: Seq<char>, k: int)
    requires
        0 <= k <= s.len() <= usize::MAX,
    ensures
        forall|m: int|
            0 <= m < lex_from(s, k as nat).0.len() ==> (#[trigger] lex_from(s, k as nat).0[m] matches Token::Number {
                start,
                ..
            } ==> start >= k),
    decreases s.len() - k,
{
    lemma_lex_step_advances(s, k);
    if let Ok(Some((t, j))) = lex_step(s, k) {
        lemma_lex_from_starts(s, j);
        let r = lex_from(s, j as nat).0;
        assert forall|m: int| 0 <= m < (seq![t] + r).len() implies (#[trigger] (seq![t] + r)[m] matches Token::Number {
            start,
            ..
        } ==> start >= k) by {
            if m > 0 {
                assert((seq![t] + r)[m] == r[m - 1]);
            }
        }
    }
}

/// No number token spans across position `i`.
pub open spec fn no_straddle(toks: Seq<Token>, i: int) -> bool {
    forall|m: int|
        0 <= m < toks.len() ==> (#[trigger] toks[m] matches Token::Number { start, end } ==> start
            >= i || end <= i)
}

proof fn lemma_lex_insert(s: Seq<char>, w: Seq<char>, i: int, k: int)
    requires
        lexer_passes(s, k, i),
        forall|m: int| 0 <= m < w.len() ==> is_skipped(#[trigger] w[m]),
        s.len() + w.len() <= usize::MAX,
    ensures
        lex_from(insert_at(s, i, w), k as nat) == shift_lexed(lex_from(s, k as nat), i, w.len() as int),
        no_straddle(lex_from(s, k as nat).0, i),
    decreases i - k,
{
    let s2 = insert_at(s, i, w);
    let d = w.len() as int;
    assert(s2.len() == s.len() + d);
    if i <= skip_end(s, k) {
        lemma_skip_end(s, k);
        lemma_skip_prefix(s, k, i);
        lemma_lex_from_starts(s, i);
    } else if lex_step(s, k) is Ok && lex_step(s, k)->Ok_0 is Some {
        let (t, j) = lex_step(s, k)->Ok_0->Some_0;
        lemma_lex_step_advances(s, k);
        lemma_lex_insert(s, w, i, j);
        let r = lex_from(s, j as nat).0;
        assert forall|m: int| 0 <= m < (seq![t] + r).len() implies (#[trigger] (seq![t] + r)[m] matches Token::Number {
            start,
            end,
        } ==> start >= i || end <= i) by {
            if m > 0 {
                assert((seq![t] + r)[m] == r[m - 1]);
            }
        }
    }
    if d == 0 {
        assert(s2 =~= s);
        let r = lex_from(s, k as nat).0;
        assert(shift_tokens(r, i, 0) =~= r);
    } else if i <= skip_end(s, k) {
        lemma_skip_end(s, k);
        assert forall|x: int| k <= x < i + d implies is_skipped(#[trigger] s2[x]) by {
            if x < i {
                assert(s2[x] == s[x]);
            } else {
                assert(s2[x] == w[x - i]);
            }
        }
        lemma_skip_prefix(s2, k, i + d);
        assert forall|x: int| i + d <= x < s2.len() implies s2[x] == #[trigger] s[x - d] by {}
        lemma_lex_from_shift(s2, s, i + d, d, i + d);
        lemma_skip_prefix(s, k, i);
        lemma_lex_from_starts(s, i);
        let r = lex_from(s, i as nat).0;
        assert(shift_tokens(r, 0, d) =~= shift_tokens(r, i, d));
    } else if lex_step(s, k) is Err {
        lemma_skip_end(s, k);
        assert(agrees_before(s, s2, i));
        assert(s2[i] == w[0]);
        lemma_lex_step_agree_err(s, s2, i, k);
        assert(shift_tokens(Seq::<Token>::empty(), i, d) =~= Seq::<Token>::empty());
    } else {
        let j = lex_step(s, k)->Ok_0->Some_0.1;
        let t = lex_step(s, k)->Ok_0->Some_0.0;
        lemma_lex_step_advances(s, k);
        lemma_skip_end(s, k);
        assert(agrees_before(s, s2, i));
        assert(s2[i] == w[0]);
        lemma_lex_step_agree(s, s2, i, k);
        lemma_lex_insert(s, w, i, j);
        let r = lex_from(s, j as nat);
        assert(shift_token(t, i, d) == t);
        assert(shift_tokens(seq![t] + r.0, i, d) =~= seq![t] + shift_tokens(r.0, i, d));
    }
}

/// Skipped characters put in where the lexer passes between tokens (at the
/// start, at the end, or between two tokens), or anywhere after the
/// character at which it stops with an error, change the tokens only by
/// moving the number spans after them, and leave the error as it was.
pub proof fn lemma_tokenize_insert_whitespace(s: Seq<char>, w: Seq<char>, i: int)
    requires
        lexer_passes(s, 0, i),
        forall|m: int| 0 <= m < w.len() ==> is_skipped(#[trigger] w[m]),
        s.len() + w.len() <= usize::MAX,
    ensures
        spec_tokenize(insert_at(s, i, w)) == shift_lexed(spec_tokenize(s), i, w.len() as int),
        no_straddle(spec_tokenize(s).0, i),
{
    lemma_lex_insert(s, w, i, 0);
}

/// Every number token of `toks` spans characters within the first `n`.
pub open spec fn spans_within(toks: Seq<Token>, n: int) -> bool {
    forall|m: int|
        0 <= m < toks.len() ==> (#[trigger] toks[m] matches Token::Number { start, end } ==> start
            < end <= n)
}

pub proof fn lemma_tokenize_spans(s: Seq<char>)
    requires
        s.len() <= usize::MAX,
    ensures
        spans_within(spec_tokenize(s).0, s.len() as int),
{
    crate::lexer::lemma_tokenize_sound(s);
}

pub proof fn lemma_shift_tokens_add(a: Seq<Token>, b: Seq<Token>, from: int, d: int)
    ensures
        shift_tokens(a + b, from, d) == shift_tokens(a, from, d) + shift_tokens(b, from, d),
{
    assert(shift_tokens(a + b, from, d) =~= shift_tokens(a, from, d) + shift_tokens(b, from, d));
}

/// Moving all spans by `d1` and then by `d2` moves them by `d1 + d2`.
pub proof fn lemma_shift_tokens_twice(toks: Seq<Token>, n: int, d1: int, d2: int)
    requires
        spans_within(toks, n),
        0 <= d1,
        0 <= d2,
        n + d1 + d2 <= usize::MAX,
    ensures
        shift_tokens(shift_tokens(toks, 0, d1), 0, d2) == shift_tokens(toks, 0, d1 + d2),
        spans_within(shift_tokens(toks, 0, d1), n + d1),
{
    assert(shift_tokens(shift_tokens(toks, 0, d1), 0, d2) =~= shift_tokens(toks, 0, d1 + d2));
    assert forall|m: int| 0 <= m < shift_tokens(toks, 0, d1).len() implies (
    #[trigger] shift_tokens(toks, 0, d1)[m] matches Token::Number { start, end } ==> start < end
        <= n + d1) by {
        assert(shift_tokens(toks, 0, d1)[m] == shift_token(toks[m], 0, d1));
    }
}

/// The token that a one-character operator or parenthesis spells.
pub open spec fn single_token(c: char) -> Token {
    if c == '+' {
        Token::Plus
    } else if c == '-' {
        Token::Minus
    } else if c == '/' {
        Token::Divide
    } else if c == '%' {
        Token::Percent
    } else if c == '(' {
        Token::LParen
    } else {
        Token::RParen
    }
}

/// A character that is a token by itself, whatever follows it.
pub open spec fn is_single(c: char) -> bool {
    c == '+' || c == '-' || c == '/' || c == '%' || c == '(' || c == ')'
}

proof fn lemma_tokenize_head(c: Seq<char>, r: Seq<char>, t: Token)
    requires
        1 <= c.len() <= 2,
        lex_step(c + r, 0) == Ok::<Option<(Token, int)>, ParseError>(Some((t, c.len() as int))),
        c.len() + r.len() <= usize::MAX,
    ensures
        spec_tokenize(c + r) == (
            seq![t] + shift_tokens(spec_tokenize(r).0, 0, c.len() as int),
            spec_tokenize(r).1,
        ),
{
    let s = c + r;
    let n = c.len() as int;
    assert forall|x: int| n <= x < s.len() implies s[x] == #[trigger] r[x - n] by {}
    lemma_lex_from_shift(s, r, n, n, n);
}

/// Lexing a one-character token followed by `r`.
pub proof fn lemma_tokenize_single(c: char, r: Seq<char>)
    requires
        is_single(c),
        r.len() + 1 <= usize::MAX,
    ensures
        spec_tokenize(seq![c] + r) == (
            seq![single_token(c)] + shift_tokens(spec_tokenize(r).0, 0, 1),
            spec_tokenize(r).1,
        ),
{
    let s = seq![c] + r;
    assert(s[0] == c);
    assert(skip_end(s, 0) == 0);
    lemma_tokenize_head(seq![c], r, single_token(c));
}

/// Lexing `*` followed by something other than `*`.
pub proof fn lemma_tokenize_star(r: Seq<char>)
    requires
        r.len() > 0,
        r[0] != '*',
        r.len() + 1 <= usize::MAX,
    ensures
        spec_tokenize(seq!['*'] + r) == (
            seq![Token::Multiply] + shift_tokens(spec_tokenize(r).0, 0, 1),
            spec_tokenize(r).1,
        ),
{
    let s = seq!['*'] + r;
    assert(s[0] == '*');
    assert(s[1] == r[0]);
    assert(skip_end(s, 0) == 0);
    lemma_tokenize_head(seq!['*'], r, Token::Multiply);
}

/// Lexing `**` followed by anything.
pub proof fn lemma_tokenize_power(r: Seq<char>)
    requires
        r.len() + 2 <= usize::MAX,
    ensures
        spec_tokenize(seq!['*', '*'] + r) == (
            seq![Token::Power] + shift_tokens(spec_tokenize(r).0, 0, 2),
            spec_tokenize(r).1,
        ),
{
    let s = seq!['*', '*'] + r;
    assert(s[0] == '*');
    assert(s[1] == '*');
    assert(skip_end(s, 0) == 0);
    lemma_tokenize_head(seq!['*', '*'], r, Token::Power);
}

pub proof fn lemma_tokenize_empty()
    ensures
        spec_tokenize(Seq::<char>::empty()) == (Seq::<Token>::empty(), None::<ParseError>),
{
    assert(skip_end(Seq::<char>::empty(), 0) == 0);
}

/// Lexing `(a)` followed by `y`, where `a` lexes without error.
pub proof fn lemma_tokenize_group(a: Seq<char>, y: Seq<char>)
    requires
        spec_tokenize(a).1 is None,
        a.len() + y.len() + 2 <= usize::MAX,
    ensures
        spec_tokenize(seq!['('] + a + seq![')'] + y) == (
            seq![Token::LParen] + shift_tokens(spec_tokenize(a).0, 0, 1) + seq![Token::RParen]
                + shift_tokens(spec_tokenize(y).0, 0, a.len() + 2int),
            spec_tokenize(y).1,
        ),
{
    let ta = spec_tokenize(a).0;
    let ty = spec_tokenize(y).0;
    let na = a.len() as int;
    let y1 = seq![')'] + y;
    let r = a + y1;
    assert(seq!['('] + a + seq![')'] + y =~= seq!['('] + r);
    lemma_tokenize_single(')', y);
    assert(y1[0] == ')');
    lemma_lex_glue(a, y1, 0);
    lemma_tokenize_single('(', r);
    lemma_tokenize_spans(a);
    lemma_tokenize_spans(y);
    let ty1 = seq![Token::RParen] + shift_tokens(ty, 0, 1);
    lemma_shift_tokens_twice(ty, y.len() as int, 1, na);
    lemma_shift_tokens_add(seq![Token::RParen], shift_tokens(ty, 0, 1), 0, na);
    assert(shift_tokens(seq![Token::RParen], 0, na) =~= seq![Token::RParen]);
    assert(shift_tokens(ty1, 0, na) == seq![Token::RParen] + shift_tokens(ty, 0, 1 + na));
    let tr = ta + shift_tokens(ty1, 0, na);
    lemma_shift_tokens_add(ta, shift_tokens(ty1, 0, na), 0, 1);
    lemma_shift_tokens_add(seq![Token::RParen], shift_tokens(ty, 0, 1 + na), 0, 1);
    assert(shift_tokens(seq![Token::RParen], 0, 1) =~= seq![Token::RParen]);
    lemma_shift_tokens_twice(ty, y.len() as int, 1 + na, 1);
    assert(shift_tokens(tr, 0, 1) == shift_tokens(ta, 0, 1) + (seq![Token::RParen] + shift_tokens(
        ty,
        0,
        na + 2,
    )));
    assert(seq![Token::LParen] + shift_tokens(tr, 0, 1) =~= seq![Token::LParen] + shift_tokens(
        ta,
        0,
        1,
    ) + seq![Token::RParen] + shift_tokens(ty, 0, na + 2));
}

/// The shape of a number literal: it starts with a digit or `.`, ends with
/// a digit or `.`, and has a sign only right after `e` or `E`.
pub proof fn lemma_literal_shape(t: Seq<char>)
    requires
        is_number_literal(t),
    ensures
        t.len() >= 1,
        is_digit(t[0]) || t[0] == '.',
        is_digit(t.last()) || t.last() == '.',
        forall|m: int|
            0 <= m < t.len() && (#[trigger] t[m] == '+' || t[m] == '-') ==> 1 <= m && (t[m - 1]
                == 'e' || t[m - 1] == 'E'),
{
    let j = choose|j: int|
        0 <= j <= t.len() && is_mantissa(#[trigger] t.subrange(0, j)) && is_exponent(
            t.subrange(j, t.len() as int),
        );
    let m = t.subrange(0, j);
    let x = t.subrange(j, t.len() as int);
    assert forall|n: int| 0 <= n < t.len() implies (t[n] == if n < j {
        m[n]
    } else {
        x[n - j]
    }) by {}
    // the mantissa: digits and at most one '.'
    assert forall|n: int| 0 <= n < m.len() implies (is_digit(#[trigger] m[n]) || m[n] == '.') by {
        if m.len() >= 1 && crate::lexer::all_digits(m) {
        } else if exists|k: int|
            1 <= k < m.len() && crate::lexer::all_digits(#[trigger] m.subrange(0, k)) && m[k]
                == '.' && crate::lexer::all_digits(m.subrange(k + 1, m.len() as int)) {
            let k = choose|k: int|
                1 <= k < m.len() && crate::lexer::all_digits(#[trigger] m.subrange(0, k)) && m[k]
                    == '.' && crate::lexer::all_digits(m.subrange(k + 1, m.len() as int));
            if n < k {
                assert(m.subrange(0, k)[n] == m[n]);
            } else if n > k {
                assert(m.subrange(k + 1, m.len() as int)[n - k - 1] == m[n]);
            }
        } else {
            if n > 0 {
                assert(m.subrange(1, m.len() as int)[n - 1] == m[n]);
            }
        }
    }
    // the exponent: `e` or `E`, a sign only in second place, digits after
    if x.len() >= 3 && (x[0] == 'e' || x[0] == 'E') && (x[1] == '+' || x[1] == '-')
        && crate::lexer::all_digits(x.subrange(2, x.len() as int)) {
        assert forall|n: int| 2 <= n < x.len() implies is_digit(#[trigger] x[n]) by {
            assert(x.subrange(2, x.len() as int)[n - 2] == x[n]);
        }
    } else if x.len() >= 2 {
        assert forall|n: int| 1 <= n < x.len() implies is_digit(#[trigger] x[n]) by {
            assert(x.subrange(1, x.len() as int)[n - 1] == x[n]);
        }
    }
}

/// Lexing a number literal followed by `r`, which starts with an operator
/// character: the number token, then the tokens of `r` moved past it.
pub proof fn lemma_tokenize_literal_then(x: Seq<char>, r: Seq<char>)
    requires
        is_number_literal(x),
        r.len() == 0 || r[0] == '+' || r[0] == '-' || r[0] == '*' || r[0] == '/',
        x.len() + r.len() <= usize::MAX,
    ensures
        spec_tokenize(x + r) == (
            seq![Token::Number { start: 0, end: x.len() as usize }] + shift_tokens(
                spec_tokenize(r).0,
                0,
                x.len() as int,
            ),
            spec_tokenize(r).1,
        ),
{
    let s = x + r;
    let n = x.len() as int;
    lemma_literal_shape(x);
    assert(s[0] == x[0]);
    assert(skip_end(s, 0) == 0);
    assert(s.subrange(0, n) =~= x);
    assert forall|e2: int| n < e2 <= s.len() implies !is_number_literal(#[trigger] s.subrange(0, e2)) by {
        let u = s.subrange(0, e2);
        if is_number_literal(u) {
            lemma_literal_chars(u);
            lemma_literal_shape(u);
            assert(u[n] == r[0]);
            assert(u[n - 1] == x.last());
        }
    }
    lemma_number_end_unique(s, 0, n);
    assert forall|z: int| n <= z < s.len() implies s[z] == #[trigger] r[z - n] by {}
    lemma_lex_from_shift(s, r, n, n, n);
}

} // verus!
