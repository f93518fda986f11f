use vstd::prelude::*;

use crate::error::ParseError;
use crate::token::Token;

verus! {

/// An ASCII decimal digit.
pub open spec fn is_digit(c: char) -> bool {
    '0' <= c && c <= '9'
}

/// The characters skipped between tokens: space, tab, line feed, form feed.
pub open spec fn is_skipped(c: char) -> bool {
    c == ' ' || c == '\t' || c == '\n' || c == '\x0C'
}

pub open spec fn char_at(s: Seq<char>, i: int, c: char) -> bool {
    0 <= i < s.len() && s[i] == c
}

pub open spec fn digit_at(s: Seq<char>, i: int) -> bool {
    0 <= i < s.len() && is_digit(s[i])
}

/// The end of the run of digits that starts at `i`.
pub open spec fn digits_end(s: Seq<char>, i: int) -> int
    decreases s.len() - i,
{
    if digit_at(s, i) {
        digits_end(s, i + 1)
    } else {
        i
    }
}

/// The end of the run of skipped characters that starts at `i`.
pub open spec fn skip_end(s: Seq<char>, i: int) -> int
    decreases s.len() - i,
{
    if 0 <= i < s.len() && is_skipped(s[i]) {
        skip_end(s, i + 1)
    } else {
        i
    }
}

/// The longest match at `i` of `[0-9]+(\.[0-9]*)?|\.[0-9]+`, if any.
pub open spec fn mantissa_end(s: Seq<char>, i: int) -> Option<int> {
    if digit_at(s, i) {
        let j = digits_end(s, i);
        if char_at(s, j, '.') {
            Some(digits_end(s, j + 1))
        } else {
            Some(j)
        }
    } else if char_at(s, i, '.') && digit_at(s, i + 1) {
        Some(digits_end(s, i + 1))
    } else {
        None
    }
}

/// Where a number whose mantissa ends at `j` ends: after the exponent
/// `[eE][+-]?[0-9]+` when one follows, else at `j`.
pub open spec fn exponent_end(s: Seq<char>, j: int) -> int {
    if char_at(s, j, 'e') || char_at(s, j, 'E') {
        let k = if char_at(s, j + 1, '+') || char_at(s, j + 1, '-') {
            j + 2
        } else {
            j + 1
        };
        if digit_at(s, k) {
            digits_end(s, k)
        } else {
            j
        }
    } else {
        j
    }
}

/// The end of the longest number literal that starts at `i`, if one does.
pub open spec fn number_end(s: Seq<char>, i: int) -> Option<int> {
    match mantissa_end(s, i) {
        Some(j) => Some(exponent_end(s, j)),
        None => None,
    }
}

/// One step of the lexer from position `i`: the end of the input
/// (`Ok(None)`), the next token and the position after it, or the error for
/// a character that starts no token.
pub open spec fn lex_step(s: Seq<char>, i: int) -> Result<Option<(Token, int)>, ParseError> {
    let j = skip_end(s, i);
    if j >= s.len() {
        Ok(None)
    } else {
        let c = s[j];
        if c == '+' {
            Ok(Some((Token::Plus, j + 1)))
        } else if c == '-' {
            Ok(Some((Token::Minus, j + 1)))
        } else if c == '*' {
            if char_at(s, j + 1, '*') {
                Ok(Some((Token::Power, j + 2)))
            } else {
                Ok(Some((Token::Multiply, j + 1)))
            }
        } else if c == '/' {
            Ok(Some((Token::Divide, j + 1)))
        } else if c == '%' {
            Ok(Some((Token::Percent, j + 1)))
        } else if c == '(' {
            Ok(Some((Token::LParen, j + 1)))
        } else if c == ')' {
            Ok(Some((Token::RParen, j + 1)))
        } else {
            match number_end(s, j) {
                Some(e) => Ok(Some((Token::Number { start: j as usize, end: e as usize }, e))),
                None => Err(ParseError::UnexpectedChar(c)),
            }
        }
    }
}

pub proof fn lemma_digits_end(s: Seq<char>, i: int)
    requires
        0 <= i <= s.len(),
    ensures
        i <= digits_end(s, i) <= s.len(),
        forall|k: int| i <= k < digits_end(s, i) ==> is_digit(#[trigger] s[k]),
        !digit_at(s, digits_end(s, i)),
    decreases s.len() - i,
{
    if digit_at(s, i) {
        lemma_digits_end(s, i + 1);
    }
}

pub proof fn lemma_skip_end(s: Seq<char>, i: int)
    requires
        0 <= i <= s.len(),
    ensures
        i <= skip_end(s, i) <= s.len(),
        forall|k: int| i <= k < skip_end(s, i) ==> is_skipped(#[trigger] s[k]),
        skip_end(s, i) < s.len() ==> !is_skipped(s[skip_end(s, i)]),
    decreases s.len() - i,
{
    if 0 <= i < s.len() && is_skipped(s[i]) {
        lemma_skip_end(s, i + 1);
    }
}

/// A number literal that starts at `i` ends after `i` and within the input.
pub proof fn lemma_number_end(s: Seq<char>, i: int)
    requires
        0 <= i <= s.len(),
    ensures
        number_end(s, i) matches Some(e) ==> i < e <= s.len(),
{
    if digit_at(s, i) {
        lemma_digits_end(s, i);
        let j = digits_end(s, i);
        if char_at(s, j, '.') {
            lemma_digits_end(s, j + 1);
        }
    } else if char_at(s, i, '.') && digit_at(s, i + 1) {
        lemma_digits_end(s, i + 1);
    }
    match mantissa_end(s, i) {
        Some(j) => {
            if char_at(s, j, 'e') || char_at(s, j, 'E') {
                let k = if char_at(s, j + 1, '+') || char_at(s, j + 1, '-') {
                    j + 2
                } else {
                    j + 1
                };
                if digit_at(s, k) {
                    lemma_digits_end(s, k);
                }
            }
        },
        None => {},
    }
}

/// Every token that the lexer produces ends after the position it was
/// asked to start from, and within the input.
pub proof fn lemma_lex_step_advances(s: Seq<char>, i: int)
    requires
        0 <= i <= s.len(),
    ensures
        lex_step(s, i) matches Ok(Some((_, j))) ==> i < j <= s.len(),
        s.len() <= usize::MAX ==> (lex_step(s, i) matches Ok(Some((Token::Number { start, end }, j)))
            ==> i <= start < end == j),
{
    lemma_skip_end(s, i);
    let j = skip_end(s, i);
    if j < s.len() {
        lemma_number_end(s, j);
    }
}

/// Every character of `t` is a digit.
pub open spec fn all_digits(t: Seq<char>) -> bool {
    forall|k: int| 0 <= k < t.len() ==> is_digit(#[trigger] t[k])
}

/// `t` matches `[0-9]+(\.[0-9]*)?|\.[0-9]+`.
pub open spec fn is_mantissa(t: Seq<char>) -> bool {
    ||| t.len() >= 1 && all_digits(t)
    ||| exists|k: int|
        1 <= k < t.len() && all_digits(#[trigger] t.subrange(0, k)) && t[k] == '.' && all_digits(
            t.subrange(k + 1, t.len() as int),
        )
    ||| t.len() >= 2 && t[0] == '.' && all_digits(t.subrange(1, t.len() as int))
}

/// `t` matches `([eE][+-]?[0-9]+)?`.
pub open spec fn is_exponent(t: Seq<char>) -> bool {
    ||| t.len() == 0
    ||| t.len() >= 2 && (t[0] == 'e' || t[0] == 'E') && all_digits(t.subrange(1, t.len() as int))
    ||| t.len() >= 3 && (t[0] == 'e' || t[0] == 'E') && (t[1] == '+' || t[1] == '-') && all_digits(
        t.subrange(2, t.len() as int),
    )
}

/// `t` is a number literal: it matches
/// `([0-9]+(\.[0-9]*)?|(\.[0-9]+))([eE][+-]?[0-9]+)?`.
pub open spec fn is_number_literal(t: Seq<char>) -> bool {
    exists|j: int|
        0 <= j <= t.len() && is_mantissa(#[trigger] t.subrange(0, j)) && is_exponent(
            t.subrange(j, t.len() as int),
        )
}

proof fn lemma_digits_end_bound(s: Seq<char>, i: int, k: int)
    requires
        0 <= i <= k <= s.len(),
        forall|m: int| i <= m < k ==> is_digit(#[trigger] s[m]),
    ensures
        k <= digits_end(s, i),
    decreases k - i,
{
    if i < k {
        assert(is_digit(s[i]));
        lemma_digits_end_bound(s, i + 1, k);
    } else {
        lemma_digits_end(s, i);
    }
}

/// The digits of `s` in `[a, b)`, as a run.
proof fn lemma_run(s: Seq<char>, a: int, b: int)
    requires
        0 <= a <= b <= s.len(),
    ensures
        all_digits(s.subrange(a, b)) <==> forall|m: int| a <= m < b ==> is_digit(#[trigger] s[m]),
{
    if all_digits(s.subrange(a, b)) {
        assert forall|m: int| a <= m < b implies is_digit(#[trigger] s[m]) by {
            assert(s.subrange(a, b)[m - a] == s[m]);
        }
    }
}

/// The exponent that `exponent_end` takes in is the longest match of
/// `([eE][+-]?[0-9]+)?` at `j`.
proof fn lemma_exponent_end(s: Seq<char>, j: int)
    requires
        0 <= j <= s.len(),
    ensures
        j <= exponent_end(s, j) <= s.len(),
        is_exponent(s.subrange(j, exponent_end(s, j))),
        forall|e: int|
            exponent_end(s, j) < e <= s.len() ==> !is_exponent(#[trigger] s.subrange(j, e)),
{
    let x = exponent_end(s, j);
    if char_at(s, j, 'e') || char_at(s, j, 'E') {
        let k = if char_at(s, j + 1, '+') || char_at(s, j + 1, '-') {
            j + 2
        } else {
            j + 1
        };
        if digit_at(s, k) {
            lemma_digits_end(s, k);
            let t = s.subrange(j, x);
            assert(t.subrange(k - j, t.len() as int) =~= s.subrange(k, x));
            lemma_run(s, k, x);
            if k == j + 2 {
                assert(t[1] == s[j + 1]);
            }
        } else {
            assert(s.subrange(j, j) =~= Seq::<char>::empty());
        }
        assert forall|e: int| x < e <= s.len() implies !is_exponent(#[trigger] s.subrange(j, e)) by {
            let t = s.subrange(j, e);
            if is_exponent(t) {
                if t.len() >= 3 && (t[1] == '+' || t[1] == '-') && all_digits(
                    t.subrange(2, t.len() as int),
                ) {
                    assert(t.subrange(2, t.len() as int) =~= s.subrange(j + 2, e));
                    lemma_run(s, j + 2, e);
                    assert(s[j + 1] == t[1]);
                    assert(is_digit(s[j + 2]));
                    lemma_digits_end(s, j + 2);
                    lemma_digits_end_bound(s, j + 2, e);
                } else {
                    assert(t.subrange(1, t.len() as int) =~= s.subrange(j + 1, e));
                    lemma_run(s, j + 1, e);
                    assert(is_digit(s[j + 1]));
                    lemma_digits_end(s, j + 1);
                    lemma_digits_end_bound(s, j + 1, e);
                }
            }
        }
    } else {
        assert(s.subrange(j, j) =~= Seq::<char>::empty());
        assert forall|e: int| x < e <= s.len() implies !is_exponent(#[trigger] s.subrange(j, e)) by {
            let t = s.subrange(j, e);
            assert(t[0] == s[j]);
        }
    }
}

/// The mantissa that `mantissa_end` takes in is the longest match of
/// `[0-9]+(\.[0-9]*)?|\.[0-9]+` at `i`, and every shorter match stops before
/// a digit or a `.`.
proof fn lemma_mantissa_end(s: Seq<char>, i: int)
    requires
        0 <= i <= s.len(),
    ensures
        mantissa_end(s, i) matches Some(m) ==> {
            &&& i < m <= s.len()
            &&& is_mantissa(s.subrange(i, m))
            &&& forall|j: int|
                i <= j <= s.len() && is_mantissa(#[trigger] s.subrange(i, j)) ==> j <= m && (j < m
                    ==> is_digit(s[j]) || s[j] == '.')
        },
        mantissa_end(s, i) is None ==> forall|j: int|
            i <= j <= s.len() ==> !is_mantissa(#[trigger] s.subrange(i, j)),
{
    lemma_digits_end(s, i);
    let d = digits_end(s, i);
    if digit_at(s, i) {
        if char_at(s, d, '.') {
            lemma_digits_end(s, d + 1);
        }
    } else if char_at(s, i, '.') && digit_at(s, i + 1) {
        lemma_digits_end(s, i + 1);
    }
    assert forall|j: int| i <= j <= s.len() && is_mantissa(#[trigger] s.subrange(i, j)) implies (
    mantissa_end(s, i) matches Some(m) && j <= m && (j < m ==> is_digit(s[j]) || s[j] == '.')) by {
        let t = s.subrange(i, j);
        if t.len() >= 1 && all_digits(t) {
            lemma_run(s, i, j);
            assert(is_digit(s[i]));
            lemma_digits_end_bound(s, i, j);
        } else if exists|k: int|
            1 <= k < t.len() && all_digits(#[trigger] t.subrange(0, k)) && t[k] == '.' && all_digits(
                t.subrange(k + 1, t.len() as int),
            ) {
            let k = choose|k: int|
                1 <= k < t.len() && all_digits(#[trigger] t.subrange(0, k)) && t[k] == '.'
                    && all_digits(t.subrange(k + 1, t.len() as int));
            assert(t.subrange(0, k) =~= s.subrange(i, i + k));
            assert(t.subrange(k + 1, t.len() as int) =~= s.subrange(i + k + 1, j));
            lemma_run(s, i, i + k);
            lemma_run(s, i + k + 1, j);
            assert(is_digit(s[i]));
            assert(s[i + k] == t[k]);
            lemma_digits_end_bound(s, i, i + k);
            if d > i + k {
                assert(is_digit(s[i + k]));
            }
            assert(d == i + k);
            lemma_digits_end(s, d + 1);
            lemma_digits_end_bound(s, d + 1, j);
        } else {
            assert(t.len() >= 2 && t[0] == '.' && all_digits(t.subrange(1, t.len() as int)));
            assert(t.subrange(1, t.len() as int) =~= s.subrange(i + 1, j));
            lemma_run(s, i + 1, j);
            assert(s[i] == t[0]);
            assert(is_digit(s[i + 1]));
            lemma_digits_end_bound(s, i + 1, j);
        }
    }
    match mantissa_end(s, i) {
        Some(m) => {
            let t = s.subrange(i, m);
            if digit_at(s, i) {
                if char_at(s, d, '.') {
                    let k = d - i;
                    assert(t.subrange(0, k) =~= s.subrange(i, d));
                    assert(t.subrange(k + 1, t.len() as int) =~= s.subrange(d + 1, m));
                    lemma_run(s, i, d);
                    lemma_run(s, d + 1, m);
                    assert(t[k] == '.');
                    assert(1 <= k < t.len() && all_digits(t.subrange(0, k)) && t[k] == '.'
                        && all_digits(t.subrange(k + 1, t.len() as int)));
                } else {
                    lemma_run(s, i, d);
                    assert(t =~= s.subrange(i, d));
                }
            } else {
                assert(t.subrange(1, t.len() as int) =~= s.subrange(i + 1, m));
                lemma_run(s, i + 1, m);
                assert(t[0] == '.');
            }
        },
        None => {},
    }
}

/// The lexer reads numbers by longest match: `number_end` finds the
/// longest prefix of `s` from `i` on that is a number literal, or finds
/// that none is.
pub proof fn lemma_number_end_longest(s: Seq<char>, i: int)
    requires
        0 <= i <= s.len(),
    ensures
        number_end(s, i) matches Some(e) ==> {
            &&& i < e <= s.len()
            &&& is_number_literal(s.subrange(i, e))
            &&& forall|e2: int|
                e < e2 <= s.len() ==> !is_number_literal(#[trigger] s.subrange(i, e2))
        },
        number_end(s, i) is None ==> forall|e2: int|
            i <= e2 <= s.len() ==> !is_number_literal(#[trigger] s.subrange(i, e2)),
{
    lemma_mantissa_end(s, i);
    assert forall|e2: int| i <= e2 <= s.len() && is_number_literal(#[trigger] s.subrange(i, e2)) implies (
    number_end(s, i) matches Some(e) && e2 <= e) by {
        let t = s.subrange(i, e2);
        let j = choose|j: int|
            0 <= j <= t.len() && is_mantissa(#[trigger] t.subrange(0, j)) && is_exponent(
                t.subrange(j, t.len() as int),
            );
        assert(t.subrange(0, j) =~= s.subrange(i, i + j));
        assert(t.subrange(j, t.len() as int) =~= s.subrange(i + j, e2));
        assert(is_mantissa(s.subrange(i, i + j)));
        let m = mantissa_end(s, i)->0;
        lemma_exponent_end(s, m);
        if i + j < e2 {
            let x = s.subrange(i + j, e2);
            assert(x[0] == s[i + j]);
            assert(i + j == m);
        }
    }
    match number_end(s, i) {
        Some(e) => {
            let m = mantissa_end(s, i)->0;
            lemma_exponent_end(s, m);
            let t = s.subrange(i, e);
            assert(t.subrange(0, m - i) =~= s.subrange(i, m));
            assert(t.subrange(m - i, t.len() as int) =~= s.subrange(m, e));
            assert(is_mantissa(t.subrange(0, m - i)));
        },
        None => {},
    }
}

/// The tokens that the lexer produces from position `i` on, and the error
/// that stopped it, if one did (`None` when it reached the end of the input).
pub open spec fn lex_from(s: Seq<char>, i: nat) -> (Seq<Token>, Option<ParseError>)
    decreases s.len() - i,
{
    if i > s.len() {
        (seq![], None)
    } else {
        proof {
            lemma_lex_step_advances(s, i as int);
        }
        match lex_step(s, i as int) {
            Ok(None) => (seq![], None),
            Err(e) => (seq![], Some(e)),
            Ok(Some((t, j))) => {
                let rest = lex_from(s, j as nat);
                (seq![t] + rest.0, rest.1)
            },
        }
    }
}

/// The token sequence of a whole input, and the lexical error that ends it, if any.
pub open spec fn spec_tokenize(s: Seq<char>) -> (Seq<Token>, Option<ParseError>) {
    lex_from(s, 0)
}

} // verus!

verus! {

/// The characters of a string, in order.
fn chars_of(s: &str) -> (v: Vec<char>)
    ensures
        v@ == s@,
{
    let mut v: Vec<char> = Vec::new();
    for c in it: s.chars()
        invariant
            v@ == it.seq().take(it.index() as int),
    {
        v.push(c);
    }
    v
}

fn is_digit_char(c: char) -> (b: bool)
    ensures
        b == is_digit(c),
{
    '0' <= c && c <= '9'
}

fn is_skipped_char(c: char) -> (b: bool)
    ensures
        b == is_skipped(c),
{
    c == ' ' || c == '\t' || c == '\n' || c == '\x0C'
}

fn has_char(s: &Vec<char>, i: usize, c: char) -> (b: bool)
    ensures
        b == char_at(s@, i as int, c),
{
    i < s.len() && s[i] == c
}

fn has_digit(s: &Vec<char>, i: usize) -> (b: bool)
    ensures
        b == digit_at(s@, i as int),
{
    i < s.len() && is_digit_char(s[i])
}

/// The end of the run of digits that starts at `i`.
fn scan_digits(s: &Vec<char>, i: usize) -> (j: usize)
    requires
        i <= s.len(),
    ensures
        j == digits_end(s@, i as int),
{
    let mut j = i;
    while has_digit(s, j)
        invariant
            i <= j <= s.len(),
            digits_end(s@, i as int) == digits_end(s@, j as int),
        decreases s.len() - j,
    {
        j = j + 1;
    }
    j
}

/// The end of the run of skipped characters that starts at `i`.
fn skip_whitespace(s: &Vec<char>, i: usize) -> (j: usize)
    requires
        i <= s.len(),
    ensures
        j == skip_end(s@, i as int),
{
    let mut j = i;
    while j < s.len() && is_skipped_char(s[j])
        invariant
            i <= j <= s.len(),
            skip_end(s@, i as int) == skip_end(s@, j as int),
        decreases s.len() - j,
    {
        j = j + 1;
    }
    j
}

/// The end of the longest number literal that starts at `i`, if one does.
fn scan_number(s: &Vec<char>, i: usize) -> (r: Option<usize>)
    requires
        i <= s.len(),
    ensures
        match r {
            Some(e) => number_end(s@, i as int) == Some(e as int),
            None => number_end(s@, i as int) is None,
        },
{
    let mantissa = if has_digit(s, i) {
        proof {
            lemma_digits_end(s@, i as int);
        }
        let j = scan_digits(s, i);
        if has_char(s, j, '.') {
            Some(scan_digits(s, j + 1))
        } else {
            Some(j)
        }
    } else if has_char(s, i, '.') && has_digit(s, i + 1) {
        Some(scan_digits(s, i + 1))
    } else {
        None
    };
    match mantissa {
        None => None,
        Some(j) => {
            proof {
                lemma_digits_end(s@, i as int);
                if char_at(s@, digits_end(s@, i as int), '.') {
                    lemma_digits_end(s@, digits_end(s@, i as int) + 1);
                }
                if char_at(s@, i as int, '.') && digit_at(s@, i + 1) {
                    lemma_digits_end(s@, i + 1);
                }
            }
            if has_char(s, j, 'e') || has_char(s, j, 'E') {
                let k = if has_char(s, j + 1, '+') || has_char(s, j + 1, '-') {
                    j + 2
                } else {
                    j + 1
                };
                if has_digit(s, k) {
                    Some(scan_digits(s, k))
                } else {
                    Some(j)
                }
            } else {
                Some(j)
            }
        },
    }
}

impl ParseError {
    /// The error for input at `start` that starts no token: the character
    /// found there, or the end of the input.
    pub fn from_lexer(s: &Vec<char>, start: usize) -> (e: ParseError)
        ensures
            e == (if start < s.len() {
                ParseError::UnexpectedChar(s@[start as int])
            } else {
                ParseError::UnexpectedEOF
            }),
    {
        if start < s.len() {
            ParseError::UnexpectedChar(s[start])
        } else {
            ParseError::UnexpectedEOF
        }
    }
}

/// A lexer step with its position taken as an integer.
pub open spec fn step_view(r: Result<Option<(Token, usize)>, ParseError>) -> Result<
    Option<(Token, int)>,
    ParseError,
> {
    match r {
        Ok(Some((t, j))) => Ok(Some((t, j as int))),
        Ok(None) => Ok(None),
        Err(e) => Err(e),
    }
}

/// One step of the lexer from position `i`.
fn next_token(s: &Vec<char>, i: usize) -> (r: Result<Option<(Token, usize)>, ParseError>)
    requires
        i <= s.len(),
    ensures
        step_view(r) == lex_step(s@, i as int),
{
    let j = skip_whitespace(s, i);
    proof {
        lemma_skip_end(s@, i as int);
    }
    if j >= s.len() {
        return Ok(None);
    }
    let c = s[j];
    if c == '+' {
        Ok(Some((Token::Plus, j + 1)))
    } else if c == '-' {
        Ok(Some((Token::Minus, j + 1)))
    } else if c == '*' {
        if has_char(s, j + 1, '*') {
            Ok(Some((Token::Power, j + 2)))
        } else {
            Ok(Some((Token::Multiply, j + 1)))
        }
    } else if c == '/' {
        Ok(Some((Token::Divide, j + 1)))
    } else if c == '%' {
        Ok(Some((Token::Percent, j + 1)))
    } else if c == '(' {
        Ok(Some((Token::LParen, j + 1)))
    } else if c == ')' {
        Ok(Some((Token::RParen, j + 1)))
    } else {
        match scan_number(s, j) {
            Some(e) => Ok(Some((Token::Number { start: j, end: e }, e))),
            None => Err(ParseError::from_lexer(s, j)),
        }
    }
}

/// Splits a string into tokens.
///
/// Returns the tokens up to the end of the input, or up to the first
/// character that starts no token, together with the error for that
/// character in the second case.
pub fn tokenize(input: &str) -> (r: (Vec<Token>, Option<ParseError>))
    ensures
        r.0@ == spec_tokenize(input@).0,
        r.1 == spec_tokenize(input@).1,
        input@.len() <= usize::MAX,
        r.1 is None ==> spells_from(input@, 0, r.0@, input@.len() as int),
        r.1 matches Some(x) ==> exists|j: int|
            #![trigger no_token_at(input@, j)]
            no_token_at(input@, j) && x == ParseError::UnexpectedChar(input@[j]) && spells_from(
                input@,
                0,
                r.0@,
                j,
            ),
{
    let s = chars_of(input);
    let mut tokens: Vec<Token> = Vec::new();
    let mut i: usize = 0;
    loop
        invariant
            i <= s.len(),
            s@ == input@,
            lex_from(s@, 0).0 == tokens@ + lex_from(s@, i as nat).0,
            lex_from(s@, 0).1 == lex_from(s@, i as nat).1,
        decreases s.len() - i,
    {
        proof {
            lemma_lex_step_advances(s@, i as int);
        }
        match next_token(&s, i) {
            Ok(None) => {
                assert(tokens@ + lex_from(s@, i as nat).0 =~= tokens@);
                proof {
                    lemma_tokenize_spelled(s@);
                }
                return (tokens, None);
            },
            Err(e) => {
                assert(tokens@ + lex_from(s@, i as nat).0 =~= tokens@);
                proof {
                    lemma_tokenize_spelled(s@);
                }
                return (tokens, Some(e));
            },
            Ok(Some((t, j))) => {
                let ghost old_tokens = tokens@;
                tokens.push(t);
                assert(old_tokens + lex_from(s@, i as nat).0 =~= tokens@ + lex_from(s@, j as nat).0);
                i = j;
            },
        }
    }
}

} // verus!

verus! {

/// A character that is a token by itself or starts `**`.
pub open spec fn is_operator_char(c: char) -> bool {
    c == '+' || c == '-' || c == '*' || c == '/' || c == '%' || c == '(' || c == ')'
}

/// No token starts at position `j`: the character there is not skipped, is
/// no operator, and begins no number literal.
pub open spec fn no_token_at(s: Seq<char>, j: int) -> bool {
    &&& 0 <= j < s.len()
    &&& !is_skipped(s[j])
    &&& !is_operator_char(s[j])
    &&& forall|e: int| j <= e <= s.len() ==> !is_number_literal(#[trigger] s.subrange(j, e))
}

/// Every number token of `toks` spans a number literal of `s`.
pub open spec fn numbers_spell_literals(s: Seq<char>, toks: Seq<Token>) -> bool {
    forall|k: int|
        0 <= k < toks.len() ==> (#[trigger] toks[k] matches Token::Number { start, end } ==> start
            < end <= s.len() && is_number_literal(s.subrange(start as int, end as int)))
}

proof fn lemma_lex_from_sound(s: Seq<char>, i: nat)
    requires
        i <= s.len() <= usize::MAX,
    ensures
        numbers_spell_literals(s, lex_from(s, i).0),
        lex_from(s, i).1 matches Some(x) ==> exists|j: int|
            i <= j && no_token_at(s, j) && x == ParseError::UnexpectedChar(#[trigger] s[j]),
    decreases s.len() - i,
{
    lemma_lex_step_advances(s, i as int);
    lemma_skip_end(s, i as int);
    let j = skip_end(s, i as int);
    if j < s.len() {
        lemma_number_end_longest(s, j);
    }
    match lex_step(s, i as int) {
        Ok(None) => {},
        Err(x) => {
            assert(no_token_at(s, j));
        },
        Ok(Some((t, n))) => {
            lemma_lex_from_sound(s, n as nat);
            let rest = lex_from(s, n as nat);
            assert forall|k: int|
                0 <= k < (seq![t] + rest.0).len() implies (#[trigger] (seq![t] + rest.0)[k] matches Token::Number { start, end } ==> start
                < end <= s.len() && is_number_literal(s.subrange(start as int, end as int))) by {
                if k > 0 {
                    assert((seq![t] + rest.0)[k] == rest.0[k - 1]);
                }
            }
        },
    }
}

/// The characters that spell a token other than a number.
pub open spec fn operator_text(t: Token) -> Seq<char> {
    match t {
        Token::Plus => seq!['+'],
        Token::Minus => seq!['-'],
        Token::Multiply => seq!['*'],
        Token::Divide => seq!['/'],
        Token::Power => seq!['*', '*'],
        Token::Percent => seq!['%'],
        Token::LParen => seq!['('],
        Token::RParen => seq![')'],
        Token::Number { .. } => Seq::empty(),
    }
}

/// Where a token that starts at `k` ends.
pub open spec fn token_end(t: Token, k: int) -> int {
    match t {
        Token::Number { end, .. } => end as int,
        _ => k + operator_text(t).len(),
    }
}

/// The token `t` is what `s` spells from position `k`, read by longest
/// match: a number spans the longest number literal that starts at `k`;
/// `*` is a product only where no second `*` follows it; any other token
/// is its own text.
pub open spec fn spelled_at(s: Seq<char>, k: int, t: Token) -> bool {
    match t {
        Token::Number { start, end } => {
            &&& start == k
            &&& k < end <= s.len()
            &&& is_number_literal(s.subrange(k, end as int))
            &&& forall|e: int| end < e <= s.len() ==> !is_number_literal(#[trigger] s.subrange(k, e))
        },
        Token::Multiply => 0 <= k < s.len() && s[k] == '*' && !char_at(s, k + 1, '*'),
        _ => 0 <= k && k + operator_text(t).len() <= s.len() && s.subrange(
            k,
            k + operator_text(t).len(),
        ) == operator_text(t),
    }
}

/// Every character of `s` in `[i, k)` is skipped.
pub open spec fn skipped_run(s: Seq<char>, i: int, k: int) -> bool {
    i <= k && forall|m: int| i <= m < k ==> is_skipped(#[trigger] s[m])
}

/// The characters of `s` in `[i, end)` are the tokens `toks`, each spelled
/// where it stands, with runs of skipped characters before, between and
/// after them.
pub open spec fn spells_from(s: Seq<char>, i: int, toks: Seq<Token>, end: int) -> bool
    decreases toks.len(),
{
    if toks.len() == 0 {
        skipped_run(s, i, end)
    } else {
        exists|k: int|
            #![trigger spelled_at(s, k, toks[0])]
            skipped_run(s, i, k) && spelled_at(s, k, toks[0]) && spells_from(
                s,
                token_end(toks[0], k),
                toks.drop_first(),
                end,
            )
    }
}

/// What the lexer gives from position `i` on is what the input spells.
proof fn lemma_lex_from_spelled(s: Seq<char>, i: nat)
    requires
        i <= s.len() <= usize::MAX,
    ensures
        lex_from(s, i).1 is None ==> spells_from(s, i as int, lex_from(s, i).0, s.len() as int),
        lex_from(s, i).1 matches Some(x) ==> exists|j: int|
            #![trigger no_token_at(s, j)]
            no_token_at(s, j) && x == ParseError::UnexpectedChar(s[j]) && spells_from(
                s,
                i as int,
                lex_from(s, i).0,
                j,
            ),
    decreases s.len() - i,
{
    lemma_lex_step_advances(s, i as int);
    lemma_skip_end(s, i as int);
    let j0 = skip_end(s, i as int);
    if j0 < s.len() {
        lemma_number_end_longest(s, j0);
    }
    match lex_step(s, i as int) {
        Ok(None) => {},
        Err(x) => {
            assert(no_token_at(s, j0));
            assert(spells_from(s, i as int, lex_from(s, i).0, j0));
        },
        Ok(Some((t, n))) => {
            lemma_lex_from_spelled(s, n as nat);
            let rest = lex_from(s, n as nat);
            let toks = lex_from(s, i).0;
            assert(toks.drop_first() =~= rest.0);
            assert(toks[0] == t);
            if t == Token::Power {
                assert(s.subrange(j0, j0 + 2) =~= seq!['*', '*']);
            } else if !(t is Number) && t != Token::Multiply {
                assert(s.subrange(j0, j0 + 1) =~= operator_text(t));
            }
            assert(spelled_at(s, j0, t));
            assert(token_end(t, j0) == n);
            assert(skipped_run(s, i as int, j0));
            match rest.1 {
                None => {
                    assert(spells_from(s, i as int, toks, s.len() as int));
                },
                Some(x) => {
                    let j = choose|j: int|
                        #![trigger no_token_at(s, j)]
                        no_token_at(s, j) && x == ParseError::UnexpectedChar(s[j]) && spells_from(
                            s,
                            n as int,
                            rest.0,
                            j,
                        );
                    assert(spells_from(s, i as int, toks, j));
                },
            }
        },
    }
}

/// The lexer reads exactly what the input spells: without an error, the
/// whole input is its tokens, each spelled where it stands by longest
/// match, between runs of skipped characters; with an error, the input up
/// to a character at which no token starts is so, and the error names
/// that character.
pub proof fn lemma_tokenize_spelled(s: Seq<char>)
    requires
        s.len() <= usize::MAX,
    ensures
        spec_tokenize(s).1 is None ==> spells_from(s, 0, spec_tokenize(s).0, s.len() as int),
        spec_tokenize(s).1 matches Some(x) ==> exists|j: int|
            #![trigger no_token_at(s, j)]
            no_token_at(s, j) && x == ParseError::UnexpectedChar(s[j]) && spells_from(
                s,
                0,
                spec_tokenize(s).0,
                j,
            ),
{
    lemma_lex_from_spelled(s, 0);
}

/// What the lexer produces is made of what the input spells: each number
/// token spans a number literal of the input, and a lexical error names a
/// character at which no token starts.
pub proof fn lemma_tokenize_sound(s: Seq<char>)
    requires
        s.len() <= usize::MAX,
    ensures
        numbers_spell_literals(s, spec_tokenize(s).0),
        spec_tokenize(s).1 matches Some(x) ==> exists|j: int|
            no_token_at(s, j) && x == ParseError::UnexpectedChar(#[trigger] s[j]),
{
    lemma_lex_from_sound(s, 0);
}

} // verus!
