use vstd::prelude::*;

use crate::ast::flatten;
use crate::composition::parses_exactly;
use crate::grammar::{
    depth,
    lemma_depth_add,
    lemma_depth_prefix,
    lemma_depth_single,
    lemma_flatten_shape,
    lemma_parse_expression_sound,
};
use crate::lexer::{
    is_number_literal,
    is_skipped,
    lemma_lex_step_advances,
    lemma_number_end_longest,
    lemma_skip_end,
    lex_from,
    lex_step,
    skip_end,
    spec_tokenize,
};
use crate::locality::lemma_literal_chars;
use crate::parser::spec_parse;
use crate::token::Token;

verus! {

/// How many more `(` than `)` a string holds.
pub open spec fn paren_balance(s: Seq<char>) -> int
    decreases s.len(),
{
    if s.len() == 0 {
        0
    } else {
        paren_balance(s.drop_last()) + if s.last() == '(' {
            1int
        } else if s.last() == ')' {
            -1int
        } else {
            0int
        }
    }
}

/// Every `)` of `s` closes a `(` before it: no prefix holds more `)` than
/// `(`.
pub open spec fn closes_only_opened(s: Seq<char>) -> bool {
    forall|k: int| 0 <= k <= s.len() ==> paren_balance(#[trigger] s.subrange(0, k)) >= 0
}

proof fn lemma_balance_add(a: Seq<char>, b: Seq<char>)
    ensures
        paren_balance(a + b) == paren_balance(a) + paren_balance(b),
    decreases b.len(),
{
    if b.len() == 0 {
        assert(a + b =~= a);
    } else {
        lemma_balance_add(a, b.drop_last());
        assert((a + b).drop_last() =~= a + b.drop_last());
    }
}

proof fn lemma_balance_plain(u: Seq<char>)
    requires
        forall|m: int| 0 <= m < u.len() ==> #[trigger] u[m] != '(' && u[m] != ')',
    ensures
        paren_balance(u) == 0,
    decreases u.len(),
{
    if u.len() > 0 {
        lemma_balance_plain(u.drop_last());
    }
}

proof fn lemma_balance_split(s: Seq<char>, i: int, j: int, k: int)
    requires
        0 <= i <= j <= k <= s.len(),
    ensures
        paren_balance(s.subrange(i, k)) == paren_balance(s.subrange(i, j)) + paren_balance(
            s.subrange(j, k),
        ),
{
    lemma_balance_add(s.subrange(i, j), s.subrange(j, k));
    assert(s.subrange(i, j) + s.subrange(j, k) =~= s.subrange(i, k));
}

/// The characters that one step of the lexer reads hold as many more `(`
/// than `)` as the token it gives.
proof fn lemma_lex_step_balance(s: Seq<char>, i: int)
    requires
        0 <= i <= s.len(),
        lex_step(s, i) is Ok,
        lex_step(s, i)->Ok_0 is Some,
    ensures
        ({
            let (t, j) = lex_step(s, i)->Ok_0->Some_0;
            paren_balance(s.subrange(i, j)) == depth(seq![t])
        }),
{
    lemma_skip_end(s, i);
    lemma_lex_step_advances(s, i);
    let j0 = skip_end(s, i);
    let (t, j) = lex_step(s, i)->Ok_0->Some_0;
    crate::lexer::lemma_number_end(s, j0);
    assert(j0 < j);
    lemma_depth_single(t);
    lemma_balance_split(s, i, j0, j);
    assert forall|m: int| 0 <= m < s.subrange(i, j0).len() implies #[trigger] s.subrange(
        i,
        j0,
    )[m] != '(' && s.subrange(i, j0)[m] != ')' by {
        assert(is_skipped(s[i + m]));
    }
    lemma_balance_plain(s.subrange(i, j0));
    let u = s.subrange(j0, j);
    if t is Number {
        lemma_number_end_longest(s, j0);
        lemma_literal_chars(u);
        assert forall|m: int| 0 <= m < u.len() implies #[trigger] u[m] != '(' && u[m] != ')' by {
            assert(crate::locality::is_literal_char(u[m]));
        }
        lemma_balance_plain(u);
        assert(paren_balance(u) == depth(seq![t]));
    } else if t == Token::Power {
        assert(u =~= seq!['*', '*']);
        lemma_balance_plain(u);
    } else {
        assert(j == j0 + 1);
        assert(u =~= seq![s[j0]]);
        assert(u.drop_last() =~= Seq::<char>::empty());
        assert(paren_balance(Seq::<char>::empty()) == 0);
        assert(paren_balance(u) == depth(seq![t]));
    }
}

/// The tokens that the lexer gives from `i` on never close more groups
/// than the characters before `i` left open, when `s` closes only what it
/// opened.
proof fn lemma_lex_from_balance(s: Seq<char>, i: nat)
    requires
        i <= s.len(),
        closes_only_opened(s),
    ensures
        forall|m: int|
            0 <= m <= lex_from(s, i).0.len() ==> depth(#[trigger] lex_from(s, i).0.subrange(0, m))
                + paren_balance(s.subrange(0, i as int)) >= 0,
    decreases s.len() - i,
{
    lemma_lex_step_advances(s, i as int);
    let toks = lex_from(s, i).0;
    assert(depth(toks.subrange(0, 0)) == 0) by {
        assert(toks.subrange(0, 0) =~= Seq::<Token>::empty());
    }
    assert(paren_balance(s.subrange(0, i as int)) >= 0);
    if let Ok(Some((t, j))) = lex_step(s, i as int) {
        lemma_lex_from_balance(s, j as nat);
        lemma_lex_step_balance(s, i as int);
        lemma_balance_split(s, 0, i as int, j);
        let rest = lex_from(s, j as nat).0;
        assert forall|m: int| 0 <= m <= toks.len() implies depth(#[trigger] toks.subrange(0, m))
            + paren_balance(s.subrange(0, i as int)) >= 0 by {
            if m > 0 {
                assert(toks.subrange(0, m) =~= seq![t] + rest.subrange(0, m - 1));
                lemma_depth_add(seq![t], rest.subrange(0, m - 1));
                assert(depth(rest.subrange(0, m - 1)) + paren_balance(s.subrange(0, j)) >= 0);
            }
        }
    }
}

/// A string that closes only the groups it opens and parses takes in all
/// its tokens, without a lexical error: it parses exactly.
pub proof fn lemma_parse_whole(s: Seq<char>)
    requires
        spec_parse(s) is Ok,
        closes_only_opened(s),
        s.len() <= usize::MAX,
    ensures
        parses_exactly(s, spec_parse(s)->Ok_0),
{
    let e = spec_parse(s)->Ok_0;
    let toks = spec_tokenize(s).0;
    let n = flatten(e).len() as int;
    lemma_parse_expression_sound(s);
    lemma_lex_from_balance(s, 0);
    assert(s.subrange(0, 0) =~= Seq::<char>::empty());
    lemma_flatten_shape(e);
    if n < toks.len() {
        lemma_depth_prefix(toks, n, n + 1);
        assert(toks.subrange(n, n + 1) =~= seq![Token::RParen]);
        lemma_depth_single(Token::RParen);
        assert(depth(toks.subrange(0, n + 1)) >= 0);
    }
    assert(toks.subrange(0, n) =~= toks);
}

} // verus!
