//! Every expression the grammar reads has names the lexer reads whole, so the display round trip
//! holds of every parsed expression.
//!
//! A name the lexer reads ends where the lexer stops; whatever stands after it in the source,
//! the characters of the name decide every step of the lexer but the last look past its end, and
//! a space, `)`, `'` or the end of the text stops the lexer there too.
use super::parser::{
    chain, digits_end, index_end, is_blank, is_dec, is_name_start, is_word, juxtaposes, layer,
    lemma_layer_wf, lex_at, lex_from, name_end, name_rest, op_toks, parsed, postfix, segment_end,
    unary, word_end, bin_level, SLex, SyntaxKind,
};
use super::display::render_spec;
use super::roundtrip::{follows_ok, law_display_parses_back, names_ok, reads_whole, spelling_of};
use super::rpn::SToken;
use super::syntax::Syntax;
use vstd::prelude::*;

verus! {

/// The characters of `l` from `p + d` repeat those of `s` on `[p, e)`.
spec fn agrees(s: Seq<char>, l: Seq<char>, p: int, e: int, d: int) -> bool {
    &&& 0 <= p
    &&& 0 <= p + d
    &&& e <= s.len()
    &&& e + d <= l.len()
    &&& forall|x: int| p <= x < e ==> l[x + d] == #[trigger] s[x]
}

/// Position `q` of `l` is its end, a space, `)` or `'`.
spec fn stop_at(l: Seq<char>, q: int) -> bool {
    q == l.len() || l[q] == ' ' || l[q] == ')' || l[q] == '\''
}

proof fn lemma_word_bounds(s: Seq<char>, p: int)
    ensures
        word_end(s, p) >= p,
        0 <= p <= s.len() ==> word_end(s, p) <= s.len(),
    decreases s.len() - p,
{
    if 0 <= p < s.len() && is_word(s[p]) {
        lemma_word_bounds(s, p + 1);
    }
}

proof fn lemma_digits_bounds(s: Seq<char>, p: int)
    ensures
        digits_end(s, p) >= p,
        0 <= p <= s.len() ==> digits_end(s, p) <= s.len(),
    decreases s.len() - p,
{
    if 0 <= p < s.len() && is_dec(s[p]) {
        lemma_digits_bounds(s, p + 1);
    }
}

proof fn lemma_index_bounds(s: Seq<char>, i: int)
    requires
        0 <= i <= s.len(),
    ensures
        i <= index_end(s, i) <= s.len(),
{
    if i < s.len() && (s[i] == '<' || s[i] == '[') {
        lemma_digits_bounds(s, i + 1);
        let j = digits_end(s, i + 1);
        if j < s.len() {
            lemma_digits_bounds(s, j + 1);
        }
    }
}

proof fn lemma_segment_bounds(s: Seq<char>, p: int)
    requires
        0 <= p < s.len(),
        is_word(s[p]),
    ensures
        p < segment_end(s, p) <= s.len(),
{
    lemma_word_bounds(s, p + 1);
    lemma_index_bounds(s, word_end(s, p));
}

proof fn lemma_rest_bounds(s: Seq<char>, p: int)
    requires
        0 <= p <= s.len(),
    ensures
        p <= name_rest(s, p) <= s.len(),
    decreases s.len() - p,
{
    if 0 <= p && p + 1 < s.len() && (s[p] == '/' || s[p] == '.') && is_word(s[p + 1]) {
        let nx = segment_end(s, p + 1);
        if p < nx <= s.len() {
            lemma_rest_bounds(s, nx);
        }
    }
}

proof fn lemma_word_local(s: Seq<char>, l: Seq<char>, p: int, d: int, e: int)
    requires
        agrees(s, l, p, e, d),
        p <= word_end(s, p) <= e,
        stop_at(l, e + d),
    ensures
        word_end(l, p + d) == word_end(s, p) + d,
    decreases s.len() - p,
{
    if 0 <= p < s.len() && is_word(s[p]) {
        lemma_word_bounds(s, p + 1);
        assert(l[p + d] == s[p]);
        lemma_word_local(s, l, p + 1, d, e);
    } else if p < e {
        assert(l[p + d] == s[p]);
    }
}

proof fn lemma_digits_local(s: Seq<char>, l: Seq<char>, p: int, d: int, e: int)
    requires
        agrees(s, l, p, e, d),
        p <= digits_end(s, p) < e,
    ensures
        digits_end(l, p + d) == digits_end(s, p) + d,
    decreases s.len() - p,
{
    assert(l[p + d] == s[p]);
    if 0 <= p < s.len() && is_dec(s[p]) {
        lemma_digits_bounds(s, p + 1);
        lemma_digits_local(s, l, p + 1, d, e);
    }
}

proof fn lemma_index_local(s: Seq<char>, l: Seq<char>, p: int, d: int, e: int)
    requires
        agrees(s, l, p, e, d),
        p <= index_end(s, p) <= e,
        stop_at(l, e + d),
        index_end(s, p) == p && p < e ==> !(s[p] == '<' || s[p] == '['),
    ensures
        index_end(l, p + d) == index_end(s, p) + d,
{
    if p < e {
        assert(l[p + d] == s[p]);
        if s[p] == '<' || s[p] == '[' {
            lemma_digits_bounds(s, p + 1);
            let j = digits_end(s, p + 1);
            if j < s.len() {
                lemma_digits_bounds(s, j + 1);
            }
            assert(index_end(s, p) != p);
            assert(j < e);
            lemma_digits_local(s, l, p + 1, d, e);
            if j < s.len() && s[j] == ':' {
                lemma_digits_bounds(s, j + 1);
                assert(l[j + d] == s[j]);
                lemma_digits_local(s, l, j + 1, d, e);
                let j2 = digits_end(s, j + 1);
                assert(l[j2 + d] == s[j2]);
            } else {
                assert(l[j + d] == s[j]);
            }
        }
    }
}

proof fn lemma_segment_local(s: Seq<char>, l: Seq<char>, p: int, d: int, e: int)
    requires
        agrees(s, l, p, e, d),
        p < s.len(),
        is_word(s[p]),
        segment_end(s, p) <= e,
        segment_end(s, p) == e || s[segment_end(s, p)] == '/' || s[segment_end(s, p)] == '.',
        stop_at(l, e + d),
    ensures
        segment_end(l, p + d) == segment_end(s, p) + d,
{
    lemma_word_bounds(s, p + 1);
    let w = word_end(s, p);
    lemma_index_bounds(s, w);
    lemma_word_local(s, l, p, d, e);
    lemma_index_local(s, l, w, d, e);
}

proof fn lemma_rest_local(s: Seq<char>, l: Seq<char>, p: int, d: int, e: int)
    requires
        agrees(s, l, p, e, d),
        p <= e,
        name_rest(s, p) == e,
        stop_at(l, e + d),
    ensures
        name_rest(l, p + d) == e + d,
    decreases s.len() - p,
{
    if 0 <= p && p + 1 < s.len() && (s[p] == '/' || s[p] == '.') && is_word(s[p + 1]) {
        let nx = segment_end(s, p + 1);
        lemma_segment_bounds(s, p + 1);
        lemma_rest_bounds(s, nx);
        assert(l[p + d] == s[p]);
        assert(l[p + 1 + d] == s[p + 1]);
        lemma_segment_local(s, l, p + 1, d, e);
        lemma_rest_local(s, l, nx, d, e);
    }
}

proof fn lemma_name_local(s: Seq<char>, l: Seq<char>, i: int, d: int)
    requires
        0 <= i < s.len(),
        is_name_start(s[i]),
        agrees(s, l, i, name_end(s, i), d),
        stop_at(l, name_end(s, i) + d),
    ensures
        name_end(l, i + d) == name_end(s, i) + d,
{
    let e = name_end(s, i);
    let first = segment_end(s, i);
    lemma_segment_bounds(s, i);
    lemma_rest_bounds(s, first);
    lemma_segment_local(s, l, i, d, e);
    lemma_rest_local(s, l, first, d, e);
}

/// A name the lexer reads is one the syntax reads whole.
proof fn lemma_lexed_reads_whole(k: SyntaxKind, s: Seq<char>, i: int, n: Seq<char>, j: int)
    requires
        0 <= i < s.len(),
        lex_at(k, s, i) == Some((SLex::Ident(n), j)),
    ensures
        reads_whole(k, n),
{
    assert(is_name_start(s[i]));
    let e = name_end(s, i);
    lemma_segment_bounds(s, i);
    lemma_rest_bounds(s, segment_end(s, i));
    assert(n == s.subrange(i, e));
    assert forall|l: Seq<char>, i2: int|
        0 <= i2 && i2 + n.len() <= l.len() && l.subrange(i2, i2 + n.len()) == n && follows_ok(
            l.skip(i2 + n.len()),
        ) implies #[trigger] lex_at(k, l, i2) == Some((SLex::Ident(n), i2 + n.len())) by {
        let d = i2 - i;
        assert forall|x: int| i <= x < e implies l[x + d] == #[trigger] s[x] by {
            assert(l.subrange(i2, i2 + n.len())[x - i] == n[x - i]);
        }
        if e + d < l.len() {
            assert(l.skip(i2 + n.len())[0] == l[e + d]);
        }
        lemma_name_local(s, l, i, d);
        assert(l[i2] == n[0]);
        assert(l.subrange(i2, name_end(l, i2)) == n);
    }
}

/// Every identifier among the lexemes is a name the syntax reads whole.
spec fn idents_ok(k: SyntaxKind, l: Seq<SLex>) -> bool {
    forall|q: int| 0 <= q < l.len() ==> (#[trigger] l[q] matches SLex::Ident(n) ==> reads_whole(k, n))
}

proof fn lemma_lex_names(k: SyntaxKind, s: Seq<char>, i: int)
    requires
        lex_from(k, s, i) is Some,
    ensures
        idents_ok(k, lex_from(k, s, i)->0),
    decreases s.len() - i,
{
    if i < 0 || i >= s.len() {
    } else if is_blank(s[i]) {
        lemma_lex_names(k, s, i + 1);
    } else {
        let (lx, j) = lex_at(k, s, i)->0;
        lemma_lex_names(k, s, j);
        let rest = lex_from(k, s, j)->0;
        let all = seq![lx] + rest;
        if let SLex::Ident(n) = lx {
            lemma_lexed_reads_whole(k, s, i, n, j);
        }
        assert forall|q: int| 0 <= q < all.len() implies (#[trigger] all[q] matches SLex::Ident(n)
            ==> reads_whole(k, n)) by {
            if q > 0 {
                assert(all[q] == rest[q - 1]);
            }
        }
    }
}

proof fn lemma_names_concat(k: SyntaxKind, a: Seq<SToken>, b: Seq<SToken>)
    requires
        names_ok(k, a),
        names_ok(k, b),
    ensures
        names_ok(k, a + b),
{
    assert forall|j: int| 0 <= j < (a + b).len() implies (#[trigger] (a + b)[j] matches SToken::Var(n)
        ==> reads_whole(k, n)) by {
        if j < a.len() {
            assert((a + b)[j] == a[j]);
        } else {
            assert((a + b)[j] == b[j - a.len()]);
        }
    }
}

proof fn lemma_layer_names(k: SyntaxKind, l: Seq<SLex>, i: int, lvl: nat)
    requires
        layer(k, l, i, lvl) is Some,
        idents_ok(k, l),
    ensures
        names_ok(k, (layer(k, l, i, lvl)->0).0),
    decreases l.len() - i, 4 - lvl, 1int,
{
    if lvl == 3 {
        lemma_unary_names(k, l, i);
    } else {
        lemma_layer_wf(k, l, i, lvl + 1);
        lemma_layer_names(k, l, i, lvl + 1);
        let (t, j) = layer(k, l, i, lvl + 1)->0;
        lemma_chain_names(k, l, j, lvl, t);
    }
}

proof fn lemma_chain_names(k: SyntaxKind, l: Seq<SLex>, j: int, lvl: nat, acc: Seq<SToken>)
    requires
        chain(k, l, j, lvl, acc) is Some,
        idents_ok(k, l),
        names_ok(k, acc),
    ensures
        names_ok(k, (chain(k, l, j, lvl, acc)->0).0),
    decreases l.len() - j, 4 - lvl, 0int,
{
    if j < l.len() && bin_level(k, l[j]) == Some(lvl) {
        lemma_layer_wf(k, l, j + 1, lvl + 1);
        lemma_layer_names(k, l, j + 1, lvl + 1);
        let (t2, m) = layer(k, l, j + 1, lvl + 1)->0;
        lemma_names_concat(k, acc, t2);
        assert(names_ok(k, op_toks(l[j])));
        lemma_names_concat(k, acc + t2, op_toks(l[j]));
        lemma_chain_names(k, l, m, lvl, acc + t2 + op_toks(l[j]));
    } else if j < l.len() && juxtaposes(k, lvl, l[j]) {
        lemma_layer_wf(k, l, j, lvl + 1);
        lemma_layer_names(k, l, j, lvl + 1);
        let (t2, m) = layer(k, l, j, lvl + 1)->0;
        lemma_names_concat(k, acc, t2);
        assert(names_ok(k, seq![SToken::And]));
        lemma_names_concat(k, acc + t2, seq![SToken::And]);
        lemma_chain_names(k, l, m, lvl, acc + t2 + seq![SToken::And]);
    }
}

proof fn lemma_unary_names(k: SyntaxKind, l: Seq<SLex>, i: int)
    requires
        unary(k, l, i) is Some,
        idents_ok(k, l),
    ensures
        names_ok(k, (unary(k, l, i)->0).0),
    decreases l.len() - i, 0int, 0int,
{
    match l[i] {
        SLex::PreNot => {
            lemma_unary_names(k, l, i + 1);
            assert(names_ok(k, seq![SToken::Not]));
            lemma_names_concat(k, (unary(k, l, i + 1)->0).0, seq![SToken::Not]);
        },
        SLex::Ident(n) => {
            assert(reads_whole(k, n));
            assert(names_ok(k, seq![SToken::Var(n)]));
            lemma_postfix_names(k, l, i + 1, seq![SToken::Var(n)]);
        },
        SLex::Const(b) => {
            assert(names_ok(k, seq![SToken::Const(b)]));
            lemma_postfix_names(k, l, i + 1, seq![SToken::Const(b)]);
        },
        SLex::LParen => {
            lemma_layer_wf(k, l, i + 1, 0);
            lemma_layer_names(k, l, i + 1, 0);
            let (t, j) = layer(k, l, i + 1, 0)->0;
            lemma_postfix_names(k, l, j + 1, t);
        },
        _ => {},
    }
}

proof fn lemma_postfix_names(k: SyntaxKind, l: Seq<SLex>, j: int, acc: Seq<SToken>)
    requires
        names_ok(k, acc),
    ensures
        names_ok(k, postfix(l, j, acc).0),
    decreases l.len() - j,
{
    if 0 <= j < l.len() && l[j] is PostNot {
        assert(names_ok(k, seq![SToken::Not]));
        lemma_names_concat(k, acc, seq![SToken::Not]);
        lemma_postfix_names(k, l, j + 1, acc + seq![SToken::Not]);
    }
}

/// Whatever text the grammar of a syntax reads as an expression, the expression's rendering in
/// that syntax reads back as the same expression: the display round trip holds of every parsed
/// expression.
pub proof fn law_parsed_display_parses_back(k: SyntaxKind, s: Seq<char>, t: Seq<SToken>)
    requires
        parsed(k, s) == Some(t),
    ensures
        parsed(k, render_spec(t, spelling_of(k))) == Some(t),
{
    let l = lex_from(k, s, 0)->0;
    lemma_lex_names(k, s, 0);
    lemma_layer_wf(k, l, 0, 0);
    lemma_layer_names(k, l, 0, 0);
    law_display_parses_back(k, t);
}


/// In a syntax whose renderer spells what its grammar reads (as each of the library's three
/// does), the text [`BoolExpr::to_string`](super::BoolExpr::to_string) gives for an expression
/// that [`BoolExpr::parse_in`](super::BoolExpr::parse_in) read from any text reads back as that
/// expression.
pub proof fn law_syntax_display_parses_back<S: Syntax>(s: Seq<char>, t: Seq<SToken>)
    requires
        S::spelling() == spelling_of(S::grammar()),
        parsed(S::grammar(), s) == Some(t),
    ensures
        parsed(S::grammar(), render_spec(t, S::spelling())) == Some(t),
{
    law_parsed_display_parses_back(S::grammar(), s, t);
}

} // verus!
