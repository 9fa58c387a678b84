//! The standard syntax's constant words: `true` and `false` are the constants, read exactly as
//! `1` and `0` are.
use super::parser::{
    chain, index_end, is_blank, is_name_start, is_word, layer, lex_at, lex_from, name_end,
    name_rest, parsed, postfix, segment_end, unary, word_end, SLex, SyntaxKind,
};
use super::rpn::{eval, run, SToken};
use vstd::prelude::*;

verus! {

/// The word spelling a constant in the standard syntax.
pub open spec fn const_word(b: bool) -> Seq<char> {
    if b {
        seq!['t', 'r', 'u', 'e']
    } else {
        seq!['f', 'a', 'l', 's', 'e']
    }
}

/// The digit spelling a constant.
pub open spec fn const_digit(b: bool) -> Seq<char> {
    if b {
        seq!['1']
    } else {
        seq!['0']
    }
}

/// Position `e` of `l` ends a name: the text ends there, or a character stands there that
/// neither continues a word nor opens an index or a further segment.
pub open spec fn name_stops_at(l: Seq<char>, e: int) -> bool {
    e == l.len() || !(is_word(l[e]) || l[e] == '[' || l[e] == '<' || l[e] == '/' || l[e] == '.')
}

proof fn lemma_const_word_chars(b: bool)
    ensures
        const_word(b).len() > 0,
        is_name_start(const_word(b)[0]),
        forall|q: int| 0 <= q < const_word(b).len() ==> is_word(#[trigger] const_word(b)[q]),
{
    let w = const_word(b);
    assert forall|q: int| 0 <= q < w.len() implies is_word(#[trigger] w[q]) by {
        if q == 0 {
        } else if q == 1 {
        } else if q == 2 {
        } else if q == 3 {
        } else {
        }
    }
}

proof fn lemma_word_run(l: Seq<char>, i: int, e: int, q: int)
    requires
        0 <= i <= q <= e <= l.len(),
        forall|x: int| i <= x < e ==> is_word(#[trigger] l[x]),
        e == l.len() || !is_word(l[e]),
    ensures
        word_end(l, q) == e,
    decreases e - q,
{
    if q < e {
        lemma_word_run(l, i, e, q + 1);
    }
}

/// In the standard syntax, the word `false` wherever it stands whole is the constant false,
/// and `true` the constant true: the lexer reads it as that constant and passes over the word.
pub proof fn law_std_constant_words(l: Seq<char>, i: int, b: bool)
    requires
        0 <= i,
        i + const_word(b).len() <= l.len(),
        l.subrange(i, i + const_word(b).len()) == const_word(b),
        name_stops_at(l, i + const_word(b).len()),
    ensures
        lex_at(SyntaxKind::Std, l, i) == Some((SLex::Const(b), i + const_word(b).len())),
{
    let w = const_word(b);
    let e = i + w.len();
    lemma_const_word_chars(b);
    assert forall|x: int| i <= x < e implies is_word(#[trigger] l[x]) by {
        assert(l[x] == l.subrange(i, e)[x - i]);
    }
    assert(l[i] == w[0]);
    lemma_word_run(l, i, e, i);
    assert(segment_end(l, i) == e);
    assert(name_rest(l, e) == e);
    assert(name_end(l, i) == e);
}

proof fn lemma_single_const_layer(b: bool)
    ensures
        layer(SyntaxKind::Std, seq![SLex::Const(b)], 0, 0) == Some((seq![SToken::Const(b)], 1int)),
{
    let k = SyntaxKind::Std;
    let l = seq![SLex::Const(b)];
    let t = seq![SToken::Const(b)];
    assert(postfix(l, 1, t) == (t, 1int));
    assert(unary(k, l, 0) == Some((t, 1int)));
    assert(layer(k, l, 0, 3) == Some((t, 1int)));
    assert(chain(k, l, 1, 2, t) == Some((t, 1int)));
    assert(layer(k, l, 0, 2) == Some((t, 1int)));
    assert(chain(k, l, 1, 1, t) == Some((t, 1int)));
    assert(layer(k, l, 0, 1) == Some((t, 1int)));
    assert(chain(k, l, 1, 0, t) == Some((t, 1int)));
}

/// In the standard syntax the text `false` reads as the program that is false under every
/// assignment, the very program the text `0` reads as; `true` likewise reads as the program
/// that is true everywhere, the one `1` reads as.
pub proof fn law_std_constant_texts(b: bool)
    ensures
        parsed(SyntaxKind::Std, const_word(b)) == Some(seq![SToken::Const(b)]),
        parsed(SyntaxKind::Std, const_word(b)) == parsed(SyntaxKind::Std, const_digit(b)),
        forall|env: spec_fn(Seq<char>) -> bool|
            #[trigger] eval(parsed(SyntaxKind::Std, const_word(b))->0, env) == b,
{
    let k = SyntaxKind::Std;
    let w = const_word(b);
    lemma_const_word_chars(b);
    assert(w.subrange(0, w.len() as int) =~= w);
    law_std_constant_words(w, 0, b);
    assert(!is_blank(w[0]));
    assert(lex_from(k, w, w.len() as int) == Some(Seq::<SLex>::empty()));
    assert(seq![SLex::Const(b)] + Seq::<SLex>::empty() =~= seq![SLex::Const(b)]);
    assert(lex_from(k, w, 0) == Some(seq![SLex::Const(b)]));
    let dg = const_digit(b);
    assert(lex_at(k, dg, 0) == Some((SLex::Const(b), 1int)));
    assert(lex_from(k, dg, 1) == Some(Seq::<SLex>::empty()));
    assert(lex_from(k, dg, 0) == Some(seq![SLex::Const(b)]));
    lemma_single_const_layer(b);
    let t = seq![SToken::Const(b)];
    assert(t.drop_first() =~= Seq::<SToken>::empty());
    assert forall|env: spec_fn(Seq<char>) -> bool| #[trigger] eval(t, env) == b by {
        reveal_with_fuel(run, 2);
    }
}


/// In every syntax the digit `0` is the constant false and `1` the constant true (in the
/// Verilog syntax, a `1` that opens a sized literal `1'b…` is read with it, see
/// [`law_verilog_sized_constants`]).
pub proof fn law_digit_constants(k: SyntaxKind, l: Seq<char>, i: int)
    requires
        0 <= i < l.len(),
        l[i] == '0' || l[i] == '1',
        !(k == SyntaxKind::Verilog && l[i] == '1' && i + 1 < l.len() && l[i + 1] == '\''),
    ensures
        lex_at(k, l, i) == Some((SLex::Const(l[i] == '1'), i + 1)),
{
}

/// In the Verilog syntax the sized literals `1'b0` and `1'b1` (with `b` or `B`) are the
/// constants false and true.
pub proof fn law_verilog_sized_constants(l: Seq<char>, i: int)
    requires
        0 <= i,
        i + 3 < l.len(),
        l[i] == '1',
        l[i + 1] == '\'',
        l[i + 2] == 'b' || l[i + 2] == 'B',
        l[i + 3] == '0' || l[i + 3] == '1',
    ensures
        lex_at(SyntaxKind::Verilog, l, i) == Some((SLex::Const(l[i + 3] == '1'), i + 4)),
{
}

} // verus!
