//! Reading a rendering back: the grammar of every syntax reads the lexemes of an expression's
//! minimally parenthesised rendering as exactly that expression.
//!
//! A rendering is built bottom-up like any fold of the token program (see [`rendered`]); each
//! piece carries its tokens, its lexemes and its binding tightness. The proof shows that every
//! piece is read back correctly wherever it can stand in a larger rendering: after any lexemes,
//! and before whatever the renderer can put after it.
use super::display::{render_alg, render_spec, wrap, wrap_right};
use super::parser::{
    bin_level, chain, is_name_start, is_word, layer, lex_at, lex_from, name_end, name_rest,
    nots, op_toks, parsed, postfix, prefixed, segment_end, unary, word_end, SLex, SyntaxKind,
};
use super::syntax::{liberty_spelling, std_spelling, verilog_spelling, SyntaxSpec};
use super::rpn::{
    arity, lemma_binary, lemma_full, lemma_leaf, lemma_prefix, lemma_unary, run, step, value, wf_program,
    Alg, SToken,
};
use vstd::prelude::*;

verus! {

/// A piece of a rendering: its tokens, its lexemes, and how tightly its top operator binds
/// (4 for an operand, 3 for a NOT, the operator's precedence level for a binary node).
pub type Piece = (Seq<SToken>, Seq<SLex>, int);

/// The lexemes `s` in parentheses.
pub open spec fn paren(s: Seq<SLex>) -> Seq<SLex> {
    seq![SLex::LParen] + s + seq![SLex::RParen]
}

/// A left operand's lexemes, parenthesised when it binds more loosely than `need`.
pub open spec fn lwrap(s: Seq<SLex>, have: int, need: int) -> Seq<SLex> {
    if have < need {
        paren(s)
    } else {
        s
    }
}

/// A right operand's lexemes, parenthesised when it binds at most as tightly as `need`.
pub open spec fn lwrap_right(s: Seq<SLex>, have: int, need: int) -> Seq<SLex> {
    if have <= need {
        paren(s)
    } else {
        s
    }
}

/// A binary node of the rendering.
pub open spec fn bin_piece(k: SyntaxKind, op: SLex, t: SToken, a: Piece, b: Piece) -> Piece {
    let q = bin_level(k, op)->0 as int;
    (a.0 + b.0 + seq![t], lwrap(a.1, a.2, q) + seq![op] + lwrap_right(b.1, b.2, q), q)
}

/// The rendering of a token program in a syntax, as pieces: operands are single lexemes, a NOT
/// is `!`/`~` before its operand or `'` after it in Liberty, a binary node is its operands
/// around the operator, each operand parenthesised as [`lwrap`] and [`lwrap_right`] say.
pub open spec fn piece_alg(k: SyntaxKind) -> Alg<Piece> {
    Alg {
        var: |n: Seq<char>| (seq![SToken::Var(n)], seq![SLex::Ident(n)], 4int),
        cst: |b: bool| (seq![SToken::Const(b)], seq![SLex::Const(b)], 4int),
        not: |a: Piece|
            (
                a.0 + seq![SToken::Not],
                if k == SyntaxKind::Liberty {
                    lwrap(a.1, a.2, 3) + seq![SLex::PostNot]
                } else {
                    seq![SLex::PreNot] + lwrap(a.1, a.2, 3)
                },
                3int,
            ),
        and: |a: Piece, b: Piece| bin_piece(k, SLex::And, SToken::And, a, b),
        or: |a: Piece, b: Piece| bin_piece(k, SLex::Or, SToken::Or, a, b),
        xor: |a: Piece, b: Piece| bin_piece(k, SLex::Xor, SToken::Xor, a, b),
    }
}

/// The lexemes of the minimally parenthesised rendering of a token program in a syntax.
pub open spec fn rendered(k: SyntaxKind, t: Seq<SToken>) -> Seq<SLex> {
    value(t, piece_alg(k)).1
}

/// What the grammar reads from a whole lexeme sequence.
pub open spec fn reads(k: SyntaxKind, l: Seq<SLex>) -> Option<Seq<SToken>> {
    match layer(k, l, 0, 0) {
        Some((t, j)) => if j == l.len() {
            Some(t)
        } else {
            None
        },
        None => None,
    }
}

/// What may follow an expression read at level `lvl` without extending it: nothing, a closing
/// parenthesis, or a binary operator of level at most `lvl`.
pub open spec fn stops(k: SyntaxKind, s: Seq<SLex>, lvl: int) -> bool {
    s.len() == 0 || s[0] is RParen || (bin_level(k, s[0]) is Some && bin_level(k, s[0])->0 <= lvl)
}

/// How reading at level `lvl` goes on once an expression `t` ending at `e` has been read.
pub open spec fn cont(k: SyntaxKind, l: Seq<SLex>, e: int, lvl: nat, t: Seq<SToken>) -> Option<(Seq<SToken>, int)> {
    if lvl >= 3 {
        Some((t, e))
    } else {
        chain(k, l, e, lvl, t)
    }
}

/// `m` postfix NOTs.
pub open spec fn posts(m: nat) -> Seq<SLex> {
    Seq::new(m, |q: int| SLex::PostNot)
}

/// The lexemes `lx` are read at the unary level as `t`, after any lexemes and before postfix
/// NOTs (only in Liberty) and whatever stops an expression.
pub open spec fn reads_unary(k: SyntaxKind, t: Seq<SToken>, lx: Seq<SLex>) -> bool {
    forall|p: Seq<SLex>, m: nat, s: Seq<SLex>|
        #![trigger unary(k, p + lx + posts(m) + s, p.len() as int)]
        (m == 0 || k == SyntaxKind::Liberty) && stops(k, s, 3) ==> unary(
            k,
            p + lx + posts(m) + s,
            p.len() as int,
        ) == Some((t + nots(m), (p.len() + lx.len() + m) as int))
}

/// The lexemes `lx`, binding with tightness `have`, are read at every level up to it as `t`,
/// after which reading goes on at that level.
pub open spec fn reads_at(k: SyntaxKind, t: Seq<SToken>, lx: Seq<SLex>, have: int) -> bool {
    forall|p: Seq<SLex>, s: Seq<SLex>, lvl: nat|
        #![trigger layer(k, p + lx + s, p.len() as int, lvl)]
        lvl <= have && lvl <= 3 && stops(k, s, lvl as int) ==> layer(k, p + lx + s, p.len() as int, lvl)
            == cont(k, p + lx + s, (p.len() + lx.len()) as int, lvl, t)
}

/// A piece that is read back correctly wherever it can stand.
pub open spec fn good(k: SyntaxKind, v: Piece) -> bool {
    &&& wf_program(v.0)
    &&& 0 <= v.2 <= 4
    &&& v.1.len() > 0
    &&& reads_at(k, v.0, v.1, v.2)
    &&& v.2 >= 3 ==> reads_unary(k, v.0, v.1)
}

/// A chain stops at once before what cannot continue it.
proof fn lemma_chain_stop(k: SyntaxKind, l: Seq<SLex>, e: int, lvl: nat, t: Seq<SToken>)
    requires
        lvl < 3,
        0 <= e <= l.len(),
        stops(k, l.skip(e), lvl - 1),
    ensures
        chain(k, l, e, lvl, t) == Some((t, e)),
{
    if e < l.len() {
        assert(l.skip(e)[0] == l[e]);
    }
}

/// Reading at a lower level, before what stops it there, gives what reading at a higher level
/// gave.
proof fn lemma_lift(k: SyntaxKind, l: Seq<SLex>, i: int, e: int, q: nat, lvl: nat, t: Seq<SToken>)
    requires
        0 <= i < e <= l.len(),
        lvl <= q <= 3,
        layer(k, l, i, q) == cont(k, l, e, q, t),
        stops(k, l.skip(e), lvl as int),
    ensures
        layer(k, l, i, lvl) == cont(k, l, e, lvl, t),
    decreases q - lvl,
{
    if lvl < q {
        lemma_lift(k, l, i, e, q, lvl + 1, t);
        if lvl + 1 < 3 {
            lemma_chain_stop(k, l, e, lvl + 1, t);
        }
        assert(layer(k, l, i, lvl + 1) == Some((t, e)));
    }
}

/// Postfix NOTs are read onto the operand before them.
proof fn lemma_postfix_posts(l: Seq<SLex>, j: int, acc: Seq<SToken>, m: nat)
    requires
        0 <= j,
        j + m <= l.len(),
        forall|q: int| j <= q < j + m ==> l[q] is PostNot,
        j + m == l.len() || !(l[j + m] is PostNot),
    ensures
        postfix(l, j, acc) == (acc + nots(m), j + m),
    decreases m,
{
    if m == 0 {
        assert(acc + nots(0) =~= acc);
    } else {
        lemma_postfix_posts(l, j + 1, acc + seq![SToken::Not], (m - 1) as nat);
        assert(acc + seq![SToken::Not] + nots((m - 1) as nat) =~= acc + nots(m));
    }
}

/// The shape of `p + lx + posts(m) + s` around the end of `lx`.
proof fn lemma_tail(p: Seq<SLex>, lx: Seq<SLex>, m: nat, s: Seq<SLex>, k: SyntaxKind)
    requires
        stops(k, s, 3),
    ensures
        ({
            let l = p + lx + posts(m) + s;
            let j = (p.len() + lx.len()) as int;
            &&& forall|q: int| j <= q < j + m ==> l[q] is PostNot
            &&& j + m == l.len() || !(l[j + m] is PostNot)
            &&& l.skip(j + m) == s
        }),
{
    let l = p + lx + posts(m) + s;
    let j = (p.len() + lx.len()) as int;
    assert forall|q: int| j <= q < j + m implies l[q] is PostNot by {
        assert(l[q] == posts(m)[q - j]);
    }
    assert(l.skip(j + m) =~= s);
    if j + m < l.len() {
        assert(l[j + m] == s[0]);
    }
}

/// A single operand is read back, postfix NOTs and all.
proof fn lemma_leaf_good(k: SyntaxKind, tok: SToken, lex: SLex)
    requires
        (tok matches SToken::Var(n) && lex == SLex::Ident(n)) || (tok matches SToken::Const(b) && lex
            == SLex::Const(b)),
    ensures
        good(k, (seq![tok], seq![lex], 4)),
{
    lemma_leaf(tok, super::rpn::bool_alg(|n: Seq<char>| false));
    let t = seq![tok];
    let lx = seq![lex];
    assert forall|p: Seq<SLex>, m: nat, s: Seq<SLex>|
        (m == 0 || k == SyntaxKind::Liberty) && stops(k, s, 3) implies #[trigger] unary(
        k,
        p + lx + posts(m) + s,
        p.len() as int,
    ) == Some((t + nots(m), (p.len() + lx.len() + m) as int)) by {
        let l = p + lx + posts(m) + s;
        lemma_tail(p, lx, m, s, k);
        assert(l[p.len() as int] == lex);
        lemma_postfix_posts(l, p.len() as int + 1, t, m);
    }
    lemma_unary_reads_at(k, t, lx);
}

/// What is read at the unary level is read at every level.
proof fn lemma_unary_reads_at(k: SyntaxKind, t: Seq<SToken>, lx: Seq<SLex>)
    requires
        reads_unary(k, t, lx),
        lx.len() > 0,
    ensures
        reads_at(k, t, lx, 4),
{
    assert forall|p: Seq<SLex>, s: Seq<SLex>, lvl: nat|
        lvl <= 4 && lvl <= 3 && stops(k, s, lvl as int) implies #[trigger] layer(
        k,
        p + lx + s,
        p.len() as int,
        lvl,
    ) == cont(k, p + lx + s, (p.len() + lx.len()) as int, lvl, t) by {
        let l = p + lx + s;
        assert(p + lx + posts(0) + s =~= l);
        assert(t + nots(0) =~= t);
        assert(unary(k, p + lx + posts(0) + s, p.len() as int) == Some((t + nots(0), (p.len() + lx.len() + 0) as int)));
        assert(l.skip((p.len() + lx.len()) as int) =~= s);
        lemma_lift(k, l, p.len() as int, (p.len() + lx.len()) as int, 3, lvl, t);
    }
}

/// A parenthesised piece is read back as an operand.
proof fn lemma_paren_good(k: SyntaxKind, a: Piece)
    requires
        good(k, a),
    ensures
        reads_unary(k, a.0, paren(a.1)),
        reads_at(k, a.0, paren(a.1), 4),
{
    let lx = paren(a.1);
    assert forall|p: Seq<SLex>, m: nat, s: Seq<SLex>|
        (m == 0 || k == SyntaxKind::Liberty) && stops(k, s, 3) implies #[trigger] unary(
        k,
        p + lx + posts(m) + s,
        p.len() as int,
    ) == Some((a.0 + nots(m), (p.len() + lx.len() + m) as int)) by {
        let l = p + lx + posts(m) + s;
        let i = p.len() as int;
        let p2 = p + seq![SLex::LParen];
        let s2 = seq![SLex::RParen] + posts(m) + s;
        assert(l =~= p2 + a.1 + s2);
        assert(l[i] == SLex::LParen);
        assert(stops(k, s2, 0));
        assert(layer(k, p2 + a.1 + s2, p2.len() as int, 0) == cont(k, p2 + a.1 + s2, (p2.len() + a.1.len()) as int, 0, a.0));
        let e = (p2.len() + a.1.len()) as int;
        assert(l.skip(e)[0] == SLex::RParen);
        lemma_chain_stop(k, l, e, 0, a.0);
        assert(l[e] == SLex::RParen);
        lemma_tail(p, lx, m, s, k);
        lemma_postfix_posts(l, e + 1, a.0, m);
    }
    lemma_unary_reads_at(k, a.0, lx);
}

/// An operand parenthesised as needed is read back at the unary level, postfix NOTs and all.
proof fn lemma_wrapped_unary(k: SyntaxKind, a: Piece)
    requires
        good(k, a),
    ensures
        reads_unary(k, a.0, lwrap(a.1, a.2, 3)),
{
    if a.2 < 3 {
        lemma_paren_good(k, a);
    }
}

/// A NOT of a piece that is read back is read back.
proof fn lemma_not_good(k: SyntaxKind, a: Piece)
    requires
        good(k, a),
    ensures
        good(k, (piece_alg(k).not)(a)),
{
    let v = (piece_alg(k).not)(a);
    let w = lwrap(a.1, a.2, 3);
    lemma_wrapped_unary(k, a);
    lemma_unary(a.0, super::rpn::bool_alg(|n: Seq<char>| false));
    if k == SyntaxKind::Liberty {
        assert forall|p: Seq<SLex>, m: nat, s: Seq<SLex>|
            (m == 0 || k == SyntaxKind::Liberty) && stops(k, s, 3) implies #[trigger] unary(
            k,
            p + v.1 + posts(m) + s,
            p.len() as int,
        ) == Some((v.0 + nots(m), (p.len() + v.1.len() + m) as int)) by {
            assert(p + v.1 + posts(m) + s =~= p + w + posts(m + 1) + s);
            assert(unary(k, p + w + posts(m + 1) + s, p.len() as int) == Some((a.0 + nots(m + 1), (p.len() + w.len() + m + 1) as int)));
            assert(a.0 + nots(m + 1) =~= v.0 + nots(m));
        }
    } else {
        assert forall|p: Seq<SLex>, m: nat, s: Seq<SLex>|
            (m == 0 || k == SyntaxKind::Liberty) && stops(k, s, 3) implies #[trigger] unary(
            k,
            p + v.1 + posts(m) + s,
            p.len() as int,
        ) == Some((v.0 + nots(m), (p.len() + v.1.len() + m) as int)) by {
            let l = p + v.1 + posts(m) + s;
            let p2 = p + seq![SLex::PreNot];
            assert(m == 0);
            assert(l =~= p2 + w + posts(0) + s);
            assert(l[p.len() as int] == SLex::PreNot);
            assert(unary(k, p2 + w + posts(0) + s, p2.len() as int) == Some((a.0 + nots(0), (p2.len() + w.len() + 0) as int)));
            assert(a.0 + nots(0) =~= a.0);
            assert(v.0 + nots(0) =~= v.0);
        }
    }
    lemma_unary_reads_at(k, v.0, v.1);
}

/// An operand read at a level above the operator's, followed by what stops it there.
proof fn lemma_operand(k: SyntaxKind, a: Piece, need: int, right: bool, p: Seq<SLex>, s: Seq<SLex>)
    requires
        good(k, a),
        0 <= need < 3,
        stops(k, s, need),
    ensures
        ({
            let w = if right {
                lwrap_right(a.1, a.2, need)
            } else {
                lwrap(a.1, a.2, need)
            };
            let l = p + w + s;
            &&& !right && a.2 == need ==> layer(k, l, p.len() as int, need as nat) == chain(
                k,
                l,
                (p.len() + w.len()) as int,
                need as nat,
                a.0,
            )
            &&& (right || a.2 != need) ==> layer(k, l, p.len() as int, (need + 1) as nat) == Some(
                (a.0, (p.len() + w.len()) as int),
            )
            &&& w.len() > 0
        }),
{
    let w = if right {
        lwrap_right(a.1, a.2, need)
    } else {
        lwrap(a.1, a.2, need)
    };
    let l = p + w + s;
    let e = (p.len() + w.len()) as int;
    assert(l.skip(e) =~= s);
    let wrapped = if right {
        a.2 <= need
    } else {
        a.2 < need
    };
    if wrapped {
        lemma_paren_good(k, a);
        assert(w == paren(a.1));
        assert(layer(k, p + w + s, p.len() as int, (need + 1) as nat) == cont(k, l, e, (need + 1) as nat, a.0));
    } else {
        assert(w == a.1);
        if !right && a.2 == need {
            assert(layer(k, p + w + s, p.len() as int, need as nat) == cont(k, l, e, need as nat, a.0));
        } else {
            assert(layer(k, p + w + s, p.len() as int, (need + 1) as nat) == cont(k, l, e, (need + 1) as nat, a.0));
        }
    }
    if (right || a.2 != need) && need + 1 < 3 {
        lemma_chain_stop(k, l, e, (need + 1) as nat, a.0);
    }
}

/// A binary node of pieces that are read back is read back.
proof fn lemma_bin_good(k: SyntaxKind, op: SLex, tok: SToken, a: Piece, b: Piece)
    requires
        good(k, a),
        good(k, b),
        (op == SLex::And && tok == SToken::And) || (op == SLex::Or && tok == SToken::Or) || (op
            == SLex::Xor && tok == SToken::Xor),
    ensures
        good(k, bin_piece(k, op, tok, a, b)),
{
    let v = bin_piece(k, op, tok, a, b);
    let q = bin_level(k, op)->0 as int;
    assert(0 <= q <= 2);
    assert(op_toks(op) == seq![tok]);
    lemma_binary(a.0, b.0, tok, super::rpn::bool_alg(|n: Seq<char>| false));
    let wa = lwrap(a.1, a.2, q);
    let wb = lwrap_right(b.1, b.2, q);
    assert forall|p: Seq<SLex>, s: Seq<SLex>, lvl: nat|
        lvl <= q && lvl <= 3 && stops(k, s, lvl as int) implies #[trigger] layer(
        k,
        p + v.1 + s,
        p.len() as int,
        lvl,
    ) == cont(k, p + v.1 + s, (p.len() + v.1.len()) as int, lvl, v.0) by {
        let l = p + v.1 + s;
        let i = p.len() as int;
        let j = (p.len() + wa.len()) as int;
        let e = (p.len() + v.1.len()) as int;
        let sa = seq![op] + wb + s;
        assert(l =~= p + wa + sa);
        assert(stops(k, sa, q));
        lemma_operand(k, a, q, false, p, sa);
        let pb = p + wa + seq![op];
        assert(l =~= pb + wb + s);
        assert(stops(k, s, q));
        lemma_operand(k, b, q, true, pb, s);
        assert(l[j] == op);
        // Reading at level q: the left operand, then the operator and the right operand.
        assert(layer(k, l, i, q as nat) == chain(k, l, j, q as nat, a.0)) by {
            if a.2 != q {
                assert(layer(k, l, i, (q + 1) as nat) == Some((a.0, j)));
            }
        }
        assert(layer(k, l, j + 1, (q + 1) as nat) == Some((b.0, e)));
        assert(chain(k, l, j, q as nat, a.0) == chain(k, l, e, q as nat, a.0 + b.0 + op_toks(op)));
        assert(layer(k, l, i, q as nat) == cont(k, l, e, q as nat, v.0));
        assert(l.skip(e) =~= s);
        lemma_lift(k, l, i, e, q as nat, lvl, v.0);
    }
}

/// Every step of the rendering keeps every piece on the stack good.
proof fn lemma_step_good(k: SyntaxKind, t: SToken, st: Seq<Piece>)
    requires
        st.len() >= arity(t),
        forall|q: int| 0 <= q < st.len() ==> good(k, #[trigger] st[q]),
    ensures
        forall|q: int| 0 <= q < step(t, st, piece_alg(k)).len() ==> good(k, #[trigger] step(t, st, piece_alg(k))[q]),
{
    let alg = piece_alg(k);
    let n = st.len() as int;
    let st2 = step(t, st, alg);
    match t {
        SToken::Var(name) => {
            lemma_leaf_good(k, t, SLex::Ident(name));
            assert(st2[n] == (seq![t], seq![SLex::Ident(name)], 4int));
        },
        SToken::Const(b) => {
            lemma_leaf_good(k, t, SLex::Const(b));
            assert(st2[n] == (seq![t], seq![SLex::Const(b)], 4int));
        },
        SToken::Not => {
            lemma_not_good(k, st[n - 1]);
        },
        SToken::And => {
            lemma_bin_good(k, SLex::And, SToken::And, st[n - 2], st[n - 1]);
        },
        SToken::Or => {
            lemma_bin_good(k, SLex::Or, SToken::Or, st[n - 2], st[n - 1]);
        },
        SToken::Xor => {
            lemma_bin_good(k, SLex::Xor, SToken::Xor, st[n - 2], st[n - 1]);
        },
    }
    assert forall|q: int| 0 <= q < st2.len() implies good(k, #[trigger] st2[q]) by {
        if q < n - arity(t) {
            assert(st2[q] == st[q]);
        }
    }
}

/// The tokens of the pieces on a stack, in order.
pub open spec fn flat(st: Seq<Piece>) -> Seq<SToken>
    decreases st.len(),
{
    if st.len() == 0 {
        Seq::empty()
    } else {
        flat(st.drop_last()) + st.last().0
    }
}

proof fn lemma_flat_take(st: Seq<Piece>, n: int)
    requires
        0 <= n <= st.len(),
    ensures
        flat(st) == flat(st.take(n)) + flat(st.skip(n)),
    decreases st.len() - n,
{
    if n < st.len() {
        lemma_flat_take(st.drop_last(), n);
        assert(st.drop_last().take(n) =~= st.take(n));
        assert(st.skip(n).drop_last() =~= st.drop_last().skip(n));
        assert(st.skip(n).last() == st.last());
    } else {
        assert(st.take(n) =~= st);
        assert(st.skip(n) =~= Seq::<Piece>::empty());
    }
}

/// Rendering a prefix of a well-formed program leaves good pieces whose tokens spell the
/// prefix.
proof fn lemma_prefix_good(k: SyntaxKind, t: Seq<SToken>, i: int)
    requires
        wf_program(t),
        0 <= i <= t.len(),
    ensures
        forall|q: int|
            0 <= q < run(t.take(i), Seq::<Piece>::empty(), piece_alg(k)).len() ==> good(
                k,
                #[trigger] run(t.take(i), Seq::<Piece>::empty(), piece_alg(k))[q],
            ),
        flat(run(t.take(i), Seq::<Piece>::empty(), piece_alg(k))) == t.take(i),
    decreases i,
{
    let alg = piece_alg(k);
    if i == 0 {
        assert(t.take(0) =~= Seq::<SToken>::empty());
    } else {
        lemma_prefix_good(k, t, i - 1);
        lemma_prefix(t, i - 1, alg);
        let st = run(t.take(i - 1), Seq::<Piece>::empty(), alg);
        lemma_step_good(k, t[i - 1], st);
        let st2 = step(t[i - 1], st, alg);
        let n = st.len() as int;
        let a = arity(t[i - 1]);
        lemma_flat_take(st, n - a);
        assert(st2.drop_last() =~= st.take(n - a));
        assert(t.take(i) =~= t.take(i - 1).push(t[i - 1]));
        let sk = st.skip(n - a);
        if a == 0 {
            assert(sk =~= Seq::<Piece>::empty());
            assert(flat(sk) =~= Seq::<SToken>::empty());
        } else if a == 1 {
            assert(sk.drop_last() =~= Seq::<Piece>::empty());
            assert(sk.last() == st[n - 1]);
            assert(flat(sk) =~= st[n - 1].0);
        } else {
            assert(sk.drop_last().drop_last() =~= Seq::<Piece>::empty());
            assert(flat(sk.drop_last().drop_last()) =~= Seq::<SToken>::empty());
            assert(sk.drop_last().last() == st[n - 2]);
            assert(sk.last() == st[n - 1]);
            assert(flat(sk.drop_last()) =~= st[n - 2].0);
            assert(flat(sk) =~= st[n - 2].0 + st[n - 1].0);
        }
        assert(st2.last().0 =~= flat(sk) + seq![t[i - 1]]);
        assert(flat(st2) == flat(st2.drop_last()) + st2.last().0);
        assert(flat(st2) =~= t.take(i));
    }
}

/// The grammar reads the rendering of every well-formed program back as that program: the
/// minimal parenthesisation keeps the tree, in every syntax.
pub proof fn law_rendering_reads_back(k: SyntaxKind, t: Seq<SToken>)
    requires
        wf_program(t),
    ensures
        reads(k, rendered(k, t)) == Some(t),
{
    let alg = piece_alg(k);
    lemma_prefix_good(k, t, t.len() as int);
    lemma_full(t, alg);
    let st = run(t, Seq::<Piece>::empty(), alg);
    let v = st[0];
    assert(good(k, v));
    assert(flat(st) == flat(st.drop_last()) + v.0);
    assert(st.drop_last() =~= Seq::<Piece>::empty());
    assert(v.0 =~= t);
    let l = rendered(k, t);
    assert(l == v.1);
    let e = Seq::<SLex>::empty();
    assert(Seq::<SLex>::empty() + l + e =~= l);
    assert(stops(k, e, 0));
    assert(layer(k, e + l + e, 0, 0) == cont(k, e + l + e, l.len() as int, 0, t));
    assert(l.skip(l.len() as int) =~= e);
    lemma_chain_stop(k, l, l.len() as int, 0, t);
}

// ---- From text to lexemes ------------------------------------------------------------------

/// The spellings of a syntax.
pub open spec fn spelling_of(k: SyntaxKind) -> SyntaxSpec {
    match k {
        SyntaxKind::Std => std_spelling(),
        SyntaxKind::Verilog => verilog_spelling(),
        SyntaxKind::Liberty => liberty_spelling(),
    }
}

/// A plain name: a letter or `_`, then letters, digits and `_`.
pub open spec fn simple_name(n: Seq<char>) -> bool {
    n.len() > 0 && is_name_start(n[0]) && forall|q: int| 0 <= q < n.len() ==> is_word(#[trigger] n[q])
}

/// The lexer of the syntax reads the name `n` as one whole name wherever the renderer can put
/// it: after any text and before nothing, a space, `)` or `'`.
pub open spec fn reads_whole(k: SyntaxKind, n: Seq<char>) -> bool {
    &&& n.len() > 0
    &&& is_name_start(n[0])
    &&& forall|l: Seq<char>, i: int|
        #![trigger lex_at(k, l, i), l.subrange(i, i + n.len())]
        0 <= i && i + n.len() <= l.len() && l.subrange(i, i + n.len()) == n && follows_ok(
            l.skip(i + n.len()),
        ) ==> lex_at(k, l, i) == Some((SLex::Ident(n), i + n.len()))
}

/// Every variable of the program has a name the syntax reads whole.
pub open spec fn names_ok(k: SyntaxKind, t: Seq<SToken>) -> bool {
    forall|j: int| 0 <= j < t.len() ==> (#[trigger] t[j] matches SToken::Var(n) ==> reads_whole(k, n))
}

/// What the renderer can put right after a piece: nothing, a space, `)` or `'`.
pub open spec fn follows_ok(s: Seq<char>) -> bool {
    s.len() == 0 || s[0] == ' ' || s[0] == ')' || s[0] == '\''
}

/// The text `x` lexes as `lx`, after any text and before what the renderer can put after it.
pub open spec fn text_ok(k: SyntaxKind, x: Seq<char>, lx: Seq<SLex>) -> bool {
    &&& x.len() > 0
    &&& x[0] != '^' && x[0] != ' '
    &&& forall|p: Seq<char>, s: Seq<char>|
        #![trigger lex_from(k, p + x + s, p.len() as int)]
        follows_ok(s) ==> lex_from(k, p + x + s, p.len() as int) == prefixed(
            lx,
            lex_from(k, p + x + s, (p.len() + x.len()) as int),
        )
}

proof fn lemma_prefixed_assoc(a: Seq<SLex>, b: Seq<SLex>, o: Option<Seq<SLex>>)
    ensures
        prefixed(a, prefixed(b, o)) == prefixed(a + b, o),
{
    match o {
        Some(r) => {
            assert(a + (b + r) =~= a + b + r);
        },
        None => {},
    }
}

/// One lexeme read at `i`.
proof fn lemma_one(k: SyntaxKind, l: Seq<char>, i: int, lex: SLex, j: int)
    requires
        0 <= i < j <= l.len(),
        !super::parser::is_blank(l[i]),
        lex_at(k, l, i) == Some((lex, j)),
    ensures
        lex_from(k, l, i) == prefixed(seq![lex], lex_from(k, l, j)),
{
}

/// White space is passed over.
proof fn lemma_blank(k: SyntaxKind, l: Seq<char>, j: int)
    requires
        0 <= j < l.len(),
        l[j] == ' ',
    ensures
        lex_from(k, l, j) == lex_from(k, l, j + 1),
{
}

/// A simple name before a stop character is read whole.
proof fn lemma_word_end(l: Seq<char>, i: int, n: Seq<char>, q: int)
    requires
        simple_name(n),
        0 <= i,
        i + n.len() <= l.len(),
        l.subrange(i, i + n.len()) == n,
        i + n.len() == l.len() || !is_word(l[i + n.len()]),
        0 <= q <= n.len(),
    ensures
        word_end(l, i + q) == i + n.len(),
    decreases n.len() - q,
{
    if q < n.len() {
        assert(l[i + q] == n[q]);
        lemma_word_end(l, i, n, q + 1);
    }
}

proof fn lemma_name(k: SyntaxKind, l: Seq<char>, i: int, n: Seq<char>)
    requires
        simple_name(n),
        k == SyntaxKind::Std ==> n != seq!['t', 'r', 'u', 'e'] && n != seq!['f', 'a', 'l', 's', 'e'],
        0 <= i,
        i + n.len() <= l.len(),
        l.subrange(i, i + n.len()) == n,
        follows_ok(l.skip(i + n.len())),
    ensures
        lex_at(k, l, i) == Some((SLex::Ident(n), i + n.len())),
{
    let e = i + n.len();
    if e < l.len() {
        assert(l.skip(e)[0] == l[e]);
    }
    lemma_word_end(l, i, n, 0);
    assert(l[i] == n[0]);
    assert(segment_end(l, i) == e);
    assert(name_rest(l, e) == e);
    assert(name_end(l, i) == e);
}

/// Text and lexemes of a parenthesised piece.
proof fn lemma_paren_text(k: SyntaxKind, x: Seq<char>, lx: Seq<SLex>)
    requires
        text_ok(k, x, lx),
    ensures
        text_ok(k, seq!['('] + x + seq![')'], paren(lx)),
{
    let y = seq!['('] + x + seq![')'];
    assert forall|p: Seq<char>, s: Seq<char>| follows_ok(s) implies #[trigger] lex_from(
        k,
        p + y + s,
        p.len() as int,
    ) == prefixed(paren(lx), lex_from(k, p + y + s, (p.len() + y.len()) as int)) by {
        let l = p + y + s;
        let i = p.len() as int;
        assert(l[i] == '(');
        lemma_one(k, l, i, SLex::LParen, i + 1);
        let p2 = p + seq!['('];
        let s2 = seq![')'] + s;
        assert(l =~= p2 + x + s2);
        assert(follows_ok(s2));
        let e = i + 1 + x.len();
        assert(lex_from(k, p2 + x + s2, p2.len() as int) == prefixed(lx, lex_from(k, l, e)));
        assert(l[e] == ')');
        lemma_one(k, l, e, SLex::RParen, e + 1);
        lemma_prefixed_assoc(seq![SLex::LParen], lx, prefixed(seq![SLex::RParen], lex_from(k, l, e + 1)));
        lemma_prefixed_assoc(lx, seq![SLex::RParen], lex_from(k, l, e + 1));
        lemma_prefixed_assoc(seq![SLex::LParen], lx + seq![SLex::RParen], lex_from(k, l, e + 1));
        assert(seq![SLex::LParen] + (lx + seq![SLex::RParen]) =~= paren(lx));
    }
}

/// A rendered text piece and its lexeme piece agree: the same tightness, and the text lexes
/// as the lexemes.
pub open spec fn agree(k: SyntaxKind, r: (Seq<char>, int), v: Piece) -> bool {
    r.1 == v.2 && text_ok(k, r.0, v.1) && 0 <= v.2 <= 4
}

proof fn lemma_wrap_text(k: SyntaxKind, r: (Seq<char>, int), v: Piece, need: int, right: bool)
    requires
        agree(k, r, v),
    ensures
        if right {
            text_ok(k, wrap_right(r.0, r.1, need), lwrap_right(v.1, v.2, need))
        } else {
            text_ok(k, wrap(r.0, r.1, need), lwrap(v.1, v.2, need))
        },
{
    lemma_paren_text(k, r.0, v.1);
}

/// A Liberty NOT's text, at one place in a larger text.
proof fn lemma_post_not_at(k: SyntaxKind, w: Seq<char>, wl: Seq<SLex>, p: Seq<char>, s: Seq<char>)
    requires
        k == SyntaxKind::Liberty,
        text_ok(k, w, wl),
        follows_ok(s),
    ensures
        ({
            let x = w + seq!['\''];
            lex_from(k, p + x + s, p.len() as int) == prefixed(
                wl + seq![SLex::PostNot],
                lex_from(k, p + x + s, (p.len() + x.len()) as int),
            )
        }),
{
    let x = w + seq!['\''];
    let l = p + x + s;
    let s2 = seq!['\''] + s;
    assert(l =~= p + w + s2);
    assert(follows_ok(s2));
    let e = (p.len() + w.len()) as int;
    assert(lex_from(k, p + w + s2, p.len() as int) == prefixed(wl, lex_from(k, l, e)));
    assert(l[e] == '\'');
    lemma_one(k, l, e, SLex::PostNot, e + 1);
    lemma_prefixed_assoc(wl, seq![SLex::PostNot], lex_from(k, l, e + 1));
}

/// A prefix NOT's text, at one place in a larger text.
proof fn lemma_pre_not_at(k: SyntaxKind, c: char, w: Seq<char>, wl: Seq<SLex>, p: Seq<char>, s: Seq<char>)
    requires
        k != SyntaxKind::Liberty,
        c == (if k == SyntaxKind::Std {
            '!'
        } else {
            '~'
        }),
        text_ok(k, w, wl),
        follows_ok(s),
    ensures
        ({
            let x = seq![c] + w;
            lex_from(k, p + x + s, p.len() as int) == prefixed(
                seq![SLex::PreNot] + wl,
                lex_from(k, p + x + s, (p.len() + x.len()) as int),
            )
        }),
{
    let x = seq![c] + w;
    let l = p + x + s;
    let i = p.len() as int;
    let p2 = p + seq![c];
    assert(l =~= p2 + w + s);
    assert(l[i] == c);
    assert(l[i + 1] == w[0]);
    lemma_one(k, l, i, SLex::PreNot, i + 1);
    assert(lex_from(k, p2 + w + s, p2.len() as int) == prefixed(wl, lex_from(k, l, i + 1 + w.len())));
    lemma_prefixed_assoc(seq![SLex::PreNot], wl, lex_from(k, l, i + 1 + w.len()));
}

proof fn lemma_not_text(k: SyntaxKind, r: (Seq<char>, int), v: Piece)
    requires
        agree(k, r, v),
    ensures
        agree(k, (render_alg(spelling_of(k)).not)(r), (piece_alg(k).not)(v)),
{
    reveal_strlit("!");
    reveal_strlit("~");
    reveal_strlit("'");
    reveal_strlit("");
    let sx = spelling_of(k);
    let w = wrap(r.0, r.1, 3);
    let wl = lwrap(v.1, v.2, 3);
    lemma_wrap_text(k, r, v, 3, false);
    let rn = (render_alg(sx).not)(r);
    let vn = (piece_alg(k).not)(v);
    if k == SyntaxKind::Liberty {
        assert(rn.0 =~= w + seq!['\'']);
        assert(vn.1 == wl + seq![SLex::PostNot]);
        assert forall|p: Seq<char>, s: Seq<char>| follows_ok(s) implies #[trigger] lex_from(
            k,
            p + rn.0 + s,
            p.len() as int,
        ) == prefixed(vn.1, lex_from(k, p + rn.0 + s, (p.len() + rn.0.len()) as int)) by {
            lemma_post_not_at(k, w, wl, p, s);
        }
    } else {
        let c = if k == SyntaxKind::Std {
            '!'
        } else {
            '~'
        };
        assert(rn.0 =~= seq![c] + w);
        assert(vn.1 == seq![SLex::PreNot] + wl);
        assert forall|p: Seq<char>, s: Seq<char>| follows_ok(s) implies #[trigger] lex_from(
            k,
            p + rn.0 + s,
            p.len() as int,
        ) == prefixed(vn.1, lex_from(k, p + rn.0 + s, (p.len() + rn.0.len()) as int)) by {
            lemma_pre_not_at(k, c, w, wl, p, s);
        }
    }
}

/// The character a binary operator is written with.
pub open spec fn op_char(k: SyntaxKind, op: SLex) -> char {
    match op {
        SLex::And => if k == SyntaxKind::Liberty {
            '*'
        } else {
            '&'
        },
        SLex::Or => if k == SyntaxKind::Liberty {
            '+'
        } else {
            '|'
        },
        _ => '^',
    }
}

/// An operator character followed by a space is read as the operator.
proof fn lemma_op_lex(k: SyntaxKind, op: SLex, l: Seq<char>, i: int)
    requires
        op == SLex::And || op == SLex::Or || op == SLex::Xor,
        0 <= i,
        i + 1 < l.len(),
        l[i] == op_char(k, op),
        l[i + 1] == ' ',
    ensures
        lex_at(k, l, i) == Some((op, i + 1)),
        !super::parser::is_blank(l[i]),
{
}

/// A binary node's text, at one place in a larger text.
#[verifier::rlimit(40)]
proof fn lemma_bin_text_at(
    k: SyntaxKind,
    op: SLex,
    wa: Seq<char>,
    la: Seq<SLex>,
    wb: Seq<char>,
    lb: Seq<SLex>,
    p: Seq<char>,
    s: Seq<char>,
)
    requires
        text_ok(k, wa, la),
        text_ok(k, wb, lb),
        op == SLex::And || op == SLex::Or || op == SLex::Xor,
        follows_ok(s),
    ensures
        ({
            let x = wa + seq![' ', op_char(k, op), ' '] + wb;
            lex_from(k, p + x + s, p.len() as int) == prefixed(
                la + seq![op] + lb,
                lex_from(k, p + x + s, (p.len() + x.len()) as int),
            )
        }),
{
    let x = wa + seq![' ', op_char(k, op), ' '] + wb;
    let l = p + x + s;
    let i = p.len() as int;
    let sa = seq![' ', op_char(k, op), ' '] + wb + s;
    assert(l =~= p + wa + sa);
    let j = i + wa.len();
    assert(follows_ok(sa));
    assert(lex_from(k, p + wa + sa, i) == prefixed(la, lex_from(k, l, j)));
    assert(l[j] == ' ');
    lemma_blank(k, l, j);
    assert(l[j + 1] == op_char(k, op));
    assert(l[j + 2] == ' ');
    lemma_op_lex(k, op, l, j + 1);
    lemma_one(k, l, j + 1, op, j + 2);
    lemma_blank(k, l, j + 2);
    let pb = p + wa + seq![' ', op_char(k, op), ' '];
    assert(l =~= pb + wb + s);
    assert(lex_from(k, pb + wb + s, pb.len() as int) == prefixed(lb, lex_from(k, l, j + 3 + wb.len())));
    assert(j + 3 + wb.len() == p.len() + x.len());
    lemma_prefixed_assoc(seq![op], lb, lex_from(k, l, j + 3 + wb.len()));
    lemma_prefixed_assoc(la, seq![op] + lb, lex_from(k, l, j + 3 + wb.len()));
    assert(la + (seq![op] + lb) =~= la + seq![op] + lb);
}

/// A binary node of agreeing pieces agrees.
proof fn lemma_bin_text(k: SyntaxKind, op: SLex, tok: SToken, ra: (Seq<char>, int), va: Piece, rb: (Seq<char>, int), vb: Piece)
    requires
        agree(k, ra, va),
        agree(k, rb, vb),
        (op == SLex::And && tok == SToken::And) || (op == SLex::Or && tok == SToken::Or) || (op
            == SLex::Xor && tok == SToken::Xor),
    ensures
        agree(
            k,
            super::display::infix(ra, seq![op_char(k, op)], rb, bin_level(k, op)->0 as int),
            bin_piece(k, op, tok, va, vb),
        ),
{
    let q = bin_level(k, op)->0 as int;
    let wa = wrap(ra.0, ra.1, q);
    let wb = wrap_right(rb.0, rb.1, q);
    let la = lwrap(va.1, va.2, q);
    let lb = lwrap_right(vb.1, vb.2, q);
    lemma_wrap_text(k, ra, va, q, false);
    lemma_wrap_text(k, rb, vb, q, true);
    let rn = super::display::infix(ra, seq![op_char(k, op)], rb, q);
    let vn = bin_piece(k, op, tok, va, vb);
    let x = wa + seq![' ', op_char(k, op), ' '] + wb;
    assert(rn.0 =~= x);
    assert(vn.1 =~= la + seq![op] + lb);
    assert forall|p: Seq<char>, s: Seq<char>| follows_ok(s) implies #[trigger] lex_from(
        k,
        p + rn.0 + s,
        p.len() as int,
    ) == prefixed(vn.1, lex_from(k, p + rn.0 + s, (p.len() + rn.0.len()) as int)) by {
        lemma_bin_text_at(k, op, wa, la, wb, lb, p, s);
    }
    assert(rn.0[0] == wa[0]);
}

/// A plain name (a letter or `_`, then letters, digits and `_`) is read whole, except that the
/// standard syntax reads `true` and `false` as constants.
pub proof fn lemma_simple_reads_whole(k: SyntaxKind, n: Seq<char>)
    requires
        simple_name(n),
        k == SyntaxKind::Std ==> n != seq!['t', 'r', 'u', 'e'] && n != seq!['f', 'a', 'l', 's', 'e'],
    ensures
        reads_whole(k, n),
{
    assert forall|l: Seq<char>, i: int|
        0 <= i && i + n.len() <= l.len() && l.subrange(i, i + n.len()) == n && follows_ok(
            l.skip(i + n.len()),
        ) implies #[trigger] lex_at(k, l, i) == Some((SLex::Ident(n), i + n.len())) by {
        lemma_name(k, l, i, n);
    }
}

/// A variable's text is its name.
proof fn lemma_var_text(k: SyntaxKind, n: Seq<char>)
    requires
        reads_whole(k, n),
    ensures
        agree(k, (render_alg(spelling_of(k)).var)(n), (piece_alg(k).var)(n)),
{
    assert forall|p: Seq<char>, s: Seq<char>| follows_ok(s) implies #[trigger] lex_from(
        k,
        p + n + s,
        p.len() as int,
    ) == prefixed(seq![SLex::Ident(n)], lex_from(k, p + n + s, (p.len() + n.len()) as int)) by {
        let l = p + n + s;
        let i = p.len() as int;
        assert(l.subrange(i, i + n.len()) =~= n);
        assert(l.skip(i + n.len()) =~= s);
        assert(lex_at(k, l, i) == Some((SLex::Ident(n), i + n.len())));
        assert(l[i] == n[0]);
        lemma_one(k, l, i, SLex::Ident(n), i + n.len());
    }
}

/// A constant's text is its spelling.
proof fn lemma_const_text(k: SyntaxKind, b: bool)
    ensures
        agree(k, (render_alg(spelling_of(k)).cst)(b), (piece_alg(k).cst)(b)),
{
    reveal_strlit("1");
    reveal_strlit("0");
    reveal_strlit("1'b1");
    reveal_strlit("1'b0");
    let x = (render_alg(spelling_of(k)).cst)(b).0;
    assert forall|p: Seq<char>, s: Seq<char>| follows_ok(s) implies #[trigger] lex_from(
        k,
        p + x + s,
        p.len() as int,
    ) == prefixed(seq![SLex::Const(b)], lex_from(k, p + x + s, (p.len() + x.len()) as int)) by {
        let l = p + x + s;
        let i = p.len() as int;
        assert(l[i] == x[0]);
        if k == SyntaxKind::Verilog {
            assert(l[i + 1] == x[1]);
            assert(l[i + 2] == x[2]);
            assert(l[i + 3] == x[3]);
        }
        assert(lex_at(k, l, i) == Some((SLex::Const(b), i + x.len())));
        lemma_one(k, l, i, SLex::Const(b), i + x.len());
    }
}

/// Rendering a prefix of a program as text and as lexemes keeps the two stacks in agreement.
proof fn lemma_pair_prefix(k: SyntaxKind, t: Seq<SToken>, i: int)
    requires
        wf_program(t),
        names_ok(k, t),
        0 <= i <= t.len(),
    ensures
        ({
            let r = run(t.take(i), Seq::<(Seq<char>, int)>::empty(), render_alg(spelling_of(k)));
            let v = run(t.take(i), Seq::<Piece>::empty(), piece_alg(k));
            &&& r.len() == v.len()
            &&& forall|q: int| 0 <= q < r.len() ==> agree(k, #[trigger] r[q], v[q])
        }),
    decreases i,
{
    let ra = render_alg(spelling_of(k));
    let va = piece_alg(k);
    if i == 0 {
        assert(t.take(0) =~= Seq::<SToken>::empty());
    } else {
        lemma_pair_prefix(k, t, i - 1);
        lemma_prefix(t, i - 1, ra);
        lemma_prefix(t, i - 1, va);
        let r = run(t.take(i - 1), Seq::<(Seq<char>, int)>::empty(), ra);
        let v = run(t.take(i - 1), Seq::<Piece>::empty(), va);
        let tok = t[i - 1];
        let r2 = step(tok, r, ra);
        let v2 = step(tok, v, va);
        let n = r.len() as int;
        super::rpn::lemma_step_len(tok, r, ra);
        super::rpn::lemma_step_len(tok, v, va);
        reveal_strlit("&");
        reveal_strlit("|");
        reveal_strlit("^");
        reveal_strlit("*");
        reveal_strlit("+");
        match tok {
            SToken::Var(name) => {
                assert(t[i - 1] matches SToken::Var(nn) && nn == name);
                lemma_var_text(k, name);
            },
            SToken::Const(b) => {
                lemma_const_text(k, b);
            },
            SToken::Not => {
                lemma_not_text(k, r[n - 1], v[n - 1]);
            },
            SToken::And => {
                lemma_bin_text(k, SLex::And, SToken::And, r[n - 2], v[n - 2], r[n - 1], v[n - 1]);
                assert(spelling_of(k).and@ == seq![op_char(k, SLex::And)]);
            },
            SToken::Or => {
                lemma_bin_text(k, SLex::Or, SToken::Or, r[n - 2], v[n - 2], r[n - 1], v[n - 1]);
                assert(spelling_of(k).or@ == seq![op_char(k, SLex::Or)]);
            },
            SToken::Xor => {
                lemma_bin_text(k, SLex::Xor, SToken::Xor, r[n - 2], v[n - 2], r[n - 1], v[n - 1]);
                assert(spelling_of(k).xor@ == seq![op_char(k, SLex::Xor)]);
            },
        }
        assert forall|q: int| 0 <= q < r2.len() implies agree(k, #[trigger] r2[q], v2[q]) by {
            if q < n - arity(tok) {
                assert(r2[q] == r[q]);
                assert(v2[q] == v[q]);
            }
        }
    }
}

/// The grammar of every syntax parses the text an expression renders to back into that
/// expression, when the syntax reads each of its variable names whole (as it does every plain
/// name, see [`lemma_simple_reads_whole`], and every name its lexer reads, see
/// [`law_parsed_display_parses_back`](super::names_read_back::law_parsed_display_parses_back)).
pub proof fn law_display_parses_back(k: SyntaxKind, t: Seq<SToken>)
    requires
        wf_program(t),
        names_ok(k, t),
    ensures
        parsed(k, render_spec(t, spelling_of(k))) == Some(t),
{
    let ra = render_alg(spelling_of(k));
    let va = piece_alg(k);
    lemma_pair_prefix(k, t, t.len() as int);
    lemma_full(t, ra);
    lemma_full(t, va);
    let r = run(t, Seq::<(Seq<char>, int)>::empty(), ra);
    let v = run(t, Seq::<Piece>::empty(), va);
    assert(agree(k, r[0], v[0]));
    let x = r[0].0;
    let lx = v[0].1;
    assert(x == render_spec(t, spelling_of(k)));
    assert(lx == rendered(k, t));
    let e = Seq::<char>::empty();
    assert(e + x + e =~= x);
    assert(follows_ok(e));
    assert(lex_from(k, e + x + e, 0) == prefixed(lx, lex_from(k, x, x.len() as int)));
    assert(lex_from(k, x, x.len() as int) == Some(Seq::<SLex>::empty()));
    assert(lx + Seq::<SLex>::empty() =~= lx);
    law_rendering_reads_back(k, t);
}

} // verus!
