//! A fold with contexts splits at a binary node: the node's two operands are folded on their
//! own, each from the context the node hands it, and their results are combined under the
//! node's context.
use super::fold::{contexts_from, desc_step, fold_ctx_run, fold_ctx_step, ExprNode};
use super::rpn::{arity, depth_after, wf_program, SToken};
use vstd::prelude::*;

verus! {

/// Handing contexts down through `a ++ b` is handing them down through `b` (walked first, from
/// the root end) and then through `a`, from the pending contexts `b` leaves.
proof fn lemma_contexts_split<C, D: Fn(ExprNode<()>, &C) -> (C, C)>(
    a: Seq<SToken>,
    b: Seq<SToken>,
    p0: Seq<C>,
    d: D,
    p: Seq<C>,
    cs: Seq<C>,
)
    requires
        cs.len() == a.len() + b.len(),
        contexts_from(a + b, p0, d, p, cs),
    ensures
        exists|pm: Seq<C>|
            #[trigger] contexts_from(b, p0, d, pm, cs.skip(a.len() as int)) && contexts_from(
                a,
                pm,
                d,
                p,
                cs.take(a.len() as int),
            ),
    decreases a.len(),
{
    if a.len() == 0 {
        assert(a + b =~= b);
        assert(cs.skip(0) =~= cs);
        assert(cs.take(0).len() == 0);
        assert(contexts_from(a, p, d, p, cs.take(0)));
        assert(contexts_from(b, p0, d, p, cs.skip(0)));
    } else {
        let ab = a + b;
        let pm1 = choose|pm: Seq<C>|
            #[trigger] desc_step(ab[0], pm.drop_last(), pm.last(), d, p) && pm.len() >= 1 && cs[0]
                == pm.last() && contexts_from(ab.drop_first(), p0, d, pm, cs.drop_first());
        assert(ab.drop_first() =~= a.drop_first() + b);
        assert(ab[0] == a[0]);
        lemma_contexts_split(a.drop_first(), b, p0, d, pm1, cs.drop_first());
        let n1 = a.len() - 1;
        let pm = choose|pm: Seq<C>|
            #[trigger] contexts_from(b, p0, d, pm, cs.drop_first().skip(n1)) && contexts_from(
                a.drop_first(),
                pm,
                d,
                pm1,
                cs.drop_first().take(n1),
            );
        assert(cs.drop_first().skip(n1) =~= cs.skip(a.len() as int));
        let ca = cs.take(a.len() as int);
        assert(ca.drop_first() =~= cs.drop_first().take(n1));
        assert(ca[0] == cs[0]);
        assert(desc_step(a[0], pm1.drop_last(), pm1.last(), d, p));
        assert(contexts_from(a.drop_first(), pm, d, pm1, ca.drop_first()));
        assert(contexts_from(a, pm, d, p, ca));
        assert(contexts_from(b, p0, d, pm, cs.skip(a.len() as int)));
    }
}


/// A program whose run goes from depth `m` to the depth `q.len()` hands down contexts from the
/// pending contexts `q` without touching what lies below them: with `bottom` under `q`, it
/// ends with `bottom` under `m` pending contexts, handing out the same contexts.
proof fn lemma_contexts_frame<C, D: Fn(ExprNode<()>, &C) -> (C, C)>(
    t: Seq<SToken>,
    m: int,
    bottom: Seq<C>,
    q: Seq<C>,
    d: D,
    p: Seq<C>,
    cs: Seq<C>,
)
    requires
        0 <= m,
        depth_after(t, m) == Some(q.len() as int),
        contexts_from(t, bottom + q, d, p, cs),
    ensures
        p.len() == bottom.len() + m,
        p.take(bottom.len() as int) == bottom,
        contexts_from(t, q, d, p.skip(bottom.len() as int), cs),
    decreases t.len(),
{
    let nb = bottom.len() as int;
    if t.len() == 0 {
        assert(p == bottom + q);
        assert(p.take(nb) =~= bottom);
        assert(p.skip(nb) =~= q);
    } else {
        let tok = t[0];
        let m1 = m - arity(tok) + 1;
        let pm = choose|pm: Seq<C>|
            #[trigger] desc_step(tok, pm.drop_last(), pm.last(), d, p) && pm.len() >= 1 && cs[0]
                == pm.last() && contexts_from(t.drop_first(), bottom + q, d, pm, cs.drop_first());
        lemma_contexts_frame(t.drop_first(), m1, bottom, q, d, pm, cs.drop_first());
        let pq = pm.skip(nb);
        assert(pq.len() == m1);
        assert(m1 >= 1);
        assert(pq.last() == pm.last());
        assert(pm.drop_last() =~= bottom + pq.drop_last()) by {
            assert(pm =~= bottom + pq);
        }
        let ps = p.skip(nb);
        match tok {
            SToken::Var(_) => {
                assert(p == pm.drop_last());
                assert(p.take(nb) =~= bottom);
                assert(ps =~= pq.drop_last());
            },
            SToken::Const(_) => {
                assert(p == pm.drop_last());
                assert(p.take(nb) =~= bottom);
                assert(ps =~= pq.drop_last());
            },
            SToken::Not => {
                let r = choose|r: (C, C)|
                    #[trigger] call_ensures(d, (ExprNode::Not(()), &pm.last()), r) && p == pm.drop_last().push(
                        r.0,
                    );
                assert(p.take(nb) =~= bottom);
                assert(ps =~= pq.drop_last().push(r.0));
            },
            SToken::And => {
                let r = choose|r: (C, C)|
                    #[trigger] call_ensures(d, (ExprNode::And((), ()), &pm.last()), r) && p
                        == pm.drop_last().push(r.0).push(r.1);
                assert(p.take(nb) =~= bottom);
                assert(ps =~= pq.drop_last().push(r.0).push(r.1));
            },
            SToken::Or => {
                let r = choose|r: (C, C)|
                    #[trigger] call_ensures(d, (ExprNode::Or((), ()), &pm.last()), r) && p
                        == pm.drop_last().push(r.0).push(r.1);
                assert(p.take(nb) =~= bottom);
                assert(ps =~= pq.drop_last().push(r.0).push(r.1));
            },
            SToken::Xor => {
                let r = choose|r: (C, C)|
                    #[trigger] call_ensures(d, (ExprNode::Xor((), ()), &pm.last()), r) && p
                        == pm.drop_last().push(r.0).push(r.1);
                assert(p.take(nb) =~= bottom);
                assert(ps =~= pq.drop_last().push(r.0).push(r.1));
            },
        }
        assert(desc_step(tok, pq.drop_last(), pq.last(), d, ps));
        assert(contexts_from(t.drop_first(), q, d, pq, cs.drop_first()));
    }
}


/// Folding `a ++ b` upward is folding `a` and then folding `b` from the stack `a` leaves.
proof fn lemma_fold_ctx_split<C, T, G: Fn(ExprNode<T>, C) -> T>(
    a: Seq<SToken>,
    b: Seq<SToken>,
    cs: Seq<C>,
    st: Seq<T>,
    g: G,
    out: Seq<T>,
)
    requires
        cs.len() == a.len() + b.len(),
        fold_ctx_run(a + b, cs, st, g, out),
    ensures
        exists|mid: Seq<T>|
            #[trigger] fold_ctx_run(a, cs.take(a.len() as int), st, g, mid) && fold_ctx_run(
                b,
                cs.skip(a.len() as int),
                mid,
                g,
                out,
            ),
    decreases a.len(),
{
    if a.len() == 0 {
        assert(a + b =~= b);
        assert(cs.skip(0) =~= cs);
        assert(fold_ctx_run(a, cs.take(0), st, g, st));
        assert(fold_ctx_run(b, cs.skip(0), st, g, out));
    } else {
        let ab = a + b;
        let st2 = choose|st2: Seq<T>|
            #[trigger] fold_ctx_step(ab[0], cs[0], st, g, st2) && fold_ctx_run(ab.drop_first(), cs.drop_first(), st2, g, out);
        assert(ab.drop_first() =~= a.drop_first() + b);
        assert(ab[0] == a[0]);
        lemma_fold_ctx_split(a.drop_first(), b, cs.drop_first(), st2, g, out);
        let n1 = a.len() - 1;
        let mid = choose|mid: Seq<T>|
            #[trigger] fold_ctx_run(a.drop_first(), cs.drop_first().take(n1), st2, g, mid) && fold_ctx_run(
                b,
                cs.drop_first().skip(n1),
                mid,
                g,
                out,
            );
        assert(cs.drop_first().skip(n1) =~= cs.skip(a.len() as int));
        let ca = cs.take(a.len() as int);
        assert(ca.drop_first() =~= cs.drop_first().take(n1));
        assert(ca[0] == cs[0]);
        assert(fold_ctx_step(a[0], ca[0], st, g, st2));
        assert(fold_ctx_run(a.drop_first(), ca.drop_first(), st2, g, mid));
        assert(fold_ctx_run(a, ca, st, g, mid));
        assert(fold_ctx_run(b, cs.skip(a.len() as int), mid, g, out));
    }
}

proof fn lemma_keep_prefix<T>(st2: Seq<T>, bottom: Seq<T>, st: Seq<T>, k: int)
    requires
        0 <= k <= st.len(),
        st2.len() >= bottom.len() + k,
        st2.take(bottom.len() + k) == (bottom + st).take(bottom.len() + k),
    ensures
        st2 == bottom + st2.skip(bottom.len() as int),
        st2.skip(bottom.len() as int).take(k) == st.take(k),
{
    let nb = bottom.len() as int;
    assert forall|j: int| 0 <= j < nb implies st2[j] == bottom[j] by {
        assert(st2[j] == st2.take(nb + k)[j]);
        assert((bottom + st).take(nb + k)[j] == bottom[j]);
    }
    assert(st2 =~= bottom + st2.skip(nb));
    assert forall|j: int| 0 <= j < k implies st2.skip(nb)[j] == st[j] by {
        assert(st2.skip(nb)[j] == st2.take(nb + k)[nb + j]);
        assert((bottom + st).take(nb + k)[nb + j] == st[j]);
    }
    assert(st2.skip(nb).take(k) =~= st.take(k));
}

/// Folding a program that never pops below the stack `st` leaves whatever lies under `st`
/// untouched: with `bottom` under `st`, it ends with `bottom` under what it ends with from `st`.
proof fn lemma_fold_ctx_frame<C, T, G: Fn(ExprNode<T>, C) -> T>(
    t: Seq<SToken>,
    cs: Seq<C>,
    bottom: Seq<T>,
    st: Seq<T>,
    g: G,
    out: Seq<T>,
)
    requires
        depth_after(t, st.len() as int) is Some,
        fold_ctx_run(t, cs, bottom + st, g, out),
    ensures
        out.len() == bottom.len() + depth_after(t, st.len() as int)->0,
        out.take(bottom.len() as int) == bottom,
        fold_ctx_run(t, cs, st, g, out.skip(bottom.len() as int)),
    decreases t.len(),
{
    let nb = bottom.len() as int;
    let ns = st.len() as int;
    let full = bottom + st;
    if t.len() == 0 {
        assert(out.take(nb) =~= bottom);
        assert(out.skip(nb) =~= st);
    } else {
        let tok = t[0];
        let st2 = choose|st2: Seq<T>|
            #[trigger] fold_ctx_step(tok, cs[0], full, g, st2) && fold_ctx_run(t.drop_first(), cs.drop_first(), st2, g, out);
        let n = full.len() as int;
        let s2 = st2.skip(nb);
        match tok {
            SToken::Var(name) => {
                assert(full.take(n) =~= full);
                lemma_keep_prefix(st2, bottom, st, ns);
                assert(st.take(ns) =~= st);
                let x = choose|x: &str| x@ == name && #[trigger] call_ensures(g, (ExprNode::Variable(x), cs[0]), st2[n]);
                assert(s2[ns] == st2[n]);
                assert(call_ensures(g, (ExprNode::Variable(x), cs[0]), s2[ns]));
            },
            SToken::Const(_) => {
                assert(full.take(n) =~= full);
                lemma_keep_prefix(st2, bottom, st, ns);
                assert(st.take(ns) =~= st);
                assert(s2[ns] == st2[n]);
            },
            SToken::Not => {
                lemma_keep_prefix(st2, bottom, st, ns - 1);
                assert(full[n - 1] == st[ns - 1]);
                assert(s2[ns - 1] == st2[n - 1]);
            },
            _ => {
                lemma_keep_prefix(st2, bottom, st, ns - 2);
                assert(full[n - 1] == st[ns - 1]);
                assert(full[n - 2] == st[ns - 2]);
                assert(s2[ns - 2] == st2[n - 2]);
            },
        }
        assert(fold_ctx_step(tok, cs[0], st, g, s2));
        lemma_fold_ctx_frame(t.drop_first(), cs.drop_first(), bottom, s2, g, out);
        assert(fold_ctx_run(t, cs, st, g, out.skip(nb)));
    }
}


/// The shape a binary operator token hands to `descend`.
pub open spec fn bin_shape<'a>(op: SToken) -> ExprNode<'a, ()> {
    match op {
        SToken::And => ExprNode::And((), ()),
        SToken::Or => ExprNode::Or((), ()),
        _ => ExprNode::Xor((), ()),
    }
}

/// The node a binary operator token hands to `combine`, with its operands' results.
pub open spec fn bin_node<'a, T>(op: SToken, a: T, b: T) -> ExprNode<'a, T> {
    match op {
        SToken::And => ExprNode::And(a, b),
        SToken::Or => ExprNode::Or(a, b),
        _ => ExprNode::Xor(a, b),
    }
}

/// A fold with contexts (as [`BoolExpr::fold_with_context`](super::BoolExpr::fold_with_context)
/// performs it) of a binary expression `l op r` from the context `c` is made of the folds of its
/// operands: `descend` gives the operator a pair of contexts, the left operand is folded from
/// the first of them and the right operand from the second, each as a whole expression of its
/// own, and `combine` joins their results under `c`.
pub proof fn law_context_fold_binary<C, T, D, G>(
    l: Seq<SToken>,
    r: Seq<SToken>,
    op: SToken,
    c: C,
    d: D,
    g: G,
    cs: Seq<C>,
    p: Seq<C>,
    v: T,
) where D: Fn(ExprNode<()>, &C) -> (C, C), G: Fn(ExprNode<T>, C) -> T
    requires
        wf_program(l),
        wf_program(r),
        op == SToken::And || op == SToken::Or || op == SToken::Xor,
        contexts_from(l + r + seq![op], seq![c], d, p, cs),
        fold_ctx_run(l + r + seq![op], cs, Seq::empty(), g, seq![v]),
    ensures
        exists|dc: (C, C), vl: T, vr: T|
            #![trigger call_ensures(d, (bin_shape(op), &c), dc), call_ensures(g, (bin_node(op, vl, vr), c), v)]
            call_ensures(d, (bin_shape(op), &c), dc) && contexts_from(
                l,
                seq![dc.0],
                d,
                Seq::empty(),
                cs.take(l.len() as int),
            ) && fold_ctx_run(l, cs.take(l.len() as int), Seq::empty(), g, seq![vl]) && contexts_from(
                r,
                seq![dc.1],
                d,
                Seq::empty(),
                cs.subrange(l.len() as int, (l.len() + r.len()) as int),
            ) && fold_ctx_run(r, cs.subrange(l.len() as int, (l.len() + r.len()) as int), Seq::empty(), g, seq![vr])
                && call_ensures(g, (bin_node(op, vl, vr), c), v),
{
    let nl = l.len() as int;
    let nr = r.len() as int;
    let lr = l + r;
    let e = lr + seq![op];
    assert(cs.len() == e.len());
    let cl = cs.take(nl);
    let cr = cs.subrange(nl, nl + nr);
    let clr = cs.take(nl + nr);
    let co = cs.skip(nl + nr);
    assert(clr.take(nl) =~= cl);
    assert(clr.skip(nl) =~= cr);
    // Contexts: the operator first, then the right operand, then the left.
    lemma_contexts_split(lr, seq![op], seq![c], d, p, cs);
    let pm = choose|pm: Seq<C>|
        #[trigger] contexts_from(seq![op], seq![c], d, pm, co) && contexts_from(lr, pm, d, p, clr);
    let so = seq![op];
    let pm1 = choose|pm1: Seq<C>|
        #[trigger] desc_step(so[0], pm1.drop_last(), pm1.last(), d, pm) && pm1.len() >= 1 && co[0]
            == pm1.last() && contexts_from(so.drop_first(), seq![c], d, pm1, co.drop_first());
    assert(so.drop_first() =~= Seq::<SToken>::empty());
    assert(pm1 == seq![c]);
    assert(pm1.drop_last() =~= Seq::<C>::empty());
    assert(co[0] == c);
    let dc = choose|dc: (C, C)|
        #[trigger] call_ensures(d, (bin_shape(op), &c), dc) && pm == Seq::<C>::empty().push(dc.0).push(dc.1);
    assert(call_ensures(d, (bin_shape(op), &c), dc) && pm == Seq::<C>::empty().push(dc.0).push(dc.1));
    lemma_contexts_split(l, r, pm, d, p, clr);
    let pm2 = choose|pm2: Seq<C>|
        #[trigger] contexts_from(r, pm, d, pm2, clr.skip(nl)) && contexts_from(l, pm2, d, p, clr.take(nl));
    assert(pm =~= seq![dc.0] + seq![dc.1]);
    lemma_contexts_frame(r, 0, seq![dc.0], seq![dc.1], d, pm2, cr);
    assert(pm2 =~= seq![dc.0]);
    assert(pm2.skip(1) =~= Seq::<C>::empty());
    assert(seq![dc.0] =~= Seq::<C>::empty() + seq![dc.0]);
    lemma_contexts_frame(l, 0, Seq::<C>::empty(), seq![dc.0], d, p, cl);
    assert(p.skip(0) =~= p);
    assert(p =~= Seq::<C>::empty());
    // Results: the left operand, then the right one on top of it, then the operator.
    lemma_fold_ctx_split(lr, seq![op], cs, Seq::empty(), g, seq![v]);
    let mid = choose|mid: Seq<T>|
        #[trigger] fold_ctx_run(lr, clr, Seq::empty(), g, mid) && fold_ctx_run(seq![op], co, mid, g, seq![v]);
    lemma_fold_ctx_split(l, r, clr, Seq::empty(), g, mid);
    let mid1 = choose|mid1: Seq<T>|
        #[trigger] fold_ctx_run(l, clr.take(nl), Seq::empty(), g, mid1) && fold_ctx_run(r, clr.skip(nl), mid1, g, mid);
    assert(Seq::<T>::empty() + Seq::<T>::empty() =~= Seq::<T>::empty());
    lemma_fold_ctx_frame(l, cl, Seq::<T>::empty(), Seq::<T>::empty(), g, mid1);
    assert(mid1.skip(0) =~= mid1);
    let vl = mid1[0];
    assert(mid1 =~= seq![vl]);
    assert(mid1 + Seq::<T>::empty() =~= mid1);
    lemma_fold_ctx_frame(r, cr, mid1, Seq::<T>::empty(), g, mid);
    let vr = mid[1];
    assert(mid.skip(1) =~= seq![vr]);
    assert(mid[0] == vl);
    let st2 = choose|st2: Seq<T>|
        #[trigger] fold_ctx_step(so[0], co[0], mid, g, st2) && fold_ctx_run(so.drop_first(), co.drop_first(), st2, g, seq![v]);
    assert(st2 == seq![v]);
    assert(call_ensures(g, (bin_node(op, vl, vr), c), v));
}


/// A fold with contexts of a negation `a !` from the context `c` folds `a` as a whole
/// expression from the first context `descend` gives the negation, and `combine` negates its
/// result under `c`.
pub proof fn law_context_fold_not<C, T, D, G>(
    a: Seq<SToken>,
    c: C,
    d: D,
    g: G,
    cs: Seq<C>,
    p: Seq<C>,
    v: T,
) where D: Fn(ExprNode<()>, &C) -> (C, C), G: Fn(ExprNode<T>, C) -> T
    requires
        wf_program(a),
        contexts_from(a + seq![SToken::Not], seq![c], d, p, cs),
        fold_ctx_run(a + seq![SToken::Not], cs, Seq::empty(), g, seq![v]),
    ensures
        exists|dc: (C, C), va: T|
            #![trigger call_ensures(d, (ExprNode::Not(()), &c), dc), call_ensures(g, (ExprNode::Not(va), c), v)]
            call_ensures(d, (ExprNode::Not(()), &c), dc) && contexts_from(
                a,
                seq![dc.0],
                d,
                Seq::empty(),
                cs.take(a.len() as int),
            ) && fold_ctx_run(a, cs.take(a.len() as int), Seq::empty(), g, seq![va]) && call_ensures(
                g,
                (ExprNode::Not(va), c),
                v,
            ),
{
    let na = a.len() as int;
    let so = seq![SToken::Not];
    let e = a + so;
    assert(cs.len() == e.len());
    let ca = cs.take(na);
    let co = cs.skip(na);
    lemma_contexts_split(a, so, seq![c], d, p, cs);
    let pm = choose|pm: Seq<C>|
        #[trigger] contexts_from(so, seq![c], d, pm, co) && contexts_from(a, pm, d, p, ca);
    let pm1 = choose|pm1: Seq<C>|
        #[trigger] desc_step(so[0], pm1.drop_last(), pm1.last(), d, pm) && pm1.len() >= 1 && co[0]
            == pm1.last() && contexts_from(so.drop_first(), seq![c], d, pm1, co.drop_first());
    assert(so.drop_first() =~= Seq::<SToken>::empty());
    assert(pm1 == seq![c]);
    assert(pm1.drop_last() =~= Seq::<C>::empty());
    assert(co[0] == c);
    let dc = choose|dc: (C, C)|
        #[trigger] call_ensures(d, (ExprNode::Not(()), &c), dc) && pm == Seq::<C>::empty().push(dc.0);
    assert(pm =~= Seq::<C>::empty() + seq![dc.0]);
    lemma_contexts_frame(a, 0, Seq::<C>::empty(), seq![dc.0], d, p, ca);
    assert(p.skip(0) =~= p);
    assert(p =~= Seq::<C>::empty());
    assert(pm =~= seq![dc.0]);
    lemma_fold_ctx_split(a, so, cs, Seq::empty(), g, seq![v]);
    let mid = choose|mid: Seq<T>|
        #[trigger] fold_ctx_run(a, ca, Seq::empty(), g, mid) && fold_ctx_run(so, co, mid, g, seq![v]);
    assert(Seq::<T>::empty() + Seq::<T>::empty() =~= Seq::<T>::empty());
    lemma_fold_ctx_frame(a, ca, Seq::<T>::empty(), Seq::<T>::empty(), g, mid);
    assert(mid.skip(0) =~= mid);
    let va = mid[0];
    assert(mid =~= seq![va]);
    let st2 = choose|st2: Seq<T>|
        #[trigger] fold_ctx_step(so[0], co[0], mid, g, st2) && fold_ctx_run(so.drop_first(), co.drop_first(), st2, g, seq![v]);
    assert(st2 == seq![v]);
    assert(call_ensures(g, (ExprNode::Not(va), c), v));
}

/// A fold with contexts of a single variable or constant hands `combine` the leaf with the
/// root's context `c` and returns what it gives.
pub proof fn law_context_fold_leaf<C, T, D, G>(
    t: SToken,
    c: C,
    d: D,
    g: G,
    cs: Seq<C>,
    p: Seq<C>,
    v: T,
) where D: Fn(ExprNode<()>, &C) -> (C, C), G: Fn(ExprNode<T>, C) -> T
    requires
        arity(t) == 0,
        contexts_from(seq![t], seq![c], d, p, cs),
        fold_ctx_run(seq![t], cs, Seq::empty(), g, seq![v]),
    ensures
        cs == seq![c],
        t matches SToken::Const(b) ==> call_ensures(g, (ExprNode::Constant(b), c), v),
        t matches SToken::Var(name) ==> exists|x: &str|
            x@ == name && #[trigger] call_ensures(g, (ExprNode::Variable(x), c), v),
{
    let so = seq![t];
    assert(so.drop_first() =~= Seq::<SToken>::empty());
    let pm1 = choose|pm1: Seq<C>|
        #[trigger] desc_step(so[0], pm1.drop_last(), pm1.last(), d, p) && pm1.len() >= 1 && cs[0]
            == pm1.last() && contexts_from(so.drop_first(), seq![c], d, pm1, cs.drop_first());
    assert(pm1 == seq![c]);
    assert(cs =~= seq![c]);
    let st2 = choose|st2: Seq<T>|
        #[trigger] fold_ctx_step(so[0], cs[0], Seq::empty(), g, st2) && fold_ctx_run(so.drop_first(), cs.drop_first(), st2, g, seq![v]);
    assert(st2 == seq![v]);
    assert(st2[0] == v);
}

} // verus!
