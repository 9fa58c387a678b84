//! Folding an expression bottom-up over its structure.
//!
//! A fold visits every node of the expression tree once, children before parents, and hands the
//! caller's function the node's shape together with the results already computed for its
//! operands. Because the expression is held as a reverse-Polish token stream, the walk is a single
//! left-to-right pass with a stack of results: no recursion, whatever the depth.
use super::boolexpr::BoolExpr;
use super::rpn::{
    arity, bool_alg, depth_after, lemma_prefix, run, step, value, wf_program, Alg, SToken, Token,
};
use super::syntax::Syntax;
use vstd::prelude::*;

verus! {

/// One node of an expression, with the results of its operands in place of the operands.
#[derive(Debug, Clone, PartialEq, Eq)]
pub enum ExprNode<'a, T> {
    /// A variable, by name.
    Variable(&'a str),
    /// Conjunction of the left and right results.
    And(T, T),
    /// Disjunction of the left and right results.
    Or(T, T),
    /// Exclusive-or of the left and right results.
    Xor(T, T),
    /// Negation of the inner result.
    Not(T),
    /// A constant.
    Constant(bool),
}

/// One step of a fold: token `t` turns the result stack `st` into `st2`, where the value pushed
/// is one that `f` may return for the node the token forms from the results it pops.
pub open spec fn fold_step<T, F: Fn(ExprNode<T>) -> T>(t: SToken, st: Seq<T>, f: F, st2: Seq<T>) -> bool {
    let n = st.len() as int;
    match t {
        SToken::Var(name) => st2.len() == n + 1 && st2.take(n) == st && exists|x: &str|
            x@ == name && #[trigger] call_ensures(f, (ExprNode::Variable(x),), st2[n]),
        SToken::Const(b) => st2.len() == n + 1 && st2.take(n) == st && call_ensures(
            f,
            (ExprNode::Constant(b),),
            st2[n],
        ),
        SToken::Not => n >= 1 && st2.len() == n && st2.take(n - 1) == st.take(n - 1)
            && call_ensures(f, (ExprNode::Not(st[n - 1]),), st2[n - 1]),
        SToken::And => n >= 2 && st2.len() == n - 1 && st2.take(n - 2) == st.take(n - 2)
            && call_ensures(f, (ExprNode::And(st[n - 2], st[n - 1]),), st2[n - 2]),
        SToken::Or => n >= 2 && st2.len() == n - 1 && st2.take(n - 2) == st.take(n - 2)
            && call_ensures(f, (ExprNode::Or(st[n - 2], st[n - 1]),), st2[n - 2]),
        SToken::Xor => n >= 2 && st2.len() == n - 1 && st2.take(n - 2) == st.take(n - 2)
            && call_ensures(f, (ExprNode::Xor(st[n - 2], st[n - 1]),), st2[n - 2]),
    }
}

/// Folding the tokens `toks` with `f`, starting from the result stack `st`, can end with the
/// stack `out`: each token in turn takes one [`fold_step`].
pub open spec fn fold_run<T, F: Fn(ExprNode<T>) -> T>(toks: Seq<SToken>, st: Seq<T>, f: F, out: Seq<T>) -> bool
    decreases toks.len(),
{
    if toks.len() == 0 {
        out == st
    } else {
        exists|st2: Seq<T>| #[trigger]
            fold_step(toks[0], st, f, st2) && fold_run(toks.drop_first(), st2, f, out)
    }
}

/// A fold through one more token extends a fold through the tokens before it.
pub proof fn lemma_fold_run_push<T, F: Fn(ExprNode<T>) -> T>(
    a: Seq<SToken>,
    t: SToken,
    st: Seq<T>,
    f: F,
    mid: Seq<T>,
    out: Seq<T>,
)
    requires
        fold_run(a, st, f, mid),
        fold_step(t, mid, f, out),
    ensures
        fold_run(a.push(t), st, f, out),
    decreases a.len(),
{
    if a.len() == 0 {
        assert(a.push(t).drop_first() =~= Seq::<SToken>::empty());
        assert(a.push(t)[0] == t);
        assert(fold_run(a.push(t).drop_first(), out, f, out));
    } else {
        let st2 = choose|st2: Seq<T>|
            #[trigger] fold_step(a[0], st, f, st2) && fold_run(a.drop_first(), st2, f, mid);
        lemma_fold_run_push(a.drop_first(), t, st2, f, mid, out);
        assert(a.push(t).drop_first() =~= a.drop_first().push(t));
        assert(a.push(t)[0] == a[0]);
    }
}

/// The value an algebra gives a node.
pub open spec fn node_value<T>(alg: Alg<T>, node: ExprNode<T>) -> T {
    match node {
        ExprNode::Variable(x) => (alg.var)(x@),
        ExprNode::Constant(b) => (alg.cst)(b),
        ExprNode::Not(a) => (alg.not)(a),
        ExprNode::And(a, b) => (alg.and)(a, b),
        ExprNode::Or(a, b) => (alg.or)(a, b),
        ExprNode::Xor(a, b) => (alg.xor)(a, b),
    }
}

/// A fold with a function that computes an algebra's operations is the algebra's stack machine:
/// it ends with the stack that [`run`] computes, so on a whole expression it returns the value
/// of the expression in that algebra.
pub proof fn law_fold_is_value<T, F: Fn(ExprNode<T>) -> T>(
    toks: Seq<SToken>,
    st: Seq<T>,
    f: F,
    alg: Alg<T>,
    out: Seq<T>,
)
    requires
        forall|node: ExprNode<T>, v: T| #[trigger] call_ensures(f, (node,), v) ==> v == node_value(alg, node),
        fold_run(toks, st, f, out),
    ensures
        out == run(toks, st, alg),
        wf_program(toks) && st.len() == 0 ==> out == seq![value(toks, alg)],
    decreases toks.len(),
{
    if toks.len() > 0 {
        let st2 = choose|st2: Seq<T>|
            #[trigger] fold_step(toks[0], st, f, st2) && fold_run(toks.drop_first(), st2, f, out);
        let n = st.len() as int;
        assert(st2 =~= step(toks[0], st, alg)) by {
            match toks[0] {
                SToken::Var(name) => {
                    let x = choose|x: &str| x@ == name && #[trigger] call_ensures(f, (ExprNode::Variable(x),), st2[n]);
                    assert(st2 =~= st2.take(n).push(st2[n]));
                },
                SToken::Const(b) => {
                    assert(st2 =~= st2.take(n).push(st2[n]));
                },
                SToken::Not => {
                    assert(st2 =~= st2.take(n - 1).push(st2[n - 1]));
                },
                _ => {
                    assert(st2 =~= st2.take(n - 2).push(st2[n - 2]));
                },
            }
        }
        law_fold_is_value(toks.drop_first(), st2, f, alg, out);
    }
    if wf_program(toks) && st.len() == 0 {
        assert(st =~= Seq::<T>::empty());
        super::rpn::lemma_full(toks, alg);
        assert(out =~= seq![value(toks, alg)]);
    }
}

impl<S: Syntax> BoolExpr<S> {
    /// Fold the expression from its leaves to its root: `f` is called once per node, children
    /// before parents, with the node's shape and the results of its operands, and the result at
    /// the root is returned. A variable is handed over by name, an XOR as a node of its own.
    pub fn fold<T, F>(&self, f: F) -> (r: T) where F: Fn(ExprNode<T>) -> T
        requires
            forall|node: ExprNode<T>| #[trigger] call_requires(f, (node,)),
        ensures
            fold_run(self@, Seq::empty(), f, seq![r]),
    {
        self.assert_well_formed();
        let tokens = self.tokens();
        let n = tokens.len();
        let ghost toks = self@;
        let mut stack: Vec<T> = Vec::new();
        let mut i: usize = 0;
        while i < n
            invariant
                n == toks.len(),
                toks == self@,
                super::rpn::toks_view(tokens@) == toks,
                wf_program(toks),
                i <= n,
                forall|node: ExprNode<T>| #[trigger] call_requires(f, (node,)),
                fold_run(toks.take(i as int), Seq::empty(), f, stack@),
                depth_after(toks.take(i as int), 0) == Some(stack@.len() as int),
            decreases n - i,
        {
            proof {
                lemma_prefix(toks, i as int, bool_alg(|s: Seq<char>| false));
                lemma_depth_snoc(toks.take(i as int), toks[i as int], 0);
                assert(toks.take(i + 1) =~= toks.take(i as int).push(toks[i as int]));
            }
            let ghost before = stack@;
            match &tokens[i] {
                Token::Var(s) => {
                    let x = s.as_str();
                    let v = f(ExprNode::Variable(x));
                    let ghost gv = v;
                    stack.push(v);
                    proof {
                        assert(stack@.take(before.len() as int) =~= before);
                        assert(toks[i as int] == SToken::Var(x@));
                        assert(stack@[before.len() as int] == gv);
                        assert(call_ensures(f, (ExprNode::Variable(x),), stack@[before.len() as int]));
                    }
                },
                Token::Const(b) => {
                    let v = f(ExprNode::Constant(*b));
                    stack.push(v);
                    proof {
                        assert(stack@.take(before.len() as int) =~= before);
                    }
                },
                Token::Not => {
                    let a = stack.pop().unwrap();
                    let v = f(ExprNode::Not(a));
                    stack.push(v);
                    proof {
                        assert(stack@.take(before.len() - 1) =~= before.take(before.len() - 1));
                    }
                },
                Token::And => {
                    let b = stack.pop().unwrap();
                    let a = stack.pop().unwrap();
                    let v = f(ExprNode::And(a, b));
                    stack.push(v);
                    proof {
                        assert(stack@.take(before.len() - 2) =~= before.take(before.len() - 2));
                    }
                },
                Token::Or => {
                    let b = stack.pop().unwrap();
                    let a = stack.pop().unwrap();
                    let v = f(ExprNode::Or(a, b));
                    stack.push(v);
                    proof {
                        assert(stack@.take(before.len() - 2) =~= before.take(before.len() - 2));
                    }
                },
                Token::Xor => {
                    let b = stack.pop().unwrap();
                    let a = stack.pop().unwrap();
                    let v = f(ExprNode::Xor(a, b));
                    stack.push(v);
                    proof {
                        assert(stack@.take(before.len() - 2) =~= before.take(before.len() - 2));
                    }
                },
            }
            proof {
                assert(fold_step(toks[i as int], before, f, stack@));
                lemma_fold_run_push(toks.take(i as int), toks[i as int], Seq::empty(), f, before, stack@);
            }
            i += 1;
        }
        proof {
            assert(toks.take(n as int) =~= toks);
            assert(stack@ =~= seq![stack@[0]]);
        }
        stack.pop().unwrap()
    }
}

/// How a node hands contexts down: `t`'s node, reached with context `c` and the pending contexts
/// `base` below it, leaves the pending contexts `p`. A leaf hands nothing down; a negation pushes
/// the first context `descend` returns; a binary node pushes both, the right one on top, since
/// the right operand is met first when the tokens are walked from the end.
pub open spec fn desc_step<C, D: Fn(ExprNode<()>, &C) -> (C, C)>(
    t: SToken,
    base: Seq<C>,
    c: C,
    d: D,
    p: Seq<C>,
) -> bool {
    match t {
        SToken::Var(_) => p == base,
        SToken::Const(_) => p == base,
        SToken::Not => exists|r: (C, C)| #[trigger] call_ensures(d, (ExprNode::Not(()), &c), r) && p == base.push(r.0),
        SToken::And => exists|r: (C, C)|
            #[trigger] call_ensures(d, (ExprNode::And((), ()), &c), r) && p == base.push(r.0).push(r.1),
        SToken::Or => exists|r: (C, C)|
            #[trigger] call_ensures(d, (ExprNode::Or((), ()), &c), r) && p == base.push(r.0).push(r.1),
        SToken::Xor => exists|r: (C, C)|
            #[trigger] call_ensures(d, (ExprNode::Xor((), ()), &c), r) && p == base.push(r.0).push(r.1),
    }
}

/// Handing contexts down through `toks`, walked from the last token to the first with the
/// pending contexts `p0` at the start, can give each token the context in `cs` (in token order)
/// and leave the pending contexts `p`: each token takes the context on top of the pending ones.
pub open spec fn contexts_from<C, D: Fn(ExprNode<()>, &C) -> (C, C)>(
    toks: Seq<SToken>,
    p0: Seq<C>,
    d: D,
    p: Seq<C>,
    cs: Seq<C>,
) -> bool
    decreases toks.len(),
{
    if toks.len() == 0 {
        p == p0 && cs.len() == 0
    } else {
        cs.len() == toks.len() && exists|pm: Seq<C>|
            #[trigger] desc_step(toks[0], pm.drop_last(), pm.last(), d, p) && pm.len() >= 1 && cs[0]
                == pm.last() && contexts_from(toks.drop_first(), p0, d, pm, cs.drop_first())
    }
}

/// One step of a fold with contexts: like [`fold_step`], with `c` handed to `g` beside the node.
pub open spec fn fold_ctx_step<C, T, G: Fn(ExprNode<T>, C) -> T>(
    t: SToken,
    c: C,
    st: Seq<T>,
    g: G,
    st2: Seq<T>,
) -> bool {
    let n = st.len() as int;
    match t {
        SToken::Var(name) => st2.len() == n + 1 && st2.take(n) == st && exists|x: &str|
            x@ == name && #[trigger] call_ensures(g, (ExprNode::Variable(x), c), st2[n]),
        SToken::Const(b) => st2.len() == n + 1 && st2.take(n) == st && call_ensures(
            g,
            (ExprNode::Constant(b), c),
            st2[n],
        ),
        SToken::Not => n >= 1 && st2.len() == n && st2.take(n - 1) == st.take(n - 1)
            && call_ensures(g, (ExprNode::Not(st[n - 1]), c), st2[n - 1]),
        SToken::And => n >= 2 && st2.len() == n - 1 && st2.take(n - 2) == st.take(n - 2)
            && call_ensures(g, (ExprNode::And(st[n - 2], st[n - 1]), c), st2[n - 2]),
        SToken::Or => n >= 2 && st2.len() == n - 1 && st2.take(n - 2) == st.take(n - 2)
            && call_ensures(g, (ExprNode::Or(st[n - 2], st[n - 1]), c), st2[n - 2]),
        SToken::Xor => n >= 2 && st2.len() == n - 1 && st2.take(n - 2) == st.take(n - 2)
            && call_ensures(g, (ExprNode::Xor(st[n - 2], st[n - 1]), c), st2[n - 2]),
    }
}

/// Folding `toks` upward with the contexts `cs`, one per token, from the result stack `st`, can
/// end with the stack `out`.
pub open spec fn fold_ctx_run<C, T, G: Fn(ExprNode<T>, C) -> T>(
    toks: Seq<SToken>,
    cs: Seq<C>,
    st: Seq<T>,
    g: G,
    out: Seq<T>,
) -> bool
    decreases toks.len(),
{
    if toks.len() == 0 {
        out == st
    } else {
        exists|st2: Seq<T>| #[trigger]
            fold_ctx_step(toks[0], cs[0], st, g, st2) && fold_ctx_run(toks.drop_first(), cs.drop_first(), st2, g, out)
    }
}

proof fn lemma_contexts_cons<C, D: Fn(ExprNode<()>, &C) -> (C, C)>(
    toks: Seq<SToken>,
    p0: Seq<C>,
    d: D,
    pm: Seq<C>,
    rest: Seq<C>,
    c: C,
    p: Seq<C>,
)
    requires
        toks.len() > 0,
        contexts_from(toks.drop_first(), p0, d, pm, rest),
        rest.len() + 1 == toks.len(),
        pm.len() >= 1,
        c == pm.last(),
        desc_step(toks[0], pm.drop_last(), pm.last(), d, p),
    ensures
        contexts_from(toks, p0, d, p, seq![c] + rest),
{
    let cs = seq![c] + rest;
    assert(cs.drop_first() =~= rest);
    assert(cs[0] == c);
    assert(contexts_from(toks.drop_first(), p0, d, pm, cs.drop_first()));
}

proof fn lemma_fold_ctx_run_push<C, T, G: Fn(ExprNode<T>, C) -> T>(
    a: Seq<SToken>,
    cs: Seq<C>,
    t: SToken,
    c: C,
    st: Seq<T>,
    g: G,
    mid: Seq<T>,
    out: Seq<T>,
)
    requires
        a.len() == cs.len(),
        fold_ctx_run(a, cs, st, g, mid),
        fold_ctx_step(t, c, mid, g, out),
    ensures
        fold_ctx_run(a.push(t), cs.push(c), st, g, out),
    decreases a.len(),
{
    if a.len() == 0 {
        assert(a.push(t).drop_first() =~= Seq::<SToken>::empty());
        assert(a.push(t)[0] == t);
        assert(cs.push(c)[0] == c);
        assert(fold_ctx_run(a.push(t).drop_first(), cs.push(c).drop_first(), out, g, out));
    } else {
        let st2 = choose|st2: Seq<T>|
            #[trigger] fold_ctx_step(a[0], cs[0], st, g, st2) && fold_ctx_run(a.drop_first(), cs.drop_first(), st2, g, mid);
        lemma_fold_ctx_run_push(a.drop_first(), cs.drop_first(), t, c, st2, g, mid, out);
        assert(a.push(t).drop_first() =~= a.drop_first().push(t));
        assert(cs.push(c).drop_first() =~= cs.drop_first().push(c));
        assert(a.push(t)[0] == a[0]);
        assert(cs.push(c)[0] == cs[0]);
    }
}

impl<S: Syntax> BoolExpr<S> {
    /// Fold the expression with a context that flows from the root down and results that flow
    /// back up. `descend` runs on the way down: given an operator node's shape and its context,
    /// it returns the contexts for its operands (left, then right; a negation takes the first).
    /// `combine` runs on the way up: given a node with its operands' results and the node's own
    /// context, it returns the node's result. The root gets `root_context`, and the root's
    /// result is returned.
    ///
    /// Both halves run as loops over the token stream: first from the root down, handing every
    /// node its context, then from the leaves up, so depth costs no stack.
    pub fn fold_with_context<C, T, D, G>(&self, root_context: C, descend: D, combine: G) -> (r: T) where
        D: Fn(ExprNode<()>, &C) -> (C, C),
        G: Fn(ExprNode<T>, C) -> T,

        requires
            forall|node: ExprNode<()>, c: C| #[trigger] call_requires(descend, (node, &c)),
            forall|node: ExprNode<T>, c: C| #[trigger] call_requires(combine, (node, c)),
        ensures
            exists|cs: Seq<C>, p: Seq<C>|
                #[trigger] contexts_from(self@, seq![root_context], descend, p, cs) && fold_ctx_run(
                    self@,
                    cs,
                    Seq::empty(),
                    combine,
                    seq![r],
                ),
    {
        self.assert_well_formed();
        let tokens = self.tokens();
        let n = tokens.len();
        let ghost toks = self@;
        let ghost root = root_context;
        // Downward: walk the tokens from the root (the last one) and hand out contexts.
        let mut pending: Vec<C> = Vec::new();
        pending.push(root_context);
        let mut handed: Vec<C> = Vec::new();
        let ghost mut ctxs: Seq<C> = Seq::empty();
        let mut k: usize = n;
        proof {
            assert(toks.skip(n as int) =~= Seq::<SToken>::empty());
            assert(toks.take(n as int) =~= toks);
            assert(pending@ =~= seq![root]);
        }
        while k > 0
            invariant
                n == toks.len(),
                toks == self@,
                super::rpn::toks_view(tokens@) == toks,
                wf_program(toks),
                k <= n,
                forall|node: ExprNode<()>, c: C| #[trigger] call_requires(descend, (node, &c)),
                contexts_from(toks.skip(k as int), seq![root], descend, pending@, ctxs),
                ctxs.len() == n - k,
                handed@.len() == n - k,
                forall|j: int| 0 <= j < handed@.len() ==> #[trigger] handed@[j] == ctxs[(n - k) - 1 - j],
                depth_after(toks.take(k as int), 0) == Some(pending@.len() as int),
            decreases k,
        {
            let kk = k - 1;
            proof {
                lemma_prefix(toks, kk as int, bool_alg(|s: Seq<char>| false));
                lemma_depth_snoc(toks.take(kk as int), toks[kk as int], 0);
                assert(toks.take(kk + 1) =~= toks.take(kk as int).push(toks[kk as int]));
            }
            let ghost pm = pending@;
            let c = pending.pop().unwrap();
            let ghost gc = c;
            let ghost base = pending@;
            match &tokens[kk] {
                Token::Var(_) => {},
                Token::Const(_) => {},
                Token::Not => {
                    let r = descend(ExprNode::Not(()), &c);
                    let ghost gr = r;
                    let (cc, _unused) = r;
                    pending.push(cc);
                    proof {
                        assert(pending@ == base.push(gr.0));
                    }
                },
                Token::And => {
                    let r = descend(ExprNode::And((), ()), &c);
                    let ghost gr = r;
                    let (lc, rc) = r;
                    pending.push(lc);
                    pending.push(rc);
                    proof {
                        assert(pending@ == base.push(gr.0).push(gr.1));
                    }
                },
                Token::Or => {
                    let r = descend(ExprNode::Or((), ()), &c);
                    let ghost gr = r;
                    let (lc, rc) = r;
                    pending.push(lc);
                    pending.push(rc);
                    proof {
                        assert(pending@ == base.push(gr.0).push(gr.1));
                    }
                },
                Token::Xor => {
                    let r = descend(ExprNode::Xor((), ()), &c);
                    let ghost gr = r;
                    let (lc, rc) = r;
                    pending.push(lc);
                    pending.push(rc);
                    proof {
                        assert(pending@ == base.push(gr.0).push(gr.1));
                    }
                },
            }
            handed.push(c);
            proof {
                let old_ctxs = ctxs;
                ctxs = seq![gc] + old_ctxs;
                assert(desc_step(toks[kk as int], pm.drop_last(), pm.last(), descend, pending@));
                assert(toks.skip(kk as int).drop_first() =~= toks.skip(k as int));
                assert(toks.skip(kk as int)[0] == toks[kk as int]);
                assert(ctxs.drop_first() =~= old_ctxs);
                assert(gc == pm.last());
                assert(base == pm.drop_last());
                assert(ctxs[0] == pm.last());
                assert(ctxs.len() == toks.skip(kk as int).len());
                lemma_contexts_cons(toks.skip(kk as int), seq![root], descend, pm, old_ctxs, gc, pending@);
                assert forall|j: int| 0 <= j < handed@.len() implies #[trigger] handed@[j] == ctxs[(n - kk) - 1 - j] by {
                    if j < old_ctxs.len() {
                        assert(ctxs[(n - kk) - 1 - j] == old_ctxs[(n - k) - 1 - j]);
                    }
                }
            }
            k = kk;
        }
        proof {
            assert(toks.skip(0) =~= toks);
        }
        let ghost p_end = pending@;
        // Upward: fold from the leaves, each node taking its context off the handed-out list.
        let mut stack: Vec<T> = Vec::new();
        let mut i: usize = 0;
        while i < n
            invariant
                n == toks.len(),
                toks == self@,
                super::rpn::toks_view(tokens@) == toks,
                wf_program(toks),
                i <= n,
                ctxs.len() == n,
                forall|node: ExprNode<T>, c: C| #[trigger] call_requires(combine, (node, c)),
                handed@.len() == n - i,
                forall|j: int| 0 <= j < handed@.len() ==> #[trigger] handed@[j] == ctxs[n - 1 - j],
                fold_ctx_run(toks.take(i as int), ctxs.take(i as int), Seq::empty(), combine, stack@),
                depth_after(toks.take(i as int), 0) == Some(stack@.len() as int),
            decreases n - i,
        {
            proof {
                lemma_prefix(toks, i as int, bool_alg(|s: Seq<char>| false));
                lemma_depth_snoc(toks.take(i as int), toks[i as int], 0);
                assert(toks.take(i + 1) =~= toks.take(i as int).push(toks[i as int]));
                assert(ctxs.take(i + 1) =~= ctxs.take(i as int).push(ctxs[i as int]));
                assert(handed@[handed@.len() - 1] == ctxs[i as int]);
            }
            let ghost before = stack@;
            let c = handed.pop().unwrap();
            match &tokens[i] {
                Token::Var(s) => {
                    let x = s.as_str();
                    let v = combine(ExprNode::Variable(x), c);
                    let ghost gv = v;
                    stack.push(v);
                    proof {
                        assert(stack@.take(before.len() as int) =~= before);
                        assert(toks[i as int] == SToken::Var(x@));
                        assert(stack@[before.len() as int] == gv);
                    }
                },
                Token::Const(b) => {
                    let v = combine(ExprNode::Constant(*b), c);
                    stack.push(v);
                    proof {
                        assert(stack@.take(before.len() as int) =~= before);
                    }
                },
                Token::Not => {
                    let a = stack.pop().unwrap();
                    let v = combine(ExprNode::Not(a), c);
                    stack.push(v);
                    proof {
                        assert(stack@.take(before.len() - 1) =~= before.take(before.len() - 1));
                    }
                },
                Token::And => {
                    let b = stack.pop().unwrap();
                    let a = stack.pop().unwrap();
                    let v = combine(ExprNode::And(a, b), c);
                    stack.push(v);
                    proof {
                        assert(stack@.take(before.len() - 2) =~= before.take(before.len() - 2));
                    }
                },
                Token::Or => {
                    let b = stack.pop().unwrap();
                    let a = stack.pop().unwrap();
                    let v = combine(ExprNode::Or(a, b), c);
                    stack.push(v);
                    proof {
                        assert(stack@.take(before.len() - 2) =~= before.take(before.len() - 2));
                    }
                },
                Token::Xor => {
                    let b = stack.pop().unwrap();
                    let a = stack.pop().unwrap();
                    let v = combine(ExprNode::Xor(a, b), c);
                    stack.push(v);
                    proof {
                        assert(stack@.take(before.len() - 2) =~= before.take(before.len() - 2));
                    }
                },
            }
            proof {
                assert(fold_ctx_step(toks[i as int], ctxs[i as int], before, combine, stack@));
                lemma_fold_ctx_run_push(
                    toks.take(i as int),
                    ctxs.take(i as int),
                    toks[i as int],
                    ctxs[i as int],
                    Seq::empty(),
                    combine,
                    before,
                    stack@,
                );
            }
            i += 1;
        }
        proof {
            assert(toks.take(n as int) =~= toks);
            assert(ctxs.take(n as int) =~= ctxs);
            assert(stack@ =~= seq![stack@[0]]);
        }
        let r = stack.pop().unwrap();
        proof {
            assert(contexts_from(toks, seq![root], descend, p_end, ctxs));
        }
        r
    }
}

/// A fold with contexts whose combining function ignores the context is a plain fold: what it
/// can end with, a fold with a function returning what the combining one returns can end with.
pub proof fn law_context_free_fold<C, T, G: Fn(ExprNode<T>, C) -> T, F: Fn(ExprNode<T>) -> T>(
    toks: Seq<SToken>,
    cs: Seq<C>,
    st: Seq<T>,
    g: G,
    f: F,
    out: Seq<T>,
)
    requires
        forall|node: ExprNode<T>, c: C, v: T| #[trigger] call_ensures(g, (node, c), v) ==> call_ensures(f, (node,), v),
        cs.len() == toks.len(),
        fold_ctx_run(toks, cs, st, g, out),
    ensures
        fold_run(toks, st, f, out),
    decreases toks.len(),
{
    if toks.len() > 0 {
        let st2 = choose|st2: Seq<T>|
            #[trigger] fold_ctx_step(toks[0], cs[0], st, g, st2) && fold_ctx_run(toks.drop_first(), cs.drop_first(), st2, g, out);
        law_context_free_fold(toks.drop_first(), cs.drop_first(), st2, g, f, out);
        let n = st.len() as int;
        match toks[0] {
            SToken::Var(name) => {
                let x = choose|x: &str| x@ == name && #[trigger] call_ensures(g, (ExprNode::Variable(x), cs[0]), st2[n]);
                assert(call_ensures(f, (ExprNode::Variable(x),), st2[n]));
            },
            _ => {},
        }
        assert(fold_step(toks[0], st, f, st2));
    }
}

/// A fold with contexts whose combining function computes an algebra's operations, whatever
/// the context, ends with the stack the algebra's machine computes: on a whole expression, the
/// value of the expression in that algebra, as [`BoolExpr::fold`] gives it
/// ([`law_fold_is_value`]). So a fold with contexts that ignores them is the plain fold.
pub proof fn law_context_fold_is_value<C, T, G: Fn(ExprNode<T>, C) -> T>(
    toks: Seq<SToken>,
    cs: Seq<C>,
    st: Seq<T>,
    g: G,
    alg: Alg<T>,
    out: Seq<T>,
)
    requires
        forall|node: ExprNode<T>, c: C, v: T| #[trigger] call_ensures(g, (node, c), v) ==> v == node_value(alg, node),
        cs.len() == toks.len(),
        fold_ctx_run(toks, cs, st, g, out),
    ensures
        out == run(toks, st, alg),
        wf_program(toks) && st.len() == 0 ==> out == seq![value(toks, alg)],
    decreases toks.len(),
{
    if toks.len() > 0 {
        let st2 = choose|st2: Seq<T>|
            #[trigger] fold_ctx_step(toks[0], cs[0], st, g, st2) && fold_ctx_run(toks.drop_first(), cs.drop_first(), st2, g, out);
        let n = st.len() as int;
        assert(st2 =~= step(toks[0], st, alg)) by {
            match toks[0] {
                SToken::Var(name) => {
                    let x = choose|x: &str| x@ == name && #[trigger] call_ensures(g, (ExprNode::Variable(x), cs[0]), st2[n]);
                    assert(st2 =~= st2.take(n).push(st2[n]));
                },
                SToken::Const(b) => {
                    assert(st2 =~= st2.take(n).push(st2[n]));
                },
                SToken::Not => {
                    assert(st2 =~= st2.take(n - 1).push(st2[n - 1]));
                },
                _ => {
                    assert(st2 =~= st2.take(n - 2).push(st2[n - 2]));
                },
            }
        }
        law_context_fold_is_value(toks.drop_first(), cs.drop_first(), st2, g, alg, out);
    }
    if wf_program(toks) && st.len() == 0 {
        assert(st =~= Seq::<T>::empty());
        super::rpn::lemma_full(toks, alg);
        assert(out =~= seq![value(toks, alg)]);
    }
}

/// Depth through one more token.
proof fn lemma_depth_snoc(a: Seq<SToken>, t: SToken, d: int)
    ensures
        depth_after(a.push(t), d) == (match depth_after(a, d) {
            Some(d2) => if d2 < arity(t) {
                None
            } else {
                Some(d2 - arity(t) + 1)
            },
            None => None,
        }),
    decreases a.len(),
{
    if a.len() == 0 {
        assert(a.push(t).drop_first() =~= Seq::<SToken>::empty());
        assert(a.push(t)[0] == t);
        reveal_with_fuel(depth_after, 2);
    } else {
        assert(a.push(t).drop_first() =~= a.drop_first().push(t));
        assert(a.push(t)[0] == a[0]);
        lemma_depth_snoc(a.drop_first(), t, d - arity(a[0]) + 1);
    }
}

} // verus!
