//! Greedy algebraic factorisation of a sum of products.
//!
//! Repeatedly pulls out the literal shared by the most product terms (`a*b + a*c` becomes
//! `a*(b + c)`), then factorises the two halves the same way, until no literal is shared.
use super::boolexpr::BoolExpr;
use super::cover::distinct_lits;
use super::rpn::eval;
use super::rpn::SToken;
use super::sop::{lit_toks, lits_hold, lits_view, literal, product_toks, some_holds, sum, sum_toks};
use crate::symbol::{lemma_seq_lt_total, lemma_seq_lt_trans, seq_lt, Symbol};
use vstd::prelude::*;

verus! {

/// Literal order: by variable name, then negative before positive.
pub open spec fn lit_lt(a: (Seq<char>, bool), b: (Seq<char>, bool)) -> bool {
    seq_lt(a.0, b.0) || (a.0 == b.0 && !a.1 && b.1)
}

/// Names strictly increasing.
pub open spec fn names_sorted(t: Seq<(Seq<char>, bool)>) -> bool {
    forall|i: int, j: int| 0 <= i < j < t.len() ==> seq_lt(t[i].0, t[j].0)
}

/// A product term: a set of literals on distinct variables, kept in name order.
#[derive(Debug)]
pub struct ProductTerm {
    literals: Vec<(Symbol, bool)>,
}

impl ProductTerm {
    /// The literals, in name order.
    pub closed spec fn lits(&self) -> Seq<(Seq<char>, bool)> {
        lits_view(self.literals@)
    }

    /// The literals are in strictly increasing name order.
    pub open spec fn wf(&self) -> bool {
        names_sorted(self.lits())
    }

    /// The term from a list of literals on distinct variables.
    pub fn new(literals: Vec<(Symbol, bool)>) -> (r: ProductTerm)
        requires
            distinct_lits(lits_view(literals@)),
        ensures
            r.wf(),
            forall|x: (Seq<char>, bool)| r.lits().contains(x) <==> lits_view(literals@).contains(x),
    {
        let ghost src = lits_view(literals@);
        let mut out: Vec<(Symbol, bool)> = Vec::new();
        let n = literals.len();
        let mut i: usize = 0;
        while i < n
            invariant
                n == src.len(),
                src == lits_view(literals@),
                distinct_lits(src),
                i <= n,
                names_sorted(lits_view(out@)),
                forall|x: (Seq<char>, bool)| lits_view(out@).contains(x) <==> src.take(i as int).contains(x),
            decreases n - i,
        {
            let name = literals[i].0.copy();
            let pol = literals[i].1;
            let ghost item = (name@, pol);
            proof {
                assert(src[i as int] == item);
            }
            let len = out.len();
            let mut k: usize = 0;
            while k < len && out[k].0.less_than(&name)
                invariant
                    len == out@.len(),
                    k <= len,
                    forall|q: int| 0 <= q < k ==> seq_lt(lits_view(out@)[q].0, name@),
                decreases len - k,
            {
                proof {
                    assert(lits_view(out@)[k as int].0 == out@[k as int].0@);
                }
                k += 1;
            }
            let ghost ov = lits_view(out@);
            proof {
                assert forall|q: int| 0 <= q < ov.len() implies ov[q].0 != name@ by {
                    if ov[q].0 == name@ {
                        assert(ov.contains(ov[q]));
                        assert(src.take(i as int).contains(ov[q]));
                        let w = choose|w: int| 0 <= w < i && src.take(i as int)[w] == ov[q];
                        assert(src[w] == src.take(i as int)[w]);
                        assert(src[w].0 != src[i as int].0);
                    }
                }
                if k < len {
                    assert(lits_view(out@)[k as int].0 == out@[k as int].0@);
                    lemma_seq_lt_total(ov[k as int].0, name@);
                    assert(seq_lt(name@, ov[k as int].0));
                }
            }
            out.insert(k, (name, pol));
            proof {
                let nv = lits_view(out@);
                assert(nv =~= ov.insert(k as int, item));
                assert forall|a: int, b: int| 0 <= a < b < nv.len() implies seq_lt(nv[a].0, nv[b].0) by {
                    if b < k {
                    } else if b == k {
                    } else if a < k {
                        if k < len {
                            lemma_seq_lt_trans(nv[a].0, name@, ov[k as int].0);
                            if b - 1 > k {
                                lemma_seq_lt_trans(nv[a].0, ov[k as int].0, ov[b - 1].0);
                            }
                        }
                    } else if a == k {
                        if b - 1 > k {
                            lemma_seq_lt_trans(name@, ov[k as int].0, ov[b - 1].0);
                        }
                    }
                }
                assert(src.take(i + 1) =~= src.take(i as int).push(item));
                assert forall|x: (Seq<char>, bool)| nv.contains(x) <==> src.take(i + 1).contains(x) by {
                    if nv.contains(x) {
                        let q = choose|q: int| 0 <= q < nv.len() && nv[q] == x;
                        if q < k {
                            assert(ov[q] == x);
                        } else if q > k {
                            assert(ov[q - 1] == x);
                        }
                        if x != item {
                            assert(ov.contains(x));
                            let w = choose|w: int| 0 <= w < i && src.take(i as int)[w] == x;
                            assert(src.take(i + 1)[w] == x);
                        } else {
                            assert(src.take(i + 1)[i as int] == x);
                        }
                    }
                    if src.take(i + 1).contains(x) {
                        if x == item {
                            assert(nv[k as int] == x);
                        } else {
                            let t1 = src.take(i + 1);
                            let w = choose|w: int| 0 <= w < i + 1 && t1[w] == x;
                            assert(w < i);
                            assert(src.take(i as int)[w] == x);
                            assert(ov.contains(x));
                            let q = choose|q: int| 0 <= q < ov.len() && ov[q] == x;
                            if q < k {
                                assert(nv[q] == x);
                            } else {
                                assert(nv[q + 1] == x);
                            }
                        }
                    }
                }
            }
            i += 1;
        }
        proof {
            assert(src.take(n as int) =~= src);
        }
        ProductTerm { literals: out }
    }

    /// Whether the term has the literal `(var, polarity)`.
    pub fn contains_literal(&self, var: &Symbol, polarity: bool) -> (r: bool)
        ensures
            r == self.lits().contains((var@, polarity)),
    {
        let n = self.literals.len();
        let mut i: usize = 0;
        while i < n
            invariant
                n == self.lits().len(),
                i <= n,
                forall|q: int| 0 <= q < i ==> self.lits()[q] != (var@, polarity),
            decreases n - i,
        {
            if self.literals[i].0.same_as(var) && self.literals[i].1 == polarity {
                proof {
                    assert(self.lits()[i as int] == (var@, polarity));
                }
                return true;
            }
            proof {
                assert(self.lits()[i as int] == (self.literals@[i as int].0@, self.literals@[i as int].1));
            }
            i += 1;
        }
        false
    }

    /// Remove the literal on `var`, returning its polarity if there was one.
    pub fn remove_literal(&mut self, var: &Symbol) -> (r: Option<bool>)
        requires
            old(self).wf(),
        ensures
            final(self).wf(),
            r matches Some(b) ==> old(self).lits().contains((var@, b)),
            r is None ==> final(self).lits() == old(self).lits() && forall|q: int|
                0 <= q < old(self).lits().len() ==> old(self).lits()[q].0 != var@,
            r is Some ==> exists|q: int|
                0 <= q < old(self).lits().len() && old(self).lits()[q].0 == var@ && final(self).lits()
                    == old(self).lits().remove(q),
            r is Some ==> final(self).lits() == drop_name(old(self).lits(), var@),
    {
        let n = self.literals.len();
        let mut i: usize = 0;
        while i < n
            invariant
                n == self.lits().len(),
                i <= n,
                self.lits() == old(self).lits(),
                old(self).wf(),
                forall|q: int| 0 <= q < i ==> self.lits()[q].0 != var@,
            decreases n - i,
        {
            proof {
                assert(self.lits()[i as int] == (self.literals@[i as int].0@, self.literals@[i as int].1));
            }
            if self.literals[i].0.same_as(var) {
                let ghost before = self.lits();
                let (_, b) = self.literals.remove(i);
                proof {
                    assert(self.lits() =~= before.remove(i as int));
                    assert(before[i as int] == (var@, b));
                    lemma_drop_unique(before, i as int);
                    assert(before.contains((var@, b)));
                    assert forall|a: int, c: int| 0 <= a < c < self.lits().len() implies seq_lt(
                        self.lits()[a].0,
                        self.lits()[c].0,
                    ) by {
                        if c < i {
                            assert(self.lits()[a] == before[a]);
                            assert(self.lits()[c] == before[c]);
                        } else if a < i {
                            assert(self.lits()[a] == before[a]);
                            assert(self.lits()[c] == before[c + 1]);
                        } else {
                            assert(self.lits()[a] == before[a + 1]);
                            assert(self.lits()[c] == before[c + 1]);
                        }
                    }
                }
                return Some(b);
            }
            i += 1;
        }
        None
    }

    /// Whether the term has no literals (the constant `true`).
    pub fn is_empty(&self) -> (r: bool)
        ensures
            r == (self.lits().len() == 0),
    {
        self.literals.len() == 0
    }

    /// The term as an expression: the AND of its literals in name order, `true` when empty.
    pub fn to_expr(&self) -> (r: BoolExpr)
        ensures
            r@ == product_toks(self.lits()),
            forall|env: spec_fn(Seq<char>) -> bool| #[trigger] eval(r@, env) == lits_hold(env, self.lits()),
    {
        super::sop::product(&self.literals)
    }
}

/// Some term holds.
pub open spec fn sop_holds(env: spec_fn(Seq<char>) -> bool, ts: Seq<ProductTerm>) -> bool {
    exists|k: int| 0 <= k < ts.len() && lits_hold(env, #[trigger] ts[k].lits())
}

/// A sum of product terms.
#[derive(Debug)]
pub struct SopForm {
    terms: Vec<ProductTerm>,
}

impl SopForm {
    /// The terms.
    pub closed spec fn term_list(&self) -> Seq<ProductTerm> {
        self.terms@
    }

    /// The sum of `terms`.
    pub fn new(terms: Vec<ProductTerm>) -> (r: SopForm)
        ensures
            r.term_list() == terms@,
    {
        SopForm { terms }
    }

    /// The sum as an expression: the OR of its terms in order, `false` when empty.
    pub fn to_expr(&self) -> (r: BoolExpr)
        ensures
            r@ == sum_toks(terms_lits(self.term_list()).map_values(|l: Seq<(Seq<char>, bool)>| product_toks(l))),
            forall|env: spec_fn(Seq<char>) -> bool| #[trigger] eval(r@, env) == sop_holds(env, self.term_list()),
    {
        let mut exprs: Vec<BoolExpr> = Vec::new();
        let mut k: usize = 0;
        while k < self.terms.len()
            invariant
                k <= self.terms@.len(),
                exprs@.len() == k,
                forall|q: int, env: spec_fn(Seq<char>) -> bool|
                    0 <= q < k ==> #[trigger] eval(exprs@[q]@, env) == lits_hold(env, self.terms@[q].lits()),
                forall|q: int| 0 <= q < k ==> #[trigger] exprs@[q]@ == product_toks(self.terms@[q].lits()),
            decreases self.terms@.len() - k,
        {
            let e = self.terms[k].to_expr();
            exprs.push(e);
            k += 1;
        }
        let r = sum(&exprs);
        proof {
            assert(exprs@.map_values(|e: BoolExpr| e@) =~= terms_lits(self.terms@).map_values(
                |l: Seq<(Seq<char>, bool)>| product_toks(l),
            ));
        }
        proof {
            assert forall|env: spec_fn(Seq<char>) -> bool| #[trigger] eval(r@, env) == sop_holds(
                env,
                self.terms@,
            ) by {
                if some_holds(env, exprs@) {
                    let q = choose|q: int| 0 <= q < exprs@.len() && eval(#[trigger] exprs@[q]@, env);
                    assert(lits_hold(env, self.terms@[q].lits()));
                }
                if sop_holds(env, self.terms@) {
                    let q = choose|q: int| 0 <= q < self.terms@.len() && lits_hold(env, #[trigger] self.terms@[q].lits());
                    assert(eval(exprs@[q]@, env));
                }
            }
        }
        r
    }
}


/// Removing the one literal on a variable of a list with distinct names.
proof fn lemma_drop_unique(l: Seq<(Seq<char>, bool)>, q: int)
    requires
        names_sorted(l),
        0 <= q < l.len(),
    ensures
        drop_name(l, l[q].0) == l.remove(q),
    decreases l.len(),
{
    let name = l[q].0;
    if q == l.len() - 1 {
        lemma_drop_absent(l.drop_last(), name);
        assert(l.drop_last() =~= l.remove(q));
    } else {
        assert(l.drop_last()[q] == l[q]);
        lemma_drop_unique(l.drop_last(), q);
        assert(seq_lt(l[q].0, l.last().0));
        lemma_seq_lt_total(name, name);
        assert(l.last().0 != name);
        assert(l.drop_last().remove(q).push(l.last()) =~= l.remove(q));
    }
}

/// Dropping a name that does not occur, in a list with distinct names before it.
proof fn lemma_drop_absent(l: Seq<(Seq<char>, bool)>, name: Seq<char>)
    requires
        names_sorted(l),
        forall|k: int| 0 <= k < l.len() ==> seq_lt(#[trigger] l[k].0, name),
    ensures
        drop_name(l, name) == l,
    decreases l.len(),
{
    if l.len() > 0 {
        lemma_drop_absent(l.drop_last(), name);
        lemma_seq_lt_total(name, name);
        assert(l.last().0 != name) by {
            assert(seq_lt(l[l.len() - 1].0, name));
        }
        assert(l.drop_last().push(l.last()) =~= l);
    }
}

/// No literal is counted more often than there are terms.
proof fn lemma_count_le(ts: Seq<ProductTerm>, x: (Seq<char>, bool))
    ensures
        lcount(terms_lits(ts), x) <= ts.len(),
    decreases ts.len(),
{
    if ts.len() > 0 {
        lemma_count_le(ts.drop_last(), x);
        assert(terms_lits(ts).drop_last() =~= terms_lits(ts.drop_last()));
    }
}

/// Counting terms is counting their literal lists.
proof fn lemma_counts(ts: Seq<ProductTerm>, x: (Seq<char>, bool))
    ensures
        lit_count(ts, x) == lcount(terms_lits(ts), x),
    decreases ts.len(),
{
    if ts.len() > 0 {
        lemma_counts(ts.drop_last(), x);
        assert(terms_lits(ts).drop_last() =~= terms_lits(ts.drop_last()));
        assert(terms_lits(ts).last() == ts.last().lits());
    }
}

/// How many terms have the literal `x`.
pub open spec fn lit_count(ts: Seq<ProductTerm>, x: (Seq<char>, bool)) -> nat
    decreases ts.len(),
{
    if ts.len() == 0 {
        0
    } else {
        lit_count(ts.drop_last(), x) + if ts.last().lits().contains(x) {
            1nat
        } else {
            0nat
        }
    }
}

/// The size of a term list: one per term plus one per literal.
pub open spec fn measure(ts: Seq<ProductTerm>) -> nat
    decreases ts.len(),
{
    if ts.len() == 0 {
        0
    } else {
        measure(ts.drop_last()) + 1 + ts.last().lits().len()
    }
}

/// The literal lists of a list of terms.
pub open spec fn terms_lits(ts: Seq<ProductTerm>) -> Seq<Seq<(Seq<char>, bool)>> {
    ts.map_values(|t: ProductTerm| t.lits())
}

/// How many literal lists hold the literal `x`.
pub open spec fn lcount(ls: Seq<Seq<(Seq<char>, bool)>>, x: (Seq<char>, bool)) -> nat
    decreases ls.len(),
{
    if ls.len() == 0 {
        0
    } else {
        lcount(ls.drop_last(), x) + if ls.last().contains(x) {
            1nat
        } else {
            0nat
        }
    }
}

/// The size of a list of literal lists: one per list plus one per literal.
pub open spec fn lmeasure(ls: Seq<Seq<(Seq<char>, bool)>>) -> nat
    decreases ls.len(),
{
    if ls.len() == 0 {
        0
    } else {
        lmeasure(ls.drop_last()) + 1 + ls.last().len()
    }
}

/// A literal list without its literals on variable `name`.
pub open spec fn drop_name(l: Seq<(Seq<char>, bool)>, name: Seq<char>) -> Seq<(Seq<char>, bool)>
    decreases l.len(),
{
    if l.len() == 0 {
        l
    } else if l.last().0 == name {
        drop_name(l.drop_last(), name)
    } else {
        drop_name(l.drop_last(), name).push(l.last())
    }
}

/// The lists that hold `x`, each with its literal on `x`'s variable removed, in order.
pub open spec fn with_lit(ls: Seq<Seq<(Seq<char>, bool)>>, x: (Seq<char>, bool)) -> Seq<Seq<(Seq<char>, bool)>>
    decreases ls.len(),
{
    if ls.len() == 0 {
        ls
    } else if ls.last().contains(x) {
        with_lit(ls.drop_last(), x).push(drop_name(ls.last(), x.0))
    } else {
        with_lit(ls.drop_last(), x)
    }
}

/// The lists that do not hold `x`, in order.
pub open spec fn without_lit(ls: Seq<Seq<(Seq<char>, bool)>>, x: (Seq<char>, bool)) -> Seq<Seq<(Seq<char>, bool)>>
    decreases ls.len(),
{
    if ls.len() == 0 {
        ls
    } else if ls.last().contains(x) {
        without_lit(ls.drop_last(), x)
    } else {
        without_lit(ls.drop_last(), x).push(ls.last())
    }
}

/// `x` is at least as good a factor as `y`: shared by more lists; on a tie, on the later
/// variable name; on a tie of names too, the negative literal.
pub open spec fn beats(ls: Seq<Seq<(Seq<char>, bool)>>, x: (Seq<char>, bool), y: (Seq<char>, bool)) -> bool {
    ||| lcount(ls, y) < lcount(ls, x)
    ||| (lcount(ls, y) == lcount(ls, x) && (seq_lt(y.0, x.0) || (y.0 == x.0 && (y.1 == x.1 || !x.1))))
}

/// `x` is the literal to factor out: shared by at least two lists and at least as good as
/// every other shared literal.
pub open spec fn is_best(ls: Seq<Seq<(Seq<char>, bool)>>, x: (Seq<char>, bool)) -> bool {
    lcount(ls, x) >= 2 && forall|y: (Seq<char>, bool)| #[trigger] lcount(ls, y) >= 2 ==> beats(ls, x, y)
}

/// The literal to factor out, if any literal is shared.
pub open spec fn best_lit(ls: Seq<Seq<(Seq<char>, bool)>>) -> Option<(Seq<char>, bool)> {
    if exists|x: (Seq<char>, bool)| is_best(ls, x) {
        Some(choose|x: (Seq<char>, bool)| is_best(ls, x))
    } else {
        None
    }
}

proof fn lemma_best_unique(ls: Seq<Seq<(Seq<char>, bool)>>, x: (Seq<char>, bool), y: (Seq<char>, bool))
    requires
        is_best(ls, x),
        is_best(ls, y),
    ensures
        x == y,
{
    assert(beats(ls, x, y));
    assert(beats(ls, y, x));
    lemma_seq_lt_total(x.0, y.0);
}

pub proof fn lemma_drop_name_len(l: Seq<(Seq<char>, bool)>, x: (Seq<char>, bool))
    ensures
        drop_name(l, x.0).len() <= l.len(),
        l.contains(x) ==> drop_name(l, x.0).len() < l.len(),
    decreases l.len(),
{
    if l.len() > 0 {
        lemma_drop_name_len(l.drop_last(), x);
        if l.contains(x) && l.last() != x {
            let q = choose|q: int| 0 <= q < l.len() && l[q] == x;
            assert(l.drop_last()[q] == x);
        }
    }
}

pub proof fn lemma_split_measure(ls: Seq<Seq<(Seq<char>, bool)>>, x: (Seq<char>, bool))
    ensures
        with_lit(ls, x).len() == lcount(ls, x),
        lmeasure(with_lit(ls, x)) + lcount(ls, x) + lmeasure(without_lit(ls, x)) <= lmeasure(ls),
    decreases ls.len(),
{
    if ls.len() > 0 {
        lemma_split_measure(ls.drop_last(), x);
        lemma_drop_name_len(ls.last(), x);
        let w0 = with_lit(ls.drop_last(), x);
        let o0 = without_lit(ls.drop_last(), x);
        if ls.last().contains(x) {
            let w = w0.push(drop_name(ls.last(), x.0));
            assert(w.drop_last() =~= w0);
            assert(lmeasure(w) == lmeasure(w0) + 1 + drop_name(ls.last(), x.0).len());
        } else {
            let o = o0.push(ls.last());
            assert(o.drop_last() =~= o0);
            assert(lmeasure(o) == lmeasure(o0) + 1 + ls.last().len());
        }
    }
}

/// The tokens of the factored form of a sum of products: `false` with no term; with one, its
/// product; otherwise, with `l` the best literal, `rest | (l & factored(with l))` where `rest`
/// factors the terms without `l` and is left out when there are none; and when no literal is
/// shared, the sum of the products.
pub open spec fn factored_toks(ls: Seq<Seq<(Seq<char>, bool)>>) -> Seq<SToken>
    decreases lmeasure(ls),
{
    if ls.len() == 0 {
        seq![SToken::Const(false)]
    } else if ls.len() == 1 {
        product_toks(ls[0])
    } else {
        match best_lit(ls) {
            Some(x) => {
                proof {
                    lemma_split_measure(ls, x);
                    assert(is_best(ls, x));
                }
                let f = lit_toks(x) + factored_toks(with_lit(ls, x)) + seq![SToken::And];
                if without_lit(ls, x).len() > 0 {
                    factored_toks(without_lit(ls, x)) + f + seq![SToken::Or]
                } else {
                    f
                }
            },
            None => sum_toks(ls.map_values(|l: Seq<(Seq<char>, bool)>| product_toks(l))),
        }
    }
}

proof fn lemma_count_pos(ts: Seq<ProductTerm>, x: (Seq<char>, bool))
    requires
        lit_count(ts, x) > 0,
    ensures
        exists|k: int| 0 <= k < ts.len() && #[trigger] ts[k].lits().contains(x),
    decreases ts.len(),
{
    if !ts.last().lits().contains(x) {
        lemma_count_pos(ts.drop_last(), x);
        let k = choose|k: int| 0 <= k < ts.drop_last().len() && #[trigger] ts.drop_last()[k].lits().contains(x);
        assert(ts[k] == ts.drop_last()[k]);
    } else {
        assert(ts[ts.len() - 1] == ts.last());
    }
}

proof fn lemma_lit_lt_order(a: (Seq<char>, bool), b: (Seq<char>, bool), c: (Seq<char>, bool))
    ensures
        !lit_lt(a, a),
        a != b ==> (lit_lt(a, b) || lit_lt(b, a)),
        !(lit_lt(a, b) && lit_lt(b, a)),
        lit_lt(a, b) && lit_lt(b, c) ==> lit_lt(a, c),
{
    lemma_seq_lt_total(a.0, b.0);
    lemma_seq_lt_total(b.0, c.0);
    lemma_seq_lt_total(a.0, c.0);
    lemma_seq_lt_total(a.0, a.0);
    if seq_lt(a.0, b.0) && seq_lt(b.0, c.0) {
        lemma_seq_lt_trans(a.0, b.0, c.0);
    }
}

/// Number of terms having the literal `(var, polarity)`.
fn count_literal(terms: &Vec<ProductTerm>, var: &Symbol, polarity: bool) -> (r: usize)
    ensures
        r == lit_count(terms@, (var@, polarity)),
{
    let mut c: usize = 0;
    let mut i: usize = 0;
    while i < terms.len()
        invariant
            i <= terms@.len(),
            c == lit_count(terms@.take(i as int), (var@, polarity)),
            c <= i,
        decreases terms@.len() - i,
    {
        proof {
            assert(terms@.take(i + 1).drop_last() =~= terms@.take(i as int));
            assert(terms@.take(i + 1).last() == terms@[i as int]);
        }
        if terms[i].contains_literal(var, polarity) {
            c += 1;
        }
        i += 1;
    }
    proof {
        assert(terms@.take(terms@.len() as int) =~= terms@);
    }
    c
}

/// Whether `a` comes before `b` in literal order.
fn lit_less(a: &(Symbol, bool), b: &(Symbol, bool)) -> (r: bool)
    ensures
        r == lit_lt((a.0@, a.1), (b.0@, b.1)),
{
    a.0.less_than(&b.0) || (a.0.same_as(&b.0) && !a.1 && b.1)
}

/// The literals that at least two terms share, in literal order (none for fewer than two
/// terms).
pub fn find_common_divisors(terms: &Vec<ProductTerm>) -> (r: Vec<(Symbol, bool)>)
    ensures
        forall|a: int, b: int| 0 <= a < b < r@.len() ==> lit_lt(lits_view(r@)[a], lits_view(r@)[b]),
        terms@.len() < 2 ==> r@.len() == 0,
        terms@.len() >= 2 ==> forall|x: (Seq<char>, bool)|
            lits_view(r@).contains(x) <==> lit_count(terms@, x) >= 2,
{
    let mut out: Vec<(Symbol, bool)> = Vec::new();
    if terms.len() < 2 {
        return out;
    }
    let ghost ts = terms@;
    let mut k: usize = 0;
    while k < terms.len()
        invariant
            ts == terms@,
            k <= ts.len(),
            forall|a: int, b: int| 0 <= a < b < lits_view(out@).len() ==> lit_lt(lits_view(out@)[a], lits_view(out@)[b]),
            forall|x: (Seq<char>, bool)| lits_view(out@).contains(x) ==> lit_count(ts, x) >= 2,
            forall|x: (Seq<char>, bool), q: int|
                0 <= q < k && #[trigger] ts[q].lits().contains(x) && lit_count(ts, x) >= 2 ==> lits_view(out@).contains(x),
        decreases ts.len() - k,
    {
        let term = &terms[k];
        let m = term.literals.len();
        let mut j: usize = 0;
        while j < m
            invariant
                ts == terms@,
                k < ts.len(),
                *term == ts[k as int],
                m == term.lits().len(),
                j <= m,
                forall|a: int, b: int| 0 <= a < b < lits_view(out@).len() ==> lit_lt(lits_view(out@)[a], lits_view(out@)[b]),
                forall|x: (Seq<char>, bool)| lits_view(out@).contains(x) ==> lit_count(ts, x) >= 2,
                forall|x: (Seq<char>, bool), q: int|
                    0 <= q < k && #[trigger] ts[q].lits().contains(x) && lit_count(ts, x) >= 2 ==> lits_view(out@).contains(x),
                forall|t: int| 0 <= t < j && lit_count(ts, #[trigger] term.lits()[t]) >= 2 ==> lits_view(out@).contains(term.lits()[t]),
            decreases m - j,
        {
            let lit = &term.literals[j];
            let ghost x = (lit.0@, lit.1);
            proof {
                assert(term.lits()[j as int] == x);
            }
            let c = count_literal(terms, &lit.0, lit.1);
            if c >= 2 {
                let len = out.len();
                let mut p: usize = 0;
                let mut present = false;
                while p < len && !present && lit_less(&out[p], lit)
                    invariant
                        len == out@.len(),
                        p <= len,
                        !present,
                        x == (lit.0@, lit.1),
                        forall|q: int| 0 <= q < p ==> lit_lt(lits_view(out@)[q], x),
                    decreases len - p,
                {
                    proof {
                        assert(lits_view(out@)[p as int] == (out@[p as int].0@, out@[p as int].1));
                    }
                    p += 1;
                }
                let ghost ov = lits_view(out@);
                if p < len && out[p].0.same_as(&lit.0) && out[p].1 == lit.1 {
                    present = true;
                    proof {
                        assert(ov[p as int] == x);
                        assert(ov.contains(x));
                    }
                } else {
                    proof {
                        if p < len {
                            assert(ov[p as int] == (out@[p as int].0@, out@[p as int].1));
                            assert(!lit_lt(ov[p as int], x));
                            lemma_lit_lt_order(ov[p as int], x, x);
                            assert(lit_lt(x, ov[p as int]));
                        }
                        assert forall|q: int| 0 <= q < ov.len() implies ov[q] != x by {
                            if q < p {
                                lemma_lit_lt_order(ov[q], x, x);
                            } else if q > p {
                                lemma_lit_lt_order(x, ov[p as int], ov[q]);
                                lemma_lit_lt_order(ov[q], x, x);
                                assert(lit_lt(ov[p as int], ov[q]));
                            }
                        }
                    }
                    out.insert(p, (lit.0.copy(), lit.1));
                    proof {
                        let nv = lits_view(out@);
                        assert(nv =~= ov.insert(p as int, x));
                        assert forall|a: int, b: int| 0 <= a < b < nv.len() implies lit_lt(nv[a], nv[b]) by {
                            if b < p {
                            } else if b == p {
                            } else if a < p {
                                if p < len {
                                    lemma_lit_lt_order(nv[a], x, ov[p as int]);
                                    if b - 1 > p {
                                        lemma_lit_lt_order(nv[a], ov[p as int], ov[b - 1]);
                                    }
                                }
                            } else if a == p {
                                if b - 1 > p {
                                    lemma_lit_lt_order(x, ov[p as int], ov[b - 1]);
                                }
                            }
                        }
                        assert forall|y: (Seq<char>, bool)| nv.contains(y) implies lit_count(ts, y) >= 2 by {
                            let q = choose|q: int| 0 <= q < nv.len() && nv[q] == y;
                            if q < p {
                                assert(ov[q] == y);
                                assert(ov.contains(y));
                            } else if q > p {
                                assert(ov[q - 1] == y);
                                assert(ov.contains(y));
                            }
                        }
                        assert(nv[p as int] == x);
                        assert forall|y: (Seq<char>, bool)| ov.contains(y) implies nv.contains(y) by {
                            let q = choose|q: int| 0 <= q < ov.len() && ov[q] == y;
                            if q < p {
                                assert(nv[q] == y);
                            } else {
                                assert(nv[q + 1] == y);
                            }
                        }
                    }
                }
            }
            proof {
                assert(lits_view(out@).contains(x) || lit_count(ts, x) < 2);
            }
            j += 1;
        }
        proof {
            assert forall|x: (Seq<char>, bool), q: int|
                0 <= q < k + 1 && #[trigger] ts[q].lits().contains(x) && lit_count(ts, x) >= 2 implies lits_view(out@).contains(x) by {
                if q == k {
                    let t = choose|t: int| 0 <= t < term.lits().len() && term.lits()[t] == x;
                }
            }
        }
        k += 1;
    }
    proof {
        assert forall|x: (Seq<char>, bool)| lit_count(ts, x) >= 2 implies lits_view(out@).contains(x) by {
            lemma_count_pos(ts, x);
            let q = choose|q: int| 0 <= q < ts.len() && #[trigger] ts[q].lits().contains(x);
        }
    }
    out
}


/// The literal to factor out: among the literals at least two terms share, one shared by the
/// most terms, ties going to the later variable name; `None` when no literal is shared.
pub fn find_best_factor(terms: &Vec<ProductTerm>) -> (r: Option<(Symbol, bool)>)
    ensures
        r is None <==> (terms@.len() < 2 || forall|y: (Seq<char>, bool)| lit_count(terms@, y) < 2),
        r matches Some(x) ==> terms@.len() >= 2 && lit_count(terms@, (x.0@, x.1)) >= 2 && forall|
            y: (Seq<char>, bool),
        |
            #[trigger] lit_count(terms@, y) >= 2 ==> lit_count(terms@, y) < lit_count(
                terms@,
                (x.0@, x.1),
            ) || (lit_count(terms@, y) == lit_count(terms@, (x.0@, x.1)) && !seq_lt(x.0@, y.0)),
        match r {
            Some(x) => best_lit(terms_lits(terms@)) == Some((x.0@, x.1)),
            None => best_lit(terms_lits(terms@)) is None,
        },
{
    let common = find_common_divisors(terms);
    let ghost cv = lits_view(common@);
    if common.len() == 0 {
        proof {
            assert forall|x: (Seq<char>, bool)| !is_best(terms_lits(terms@), x) by {
                lemma_counts(terms@, x);
                if lcount(terms_lits(terms@), x) >= 2 {
                    assert(cv.contains(x) || terms@.len() < 2);
                    if terms@.len() < 2 {
                        lemma_count_le(terms@, x);
                    }
                }
            }
            if terms@.len() >= 2 {
                assert forall|y: (Seq<char>, bool)| lit_count(terms@, y) < 2 by {
                    if lit_count(terms@, y) >= 2 {
                        assert(cv.contains(y));
                    }
                }
            }
        }
        return None;
    }
    let mut best: Option<(Symbol, bool)> = None;
    let mut best_score: usize = 0;
    let mut best_name = Symbol::new("");
    let mut i: usize = 0;
    while i < common.len()
        invariant
            cv == lits_view(common@),
            terms@.len() >= 2,
            forall|x: (Seq<char>, bool)| cv.contains(x) <==> lit_count(terms@, x) >= 2,
            i <= cv.len(),
            i == 0 <==> best is None,
            best matches Some(b) ==> (cv.contains((b.0@, b.1)) && best_score == lit_count(terms@, (b.0@, b.1))
                && best_name@ == b.0@),
            best is None ==> best_score == 0,
            forall|q: int|
                0 <= q < i ==> lit_count(terms@, #[trigger] cv[q]) < best_score || (lit_count(terms@, cv[q])
                    == best_score && !seq_lt(best_name@, cv[q].0)),
            forall|a: int, b: int| 0 <= a < b < cv.len() ==> lit_lt(cv[a], cv[b]),
            best matches Some(b) ==> exists|q: int| 0 <= q < i && cv[q] == (b.0@, b.1),
            best matches Some(b) ==> forall|q: int|
                0 <= q < i && lit_count(terms@, #[trigger] cv[q]) == best_score && cv[q].0 == best_name@ ==> (
                cv[q] == (b.0@, b.1) || !b.1),
        decreases cv.len() - i,
    {
        let cand = &common[i];
        let ghost y = (cand.0@, cand.1);
        proof {
            assert(cv[i as int] == y);
            assert(cv.contains(y));
        }
        let score = count_literal(terms, &cand.0, cand.1);
        if score > best_score || (score == best_score && best_name.less_than(&cand.0)) {
            proof {
                assert forall|q: int|
                    0 <= q < i + 1 implies lit_count(terms@, #[trigger] cv[q]) < score || (lit_count(terms@, cv[q])
                    == score && !seq_lt(y.0, cv[q].0)) by {
                    if q < i {
                        lemma_seq_lt_total(y.0, cv[q].0);
                        lemma_seq_lt_total(best_name@, cv[q].0);
                        if lit_count(terms@, cv[q]) == score && seq_lt(y.0, cv[q].0) {
                            assert(score == best_score);
                            assert(seq_lt(best_name@, y.0));
                            lemma_seq_lt_trans(best_name@, y.0, cv[q].0);
                        }
                    } else {
                        lemma_seq_lt_total(y.0, y.0);
                    }
                }
            }
            proof {
                assert forall|q: int| 0 <= q < i implies !(lit_count(terms@, #[trigger] cv[q]) == score
                    && cv[q].0 == y.0) by {
                    if lit_count(terms@, cv[q]) == score && cv[q].0 == y.0 {
                        lemma_seq_lt_total(best_name@, y.0);
                    }
                }
            }
            best_score = score;
            best = Some((cand.0.copy(), cand.1));
            best_name = cand.0.copy();
        } else {
            proof {
                match &best {
                    Some(b) => {
                        if score == best_score && y.0 == best_name@ {
                            let q = choose|q: int| 0 <= q < i && cv[q] == (b.0@, b.1);
                            assert(lit_lt(cv[q], cv[i as int]));
                            lemma_seq_lt_total(y.0, y.0);
                        }
                    },
                    None => {},
                }
            }
        }
        i += 1;
    }
    proof {
        match &best {
            Some(b) => {
                let bx = (b.0@, b.1);
                assert forall|y: (Seq<char>, bool)|
                    #[trigger] lit_count(terms@, y) >= 2 implies lit_count(terms@, y) < lit_count(terms@, bx)
                    || (lit_count(terms@, y) == lit_count(terms@, bx) && !seq_lt(bx.0, y.0)) by {
                    assert(cv.contains(y));
                    let q = choose|q: int| 0 <= q < cv.len() && cv[q] == y;
                    assert(lit_count(terms@, cv[q]) < best_score || (lit_count(terms@, cv[q]) == best_score
                        && !seq_lt(best_name@, cv[q].0)));
                }
                assert(cv.contains(bx));
                let ls = terms_lits(terms@);
                lemma_counts(terms@, bx);
                assert forall|y: (Seq<char>, bool)| #[trigger] lcount(ls, y) >= 2 implies beats(ls, bx, y) by {
                    lemma_counts(terms@, y);
                    assert(cv.contains(y));
                    let q = choose|q: int| 0 <= q < cv.len() && cv[q] == y;
                    lemma_seq_lt_total(y.0, bx.0);
                }
                assert(is_best(ls, bx));
                assert forall|z: (Seq<char>, bool)| is_best(ls, z) implies z == bx by {
                    lemma_best_unique(ls, z, bx);
                }
            },
            None => {},
        }
    }
    best
}

proof fn lemma_remove_holds(t: Seq<(Seq<char>, bool)>, q: int, env: spec_fn(Seq<char>) -> bool)
    requires
        0 <= q < t.len(),
    ensures
        lits_hold(env, t) == (env(t[q].0) == t[q].1 && lits_hold(env, t.remove(q))),
{
    let r = t.remove(q);
    if lits_hold(env, t) {
        assert(env(t[q].0) == t[q].1);
        assert forall|k: int| 0 <= k < r.len() implies env(#[trigger] r[k].0) == r[k].1 by {
            if k < q {
                assert(r[k] == t[k]);
            } else {
                assert(r[k] == t[k + 1]);
            }
        }
    }
    if env(t[q].0) == t[q].1 && lits_hold(env, r) {
        assert forall|k: int| 0 <= k < t.len() implies env(#[trigger] t[k].0) == t[k].1 by {
            if k < q {
                assert(r[k] == t[k]);
            } else if k > q {
                assert(r[k - 1] == t[k]);
            }
        }
    }
}

/// All terms are well formed.
pub open spec fn all_wf(ts: Seq<ProductTerm>) -> bool {
    forall|k: int| 0 <= k < ts.len() ==> (#[trigger] ts[k]).wf()
}

proof fn lemma_sop_push(ts: Seq<ProductTerm>, t: ProductTerm, env: spec_fn(Seq<char>) -> bool)
    ensures
        sop_holds(env, ts.push(t)) == (sop_holds(env, ts) || lits_hold(env, t.lits())),
{
    let e = ts.push(t);
    if sop_holds(env, e) {
        let k = choose|k: int| 0 <= k < e.len() && lits_hold(env, #[trigger] e[k].lits());
        if k < ts.len() {
            assert(e[k] == ts[k]);
        }
    }
    if sop_holds(env, ts) {
        let k = choose|k: int| 0 <= k < ts.len() && lits_hold(env, #[trigger] ts[k].lits());
        assert(e[k] == ts[k]);
    }
    if lits_hold(env, t.lits()) {
        assert(e[ts.len() as int] == t);
    }
}

/// Split terms on a literal: those with it (the literal removed) and those without it.
pub fn factor_literal(terms: Vec<ProductTerm>, var: &Symbol, polarity: bool) -> (r: (
    Vec<ProductTerm>,
    Vec<ProductTerm>,
))
    requires
        all_wf(terms@),
    ensures
        all_wf(r.0@),
        all_wf(r.1@),
        r.0@.len() == lit_count(terms@, (var@, polarity)),
        terms_lits(r.0@) == with_lit(terms_lits(terms@), (var@, polarity)),
        terms_lits(r.1@) == without_lit(terms_lits(terms@), (var@, polarity)),
        measure(r.0@) + r.0@.len() + measure(r.1@) == measure(terms@),
        forall|k: int| 0 <= k < r.1@.len() ==> !(#[trigger] r.1@[k]).lits().contains((var@, polarity)),
        forall|env: spec_fn(Seq<char>) -> bool| #[trigger] sop_holds(env, terms@) == ((env(var@) == polarity
            && sop_holds(env, r.0@)) || sop_holds(env, r.1@)),
{
    let ghost src = terms@;
    let mut with_literal: Vec<ProductTerm> = Vec::new();
    let mut without_literal: Vec<ProductTerm> = Vec::new();
    for term in it: terms.into_iter()
        invariant
            it.seq() == src,
            all_wf(src),
            all_wf(with_literal@),
            all_wf(without_literal@),
            with_literal@.len() == lit_count(src.take(it.index() as int), (var@, polarity)),
            terms_lits(with_literal@) == with_lit(terms_lits(src.take(it.index() as int)), (var@, polarity)),
            terms_lits(without_literal@) == without_lit(terms_lits(src.take(it.index() as int)), (var@, polarity)),
            measure(with_literal@) + with_literal@.len() + measure(without_literal@) == measure(
                src.take(it.index() as int),
            ),
            forall|k: int| 0 <= k < without_literal@.len() ==> !(#[trigger] without_literal@[k]).lits().contains((var@, polarity)),
            forall|env: spec_fn(Seq<char>) -> bool| #[trigger] sop_holds(env, src.take(it.index() as int)) == ((env(var@)
                == polarity && sop_holds(env, with_literal@)) || sop_holds(env, without_literal@)),
    {
        let ghost i = it.index() as int;
        let ghost pre = src.take(i);
        proof {
            assert(src.take(i + 1) =~= pre.push(term));
            assert(src.take(i + 1).drop_last() =~= pre);
            assert(src[i] == term);
            assert(term.wf());
            assert(terms_lits(src.take(i + 1)).drop_last() =~= terms_lits(pre));
            assert(terms_lits(src.take(i + 1)).last() == term.lits());
        }
        let mut t = term;
        let ghost tl = t.lits();
        if t.contains_literal(var, polarity) {
            let removed = t.remove_literal(var);
            proof {
                let q = choose|q: int| 0 <= q < tl.len() && tl[q].0 == var@ && t.lits() == tl.remove(q);
                assert(tl.contains((var@, polarity)));
                let w = choose|w: int| 0 <= w < tl.len() && tl[w] == (var@, polarity);
                if w != q {
                    if w < q {
                        assert(seq_lt(tl[w].0, tl[q].0));
                    } else {
                        assert(seq_lt(tl[q].0, tl[w].0));
                    }
                    lemma_seq_lt_total(var@, var@);
                }
                assert(tl[q] == (var@, polarity));
                assert forall|env: spec_fn(Seq<char>) -> bool| #[trigger] lits_hold(env, tl) == (env(var@) == polarity
                    && lits_hold(env, t.lits())) by {
                    lemma_remove_holds(tl, q, env);
                }
            }
            let ghost before = with_literal@;
            proof {
                if removed is None {
                    assert(tl.contains((var@, polarity)));
                    let w = choose|w: int| 0 <= w < tl.len() && tl[w] == (var@, polarity);
                    assert(tl[w].0 == var@);
                }
                assert(t.lits() == drop_name(tl, var@));
            }
            with_literal.push(t);
            proof {
                assert(with_literal@.drop_last() =~= before);
                assert(terms_lits(with_literal@) =~= terms_lits(before).push(t.lits()));
                assert forall|k: int| 0 <= k < with_literal@.len() implies (#[trigger] with_literal@[k]).wf() by {
                    if k < before.len() {
                        assert(with_literal@[k] == before[k]);
                    }
                }
                assert forall|env: spec_fn(Seq<char>) -> bool| #[trigger] sop_holds(env, src.take(i + 1)) == ((env(var@)
                    == polarity && sop_holds(env, with_literal@)) || sop_holds(env, without_literal@)) by {
                    lemma_sop_push(pre, term, env);
                    lemma_sop_push(before, t, env);
                    assert(sop_holds(env, pre) == ((env(var@) == polarity && sop_holds(env, before)) || sop_holds(env, without_literal@)));
                }
            }
        } else {
            let ghost before = without_literal@;
            without_literal.push(t);
            proof {
                assert(without_literal@.drop_last() =~= before);
                assert(terms_lits(without_literal@) =~= terms_lits(before).push(t.lits()));
                assert forall|k: int| 0 <= k < without_literal@.len() implies (#[trigger] without_literal@[k]).wf() by {
                    if k < before.len() {
                        assert(without_literal@[k] == before[k]);
                    }
                }
                assert forall|k: int| 0 <= k < without_literal@.len() implies !(#[trigger] without_literal@[k]).lits().contains((var@, polarity)) by {
                    if k < before.len() {
                        assert(without_literal@[k] == before[k]);
                    }
                }
                assert forall|env: spec_fn(Seq<char>) -> bool| #[trigger] sop_holds(env, src.take(i + 1)) == ((env(var@)
                    == polarity && sop_holds(env, with_literal@)) || sop_holds(env, without_literal@)) by {
                    lemma_sop_push(pre, term, env);
                    lemma_sop_push(before, term, env);
                    assert(sop_holds(env, pre) == ((env(var@) == polarity && sop_holds(env, with_literal@)) || sop_holds(env, before)));
                }
            }
        }
    }
    proof {
        assert(src.take(src.len() as int) =~= src);
    }
    (with_literal, without_literal)
}

/// Factorise a sum of product terms: with no term, `false`; with one, its product; otherwise
/// pull out the best shared literal `l` as `rest + l * (factored)`, where `rest` factorises the
/// terms without `l` (left out when there are none), or, when no literal is shared, OR the
/// products together.
pub fn factorise_once(terms: Vec<ProductTerm>) -> (r: BoolExpr)
    requires
        all_wf(terms@),
    ensures
        r@ == factored_toks(terms_lits(terms@)),
        forall|env: spec_fn(Seq<char>) -> bool| #[trigger] eval(r@, env) == sop_holds(env, terms@),
    decreases measure(terms@),
{
    if terms.len() == 0 {
        let r = BoolExpr::constant(false);
        proof {
            assert forall|env: spec_fn(Seq<char>) -> bool| #[trigger] eval(r@, env) == sop_holds(env, terms@) by {
                assert(!eval(r@, env));
            }
        }
        return r;
    }
    if terms.len() == 1 {
        let r = terms[0].to_expr();
        proof {
            assert(terms_lits(terms@)[0] == terms@[0].lits());
        }
        proof {
            assert forall|env: spec_fn(Seq<char>) -> bool| #[trigger] eval(r@, env) == sop_holds(env, terms@) by {
                if eval(r@, env) {
                    assert(lits_hold(env, terms@[0].lits()));
                }
            }
        }
        return r;
    }
    match find_best_factor(&terms) {
        Some(best) => {
            let (var, polarity) = best;
            let ghost src = terms@;
            let ghost ls = terms_lits(src);
            let ghost x = (var@, polarity);
            let (with_literal, without_literal) = factor_literal(terms, &var, polarity);
            let var_expr = literal(&var, polarity);
            let has_without = without_literal.len() > 0;
            let inner = factorise_once(with_literal);
            let factored = var_expr.and(&inner);
            proof {
                assert(best_lit(ls) == Some(x));
                assert(factored@ == lit_toks(x) + factored_toks(with_lit(ls, x)) + seq![SToken::And]);
                assert(has_without == (without_lit(ls, x).len() > 0));
            }
            if has_without {
                let remaining = factorise_once(without_literal);
                let r = remaining.or(&factored);
                proof {
                    assert(r@ == factored_toks(ls));
                }
                r
            } else {
                proof {
                    assert forall|env: spec_fn(Seq<char>) -> bool| !#[trigger] sop_holds(env, without_literal@) by {}
                    assert(factored@ == factored_toks(ls));
                }
                factored
            }
        },
        None => SopForm::new(terms).to_expr(),
    }
}

/// The literals of a list in name order: the name-sorted list holding the same literals.
pub open spec fn sorted_lits(l: Seq<(Seq<char>, bool)>) -> Seq<(Seq<char>, bool)> {
    choose|t: Seq<(Seq<char>, bool)>| names_sorted(t) && forall|x: (Seq<char>, bool)| t.contains(x) <==> l.contains(x)
}

/// The literal lists of the cubes whose flag is set, in order.
pub open spec fn flagged(cs: Seq<(Vec<(Symbol, bool)>, bool)>) -> Seq<Seq<(Seq<char>, bool)>>
    decreases cs.len(),
{
    if cs.len() == 0 {
        Seq::empty()
    } else if cs.last().1 {
        flagged(cs.drop_last()).push(lits_view(cs.last().0@))
    } else {
        flagged(cs.drop_last())
    }
}

/// Two name-sorted lists holding the same literals are the same list.
proof fn lemma_sorted_unique(a: Seq<(Seq<char>, bool)>, b: Seq<(Seq<char>, bool)>)
    requires
        names_sorted(a),
        names_sorted(b),
        forall|x: (Seq<char>, bool)| a.contains(x) <==> b.contains(x),
    ensures
        a == b,
    decreases a.len(),
{
    if a.len() == 0 {
        if b.len() > 0 {
            assert(b.contains(b[0]));
        }
        assert(a =~= b);
    } else {
        assert(a.contains(a.last()));
        assert(b.len() > 0);
        assert(b.contains(b.last()));
        let i = choose|i: int| 0 <= i < b.len() && b[i] == a.last();
        let j = choose|j: int| 0 <= j < a.len() && a[j] == b.last();
        if i < b.len() - 1 {
            assert(seq_lt(b[i].0, b[b.len() - 1].0));
            if j < a.len() - 1 {
                assert(seq_lt(a[j].0, a[a.len() - 1].0));
            }
            lemma_seq_lt_total(a.last().0, b.last().0);
        }
        assert(a.last() == b.last());
        let a0 = a.drop_last();
        let b0 = b.drop_last();
        assert forall|x: (Seq<char>, bool)| a0.contains(x) <==> b0.contains(x) by {
            if a0.contains(x) {
                let q = choose|q: int| 0 <= q < a0.len() && a0[q] == x;
                assert(seq_lt(a[q].0, a[a.len() - 1].0));
                lemma_seq_lt_total(x.0, x.0);
                assert(a.contains(x));
                let w = choose|w: int| 0 <= w < b.len() && b[w] == x;
                if w == b.len() - 1 {
                    assert(x == a.last());
                }
                assert(b0[w] == x);
            }
            if b0.contains(x) {
                let q = choose|q: int| 0 <= q < b0.len() && b0[q] == x;
                assert(seq_lt(b[q].0, b[b.len() - 1].0));
                lemma_seq_lt_total(x.0, x.0);
                assert(b.contains(x));
                let w = choose|w: int| 0 <= w < a.len() && a[w] == x;
                if w == a.len() - 1 {
                    assert(x == b.last());
                }
                assert(a0[w] == x);
            }
        }
        lemma_sorted_unique(a0, b0);
        assert(a =~= a0.push(a.last()));
        assert(b =~= b0.push(b.last()));
    }
}

/// Factorise the cubes of a cover whose flag is set into an expression.
pub fn factorise_cubes(cubes: Vec<(Vec<(Symbol, bool)>, bool)>) -> (r: BoolExpr)
    requires
        forall|k: int| 0 <= k < cubes@.len() ==> distinct_lits(lits_view(#[trigger] cubes@[k].0@)),
    ensures
        r@ == factored_toks(flagged(cubes@).map_values(|l: Seq<(Seq<char>, bool)>| sorted_lits(l))),
        forall|env: spec_fn(Seq<char>) -> bool| #[trigger] eval(r@, env) == exists|k: int|
            0 <= k < cubes@.len() && cubes@[k].1 && lits_hold(env, lits_view(#[trigger] cubes@[k].0@)),
{
    let ghost src = cubes@;
    let mut terms: Vec<ProductTerm> = Vec::new();
    let ghost mut owner: Seq<int> = Seq::empty();
    for cube in it: cubes.into_iter()
        invariant
            it.seq() == src,
            forall|k: int| 0 <= k < src.len() ==> distinct_lits(lits_view(#[trigger] src[k].0@)),
            all_wf(terms@),
            terms@.len() == owner.len(),
            forall|q: int| 0 <= q < owner.len() ==> 0 <= #[trigger] owner[q] < it.index() && src[owner[q]].1,
            forall|q: int, env: spec_fn(Seq<char>) -> bool|
                0 <= q < owner.len() ==> #[trigger] lits_hold(env, terms@[q].lits()) == lits_hold(env, lits_view(src[owner[q]].0@)),
            forall|k: int| 0 <= k < it.index() && #[trigger] src[k].1 ==> owner.contains(k),
            terms_lits(terms@) == flagged(src.take(it.index() as int)).map_values(
                |l: Seq<(Seq<char>, bool)>| sorted_lits(l),
            ),
    {
        let ghost i = it.index() as int;
        let ghost old_owner = owner;
        let (lits, keep) = cube;
        proof {
            assert(src[i] == cube);
            assert(src.take(i + 1).drop_last() =~= src.take(i));
            assert(src.take(i + 1).last() == cube);
        }
        if keep {
            let ghost lv = lits_view(lits@);
            let t = ProductTerm::new(lits);
            proof {
                assert(forall|x: (Seq<char>, bool)| t.lits().contains(x) <==> lv.contains(x));
                assert forall|env: spec_fn(Seq<char>) -> bool| #[trigger] lits_hold(env, t.lits()) == lits_hold(env, lv) by {
                    if lits_hold(env, t.lits()) {
                        assert forall|k: int| 0 <= k < lv.len() implies env(#[trigger] lv[k].0) == lv[k].1 by {
                            assert(lv.contains(lv[k]));
                            let q = choose|q: int| 0 <= q < t.lits().len() && t.lits()[q] == lv[k];
                            assert(env(t.lits()[q].0) == t.lits()[q].1);
                        }
                    }
                    if lits_hold(env, lv) {
                        assert forall|k: int| 0 <= k < t.lits().len() implies env(#[trigger] t.lits()[k].0) == t.lits()[k].1 by {
                            assert(t.lits().contains(t.lits()[k]));
                            let q = choose|q: int| 0 <= q < lv.len() && lv[q] == t.lits()[k];
                            assert(env(lv[q].0) == lv[q].1);
                        }
                    }
                }
            }
            let ghost before = terms@;
            proof {
                let tl = t.lits();
                let sl = sorted_lits(lv);
                assert(names_sorted(sl) && forall|x: (Seq<char>, bool)| sl.contains(x) <==> lv.contains(x));
                lemma_sorted_unique(tl, sl);
            }
            terms.push(t);
            proof {
                assert(terms_lits(terms@) =~= terms_lits(before).push(t.lits()));
                assert(flagged(src.take(i + 1)) == flagged(src.take(i)).push(lv));
                assert(flagged(src.take(i + 1)).map_values(|l: Seq<(Seq<char>, bool)>| sorted_lits(l))
                    =~= flagged(src.take(i)).map_values(|l: Seq<(Seq<char>, bool)>| sorted_lits(l)).push(
                    sorted_lits(lv),
                ));
                owner = owner.push(i);
                assert forall|k: int| 0 <= k < terms@.len() implies (#[trigger] terms@[k]).wf() by {
                    if k < before.len() {
                        assert(terms@[k] == before[k]);
                    }
                }
            }
        }
        proof {
            assert forall|k: int| 0 <= k < i + 1 && #[trigger] src[k].1 implies owner.contains(k) by {
                if k == i {
                    assert(owner[owner.len() - 1] == k);
                } else {
                    assert(old_owner.contains(k));
                    let q = choose|q: int| 0 <= q < old_owner.len() && old_owner[q] == k;
                    assert(owner[q] == k);
                }
            }
        }
    }
    proof {
        assert(src.take(src.len() as int) =~= src);
    }
    let r = factorise_once(terms);
    proof {
        assert forall|env: spec_fn(Seq<char>) -> bool| #[trigger] eval(r@, env) == exists|k: int|
            0 <= k < src.len() && src[k].1 && lits_hold(env, lits_view(#[trigger] src[k].0@)) by {
            if sop_holds(env, terms@) {
                let q = choose|q: int| 0 <= q < terms@.len() && lits_hold(env, #[trigger] terms@[q].lits());
                let k = owner[q];
                assert(src[k].1 && lits_hold(env, lits_view(src[k].0@)));
            }
            if exists|k: int| 0 <= k < src.len() && src[k].1 && lits_hold(env, lits_view(#[trigger] src[k].0@)) {
                let k = choose|k: int| 0 <= k < src.len() && src[k].1 && lits_hold(env, lits_view(#[trigger] src[k].0@));
                assert(owner.contains(k));
                let q = choose|q: int| 0 <= q < owner.len() && owner[q] == k;
                assert(lits_hold(env, terms@[q].lits()));
            }
        }
    }
    r
}

} // verus!
