//! [`ExprCover`]: an expression as a single-output cover of cubes, and back.
//!
//! An expression is first put in disjunctive normal form: a list of product terms, each a list
//! of literals with distinct variable names. The terms are then laid out as cubes over the
//! dictionary-ordered variables the expression depends on.
use super::bdd::support_name;
use super::boolexpr::{first_occurrences, names_of, strictly_sorted, BoolExpr};
use super::manager::{lemma_eval_names_support, represents, BddNode};
use super::rpn::{
    bool_alg, eval, lemma_full, lemma_prefix, run, step, toks_view, value, wf_program, Alg, SToken, Token,
};
use super::sop::{lits_hold, lits_view, product, some_holds, sum};
use super::syntax::Syntax;
use crate::cover::cube::{Cube, CubeType, PLAType};
use crate::symbol::Symbol;
use vstd::prelude::*;

verus! {

/// A product term's literals name distinct variables.
pub open spec fn distinct_lits(t: Seq<(Seq<char>, bool)>) -> bool {
    forall|i: int, j: int| 0 <= i < j < t.len() ==> t[i].0 != t[j].0
}

/// The literal lists of a list of product terms.
pub open spec fn dnf_view(d: Seq<Vec<(Symbol, bool)>>) -> Seq<Seq<(Seq<char>, bool)>> {
    d.map_values(|t: Vec<(Symbol, bool)>| lits_view(t@))
}

/// Some product term holds.
pub open spec fn dnf_holds(env: spec_fn(Seq<char>) -> bool, d: Seq<Seq<(Seq<char>, bool)>>) -> bool {
    exists|k: int| 0 <= k < d.len() && lits_hold(env, #[trigger] d[k])
}

/// Every product term names distinct variables.
pub open spec fn dnf_ok(d: Seq<Seq<(Seq<char>, bool)>>) -> bool {
    forall|k: int| 0 <= k < d.len() ==> distinct_lits(#[trigger] d[k])
}

/// The polarity of the first literal on `name`, if any.
pub open spec fn first_lit(t: Seq<(Seq<char>, bool)>, name: Seq<char>) -> Option<bool>
    decreases t.len(),
{
    if t.len() == 0 {
        None
    } else if t[0].0 == name {
        Some(t[0].1)
    } else {
        first_lit(t.drop_first(), name)
    }
}

proof fn lemma_first_lit(t: Seq<(Seq<char>, bool)>, name: Seq<char>)
    ensures
        first_lit(t, name) matches Some(b) ==> exists|i: int|
            0 <= i < t.len() && #[trigger] t[i] == (name, b),
        first_lit(t, name) is None ==> forall|i: int| 0 <= i < t.len() ==> #[trigger] t[i].0 != name,
    decreases t.len(),
{
    if t.len() > 0 && t[0].0 != name {
        lemma_first_lit(t.drop_first(), name);
        if first_lit(t, name) is Some {
            let i = choose|i: int|
                0 <= i < t.drop_first().len() && #[trigger] t.drop_first()[i] == (
                    name,
                    first_lit(t, name)->0,
                );
            assert(t[i + 1] == t.drop_first()[i]);
        } else {
            assert forall|i: int| 0 <= i < t.len() implies #[trigger] t[i].0 != name by {
                if i > 0 {
                    assert(t[i] == t.drop_first()[i - 1]);
                }
            }
        }
    } else if t.len() > 0 {
        assert(t[0] == (name, t[0].1));
    }
}

/// ANDing a product term with the literals of another, taken in order: a literal on a name the
/// term already has must agree with it (or the product is contradictory, `None`); a literal on a
/// new name is appended.
pub open spec fn merge_terms(l: Seq<(Seq<char>, bool)>, r: Seq<(Seq<char>, bool)>) -> Option<
    Seq<(Seq<char>, bool)>,
>
    decreases r.len(),
{
    if r.len() == 0 {
        Some(l)
    } else {
        match merge_terms(l, r.drop_last()) {
            None => None,
            Some(acc) => match first_lit(acc, r.last().0) {
                Some(p) => if p == r.last().1 {
                    Some(acc)
                } else {
                    None
                },
                None => Some(acc.push(r.last())),
            },
        }
    }
}

/// The merges of `t` with each term of `b` that does not contradict it, in the order of `b`.
pub open spec fn merge_row(t: Seq<(Seq<char>, bool)>, b: Seq<Seq<(Seq<char>, bool)>>) -> Seq<
    Seq<(Seq<char>, bool)>,
>
    decreases b.len(),
{
    if b.len() == 0 {
        Seq::empty()
    } else {
        merge_row(t, b.drop_last()) + match merge_terms(t, b.last()) {
            Some(m) => seq![m],
            None => Seq::empty(),
        }
    }
}

/// The AND of two sums of products: the rows of merges of each term of `a` with the terms of
/// `b`, one row after the other.
pub open spec fn cross_terms(a: Seq<Seq<(Seq<char>, bool)>>, b: Seq<Seq<(Seq<char>, bool)>>) -> Seq<
    Seq<(Seq<char>, bool)>,
>
    decreases a.len(),
{
    if a.len() == 0 {
        Seq::empty()
    } else {
        cross_terms(a.drop_last(), b) + merge_row(a.last(), b)
    }
}

/// The normal forms of an expression and of its negation, computed operator by operator: a
/// variable is one single-literal term (its negation the opposite literal), `true` one empty
/// term and `false` none, NOT swaps the pair, AND crosses the positive parts and concatenates
/// the negative ones, OR the reverse, and XOR combines both.
pub open spec fn dnf_alg() -> Alg<(Seq<Seq<(Seq<char>, bool)>>, Seq<Seq<(Seq<char>, bool)>>)> {
    Alg {
        var: |s: Seq<char>| (seq![seq![(s, true)]], seq![seq![(s, false)]]),
        cst: |b: bool| (const_terms(b), const_terms(!b)),
        not: |p: (Seq<Seq<(Seq<char>, bool)>>, Seq<Seq<(Seq<char>, bool)>>)| (p.1, p.0),
        and: |
            p: (Seq<Seq<(Seq<char>, bool)>>, Seq<Seq<(Seq<char>, bool)>>),
            q: (Seq<Seq<(Seq<char>, bool)>>, Seq<Seq<(Seq<char>, bool)>>),
        | (cross_terms(p.0, q.0), p.1 + q.1),
        or: |
            p: (Seq<Seq<(Seq<char>, bool)>>, Seq<Seq<(Seq<char>, bool)>>),
            q: (Seq<Seq<(Seq<char>, bool)>>, Seq<Seq<(Seq<char>, bool)>>),
        | (p.0 + q.0, cross_terms(p.1, q.1)),
        xor: |
            p: (Seq<Seq<(Seq<char>, bool)>>, Seq<Seq<(Seq<char>, bool)>>),
            q: (Seq<Seq<(Seq<char>, bool)>>, Seq<Seq<(Seq<char>, bool)>>),
        | (
            cross_terms(p.0, q.1) + cross_terms(p.1, q.0),
            cross_terms(p.0, q.0) + cross_terms(p.1, q.1),
        ),
    }
}

/// The terms of a constant: one empty term for `true`, none for `false`.
pub open spec fn const_terms(b: bool) -> Seq<Seq<(Seq<char>, bool)>> {
    if b {
        seq![Seq::empty()]
    } else {
        Seq::empty()
    }
}

/// The product terms of the normal form of a token program.
pub open spec fn dnf_terms(toks: Seq<SToken>) -> Seq<Seq<(Seq<char>, bool)>> {
    value(toks, dnf_alg()).0
}

/// The product terms of the normal form of the negation of a token program.
pub open spec fn dnf_not_terms(toks: Seq<SToken>) -> Seq<Seq<(Seq<char>, bool)>> {
    value(toks, dnf_alg()).1
}

/// Once a merge is contradictory, merging further literals keeps it so.
proof fn lemma_merge_stays_none(l: Seq<(Seq<char>, bool)>, r: Seq<(Seq<char>, bool)>, k: int)
    requires
        0 <= k <= r.len(),
        merge_terms(l, r.take(k)) is None,
    ensures
        merge_terms(l, r) is None,
    decreases r.len() - k,
{
    if k < r.len() {
        assert(r.take(k + 1).drop_last() =~= r.take(k));
        lemma_merge_stays_none(l, r, k + 1);
    } else {
        assert(r.take(k) =~= r);
    }
}

/// A copy of a literal list.
fn copy_term(t: &Vec<(Symbol, bool)>) -> (r: Vec<(Symbol, bool)>)
    ensures
        lits_view(r@) == lits_view(t@),
{
    let mut r: Vec<(Symbol, bool)> = Vec::new();
    let mut i: usize = 0;
    while i < t.len()
        invariant
            i <= t@.len(),
            lits_view(r@) == lits_view(t@).take(i as int),
        decreases t@.len() - i,
    {
        let ghost before = r@;
        let c = t[i].0.copy();
        let pol = t[i].1;
        r.push((c, pol));
        proof {
            assert(lits_view(r@) =~= lits_view(before).push((t@[i as int].0@, t@[i as int].1)));
            assert(lits_view(t@)[i as int] == (t@[i as int].0@, t@[i as int].1));
            assert(lits_view(r@) =~= lits_view(t@).take(i + 1));
        }
        i += 1;
    }
    proof {
        assert(lits_view(t@).take(t@.len() as int) =~= lits_view(t@));
    }
    r
}

/// A copy of a list of product terms.
fn copy_dnf(d: &Vec<Vec<(Symbol, bool)>>) -> (r: Vec<Vec<(Symbol, bool)>>)
    ensures
        dnf_view(r@) == dnf_view(d@),
{
    let mut r: Vec<Vec<(Symbol, bool)>> = Vec::new();
    let mut i: usize = 0;
    while i < d.len()
        invariant
            i <= d@.len(),
            dnf_view(r@) == dnf_view(d@).take(i as int),
        decreases d@.len() - i,
    {
        let t = copy_term(&d[i]);
        let ghost before = r@;
        let ghost tv = t@;
        r.push(t);
        proof {
            assert(dnf_view(r@) =~= dnf_view(before).push(lits_view(tv)));
            assert(dnf_view(d@)[i as int] == lits_view(d@[i as int]@));
            assert(dnf_view(r@) =~= dnf_view(d@).take(i + 1));
        }
        i += 1;
    }
    proof {
        assert(dnf_view(d@).take(d@.len() as int) =~= dnf_view(d@));
    }
    r
}

/// The polarity of the literal on `name` in a product term, if it has one.
pub fn term_get(t: &Vec<(Symbol, bool)>, name: &Symbol) -> (r: Option<bool>)
    ensures
        r == first_lit(lits_view(t@), name@),
{
    let n = t.len();
    let mut i: usize = 0;
    proof {
        assert(lits_view(t@).skip(0) =~= lits_view(t@));
    }
    while i < n
        invariant
            n == t@.len(),
            i <= n,
            first_lit(lits_view(t@), name@) == first_lit(lits_view(t@).skip(i as int), name@),
        decreases n - i,
    {
        proof {
            assert(lits_view(t@).skip(i as int).drop_first() =~= lits_view(t@).skip(i + 1));
            assert(lits_view(t@).skip(i as int)[0] == lits_view(t@)[i as int]);
        }
        if t[i].0.same_as(name) {
            return Some(t[i].1);
        }
        i += 1;
    }
    None
}

/// AND two product terms: the literals of `left` followed by those of `right` it lacks; `None`
/// when they contradict (`x` against `!x`).
pub fn merge_product_terms(left: &Vec<(Symbol, bool)>, right: &Vec<(Symbol, bool)>) -> (r: Option<
    Vec<(Symbol, bool)>,
>)
    requires
        distinct_lits(lits_view(left@)),
    ensures
        r matches Some(m) ==> distinct_lits(lits_view(m@)) && forall|env: spec_fn(Seq<char>) -> bool|
            #[trigger] lits_hold(env, lits_view(m@)) == (lits_hold(env, lits_view(left@)) && lits_hold(
                env,
                lits_view(right@),
            )),
        r is None ==> forall|env: spec_fn(Seq<char>) -> bool|
            !(#[trigger] lits_hold(env, lits_view(left@)) && lits_hold(env, lits_view(right@))),
        r matches Some(m) ==> merge_terms(lits_view(left@), lits_view(right@)) == Some(lits_view(m@)),
        r is None ==> merge_terms(lits_view(left@), lits_view(right@)) is None,
{
    let mut result = copy_term(left);
    proof {
        assert(lits_view(right@).take(0).len() == 0);
    }
    let n = right.len();
    let mut j: usize = 0;
    while j < n
        invariant
            n == right@.len(),
            j <= n,
            distinct_lits(lits_view(result@)),
            merge_terms(lits_view(left@), lits_view(right@).take(j as int)) == Some(lits_view(result@)),
            forall|env: spec_fn(Seq<char>) -> bool| #[trigger]
                lits_hold(env, lits_view(result@)) == (lits_hold(env, lits_view(left@)) && lits_hold(
                    env,
                    lits_view(right@).take(j as int),
                )),
        decreases n - j,
    {
        let name = &right[j].0;
        let pol = right[j].1;
        let ghost rv = lits_view(right@);
        let ghost res = lits_view(result@);
        proof {
            assert(rv[j as int] == (name@, pol));
            assert(rv.take(j + 1) =~= rv.take(j as int).push((name@, pol)));
            assert(rv.take(j + 1).drop_last() =~= rv.take(j as int));
            lemma_first_lit(res, name@);
        }
        match term_get(&result, name) {
            Some(existing) => {
                if existing != pol {
                    proof {
                        let i = choose|i: int| 0 <= i < res.len() && #[trigger] res[i] == (name@, existing);
                        assert forall|env: spec_fn(Seq<char>) -> bool|
                            !(#[trigger] lits_hold(env, lits_view(left@)) && lits_hold(env, rv)) by {
                            if lits_hold(env, lits_view(left@)) && lits_hold(env, rv) {
                                assert(env(rv[j as int].0) == rv[j as int].1);
                                assert forall|q: int| 0 <= q < j implies env(
                                    #[trigger] rv.take(j as int)[q].0,
                                ) == rv.take(j as int)[q].1 by {
                                    assert(rv.take(j as int)[q] == rv[q]);
                                }
                                assert(lits_hold(env, res));
                                assert(env(res[i].0) == res[i].1);
                            }
                        }
                        lemma_merge_stays_none(lits_view(left@), rv, j + 1);
                    }
                    return None;
                }
                proof {
                    let i = choose|i: int| 0 <= i < res.len() && #[trigger] res[i] == (name@, existing);
                    assert forall|env: spec_fn(Seq<char>) -> bool| #[trigger] lits_hold(env, res) == (
                    lits_hold(env, lits_view(left@)) && lits_hold(env, rv.take(j + 1))) by {
                        if lits_hold(env, res) {
                            assert(env(res[i].0) == res[i].1);
                            assert(lits_hold(env, rv.take(j as int)));
                            assert forall|q: int| 0 <= q < j + 1 implies env(
                                #[trigger] rv.take(j + 1)[q].0,
                            ) == rv.take(j + 1)[q].1 by {
                                if q < j {
                                    assert(rv.take(j + 1)[q] == rv.take(j as int)[q]);
                                }
                            }
                        }
                        if lits_hold(env, lits_view(left@)) && lits_hold(env, rv.take(j + 1)) {
                            assert forall|q: int| 0 <= q < j implies env(
                                #[trigger] rv.take(j as int)[q].0,
                            ) == rv.take(j as int)[q].1 by {
                                assert(rv.take(j + 1)[q] == rv.take(j as int)[q]);
                            }
                        }
                    }
                }
            },
            None => {
                result.push((name.copy(), pol));
                proof {
                    let nr = lits_view(result@);
                    assert(nr =~= res.push((name@, pol)));
                    assert(nr[res.len() as int] == (name@, pol));
                    assert(rv.take(j + 1)[j as int] == (name@, pol));
                    assert forall|env: spec_fn(Seq<char>) -> bool| #[trigger] lits_hold(env, nr) == (
                    lits_hold(env, lits_view(left@)) && lits_hold(env, rv.take(j + 1))) by {
                        assert(lits_hold(env, res) == (lits_hold(env, lits_view(left@)) && lits_hold(
                            env,
                            rv.take(j as int),
                        )));
                        if lits_hold(env, nr) {
                            assert forall|q: int| 0 <= q < res.len() implies env(#[trigger] res[q].0)
                                == res[q].1 by {
                                assert(nr[q] == res[q]);
                            }
                            assert(env(nr[res.len() as int].0) == nr[res.len() as int].1);
                            assert forall|q: int| 0 <= q < j + 1 implies env(
                                #[trigger] rv.take(j + 1)[q].0,
                            ) == rv.take(j + 1)[q].1 by {
                                if q < j {
                                    assert(rv.take(j + 1)[q] == rv.take(j as int)[q]);
                                }
                            }
                        }
                        if lits_hold(env, lits_view(left@)) && lits_hold(env, rv.take(j + 1)) {
                            assert forall|q: int| 0 <= q < j implies env(
                                #[trigger] rv.take(j as int)[q].0,
                            ) == rv.take(j as int)[q].1 by {
                                assert(rv.take(j + 1)[q] == rv.take(j as int)[q]);
                            }
                            assert(lits_hold(env, res));
                            assert(env(rv.take(j + 1)[j as int].0) == rv.take(j + 1)[j as int].1);
                            assert forall|q: int| 0 <= q < nr.len() implies env(#[trigger] nr[q].0)
                                == nr[q].1 by {
                                if q < res.len() {
                                    assert(nr[q] == res[q]);
                                }
                            }
                        }
                    }
                }
            },
        }
        j += 1;
    }
    proof {
        assert(lits_view(right@).take(n as int) =~= lits_view(right@));
    }
    Some(result)
}


proof fn lemma_dnf_push(d: Seq<Seq<(Seq<char>, bool)>>, t: Seq<(Seq<char>, bool)>, env: spec_fn(Seq<char>) -> bool)
    ensures
        dnf_holds(env, d.push(t)) == (dnf_holds(env, d) || lits_hold(env, t)),
{
    let e = d.push(t);
    if dnf_holds(env, e) {
        let k = choose|k: int| 0 <= k < e.len() && lits_hold(env, #[trigger] e[k]);
        if k < d.len() {
            assert(e[k] == d[k]);
        }
    }
    if dnf_holds(env, d) {
        let k = choose|k: int| 0 <= k < d.len() && lits_hold(env, #[trigger] d[k]);
        assert(e[k] == d[k]);
    }
    if lits_hold(env, t) {
        assert(e[d.len() as int] == t);
    }
}

proof fn lemma_dnf_concat(a: Seq<Seq<(Seq<char>, bool)>>, b: Seq<Seq<(Seq<char>, bool)>>, env: spec_fn(Seq<char>) -> bool)
    ensures
        dnf_holds(env, a + b) == (dnf_holds(env, a) || dnf_holds(env, b)),
{
    let e = a + b;
    if dnf_holds(env, e) {
        let k = choose|k: int| 0 <= k < e.len() && lits_hold(env, #[trigger] e[k]);
        if k < a.len() {
            assert(e[k] == a[k]);
        } else {
            assert(e[k] == b[k - a.len()]);
        }
    }
    if dnf_holds(env, a) {
        let k = choose|k: int| 0 <= k < a.len() && lits_hold(env, #[trigger] a[k]);
        assert(e[k] == a[k]);
    }
    if dnf_holds(env, b) {
        let k = choose|k: int| 0 <= k < b.len() && lits_hold(env, #[trigger] b[k]);
        assert(e[a.len() + k] == b[k]);
    }
}

/// The OR of two sums of products: their terms, one list after the other.
fn concat(a: Vec<Vec<(Symbol, bool)>>, b: Vec<Vec<(Symbol, bool)>>) -> (r: Vec<Vec<(Symbol, bool)>>)
    ensures
        dnf_view(r@) == dnf_view(a@) + dnf_view(b@),
        dnf_ok(dnf_view(a@)) && dnf_ok(dnf_view(b@)) ==> dnf_ok(dnf_view(r@)),
        forall|env: spec_fn(Seq<char>) -> bool| #[trigger] dnf_holds(env, dnf_view(r@)) == (dnf_holds(
            env,
            dnf_view(a@),
        ) || dnf_holds(env, dnf_view(b@))),
{
    let mut a = a;
    let mut b = b;
    let ghost av = a@;
    let ghost bv = b@;
    a.append(&mut b);
    proof {
        assert(a@ == av + bv);
        assert(dnf_view(a@) =~= dnf_view(av) + dnf_view(bv));
        if dnf_ok(dnf_view(av)) && dnf_ok(dnf_view(bv)) {
            assert forall|k: int| 0 <= k < dnf_view(a@).len() implies distinct_lits(
                #[trigger] dnf_view(a@)[k],
            ) by {
                if k < av.len() {
                    assert(dnf_view(a@)[k] == dnf_view(av)[k]);
                } else {
                    assert(dnf_view(a@)[k] == dnf_view(bv)[k - av.len()]);
                }
            }
        }
        assert forall|env: spec_fn(Seq<char>) -> bool| #[trigger] dnf_holds(env, dnf_view(a@)) == (
        dnf_holds(env, dnf_view(av)) || dnf_holds(env, dnf_view(bv))) by {
            lemma_dnf_concat(dnf_view(av), dnf_view(bv), env);
        }
    }
    a
}

/// The AND of two sums of products: every non-contradictory merge of a term of `a` with a term
/// of `b`, in row-major order.
fn cross(a: &Vec<Vec<(Symbol, bool)>>, b: &Vec<Vec<(Symbol, bool)>>) -> (r: Vec<Vec<(Symbol, bool)>>)
    requires
        dnf_ok(dnf_view(a@)),
    ensures
        dnf_ok(dnf_view(r@)),
        dnf_view(r@) == cross_terms(dnf_view(a@), dnf_view(b@)),
        forall|env: spec_fn(Seq<char>) -> bool| #[trigger] dnf_holds(env, dnf_view(r@)) == (dnf_holds(
            env,
            dnf_view(a@),
        ) && dnf_holds(env, dnf_view(b@))),
{
    let ghost av = dnf_view(a@);
    let ghost bv = dnf_view(b@);
    let mut r: Vec<Vec<(Symbol, bool)>> = Vec::new();
    let mut i: usize = 0;
    proof {
        assert(dnf_view(r@) =~= Seq::<Seq<(Seq<char>, bool)>>::empty());
    }
    while i < a.len()
        invariant
            i <= a@.len(),
            av == dnf_view(a@),
            bv == dnf_view(b@),
            dnf_ok(av),
            dnf_ok(dnf_view(r@)),
            dnf_view(r@) == cross_terms(av.take(i as int), bv),
            forall|env: spec_fn(Seq<char>) -> bool| #[trigger] dnf_holds(env, dnf_view(r@)) == (dnf_holds(
                env,
                av.take(i as int),
            ) && dnf_holds(env, bv)),
        decreases a@.len() - i,
    {
        let mut j: usize = 0;
        proof {
            assert(bv.take(0) =~= Seq::<Seq<(Seq<char>, bool)>>::empty());
            assert(dnf_view(r@) =~= cross_terms(av.take(i as int), bv) + merge_row(av[i as int], bv.take(0)));
        }
        while j < b.len()
            invariant
                i < a@.len(),
                j <= b@.len(),
                av == dnf_view(a@),
                bv == dnf_view(b@),
                dnf_ok(av),
                dnf_ok(dnf_view(r@)),
                dnf_view(r@) == cross_terms(av.take(i as int), bv) + merge_row(av[i as int], bv.take(j as int)),
                forall|env: spec_fn(Seq<char>) -> bool| #[trigger] dnf_holds(env, dnf_view(r@)) == ((
                dnf_holds(env, av.take(i as int)) && dnf_holds(env, bv)) || (lits_hold(env, av[i as int])
                    && dnf_holds(env, bv.take(j as int)))),
            decreases b@.len() - j,
        {
            proof {
                assert(av[i as int] == lits_view(a@[i as int]@));
                assert(distinct_lits(av[i as int]));
            }
            let m = merge_product_terms(&a[i], &b[j]);
            let ghost before = dnf_view(r@);
            proof {
                assert(bv[j as int] == lits_view(b@[j as int]@));
                assert(bv.take(j + 1) =~= bv.take(j as int).push(bv[j as int]));
                assert(bv.take(j + 1).drop_last() =~= bv.take(j as int));
            }
            match m {
                Some(t) => {
                    let ghost tv = lits_view(t@);
                    r.push(t);
                    proof {
                        assert(dnf_view(r@) =~= before.push(tv));
                        assert(dnf_view(r@) =~= cross_terms(av.take(i as int), bv) + merge_row(
                            av[i as int],
                            bv.take(j + 1),
                        ));
                        assert forall|k: int| 0 <= k < dnf_view(r@).len() implies distinct_lits(
                            #[trigger] dnf_view(r@)[k],
                        ) by {
                            if k < before.len() {
                                assert(dnf_view(r@)[k] == before[k]);
                            }
                        }
                        assert forall|env: spec_fn(Seq<char>) -> bool| #[trigger] dnf_holds(
                            env,
                            dnf_view(r@),
                        ) == ((dnf_holds(env, av.take(i as int)) && dnf_holds(env, bv)) || (lits_hold(
                            env,
                            av[i as int],
                        ) && dnf_holds(env, bv.take(j + 1)))) by {
                            lemma_dnf_push(before, tv, env);
                            lemma_dnf_push(bv.take(j as int), bv[j as int], env);
                            assert(dnf_holds(env, before) == ((dnf_holds(env, av.take(i as int))
                                && dnf_holds(env, bv)) || (lits_hold(env, av[i as int]) && dnf_holds(
                                env,
                                bv.take(j as int),
                            ))));
                        }
                    }
                },
                None => {
                    proof {
                        assert(dnf_view(r@) =~= cross_terms(av.take(i as int), bv) + merge_row(
                            av[i as int],
                            bv.take(j + 1),
                        ));
                        assert forall|env: spec_fn(Seq<char>) -> bool| #[trigger] dnf_holds(
                            env,
                            dnf_view(r@),
                        ) == ((dnf_holds(env, av.take(i as int)) && dnf_holds(env, bv)) || (lits_hold(
                            env,
                            av[i as int],
                        ) && dnf_holds(env, bv.take(j + 1)))) by {
                            lemma_dnf_push(bv.take(j as int), bv[j as int], env);
                            assert(!(lits_hold(env, lits_view(a@[i as int]@)) && lits_hold(
                                env,
                                lits_view(b@[j as int]@),
                            )));
                        }
                    }
                },
            }
            j += 1;
        }
        proof {
            assert(bv.take(b@.len() as int) =~= bv);
            assert(av.take(i + 1) =~= av.take(i as int).push(av[i as int]));
            assert(av.take(i + 1).drop_last() =~= av.take(i as int));
            assert forall|env: spec_fn(Seq<char>) -> bool| #[trigger] dnf_holds(env, dnf_view(r@)) == (
            dnf_holds(env, av.take(i + 1)) && dnf_holds(env, bv)) by {
                lemma_dnf_push(av.take(i as int), av[i as int], env);
            }
        }
        i += 1;
    }
    proof {
        assert(av.take(a@.len() as int) =~= av);
    }
    r
}


/// A sum of products for an expression together with one for its negation.
spec fn pair_ok(p: (Vec<Vec<(Symbol, bool)>>, Vec<Vec<(Symbol, bool)>>)) -> bool {
    &&& dnf_ok(dnf_view(p.0@))
    &&& dnf_ok(dnf_view(p.1@))
    &&& forall|env: spec_fn(Seq<char>) -> bool| #[trigger]
        dnf_holds(env, dnf_view(p.1@)) == !dnf_holds(env, dnf_view(p.0@))
}

spec fn pos_vals(
    st: Seq<(Vec<Vec<(Symbol, bool)>>, Vec<Vec<(Symbol, bool)>>)>,
    env: spec_fn(Seq<char>) -> bool,
) -> Seq<bool> {
    st.map_values(|p: (Vec<Vec<(Symbol, bool)>>, Vec<Vec<(Symbol, bool)>>)| dnf_holds(env, dnf_view(p.0@)))
}

/// The literal lists of a pair of sums of products.
spec fn pair_view(p: (Vec<Vec<(Symbol, bool)>>, Vec<Vec<(Symbol, bool)>>)) -> (
    Seq<Seq<(Seq<char>, bool)>>,
    Seq<Seq<(Seq<char>, bool)>>,
) {
    (dnf_view(p.0@), dnf_view(p.1@))
}

spec fn stack_view(st: Seq<(Vec<Vec<(Symbol, bool)>>, Vec<Vec<(Symbol, bool)>>)>) -> Seq<
    (Seq<Seq<(Seq<char>, bool)>>, Seq<Seq<(Seq<char>, bool)>>),
> {
    st.map_values(|p: (Vec<Vec<(Symbol, bool)>>, Vec<Vec<(Symbol, bool)>>)| pair_view(p))
}

fn single(name: &Symbol, pol: bool) -> (r: Vec<Vec<(Symbol, bool)>>)
    ensures
        dnf_ok(dnf_view(r@)),
        dnf_view(r@) == seq![seq![(name@, pol)]],
        forall|env: spec_fn(Seq<char>) -> bool| #[trigger] dnf_holds(env, dnf_view(r@)) == (env(name@)
            == pol),
{
    let mut t: Vec<(Symbol, bool)> = Vec::new();
    t.push((name.copy(), pol));
    let mut r: Vec<Vec<(Symbol, bool)>> = Vec::new();
    r.push(t);
    proof {
        let tv = lits_view(t@);
        assert(tv =~= seq![(name@, pol)]);
        assert(dnf_view(r@) =~= seq![tv]);
        assert(dnf_view(r@) =~= seq![seq![(name@, pol)]]);
        assert forall|env: spec_fn(Seq<char>) -> bool| #[trigger] dnf_holds(env, dnf_view(r@)) == (env(
            name@,
        ) == pol) by {
            lemma_dnf_push(Seq::empty(), tv, env);
            assert(Seq::<Seq<(Seq<char>, bool)>>::empty().push(tv) =~= dnf_view(r@));
            assert(!dnf_holds(env, Seq::<Seq<(Seq<char>, bool)>>::empty()));
            if lits_hold(env, tv) {
                assert(env(tv[0].0) == tv[0].1);
            }
        }
    }
    r
}

fn constant_dnf(b: bool) -> (r: Vec<Vec<(Symbol, bool)>>)
    ensures
        dnf_ok(dnf_view(r@)),
        dnf_view(r@) == const_terms(b),
        forall|env: spec_fn(Seq<char>) -> bool| #[trigger] dnf_holds(env, dnf_view(r@)) == b,
{
    let mut r: Vec<Vec<(Symbol, bool)>> = Vec::new();
    if b {
        r.push(Vec::new());
    }
    proof {
        if b {
            assert(lits_view(r@[0]@) =~= Seq::<(Seq<char>, bool)>::empty());
            assert(dnf_view(r@) =~= const_terms(b));
        } else {
            assert(dnf_view(r@) =~= const_terms(b));
        }
        assert forall|env: spec_fn(Seq<char>) -> bool| #[trigger] dnf_holds(env, dnf_view(r@)) == b by {
            if b {
                let e: Seq<(Seq<char>, bool)> = lits_view(r@[0]@);
                assert(e =~= Seq::<(Seq<char>, bool)>::empty());
                assert(lits_hold(env, dnf_view(r@)[0]));
            }
        }
    }
    r
}

/// Sums of products for an expression and for its negation, computed in one pass over the
/// token program: a NOT swaps the pair, AND crosses the positive parts and concatenates the
/// negative ones (De Morgan), OR the reverse, and XOR combines both.
fn dnf_pair<S: Syntax>(expr: &BoolExpr<S>) -> (r: (Vec<Vec<(Symbol, bool)>>, Vec<Vec<(Symbol, bool)>>))
    ensures
        pair_ok(r),
        pair_view(r) == value(expr@, dnf_alg()),
        forall|env: spec_fn(Seq<char>) -> bool| #[trigger] dnf_holds(env, dnf_view(r.0@)) == eval(
            expr@,
            env,
        ),
{
    expr.assert_well_formed();
    let tokens = expr.tokens();
    let ghost toks = expr@;
    let n = tokens.len();
    let mut stack: Vec<(Vec<Vec<(Symbol, bool)>>, Vec<Vec<(Symbol, bool)>>)> = Vec::new();
    let mut i: usize = 0;
    proof {
        assert(toks.take(0) =~= Seq::<SToken>::empty());
        assert forall|env: spec_fn(Seq<char>) -> bool| #[trigger] pos_vals(stack@, env) == run(
            toks.take(0),
            Seq::<bool>::empty(),
            bool_alg(env),
        ) by {
            assert(pos_vals(stack@, env) =~= Seq::<bool>::empty());
        }
        assert(stack_view(stack@) =~= run(toks.take(0), Seq::empty(), dnf_alg()));
    }
    while i < n
        invariant
            n == toks.len(),
            toks == expr@,
            toks_view(tokens@) == toks,
            wf_program(toks),
            i <= n,
            forall|k: int| 0 <= k < stack@.len() ==> pair_ok(#[trigger] stack@[k]),
            forall|env: spec_fn(Seq<char>) -> bool| #[trigger]
                pos_vals(stack@, env) == run(toks.take(i as int), Seq::<bool>::empty(), bool_alg(env)),
            stack_view(stack@) == run(toks.take(i as int), Seq::empty(), dnf_alg()),
        decreases n - i,
    {
        let ghost ps = stack@;
        let ghost t = toks[i as int];
        let ghost e0: spec_fn(Seq<char>) -> bool = |s: Seq<char>| false;
        proof {
            lemma_prefix(toks, i as int, bool_alg(e0));
            assert(pos_vals(ps, e0).len() == ps.len());
            assert(t == tokens@[i as int]@);
        }
        let ghost keep: int = ps.len() - super::rpn::arity(t);
        let pair: (Vec<Vec<(Symbol, bool)>>, Vec<Vec<(Symbol, bool)>>);
        match &tokens[i] {
            Token::Var(name) => {
                pair = (single(name, true), single(name, false));
                proof {
                    assert(t == SToken::Var(name@));
                    assert(pair_view(pair) == (dnf_alg().var)(name@));
                }
            },
            Token::Const(b) => {
                pair = (constant_dnf(*b), constant_dnf(!*b));
                proof {
                    assert(pair_view(pair) == (dnf_alg().cst)(*b));
                }
            },
            Token::Not => {
                let (p, q) = stack.pop().unwrap();
                pair = (q, p);
                proof {
                    assert(pair_view(pair) == (dnf_alg().not)(pair_view(ps[ps.len() - 1])));
                }
            },
            Token::And => {
                let (bp, bn) = stack.pop().unwrap();
                let (ap, an) = stack.pop().unwrap();
                proof {
                    assert(pair_ok(ps[ps.len() - 1]));
                    assert(pair_ok(ps[ps.len() - 2]));
                }
                let pos = cross(&ap, &bp);
                let neg = concat(an, bn);
                pair = (pos, neg);
                proof {
                    assert(pair_view(pair) == (dnf_alg().and)(
                        pair_view(ps[ps.len() - 2]),
                        pair_view(ps[ps.len() - 1]),
                    ));
                }
            },
            Token::Or => {
                let (bp, bn) = stack.pop().unwrap();
                let (ap, an) = stack.pop().unwrap();
                proof {
                    assert(pair_ok(ps[ps.len() - 1]));
                    assert(pair_ok(ps[ps.len() - 2]));
                }
                let neg = cross(&an, &bn);
                let pos = concat(ap, bp);
                pair = (pos, neg);
                proof {
                    assert(pair_view(pair) == (dnf_alg().or)(
                        pair_view(ps[ps.len() - 2]),
                        pair_view(ps[ps.len() - 1]),
                    ));
                }
            },
            Token::Xor => {
                let (bp, bn) = stack.pop().unwrap();
                let (ap, an) = stack.pop().unwrap();
                proof {
                    assert(pair_ok(ps[ps.len() - 1]));
                    assert(pair_ok(ps[ps.len() - 2]));
                }
                let p1 = cross(&ap, &bn);
                let p2 = cross(&an, &bp);
                let n1 = cross(&ap, &bp);
                let n2 = cross(&an, &bn);
                pair = (concat(p1, p2), concat(n1, n2));
                proof {
                    assert(pair_view(pair) == (dnf_alg().xor)(
                        pair_view(ps[ps.len() - 2]),
                        pair_view(ps[ps.len() - 1]),
                    ));
                }
            },
        }
        proof {
            assert(stack@ =~= ps.take(keep));
            assert(pair_ok(pair)) by {
                match t {
                    SToken::Not => {
                        assert(pair_ok(ps[ps.len() - 1]));
                    },
                    _ => {},
                }
            }
            assert forall|env: spec_fn(Seq<char>) -> bool| #[trigger]
                pos_vals(stack@.push(pair), env) == run(toks.take(i + 1), Seq::<bool>::empty(), bool_alg(env)) by {
                let alg = bool_alg(env);
                lemma_prefix(toks, i as int, alg);
                let pre = run(toks.take(i as int), Seq::<bool>::empty(), alg);
                assert(pos_vals(ps, env) == pre);
                assert(pos_vals(stack@.push(pair), env) =~= pre.take(keep).push(dnf_holds(env, dnf_view(pair.0@))));
                match t {
                    SToken::Not => {
                        assert(pair_ok(ps[ps.len() - 1]));
                        assert(pre[ps.len() - 1] == dnf_holds(env, dnf_view(ps[ps.len() - 1].0@)));
                    },
                    SToken::Var(_) => {},
                    SToken::Const(_) => {},
                    _ => {
                        assert(pair_ok(ps[ps.len() - 1]));
                        assert(pair_ok(ps[ps.len() - 2]));
                        assert(pre[ps.len() - 1] == dnf_holds(env, dnf_view(ps[ps.len() - 1].0@)));
                        assert(pre[ps.len() - 2] == dnf_holds(env, dnf_view(ps[ps.len() - 2].0@)));
                    },
                }
            }
        }
        proof {
            let alg = dnf_alg();
            lemma_prefix(toks, i as int, alg);
            let pre = run(toks.take(i as int), Seq::empty(), alg);
            assert(stack_view(ps) == pre);
            assert(pre.len() == ps.len());
            assert(stack_view(stack@.push(pair)) =~= step(t, pre, alg)) by {
                assert(stack_view(stack@.push(pair)) =~= pre.take(keep).push(pair_view(pair)));
            }
        }
        stack.push(pair);
        proof {
            assert forall|k: int| 0 <= k < stack@.len() implies pair_ok(#[trigger] stack@[k]) by {
                if k < keep {
                    assert(stack@[k] == ps[k]);
                }
            }
        }
        i += 1;
    }
    proof {
        let e0: spec_fn(Seq<char>) -> bool = |s: Seq<char>| false;
        lemma_full(toks, bool_alg(e0));
        assert(toks.take(n as int) =~= toks);
        assert(pos_vals(stack@, e0) == run(toks, Seq::<bool>::empty(), bool_alg(e0)));
        assert(stack@.len() == 1);
        assert(pair_ok(stack@[0]));
        lemma_full(toks, dnf_alg());
        assert(stack_view(stack@)[0] == pair_view(stack@[0]));
    }
    let ghost fin = stack@;
    let r = stack.pop().unwrap();
    proof {
        assert(r == fin[0]);
        assert forall|env: spec_fn(Seq<char>) -> bool| #[trigger] dnf_holds(env, dnf_view(r.0@)) == eval(
            toks,
            env,
        ) by {
            lemma_full(toks, bool_alg(env));
            assert(toks.take(n as int) =~= toks);
            assert(pos_vals(fin, env) == run(toks.take(n as int), Seq::<bool>::empty(), bool_alg(env)));
            assert(pos_vals(fin, env)[0] == dnf_holds(env, dnf_view(r.0@)));
        }
    }
    r
}

/// The disjunctive normal form of an expression: a list of product terms, each a list of
/// literals on distinct variables, whose OR is the expression.
pub fn to_dnf<S: Syntax>(expr: &BoolExpr<S>) -> (r: Vec<Vec<(Symbol, bool)>>)
    ensures
        dnf_ok(dnf_view(r@)),
        dnf_view(r@) == dnf_terms(expr@),
        forall|env: spec_fn(Seq<char>) -> bool| #[trigger] dnf_holds(env, dnf_view(r@)) == eval(
            expr@,
            env,
        ),
{
    let (pos, _neg) = dnf_pair(expr);
    pos
}

/// The disjunctive normal form of the negation of an expression.
pub fn to_dnf_not<S: Syntax>(expr: &BoolExpr<S>) -> (r: Vec<Vec<(Symbol, bool)>>)
    ensures
        dnf_ok(dnf_view(r@)),
        dnf_view(r@) == dnf_not_terms(expr@),
        forall|env: spec_fn(Seq<char>) -> bool| #[trigger] dnf_holds(env, dnf_view(r@)) == !eval(
            expr@,
            env,
        ),
{
    let (pos, neg) = dnf_pair(expr);
    proof {
        assert forall|env: spec_fn(Seq<char>) -> bool| #[trigger] dnf_holds(env, dnf_view(neg@)) == !eval(
            expr@,
            env,
        ) by {
            assert(dnf_holds(env, dnf_view(pos@)) == eval(expr@, env));
        }
    }
    neg
}


/// The input part of the cube for a product term over `vars`.
pub open spec fn term_cube(t: Seq<(Seq<char>, bool)>, vars: Seq<Seq<char>>) -> Seq<Option<bool>> {
    Seq::new(vars.len(), |i: int| first_lit(t, vars[i]))
}

/// An assignment satisfies every literal of a cube's input part (over the inputs named
/// `vars`).
pub open spec fn cube_holds(
    env: spec_fn(Seq<char>) -> bool,
    inputs: Seq<Option<bool>>,
    vars: Seq<Seq<char>>,
) -> bool {
    forall|i: int|
        0 <= i < vars.len() && i < inputs.len() ==> (#[trigger] inputs[i] matches Some(b) ==> env(vars[i])
            == b)
}

/// A cube drives the (first) output.
pub open spec fn cube_on(c: Cube) -> bool {
    c.outputs@.len() > 0 && c.outputs@[0]
}

/// Some cube driving the output has its input part satisfied.
pub open spec fn cover_holds(env: spec_fn(Seq<char>) -> bool, cubes: Seq<Cube>, vars: Seq<Seq<char>>) -> bool {
    exists|k: int| 0 <= k < cubes.len() && cube_on(#[trigger] cubes[k]) && cube_holds(env, cubes[k].inputs@, vars)
}

/// Lay product terms out as on-set cubes over `variables`: input `i` of a cube is the literal the
/// term has on `variables[i]`, or a don't-care.
pub fn dnf_to_cubes(dnf: &Vec<Vec<(Symbol, bool)>>, variables: &Vec<Symbol>) -> (r: Vec<Cube>)
    ensures
        r@.len() == dnf@.len(),
        forall|k: int|
            0 <= k < r@.len() ==> (#[trigger] r@[k]).inputs@ == term_cube(
                dnf_view(dnf@)[k],
                names_of(variables@),
            ) && r@[k].outputs@ == seq![true] && r@[k].cube_type == CubeType::F,
{
    let ghost vs = names_of(variables@);
    let mut cubes: Vec<Cube> = Vec::new();
    let mut k: usize = 0;
    while k < dnf.len()
        invariant
            k <= dnf@.len(),
            vs == names_of(variables@),
            cubes@.len() == k,
            forall|q: int|
                0 <= q < k ==> (#[trigger] cubes@[q]).inputs@ == term_cube(dnf_view(dnf@)[q], vs)
                    && cubes@[q].outputs@ == seq![true] && cubes@[q].cube_type == CubeType::F,
        decreases dnf@.len() - k,
    {
        let term = &dnf[k];
        let mut inputs: Vec<Option<bool>> = Vec::new();
        let mut i: usize = 0;
        while i < variables.len()
            invariant
                i <= variables@.len(),
                vs == names_of(variables@),
                k < dnf@.len(),
                term == dnf@[k as int],
                inputs@.len() == i,
                forall|q: int| 0 <= q < i ==> #[trigger] inputs@[q] == first_lit(dnf_view(dnf@)[k as int], vs[q]),
            decreases variables@.len() - i,
        {
            let v = term_get(term, &variables[i]);
            proof {
                assert(dnf_view(dnf@)[k as int] == lits_view(term@));
            }
            inputs.push(v);
            i += 1;
        }
        let mut outputs: Vec<bool> = Vec::new();
        outputs.push(true);
        let c = Cube::new(inputs, outputs, CubeType::F);
        proof {
            assert(c.inputs@ =~= term_cube(dnf_view(dnf@)[k as int], vs));
            assert(c.outputs@ =~= seq![true]);
        }
        let ghost before = cubes@;
        cubes.push(c);
        proof {
            assert forall|q: int|
                0 <= q < k + 1 implies (#[trigger] cubes@[q]).inputs@ == term_cube(dnf_view(dnf@)[q], vs)
                && cubes@[q].outputs@ == seq![true] && cubes@[q].cube_type == CubeType::F by {
                if q < k {
                    assert(cubes@[q] == before[q]);
                }
            }
        }
        k += 1;
    }
    cubes
}

/// The expression of a cover: the OR, in cube order, of the AND of each on-set cube's literals
/// in input order (a cube with no literals is `true`; no cubes give `false`).
pub fn cubes_to_expr_refs(cubes: &Vec<Cube>, variables: &Vec<Symbol>) -> (r: BoolExpr)
    ensures
        forall|env: spec_fn(Seq<char>) -> bool| #[trigger]
            eval(r@, env) == cover_holds(env, cubes@, names_of(variables@)),
{
    let ghost vs = names_of(variables@);
    let mut terms: Vec<BoolExpr> = Vec::new();
    let ghost mut owner: Seq<int> = Seq::empty();
    let mut k: usize = 0;
    while k < cubes.len()
        invariant
            k <= cubes@.len(),
            vs == names_of(variables@),
            terms@.len() == owner.len(),
            forall|q: int| 0 <= q < owner.len() ==> 0 <= #[trigger] owner[q] < k && cube_on(cubes@[owner[q]]),
            forall|q: int, env: spec_fn(Seq<char>) -> bool|
                0 <= q < owner.len() ==> #[trigger] eval(terms@[q]@, env) == cube_holds(
                    env,
                    cubes@[owner[q]].inputs@,
                    vs,
                ),
            forall|c: int| 0 <= c < k && cube_on(#[trigger] cubes@[c]) ==> owner.contains(c),
        decreases cubes@.len() - k,
    {
        let cube = &cubes[k];
        let ghost old_owner = owner;
        if cube.outputs.len() > 0 && cube.outputs[0] {
            let mut lits: Vec<(Symbol, bool)> = Vec::new();
            let ghost mut pos: Seq<int> = Seq::empty();
            let mut i: usize = 0;
            while i < variables.len()
                invariant
                    i <= variables@.len(),
                    vs == names_of(variables@),
                    k < cubes@.len(),
                    cube == cubes@[k as int],
                    lits@.len() == pos.len(),
                    forall|q: int| 0 <= q < pos.len() ==> 0 <= #[trigger] pos[q] < i && pos[q] < cube.inputs@.len()
                        && cube.inputs@[pos[q]] == Some(lits@[q].1) && lits@[q].0@ == vs[pos[q]],
                    forall|j: int|
                        0 <= j < i && j < cube.inputs@.len() && #[trigger] cube.inputs@[j] is Some ==> pos.contains(j),
                decreases variables@.len() - i,
            {
                let ghost old_pos = pos;
                if i < cube.inputs.len() {
                    match cube.inputs[i] {
                        Some(b) => {
                            lits.push((variables[i].copy(), b));
                            proof {
                                pos = pos.push(i as int);
                            }
                        },
                        None => {},
                    }
                }
                proof {
                    assert forall|j: int|
                        0 <= j < i + 1 && j < cube.inputs@.len() && #[trigger] cube.inputs@[j] is Some implies pos.contains(j) by {
                        if j == i {
                            assert(pos[pos.len() - 1] == j);
                        } else {
                            assert(old_pos.contains(j));
                            let q = choose|q: int| 0 <= q < old_pos.len() && old_pos[q] == j;
                            assert(pos[q] == j);
                        }
                    }
                }
                i += 1;
            }
            let term = product(&lits);
            proof {
                assert forall|env: spec_fn(Seq<char>) -> bool| #[trigger] eval(term@, env) == cube_holds(
                    env,
                    cube.inputs@,
                    vs,
                ) by {
                    let lv = lits_view(lits@);
                    if lits_hold(env, lv) {
                        assert forall|j: int|
                            0 <= j < vs.len() && j < cube.inputs@.len() implies (#[trigger] cube.inputs@[j] matches Some(b)
                            ==> env(vs[j]) == b) by {
                            if cube.inputs@[j] is Some {
                                assert(pos.contains(j));
                                let q = choose|q: int| 0 <= q < pos.len() && pos[q] == j;
                                assert(lv[q] == (lits@[q].0@, lits@[q].1));
                                assert(env(lv[q].0) == lv[q].1);
                            }
                        }
                    }
                    if cube_holds(env, cube.inputs@, vs) {
                        assert forall|q: int| 0 <= q < lv.len() implies env(#[trigger] lv[q].0) == lv[q].1 by {
                            assert(lv[q] == (lits@[q].0@, lits@[q].1));
                            let j = pos[q];
                            assert(cube.inputs@[j] == Some(lits@[q].1));
                        }
                    }
                }
            }
            terms.push(term);
            proof {
                owner = owner.push(k as int);
            }
        }
        proof {
            assert forall|c: int| 0 <= c < k + 1 && cube_on(#[trigger] cubes@[c]) implies owner.contains(c) by {
                if c == k {
                    assert(owner[owner.len() - 1] == c);
                } else {
                    assert(old_owner.contains(c));
                    let q = choose|q: int| 0 <= q < old_owner.len() && old_owner[q] == c;
                    assert(owner[q] == c);
                }
            }
        }
        k += 1;
    }
    let r = sum(&terms);
    proof {
        assert forall|env: spec_fn(Seq<char>) -> bool| #[trigger] eval(r@, env) == cover_holds(
            env,
            cubes@,
            vs,
        ) by {
            if some_holds(env, terms@) {
                let q = choose|q: int| 0 <= q < terms@.len() && eval(#[trigger] terms@[q]@, env);
                let c = owner[q];
                assert(cube_on(cubes@[c]) && cube_holds(env, cubes@[c].inputs@, vs));
            }
            if cover_holds(env, cubes@, vs) {
                let c = choose|c: int|
                    0 <= c < cubes@.len() && cube_on(#[trigger] cubes@[c]) && cube_holds(env, cubes@[c].inputs@, vs);
                assert(owner.contains(c));
                let q = choose|q: int| 0 <= q < owner.len() && owner[q] == c;
                assert(eval(terms@[q]@, env));
            }
        }
    }
    r
}


proof fn lemma_first_lit_distinct(t: Seq<(Seq<char>, bool)>, j: int)
    requires
        distinct_lits(t),
        0 <= j < t.len(),
    ensures
        first_lit(t, t[j].0) == Some(t[j].1),
{
    lemma_first_lit(t, t[j].0);
    if first_lit(t, t[j].0) is Some {
        let b = first_lit(t, t[j].0)->0;
        let i = choose|i: int| 0 <= i < t.len() && #[trigger] t[i] == (t[j].0, b);
        if i != j {
            if i < j {
                assert(t[i].0 != t[j].0);
            } else {
                assert(t[j].0 != t[i].0);
            }
        }
    } else {
        assert(t[j].0 != t[j].0);
    }
}

/// A cube laid out over the variables an expression depends on is satisfied exactly when the
/// expression's product terms, projected onto those variables, are.
proof fn lemma_cover_of_dnf(
    toks: Seq<SToken>,
    nodes: Seq<BddNode>,
    root: int,
    header: Seq<Seq<char>>,
    dnf: Seq<Seq<(Seq<char>, bool)>>,
    env: spec_fn(Seq<char>) -> bool,
)
    requires
        represents(nodes, first_occurrences(toks), root, toks),
        forall|n: Seq<char>|
            header.contains(n) <==> support_name(nodes, first_occurrences(toks), root, n),
        dnf_ok(dnf),
        forall|e: spec_fn(Seq<char>) -> bool| #[trigger] dnf_holds(e, dnf) == eval(toks, e),
    ensures
        (exists|k: int| 0 <= k < dnf.len() && cube_holds(env, term_cube(#[trigger] dnf[k], header), header))
            == eval(toks, env),
{
    let fo = first_occurrences(toks);
    if exists|k: int| 0 <= k < dnf.len() && cube_holds(env, term_cube(#[trigger] dnf[k], header), header) {
        let k = choose|k: int|
            0 <= k < dnf.len() && cube_holds(env, term_cube(#[trigger] dnf[k], header), header);
        let t = dnf[k];
        assert(distinct_lits(t));
        let env2 = |n: Seq<char>|
            if header.contains(n) {
                env(n)
            } else {
                match first_lit(t, n) {
                    Some(b) => b,
                    None => env(n),
                }
            };
        assert forall|j: int| 0 <= j < t.len() implies env2(#[trigger] t[j].0) == t[j].1 by {
            lemma_first_lit_distinct(t, j);
            let n = t[j].0;
            if header.contains(n) {
                let i = choose|i: int| 0 <= i < header.len() && header[i] == n;
                assert(term_cube(t, header)[i] == Some(t[j].1));
            }
        }
        assert(lits_hold(env2, t));
        assert(dnf_holds(env2, dnf));
        assert(eval(toks, env2));
        assert forall|v: int|
            0 <= v < fo.len() && #[trigger] super::manager::in_support(nodes, root, v) implies env(fo[v])
            == env2(fo[v]) by {
            assert(support_name(nodes, fo, root, fo[v]));
            assert(header.contains(fo[v]));
        }
        lemma_eval_names_support(nodes, fo, root, toks, env, env2);
    }
    if eval(toks, env) {
        assert(dnf_holds(env, dnf));
        let k = choose|k: int| 0 <= k < dnf.len() && lits_hold(env, #[trigger] dnf[k]);
        let t = dnf[k];
        assert forall|i: int|
            0 <= i < header.len() && i < term_cube(t, header).len() implies (#[trigger] term_cube(
            t,
            header,
        )[i] matches Some(b) ==> env(header[i]) == b) by {
            lemma_first_lit(t, header[i]);
            if first_lit(t, header[i]) is Some {
                let b = first_lit(t, header[i])->0;
                let j = choose|j: int| 0 <= j < t.len() && #[trigger] t[j] == (header[i], b);
                assert(env(t[j].0) == t[j].1);
            }
        }
        assert(cube_holds(env, term_cube(dnf[k], header), header));
    }
}

/// An expression as a single-output, on-set-only cover over the dictionary-ordered variables it
/// depends on.
#[derive(Debug)]
pub struct ExprCover {
    variables: Vec<Symbol>,
    cubes: Vec<Cube>,
}

impl ExprCover {
    /// The input names, in order.
    pub closed spec fn vars(&self) -> Seq<Seq<char>> {
        names_of(self.variables@)
    }

    /// The cubes.
    pub closed spec fn cube_list(&self) -> Seq<Cube> {
        self.cubes@
    }

    /// The cover's Boolean function.
    pub open spec fn holds(&self, env: spec_fn(Seq<char>) -> bool) -> bool {
        cover_holds(env, self.cube_list(), self.vars())
    }

    /// The cover of an expression: its disjunctive normal form laid out as on-set cubes over the
    /// variables its function depends on, in dictionary order.
    pub fn from_expr<S: Syntax>(expr: BoolExpr<S>) -> (r: ExprCover)
        ensures
            strictly_sorted(r.vars()),
            exists|nodes: Seq<BddNode>, root: int|
                #[trigger] represents(nodes, first_occurrences(expr@), root, expr@) && forall|n: Seq<char>|
                    r.vars().contains(n) <==> support_name(nodes, first_occurrences(expr@), root, n),
            forall|env: spec_fn(Seq<char>) -> bool| #[trigger] r.holds(env) == eval(expr@, env),
            forall|k: int|
                0 <= k < r.cube_list().len() ==> (#[trigger] r.cube_list()[k]).cube_type == CubeType::F
                    && r.cube_list()[k].outputs@ == seq![true] && r.cube_list()[k].inputs@.len()
                    == r.vars().len(),
            r.cube_list().len() == dnf_terms(expr@).len(),
            forall|k: int|
                0 <= k < r.cube_list().len() ==> (#[trigger] r.cube_list()[k]).inputs@ == term_cube(
                    dnf_terms(expr@)[k],
                    r.vars(),
                ),
    {
        let variables = expr.collect_variables();
        let dnf = to_dnf(&expr);
        let cubes = dnf_to_cubes(&dnf, &variables);
        let r = ExprCover { variables, cubes };
        proof {
            let hv = names_of(r.variables@);
            let dv = dnf_view(dnf@);
            let toks = expr@;
            let fo = first_occurrences(toks);
            let (nodes, root) = choose|nodes: Seq<BddNode>, root: int|
                #[trigger] represents(nodes, fo, root, toks) && forall|n: Seq<char>|
                    hv.contains(n) <==> support_name(nodes, fo, root, n);
            assert forall|env: spec_fn(Seq<char>) -> bool| #[trigger] r.holds(env) == eval(toks, env) by {
                lemma_cover_of_dnf(toks, nodes, root, hv, dv, env);
                if r.holds(env) {
                    let k = choose|k: int|
                        0 <= k < r.cubes@.len() && cube_on(#[trigger] r.cubes@[k]) && cube_holds(
                            env,
                            r.cubes@[k].inputs@,
                            hv,
                        );
                    assert(r.cubes@[k].inputs@ == term_cube(dv[k], hv));
                    assert(cube_holds(env, term_cube(dv[k], hv), hv));
                }
                if eval(toks, env) {
                    let k = choose|k: int|
                        0 <= k < dv.len() && cube_holds(env, term_cube(#[trigger] dv[k], hv), hv);
                    assert(r.cubes@[k].inputs@ == term_cube(dv[k], hv));
                    assert(r.cubes@[k].outputs@ == seq![true]);
                    assert(cube_on(r.cubes@[k]));
                }
            }
        }
        r
    }

    /// The cover as an expression (see [`cubes_to_expr_refs`]).
    pub fn to_expr(&self) -> (r: BoolExpr)
        ensures
            forall|env: spec_fn(Seq<char>) -> bool| #[trigger] eval(r@, env) == self.holds(env),
    {
        cubes_to_expr_refs(&self.cubes, &self.variables)
    }

    /// The input variables, in order.
    pub fn variables(&self) -> (r: &Vec<Symbol>)
        ensures
            names_of(r@) == self.vars(),
    {
        &self.variables
    }

    /// The cubes.
    pub fn cubes(&self) -> (r: &Vec<Cube>)
        ensures
            r@ == self.cube_list(),
    {
        &self.cubes
    }

    /// The number of inputs.
    pub fn num_inputs(&self) -> (r: usize)
        ensures
            r == self.vars().len(),
    {
        self.variables.len()
    }

    /// The number of outputs: one.
    pub fn num_outputs(&self) -> (r: usize)
        ensures
            r == 1,
    {
        1
    }

    /// The sets the cover carries: the on-set only.
    pub fn cover_type(&self) -> (r: PLAType)
        ensures
            r == PLAType::F,
    {
        PLAType::F
    }

    /// Replace the cubes, keeping only on-set cubes.
    pub fn set_cubes(&mut self, cubes: Vec<Cube>)
        ensures
            final(self).vars() == old(self).vars(),
            final(self).cube_list() == cubes@.filter(|c: Cube| c.cube_type == CubeType::F),
    {
        let ghost src = cubes@;
        let mut kept: Vec<Cube> = Vec::new();
        for c in it: cubes.into_iter()
            invariant
                it.seq() == src,
                kept@ == src.take(it.index() as int).filter(|c: Cube| c.cube_type == CubeType::F),
        {
            let ghost pre = src.take(it.index() as int);
            let ghost post = src.take(it.index() + 1);
            proof {
                assert(post.drop_last() =~= pre);
                assert(post.last() == c);
                reveal(Seq::filter);
                assert(post.filter(|c: Cube| c.cube_type == CubeType::F) == if c.cube_type == CubeType::F {
                    pre.filter(|c: Cube| c.cube_type == CubeType::F).push(c)
                } else {
                    pre.filter(|c: Cube| c.cube_type == CubeType::F)
                });
            }
            let is_f = match c.cube_type {
                CubeType::F => true,
                _ => false,
            };
            if is_f {
                kept.push(c);
            }
        }
        proof {
            assert(src.take(src.len() as int) =~= src);
        }
        self.cubes = kept;
    }
}

/// Converting an expression to its cover and the cover back to an expression preserves the
/// Boolean function.
pub proof fn law_cover_round_trip(e: Seq<SToken>, cover: ExprCover, back: Seq<SToken>)
    requires
        forall|env: spec_fn(Seq<char>) -> bool| #[trigger] cover.holds(env) == eval(e, env),
        forall|env: spec_fn(Seq<char>) -> bool| #[trigger] eval(back, env) == cover.holds(env),
    ensures
        forall|env: spec_fn(Seq<char>) -> bool| #[trigger] eval(back, env) == eval(e, env),
{
    assert forall|env: spec_fn(Seq<char>) -> bool| #[trigger] eval(back, env) == eval(e, env) by {
        assert(cover.holds(env) == eval(e, env));
    }
}

} // verus!
