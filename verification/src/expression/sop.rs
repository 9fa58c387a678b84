//! Sum-of-products expressions: a product of literals is a left-nested AND chain, a sum of terms
//! a left-nested OR chain.
use super::boolexpr::BoolExpr;
use super::rpn::{eval, SToken};
use crate::symbol::Symbol;
use vstd::prelude::*;

verus! {

/// An assignment satisfies every literal of a product.
pub open spec fn lits_hold(env: spec_fn(Seq<char>) -> bool, lits: Seq<(Seq<char>, bool)>) -> bool {
    forall|k: int| 0 <= k < lits.len() ==> env(#[trigger] lits[k].0) == lits[k].1
}

/// The names and polarities of a list of literals.
pub open spec fn lits_view(lits: Seq<(Symbol, bool)>) -> Seq<(Seq<char>, bool)> {
    lits.map_values(|l: (Symbol, bool)| (l.0@, l.1))
}

/// The tokens of a literal: the variable, followed by a negation when the polarity is false.
pub open spec fn lit_toks(x: (Seq<char>, bool)) -> Seq<SToken> {
    if x.1 {
        seq![SToken::Var(x.0)]
    } else {
        seq![SToken::Var(x.0), SToken::Not]
    }
}

/// The tokens of a nonempty product: the literals ANDed from the left.
pub open spec fn and_chain(lits: Seq<(Seq<char>, bool)>) -> Seq<SToken>
    decreases lits.len(),
{
    if lits.len() <= 1 {
        lit_toks(lits[0])
    } else {
        and_chain(lits.drop_last()) + lit_toks(lits.last()) + seq![SToken::And]
    }
}

/// The tokens of a product: `true` when empty, else the left-nested AND of the literals.
pub open spec fn product_toks(lits: Seq<(Seq<char>, bool)>) -> Seq<SToken> {
    if lits.len() == 0 {
        seq![SToken::Const(true)]
    } else {
        and_chain(lits)
    }
}

/// The tokens of a nonempty sum: the terms ORed from the left.
pub open spec fn or_chain(terms: Seq<Seq<SToken>>) -> Seq<SToken>
    decreases terms.len(),
{
    if terms.len() <= 1 {
        terms[0]
    } else {
        or_chain(terms.drop_last()) + terms.last() + seq![SToken::Or]
    }
}

/// The tokens of a sum: `false` when empty, else the left-nested OR of the terms.
pub open spec fn sum_toks(terms: Seq<Seq<SToken>>) -> Seq<SToken> {
    if terms.len() == 0 {
        seq![SToken::Const(false)]
    } else {
        or_chain(terms)
    }
}

/// A literal: the variable, or its negation.
pub fn literal(name: &Symbol, polarity: bool) -> (r: BoolExpr)
    ensures
        r@ == lit_toks((name@, polarity)),
        forall|env: spec_fn(Seq<char>) -> bool| #[trigger] eval(r@, env) == (env(name@) == polarity),
{
    let v = BoolExpr::var(name.as_str());
    if polarity {
        v
    } else {
        v.not()
    }
}

/// The AND of a list of literals, left-nested; the empty product is `true`.
pub fn product(lits: &Vec<(Symbol, bool)>) -> (r: BoolExpr)
    ensures
        r@ == product_toks(lits_view(lits@)),
        forall|env: spec_fn(Seq<char>) -> bool| #[trigger]
            eval(r@, env) == lits_hold(env, lits_view(lits@)),
{
    let n = lits.len();
    if n == 0 {
        let r = BoolExpr::constant(true);
        proof {
            assert forall|env: spec_fn(Seq<char>) -> bool| #[trigger] eval(r@, env) == lits_hold(
                env,
                lits_view(lits@),
            ) by {
                assert(eval(r@, env));
            }
        }
        return r;
    }
    let mut acc = literal(&lits[0].0, lits[0].1);
    let mut i: usize = 1;
    proof {
        assert(lits_view(lits@).take(1)[0] == (lits@[0].0@, lits@[0].1));
    }
    proof {
        assert forall|env: spec_fn(Seq<char>) -> bool| #[trigger] eval(acc@, env) == lits_hold(
            env,
            lits_view(lits@).take(1),
        ) by {
            let lv = lits_view(lits@);
            assert(lv.take(1)[0] == lv[0]);
            assert(lv[0] == (lits@[0].0@, lits@[0].1));
            if lits_hold(env, lv.take(1)) {
                assert(env(lv.take(1)[0].0) == lv.take(1)[0].1);
            }
            if eval(acc@, env) {
                assert forall|k: int| 0 <= k < 1 implies env(#[trigger] lv.take(1)[k].0) == lv.take(
                    1,
                )[k].1 by {}
            }
        }
    }
    while i < n
        invariant
            1 <= i <= n,
            n == lits@.len(),
            forall|env: spec_fn(Seq<char>) -> bool| #[trigger]
                eval(acc@, env) == lits_hold(env, lits_view(lits@).take(i as int)),
            acc@ == and_chain(lits_view(lits@).take(i as int)),
        decreases n - i,
    {
        let l = literal(&lits[i].0, lits[i].1);
        let next = acc.and(&l);
        proof {
            let lv = lits_view(lits@);
            assert(lv.take(i + 1).drop_last() =~= lv.take(i as int));
            assert(lv.take(i + 1).last() == (lits@[i as int].0@, lits@[i as int].1));
        }
        proof {
            assert forall|env: spec_fn(Seq<char>) -> bool| #[trigger] eval(next@, env) == lits_hold(
                env,
                lits_view(lits@).take(i + 1),
            ) by {
                let lv = lits_view(lits@);
                assert(lv.take(i + 1) =~= lv.take(i as int).push(lv[i as int]));
                assert(eval(acc@, env) == lits_hold(env, lv.take(i as int)));
                assert(eval(l@, env) == (env(lits@[i as int].0@) == lits@[i as int].1));
                assert(lv[i as int] == (lits@[i as int].0@, lits@[i as int].1));
                if lits_hold(env, lv.take(i + 1)) {
                    assert(env(lv.take(i + 1)[i as int].0) == lv.take(i + 1)[i as int].1);
                    assert forall|k: int| 0 <= k < i implies env(#[trigger] lv.take(i as int)[k].0)
                        == lv.take(i as int)[k].1 by {
                        assert(lv.take(i + 1)[k] == lv.take(i as int)[k]);
                    }
                    assert(lv.take(i + 1)[i as int] == lv[i as int]);
                }
                if eval(next@, env) {
                    assert forall|k: int| 0 <= k < i + 1 implies env(#[trigger] lv.take(i + 1)[k].0)
                        == lv.take(i + 1)[k].1 by {
                        if k < i {
                            assert(lv.take(i + 1)[k] == lv.take(i as int)[k]);
                        } else {
                            assert(lv.take(i + 1)[k] == lv[i as int]);
                        }
                    }
                }
            }
        }
        acc = next;
        i += 1;
    }
    proof {
        assert(lits_view(lits@).take(n as int) =~= lits_view(lits@));
    }
    acc
}

/// Some term of a sum holds.
pub open spec fn some_holds(env: spec_fn(Seq<char>) -> bool, terms: Seq<BoolExpr>) -> bool {
    exists|k: int| 0 <= k < terms.len() && eval(#[trigger] terms[k]@, env)
}

/// The OR of a list of expressions, left-nested; the empty sum is `false`.
pub fn sum(terms: &Vec<BoolExpr>) -> (r: BoolExpr)
    ensures
        r@ == sum_toks(terms@.map_values(|e: BoolExpr| e@)),
        forall|env: spec_fn(Seq<char>) -> bool| #[trigger] eval(r@, env) == some_holds(env, terms@),
{
    let n = terms.len();
    if n == 0 {
        let r = BoolExpr::constant(false);
        proof {
            assert forall|env: spec_fn(Seq<char>) -> bool| #[trigger] eval(r@, env) == some_holds(
                env,
                terms@,
            ) by {
                assert(!eval(r@, env));
            }
        }
        return r;
    }
    let mut acc = terms[0].duplicate();
    let mut i: usize = 1;
    proof {
        assert(terms@.take(1).map_values(|e: BoolExpr| e@)[0] == terms@[0]@);
    }
    proof {
        assert forall|env: spec_fn(Seq<char>) -> bool| #[trigger] eval(acc@, env) == some_holds(
            env,
            terms@.take(1),
        ) by {
            if some_holds(env, terms@.take(1)) {
                let k = choose|k: int| 0 <= k < 1 && eval(#[trigger] terms@.take(1)[k]@, env);
                assert(terms@.take(1)[k] == terms@[0]);
            }
            if eval(acc@, env) {
                assert(terms@.take(1)[0] == terms@[0]);
            }
        }
    }
    while i < n
        invariant
            1 <= i <= n,
            n == terms@.len(),
            forall|env: spec_fn(Seq<char>) -> bool| #[trigger]
                eval(acc@, env) == some_holds(env, terms@.take(i as int)),
            acc@ == or_chain(terms@.take(i as int).map_values(|e: BoolExpr| e@)),
        decreases n - i,
    {
        let next = acc.or(&terms[i]);
        proof {
            let m1 = terms@.take(i + 1).map_values(|e: BoolExpr| e@);
            assert(m1.drop_last() =~= terms@.take(i as int).map_values(|e: BoolExpr| e@));
            assert(m1.last() == terms@[i as int]@);
        }
        proof {
            assert forall|env: spec_fn(Seq<char>) -> bool| #[trigger] eval(next@, env) == some_holds(
                env,
                terms@.take(i + 1),
            ) by {
                let t1 = terms@.take(i + 1);
                let t0 = terms@.take(i as int);
                assert(eval(acc@, env) == some_holds(env, t0));
                if some_holds(env, t1) {
                    let k = choose|k: int| 0 <= k < t1.len() && eval(#[trigger] t1[k]@, env);
                    if k < i {
                        assert(t0[k] == t1[k]);
                    } else {
                        assert(t1[k] == terms@[i as int]);
                    }
                }
                if some_holds(env, t0) {
                    let k = choose|k: int| 0 <= k < t0.len() && eval(#[trigger] t0[k]@, env);
                    assert(t1[k] == t0[k]);
                }
                if eval(terms@[i as int]@, env) {
                    assert(t1[i as int] == terms@[i as int]);
                }
            }
        }
        acc = next;
        i += 1;
    }
    proof {
        assert(terms@.take(n as int) =~= terms@);
    }
    acc
}

} // verus!
