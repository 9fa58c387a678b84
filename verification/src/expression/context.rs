//! Scoped decision-diagram namespaces.
//!
//! A [`BddContext`] owns one [`BddManager`] and hands out [`Bdd`] handles to canonical nodes in
//! it. Because nodes are hash-consed and reduced, two handles of one context denote the same
//! Boolean function exactly when they are equal, so equivalence is a single comparison.
use super::boolexpr::BoolExpr;
use super::parser::{parsed, SyntaxKind};
use super::error::{reports_input, ParseBoolExprError};
use super::manager::{
    asg_of, count_reach, count_support, eval_node, extends, is_prefix,
    lemma_lift_val, lemma_paths, lemma_paths_vars, lemma_same_by_names, lemma_terminals,
    paths, reach_set, upd, BddManager, BddNode, FALSE_NODE, TRUE_NODE,
};
use super::rpn::eval;
use super::sop::{lits_hold, lits_view, product, some_holds, sum};
use super::syntax::Syntax;
use crate::symbol::Symbol;
use std::marker::PhantomData;
use vstd::prelude::*;

verus! {

/// Seals [`Brand`]: only this crate names brands.
pub trait Sealed {}

/// A zero-sized type naming one diagram namespace.
pub trait Brand: Sealed {}

/// The default brand.
pub struct Global;

impl Sealed for Global {}

impl Brand for Global {}

/// A handle to a canonical node of a [`BddContext`].
#[derive(Clone, Copy, Debug, PartialEq, Eq, Hash, Structural)]
pub struct Bdd {
    id: usize,
}

impl Bdd {
    /// The node id the handle refers to.
    pub closed spec fn node(self) -> int {
        self.id as int
    }
}

/// `env` with `name` set to `x`.
pub open spec fn env_upd(env: spec_fn(Seq<char>) -> bool, name: Seq<char>, x: bool) -> spec_fn(
    Seq<char>,
) -> bool {
    |s: Seq<char>| if s == name { x } else { env(s) }
}

/// An owned diagram namespace.
pub struct BddContext<B: Brand = Global> {
    manager: BddManager,
    _brand: PhantomData<B>,
}

impl<B: Brand> BddContext<B> {
    /// The context's tables are consistent.
    pub closed spec fn wf(&self) -> bool {
        self.manager.wf()
    }

    /// The context's node table.
    pub closed spec fn nodes(&self) -> Seq<BddNode> {
        self.manager.nodes()
    }

    /// The number of variables of this context.
    pub closed spec fn nvars(&self) -> int {
        self.manager.nvars()
    }

    /// `f` refers to a node of this context.
    pub closed spec fn owns(&self, f: Bdd) -> bool {
        f.id < self.manager.nodes().len()
    }

    /// The truth value of `f` under an assignment of names.
    pub closed spec fn denotes(&self, f: Bdd, env: spec_fn(Seq<char>) -> bool) -> bool {
        eval_node(self.manager.nodes(), f.id as int, asg_of(self.manager.vars(), env))
    }

    /// Every handle of `old` is still a handle of `self` and denotes the same function.
    pub closed spec fn keeps(&self, old: &BddContext<B>) -> bool {
        &&& extends(old.manager.nodes(), self.manager.nodes())
        &&& is_prefix(old.manager.vars(), self.manager.vars())
    }

    /// Canonicity of handles: two handles of one context that denote the same function under
    /// every assignment of names are the same handle, so `==` on handles is equivalence.
    pub proof fn law_same_function_same_handle(&self, f: Bdd, g: Bdd)
        requires
            self.wf(),
            self.owns(f),
            self.owns(g),
            forall|env: spec_fn(Seq<char>) -> bool| #[trigger] self.denotes(f, env) == self.denotes(g, env),
        ensures
            f == g,
    {
        self.manager.lemma_distinct_vars();
        assert forall|env: spec_fn(Seq<char>) -> bool|
            eval_node(self.manager.nodes(), f.id as int, asg_of(self.manager.vars(), env))
                == #[trigger] eval_node(self.manager.nodes(), g.id as int, asg_of(self.manager.vars(), env)) by {
            assert(self.denotes(f, env) == self.denotes(g, env));
        }
        lemma_same_by_names(self.manager.nodes(), self.manager.vars(), f.id as int, g.id as int);
    }

    /// Handles survive growth.
    pub proof fn lemma_keeps(&self, old: &BddContext<B>, f: Bdd)
        requires
            old.wf(),
            self.keeps(old),
            old.owns(f),
        ensures
            self.owns(f),
            forall|env: spec_fn(Seq<char>) -> bool| #[trigger]
                self.denotes(f, env) == old.denotes(f, env),
    {
        assert forall|env: spec_fn(Seq<char>) -> bool| #[trigger] self.denotes(f, env) == old.denotes(
            f,
            env,
        ) by {
            lemma_lift_val(
                old.manager.nodes(),
                old.manager.vars(),
                self.manager.nodes(),
                self.manager.vars(),
                f.id as int,
                env,
            );
        }
    }

    /// A fresh context with no variables.
    pub fn new() -> (r: BddContext<B>)
        ensures
            r.wf(),
    {
        BddContext { manager: BddManager::new(), _brand: PhantomData }
    }

    /// The constant `value`.
    pub fn constant(&self, value: bool) -> (r: Bdd)
        requires
            self.wf(),
        ensures
            self.owns(r),
            forall|env: spec_fn(Seq<char>) -> bool| #[trigger] self.denotes(r, env) == value,
    {
        let r = Bdd {
            id: if value {
                TRUE_NODE
            } else {
                FALSE_NODE
            },
        };
        proof {
            assert forall|env: spec_fn(Seq<char>) -> bool| #[trigger] self.denotes(r, env) == value by {
                lemma_terminals(self.manager.nodes(), self.manager.nvars(), asg_of(self.manager.vars(), env));
            }
        }
        r
    }

    /// The variable called `name`, registering it on first use.
    pub fn var(&mut self, name: &str) -> (r: Bdd)
        requires
            old(self).wf(),
        ensures
            final(self).wf(),
            final(self).keeps(old(self)),
            final(self).owns(r),
            forall|env: spec_fn(Seq<char>) -> bool| #[trigger] final(self).denotes(r, env) == env(
                name@,
            ),
    {
        let v = self.manager.make_var(name);
        let nv = self.manager.var_count();
        assert(v < nv);
        let id = self.manager.make_node(v, FALSE_NODE, TRUE_NODE);
        proof {
            assert forall|env: spec_fn(Seq<char>) -> bool| #[trigger] self.denotes(Bdd { id }, env)
                == env(name@) by {
                lemma_terminals(self.manager.nodes(), self.manager.nvars(), asg_of(self.manager.vars(), env));
            }
        }
        Bdd { id }
    }

    /// The diagram of an expression.
    pub fn build<S: Syntax>(&mut self, e: &BoolExpr<S>) -> (r: Bdd)
        requires
            old(self).wf(),
        ensures
            final(self).wf(),
            final(self).keeps(old(self)),
            final(self).owns(r),
            forall|env: spec_fn(Seq<char>) -> bool| #[trigger] final(self).denotes(r, env) == eval(
                e@,
                env,
            ),
    {
        let ghost v0 = self.manager.vars();
        let id = self.manager.build_expr(e);
        proof {
            super::manager::lemma_intern_all_prefix(v0, e@);
        }
        Bdd { id }
    }

    /// Parse an expression in the standard syntax into this context.
    pub fn parse(&mut self, input: &str) -> (r: Result<Bdd, ParseBoolExprError>)
        requires
            old(self).wf(),
        ensures
            final(self).wf(),
            final(self).keeps(old(self)),
            match parsed(SyntaxKind::Std, input@) {
                Some(t) => r matches Ok(f) && final(self).owns(f) && forall|
                    env: spec_fn(Seq<char>) -> bool,
                | #[trigger] final(self).denotes(f, env) == eval(t, env),
                None => r is Err,
            },
            r matches Err(e) ==> reports_input(e, input@),
    {
        match BoolExpr::parse(input) {
            Ok(e) => {
                e.assert_well_formed();
                let f = self.build(&e);
                Ok(f)
            },
            Err(err) => Err(err),
        }
    }

    /// If-then-else.
    pub fn ite(&mut self, f: Bdd, g: Bdd, h: Bdd) -> (r: Bdd)
        requires
            old(self).wf(),
            old(self).owns(f),
            old(self).owns(g),
            old(self).owns(h),
        ensures
            final(self).wf(),
            final(self).keeps(old(self)),
            final(self).owns(r),
            forall|env: spec_fn(Seq<char>) -> bool| #[trigger]
                final(self).denotes(r, env) == if old(self).denotes(f, env) {
                    old(self).denotes(g, env)
                } else {
                    old(self).denotes(h, env)
                },
    {
        let ghost n0 = self.manager.nodes();
        let id = self.manager.ite(f.id, g.id, h.id);
        proof {
            super::manager::lemma_extends_all(n0, self.manager.nodes());
            assert forall|env: spec_fn(Seq<char>) -> bool| #[trigger] self.denotes(Bdd { id }, env)
                == if old(self).denotes(f, env) {
                old(self).denotes(g, env)
            } else {
                old(self).denotes(h, env)
            } by {
                let a = asg_of(self.manager.vars(), env);
                assert(eval_node(self.manager.nodes(), id as int, a) == super::manager::ite_fn(
                    self.manager.nodes(),
                    f.id as int,
                    g.id as int,
                    h.id as int,
                    a,
                ));
            }
        }
        Bdd { id }
    }

    /// Conjunction.
    pub fn and(&mut self, f: Bdd, g: Bdd) -> (r: Bdd)
        requires
            old(self).wf(),
            old(self).owns(f),
            old(self).owns(g),
        ensures
            final(self).wf(),
            final(self).keeps(old(self)),
            final(self).owns(r),
            forall|env: spec_fn(Seq<char>) -> bool| #[trigger]
                final(self).denotes(r, env) == (old(self).denotes(f, env) && old(self).denotes(
                    g,
                    env,
                )),
    {
        let z = self.constant(false);
        let r = self.ite(f, g, z);
        r
    }

    /// Disjunction.
    pub fn or(&mut self, f: Bdd, g: Bdd) -> (r: Bdd)
        requires
            old(self).wf(),
            old(self).owns(f),
            old(self).owns(g),
        ensures
            final(self).wf(),
            final(self).keeps(old(self)),
            final(self).owns(r),
            forall|env: spec_fn(Seq<char>) -> bool| #[trigger]
                final(self).denotes(r, env) == (old(self).denotes(f, env) || old(self).denotes(
                    g,
                    env,
                )),
    {
        let o = self.constant(true);
        let r = self.ite(f, o, g);
        r
    }

    /// Negation.
    pub fn not(&mut self, f: Bdd) -> (r: Bdd)
        requires
            old(self).wf(),
            old(self).owns(f),
        ensures
            final(self).wf(),
            final(self).keeps(old(self)),
            final(self).owns(r),
            forall|env: spec_fn(Seq<char>) -> bool| #[trigger]
                final(self).denotes(r, env) == !old(self).denotes(f, env),
    {
        let z = self.constant(false);
        let o = self.constant(true);
        let r = self.ite(f, z, o);
        r
    }

    /// Exclusive-or.
    pub fn xor(&mut self, f: Bdd, g: Bdd) -> (r: Bdd)
        requires
            old(self).wf(),
            old(self).owns(f),
            old(self).owns(g),
        ensures
            final(self).wf(),
            final(self).keeps(old(self)),
            final(self).owns(r),
            forall|env: spec_fn(Seq<char>) -> bool| #[trigger]
                final(self).denotes(r, env) == (old(self).denotes(f, env) != old(self).denotes(
                    g,
                    env,
                )),
    {
        let ghost n0 = self.manager.nodes();
        let id = self.manager.xor(f.id, g.id);
        proof {
            super::manager::lemma_extends_all(n0, self.manager.nodes());
        }
        Bdd { id }
    }

    /// Whether two handles denote the same Boolean function: a single comparison, since nodes
    /// are canonical.
    pub fn equivalent(&self, f: Bdd, g: Bdd) -> (r: bool)
        requires
            self.wf(),
            self.owns(f),
            self.owns(g),
        ensures
            r == (forall|env: spec_fn(Seq<char>) -> bool| #[trigger] self.denotes(f, env)
                == self.denotes(g, env)),
            r == (f == g),
    {
        proof {
            if forall|env: spec_fn(Seq<char>) -> bool| #[trigger] self.denotes(f, env) == self.denotes(
                g,
                env,
            ) {
                self.manager.lemma_distinct_vars();
                assert forall|env: spec_fn(Seq<char>) -> bool|
                    eval_node(self.manager.nodes(), f.id as int, asg_of(self.manager.vars(), env))
                        == #[trigger] eval_node(
                        self.manager.nodes(),
                        g.id as int,
                        asg_of(self.manager.vars(), env),
                    ) by {
                    assert(self.denotes(f, env) == self.denotes(g, env));
                }
                lemma_same_by_names(self.manager.nodes(), self.manager.vars(), f.id as int, g.id as int);
            }
        }
        f.id == g.id
    }

    /// Whether `f` is constant true.
    pub fn is_true(&self, f: Bdd) -> (r: bool)
        requires
            self.wf(),
            self.owns(f),
        ensures
            r == (forall|env: spec_fn(Seq<char>) -> bool| #[trigger] self.denotes(f, env)),
    {
        let t = self.constant(true);
        self.equivalent(f, t)
    }

    /// Whether `f` is constant false.
    pub fn is_false(&self, f: Bdd) -> (r: bool)
        requires
            self.wf(),
            self.owns(f),
        ensures
            r == (forall|env: spec_fn(Seq<char>) -> bool| !#[trigger] self.denotes(f, env)),
    {
        let z = self.constant(false);
        self.equivalent(f, z)
    }

    /// `f` with the variable `name` fixed to `value`; `f` itself when `name` is not a variable
    /// of this context.
    pub fn restrict(&mut self, f: Bdd, name: &str, value: bool) -> (r: Bdd)
        requires
            old(self).wf(),
            old(self).owns(f),
        ensures
            final(self).wf(),
            final(self).keeps(old(self)),
            final(self).owns(r),
            forall|env: spec_fn(Seq<char>) -> bool| #[trigger]
                final(self).denotes(r, env) == old(self).denotes(f, env_upd(env, name@, value)),
    {
        proof {
            self.manager.lemma_distinct_vars();
        }
        match self.manager.var_id(name) {
            None => {
                proof {
                    assert forall|env: spec_fn(Seq<char>) -> bool| #[trigger] self.denotes(f, env)
                        == self.denotes(f, env_upd(env, name@, value)) by {
                        lemma_asg_upd_absent(self.manager.vars(), env, name@, value);
                    }
                }
                f
            },
            Some(v) => {
                let ghost n0 = self.manager.nodes();
                let id = self.manager.restrict(f.id, v, value);
                proof {
                    super::manager::lemma_extends_all(n0, self.manager.nodes());
                    assert forall|env: spec_fn(Seq<char>) -> bool| #[trigger] self.denotes(
                        Bdd { id },
                        env,
                    ) == old(self).denotes(f, env_upd(env, name@, value)) by {
                        lemma_asg_upd(self.manager.vars(), env, v as int, value);
                    }
                }
                Bdd { id }
            },
        }
    }

    /// `f` with the variable `name` replaced by the function `g`; `f` itself when `name` is not
    /// a variable of this context.
    pub fn compose(&mut self, f: Bdd, name: &str, g: Bdd) -> (r: Bdd)
        requires
            old(self).wf(),
            old(self).owns(f),
            old(self).owns(g),
        ensures
            final(self).wf(),
            final(self).keeps(old(self)),
            final(self).owns(r),
            forall|env: spec_fn(Seq<char>) -> bool| #[trigger]
                final(self).denotes(r, env) == old(self).denotes(
                    f,
                    env_upd(env, name@, old(self).denotes(g, env)),
                ),
    {
        proof {
            self.manager.lemma_distinct_vars();
        }
        match self.manager.var_id(name) {
            None => {
                proof {
                    assert forall|env: spec_fn(Seq<char>) -> bool| #[trigger] self.denotes(f, env)
                        == self.denotes(f, env_upd(env, name@, self.denotes(g, env))) by {
                        lemma_asg_upd_absent(self.manager.vars(), env, name@, self.denotes(g, env));
                    }
                }
                f
            },
            Some(v) => {
                let ghost n0 = self.manager.nodes();
                let id = self.manager.compose(f.id, v, g.id);
                proof {
                    super::manager::lemma_extends_all(n0, self.manager.nodes());
                    assert forall|env: spec_fn(Seq<char>) -> bool| #[trigger] self.denotes(
                        Bdd { id },
                        env,
                    ) == old(self).denotes(f, env_upd(env, name@, old(self).denotes(g, env))) by {
                        let a = asg_of(self.manager.vars(), env);
                        assert(eval_node(self.manager.nodes(), id as int, a) == eval_node(
                            self.manager.nodes(),
                            f.id as int,
                            upd(a, v as int, eval_node(self.manager.nodes(), g.id as int, a)),
                        ));
                        lemma_asg_upd(self.manager.vars(), env, v as int, old(self).denotes(g, env));
                    }
                }
                Bdd { id }
            },
        }
    }

    /// A sum-of-products expression for `f`: one product of literals per path to true.
    pub fn to_expr(&self, f: Bdd) -> (r: BoolExpr)
        requires
            self.wf(),
            self.owns(f),
        ensures
            forall|env: spec_fn(Seq<char>) -> bool| #[trigger] eval(r@, env) == self.denotes(f, env),
    {
        let ghost nodes = self.manager.nodes();
        let ghost vars = self.manager.vars();
        let all = self.manager.collect_paths(f.id);
        let ghost ps = paths(nodes, f.id as int);
        proof {
            lemma_paths_vars(nodes, vars.len() as int, f.id as int);
        }
        let nv = self.manager.var_count();
        let mut terms: Vec<BoolExpr> = Vec::new();
        let mut k: usize = 0;
        while k < all.len()
            invariant
                self.wf(),
                nodes == self.manager.nodes(),
                vars == self.manager.vars(),
                nv == vars.len(),
                k <= all@.len(),
                all@.map_values(|p: Vec<(usize, bool)>| p@) == ps,
                forall|q: int, t: int|
                    0 <= q < ps.len() && 0 <= t < ps[q].len() ==> (#[trigger] ps[q][t]).0 < vars.len(),
                terms@.len() == k,
                forall|q: int, env: spec_fn(Seq<char>) -> bool|
                    0 <= q < k ==> #[trigger] eval(terms@[q]@, env) == super::manager::follows(
                        asg_of(vars, env),
                        ps[q],
                    ),
            decreases all@.len() - k,
        {
            let path = &all[k];
            proof {
                assert(ps[k as int] == path@);
            }
            let mut lits: Vec<(Symbol, bool)> = Vec::new();
            let mut t: usize = 0;
            while t < path.len()
                invariant
                    t <= path@.len(),
                    ps[k as int] == path@,
                    k < ps.len(),
                    nv == vars.len(),
                    vars == self.manager.vars(),
                    forall|q: int, t: int|
                        0 <= q < ps.len() && 0 <= t < ps[q].len() ==> (#[trigger] ps[q][t]).0 < vars.len(),
                    lits@.len() == t,
                    forall|j: int|
                        0 <= j < t ==> #[trigger] lits@[j] == (lits@[j].0, path@[j].1) && lits@[j].0@ == vars[path@[j].0 as int],
                decreases path@.len() - t,
            {
                let (v, b) = path[t];
                proof {
                    assert(ps[k as int][t as int] == path@[t as int]);
                }
                match self.manager.var_name(v) {
                    Some(s) => {
                        lits.push((s.copy(), b));
                    },
                    None => {
                        lits.push((Symbol::new(""), b));
                    },
                }
                t += 1;
            }
            let term = product(&lits);
            proof {
                assert forall|env: spec_fn(Seq<char>) -> bool| #[trigger] eval(term@, env)
                    == super::manager::follows(asg_of(vars, env), ps[k as int]) by {
                    let lv = lits_view(lits@);
                    let p = ps[k as int];
                    let a = asg_of(vars, env);
                    if lits_hold(env, lv) {
                        assert forall|j: int| 0 <= j < p.len() implies a(#[trigger] p[j].0 as int)
                            == p[j].1 by {
                            assert(lits@[j].0@ == vars[p[j].0 as int]);
                            assert(lv[j] == (vars[p[j].0 as int], p[j].1));
                            assert(env(lv[j].0) == lv[j].1);
                        }
                    }
                    if super::manager::follows(a, p) {
                        assert forall|j: int| 0 <= j < lv.len() implies env(#[trigger] lv[j].0)
                            == lv[j].1 by {
                            assert(lits@[j].0@ == vars[p[j].0 as int]);
                            assert(lv[j] == (vars[p[j].0 as int], p[j].1));
                            assert(a(p[j].0 as int) == p[j].1);
                        }
                    }
                }
            }
            terms.push(term);
            k += 1;
        }
        let r = sum(&terms);
        proof {
            assert forall|env: spec_fn(Seq<char>) -> bool| #[trigger] eval(r@, env) == self.denotes(
                f,
                env,
            ) by {
                let a = asg_of(vars, env);
                lemma_paths(nodes, vars.len() as int, f.id as int, a);
                if some_holds(env, terms@) {
                    let q = choose|q: int| 0 <= q < terms@.len() && eval(#[trigger] terms@[q]@, env);
                    assert(super::manager::follows(a, ps[q]));
                }
                if self.denotes(f, env) {
                    let q = choose|q: int| 0 <= q < ps.len() && super::manager::follows(a, #[trigger] ps[q]);
                    assert(eval(terms@[q]@, env));
                }
            }
        }
        r
    }

    /// The number of distinct nodes of `f`, terminals included.
    pub fn node_count(&self, f: Bdd) -> (r: usize)
        requires
            self.owns(f),
        ensures
            r == count_reach(self.nodes(), f.node(), f.node() + 1),
            r == reach_set(self.nodes(), f.node()).len(),
    {
        self.manager.node_count(f.id)
    }

    /// The number of distinct variables `f` tests.
    pub fn var_count(&self, f: Bdd) -> (r: usize)
        requires
            self.wf(),
            self.owns(f),
        ensures
            r == count_support(self.nodes(), f.node(), self.nvars()),
    {
        self.manager.support(f.id).len()
    }
}

impl Default for BddContext<Global> {
    fn default() -> (r: BddContext<Global>)
        ensures
            r.wf(),
    {
        BddContext::new()
    }
}

/// Setting a name that is not registered leaves the variable assignment unchanged.
proof fn lemma_asg_upd_absent(
    vars: Seq<Seq<char>>,
    env: spec_fn(Seq<char>) -> bool,
    name: Seq<char>,
    x: bool,
)
    requires
        !vars.contains(name),
    ensures
        asg_of(vars, env_upd(env, name, x)) == asg_of(vars, env),
{
    assert forall|v: int| #[trigger] asg_of(vars, env_upd(env, name, x))(v) == asg_of(vars, env)(v) by {
        if 0 <= v < vars.len() {
            assert(vars[v] != name);
        }
    }
    assert(asg_of(vars, env_upd(env, name, x)) =~= asg_of(vars, env));
}

/// Over distinct names, setting the name of variable `v` is setting variable `v`.
proof fn lemma_asg_upd(vars: Seq<Seq<char>>, env: spec_fn(Seq<char>) -> bool, v: int, x: bool)
    requires
        super::manager::distinct_names(vars),
        0 <= v < vars.len(),
    ensures
        asg_of(vars, env_upd(env, vars[v], x)) == upd(asg_of(vars, env), v, x),
{
    assert forall|u: int| #[trigger] asg_of(vars, env_upd(env, vars[v], x))(u) == upd(
        asg_of(vars, env),
        v,
        x,
    )(u) by {
        if 0 <= u < vars.len() && u != v {
            if u < v {
                assert(vars[u] != vars[v]);
            } else {
                assert(vars[v] != vars[u]);
            }
        }
    }
    assert(asg_of(vars, env_upd(env, vars[v], x)) =~= upd(asg_of(vars, env), v, x));
}

} // verus!
