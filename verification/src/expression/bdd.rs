//! Queries on an expression's Boolean function, answered through its reduced ordered decision
//! diagram (variables ordered by first occurrence in the expression).
use super::boolexpr::{first_occurrences, names_of, sort_names, strictly_sorted, BoolExpr};
use super::manager::{
    asg_of, law_same_function_same_paths, lemma_env_of_asg, lemma_eval_agree, Assignment, BddNode,
    count_reach, count_support, eval_node, in_support, lemma_same_by_names, lemma_terminals, paths,
    reach_set, represents, BddManager, FALSE_NODE, TRUE_NODE,
};
use super::rpn::{eval, SToken};
use super::syntax::Syntax;
use crate::cover::cube::Minterm;
use crate::symbol::{lemma_seq_lt_total, seq_lt, Symbol};
use vstd::prelude::*;

verus! {

/// The expression is true under every assignment.
pub open spec fn tautology(toks: Seq<SToken>) -> bool {
    forall|env: spec_fn(Seq<char>) -> bool| #[trigger] eval(toks, env)
}

/// The expression is false under every assignment.
pub open spec fn contradiction(toks: Seq<SToken>) -> bool {
    forall|env: spec_fn(Seq<char>) -> bool| !#[trigger] eval(toks, env)
}

/// `name` names a variable the sub-diagram rooted at `root` tests.
pub open spec fn support_name(
    nodes: Seq<BddNode>,
    vars: Seq<Seq<char>>,
    root: int,
    name: Seq<char>,
) -> bool {
    exists|v: int| 0 <= v < vars.len() && #[trigger] in_support(nodes, root, v) && vars[v] == name
}

/// The position of `name` in `header`, or `-1`.
pub open spec fn header_pos(header: Seq<Seq<char>>, name: Seq<char>) -> int {
    if exists|q: int| 0 <= q < header.len() && header[q] == name {
        choose|q: int| 0 <= q < header.len() && header[q] == name
    } else {
        -1
    }
}

/// The literals a path fixes, laid out over `header`; a later step on the same variable wins.
pub open spec fn fill(
    vals: Seq<Option<bool>>,
    p: Seq<(usize, bool)>,
    vars: Seq<Seq<char>>,
    header: Seq<Seq<char>>,
) -> Seq<Option<bool>>
    decreases p.len(),
{
    if p.len() == 0 {
        vals
    } else {
        let prev = fill(vals, p.drop_last(), vars, header);
        let v = p.last().0 as int;
        if v < vars.len() && header_pos(header, vars[v]) >= 0 {
            prev.update(header_pos(header, vars[v]), Some(p.last().1))
        } else {
            prev
        }
    }
}

/// The cube over `header` that a path to true denotes.
pub open spec fn path_cube(p: Seq<(usize, bool)>, vars: Seq<Seq<char>>, header: Seq<Seq<char>>) -> Seq<
    Option<bool>,
> {
    fill(Seq::new(header.len(), |i: int| None::<bool>), p, vars, header)
}

/// `r` holds one minterm per path to true of a reduced ordered diagram of the program `toks`,
/// low branches first, each over the dictionary-ordered names the diagram tests.
pub open spec fn minterms_of(toks: Seq<SToken>, r: Seq<Minterm>) -> bool {
    exists|nodes: Seq<BddNode>, root: int, header: Seq<Seq<char>>|
        #[trigger] minterms_from(toks, r, nodes, root, header)
}

/// `r` holds one minterm per path to true of the diagram `nodes` rooted at `root`, which
/// represents `toks`, each over `header`, the dictionary-ordered names the diagram tests.
pub open spec fn minterms_from(
    toks: Seq<SToken>,
    r: Seq<Minterm>,
    nodes: Seq<BddNode>,
    root: int,
    header: Seq<Seq<char>>,
) -> bool {
    &&& represents(nodes, first_occurrences(toks), root, toks)
    &&& strictly_sorted(header)
    &&& forall|n: Seq<char>| header.contains(n) <==> support_name(nodes, first_occurrences(toks), root, n)
    &&& r.len() == paths(nodes, root).len()
    &&& forall|k: int|
        0 <= k < r.len() ==> names_of(#[trigger] r[k].symbols@) == header && r[k].values@
            == path_cube(paths(nodes, root)[k], first_occurrences(toks), header)
}

spec fn minterm_ok(
    mt: Minterm,
    hv: Seq<Seq<char>>,
    p: Seq<(usize, bool)>,
    vars: Seq<Seq<char>>,
) -> bool {
    names_of(mt.symbols@) == hv && mt.values@ == path_cube(p, vars, hv)
}

proof fn lemma_sorted_distinct(v: Seq<Seq<char>>)
    requires
        strictly_sorted(v),
    ensures
        forall|i: int, j: int| 0 <= i < j < v.len() ==> v[i] != v[j],
{
    assert forall|i: int, j: int| 0 <= i < j < v.len() implies v[i] != v[j] by {
        lemma_seq_lt_total(v[i], v[j]);
    }
}

/// The names of the variables a sub-diagram tests, in dictionary order.
fn support_names(m: &BddManager, root: usize) -> (r: Vec<Symbol>)
    requires
        m.wf(),
        root < m.nodes().len(),
    ensures
        strictly_sorted(names_of(r@)),
        forall|n: Seq<char>|
            names_of(r@).contains(n) <==> support_name(m.nodes(), m.vars(), root as int, n),
{
    proof {
        m.lemma_distinct_vars();
    }
    let ids = m.support(root);
    let mut names: Vec<Symbol> = Vec::new();
    let mut k: usize = 0;
    while k < ids.len()
        invariant
            m.wf(),
            k <= ids@.len(),
            forall|a: int, b: int| 0 <= a < b < ids@.len() ==> ids@[a] < ids@[b],
            forall|v: usize| ids@.contains(v) <==> in_support(m.nodes(), root as int, v as int),
            forall|q: int| 0 <= q < ids@.len() ==> #[trigger] ids@[q] < m.vars().len(),
            names@.len() == k,
            forall|q: int| 0 <= q < k ==> #[trigger] names@[q]@ == m.vars()[ids@[q] as int],
        decreases ids@.len() - k,
    {
        let id = ids[k];
        match m.var_name(id) {
            Some(s) => {
                names.push(s.copy());
            },
            None => {
                names.push(Symbol::new(""));
            },
        }
        k += 1;
    }
    proof {
        let nm = names_of(names@);
        assert forall|a: int, b: int| 0 <= a < b < nm.len() implies nm[a] != nm[b] by {
            assert(ids@[a] < ids@[b]);
            assert(nm[a] == m.vars()[ids@[a] as int]);
            assert(nm[b] == m.vars()[ids@[b] as int]);
        }
        assert forall|n: Seq<char>| nm.contains(n) <==> support_name(
            m.nodes(),
            m.vars(),
            root as int,
            n,
        ) by {
            if nm.contains(n) {
                let q = choose|q: int| 0 <= q < nm.len() && nm[q] == n;
                assert(ids@.contains(ids@[q]));
                assert(in_support(m.nodes(), root as int, ids@[q] as int));
            }
            if support_name(m.nodes(), m.vars(), root as int, n) {
                let v = choose|v: int|
                    0 <= v < m.vars().len() && #[trigger] in_support(m.nodes(), root as int, v)
                        && m.vars()[v] == n;
                assert(ids@.contains(v as usize));
                let q = choose|q: int| 0 <= q < ids@.len() && ids@[q] == v as usize;
                assert(nm[q] == n);
            }
        }
    }
    sort_names(names)
}

impl<S: Syntax> BoolExpr<S> {
    /// Whether the expression is constant true.
    pub fn is_true(&self) -> (r: bool)
        ensures
            r == tautology(self@),
    {
        let (m, root) = BddManager::of_expr(self);
        proof {
            let nodes = m.nodes();
            let vars = m.vars();
            if tautology(self@) {
                assert forall|env: spec_fn(Seq<char>) -> bool|
                    eval_node(nodes, root as int, super::manager::asg_of(vars, env))
                        == #[trigger] eval_node(nodes, 1, super::manager::asg_of(vars, env)) by {
                    assert(eval(self@, env));
                    lemma_terminals(nodes, vars.len() as int, super::manager::asg_of(vars, env));
                }
                lemma_same_by_names(nodes, vars, root as int, 1);
            }
            if root == TRUE_NODE {
                assert forall|env: spec_fn(Seq<char>) -> bool| #[trigger] eval(self@, env) by {
                    assert(eval_node(nodes, root as int, super::manager::asg_of(vars, env)) == eval(
                        self@,
                        env,
                    ));
                }
            }
        }
        root == TRUE_NODE
    }

    /// Whether the expression is constant false.
    pub fn is_false(&self) -> (r: bool)
        ensures
            r == contradiction(self@),
    {
        let (m, root) = BddManager::of_expr(self);
        proof {
            let nodes = m.nodes();
            let vars = m.vars();
            if contradiction(self@) {
                assert forall|env: spec_fn(Seq<char>) -> bool|
                    eval_node(nodes, root as int, super::manager::asg_of(vars, env))
                        == #[trigger] eval_node(nodes, 0, super::manager::asg_of(vars, env)) by {
                    assert(!eval(self@, env));
                    lemma_terminals(nodes, vars.len() as int, super::manager::asg_of(vars, env));
                }
                lemma_same_by_names(nodes, vars, root as int, 0);
            }
            if root == FALSE_NODE {
                assert forall|env: spec_fn(Seq<char>) -> bool| !#[trigger] eval(self@, env) by {
                    assert(eval_node(nodes, root as int, super::manager::asg_of(vars, env)) == eval(
                        self@,
                        env,
                    ));
                }
            }
        }
        root == FALSE_NODE
    }

    /// Whether the expression is a constant function.
    pub fn is_terminal(&self) -> (r: bool)
        ensures
            r == (tautology(self@) || contradiction(self@)),
    {
        self.is_true() || self.is_false()
    }

    /// The number of distinct nodes, terminals included, of the expression's reduced ordered
    /// decision diagram.
    pub fn node_count(&self) -> (r: usize)
        ensures
            exists|nodes: Seq<BddNode>, root: int|
                #[trigger] represents(nodes, first_occurrences(self@), root, self@) && r
                    == count_reach(nodes, root, root + 1) && r == reach_set(nodes, root).len(),
    {
        let (m, root) = BddManager::of_expr(self);
        let r = m.node_count(root);
        proof {
            assert(represents(m.nodes(), first_occurrences(self@), root as int, self@));
        }
        r
    }

    /// The number of distinct variables the expression's reduced ordered decision diagram tests.
    pub fn var_count(&self) -> (r: usize)
        ensures
            exists|nodes: Seq<BddNode>, root: int|
                #[trigger] represents(nodes, first_occurrences(self@), root, self@) && r
                    == count_support(nodes, root, first_occurrences(self@).len() as int),
    {
        let (m, root) = BddManager::of_expr(self);
        let r = m.support(root).len();
        proof {
            assert(represents(m.nodes(), first_occurrences(self@), root as int, self@));
        }
        r
    }

    /// The variables the expression's function depends on (those its reduced ordered decision
    /// diagram tests), in dictionary order. A variable that cancels out, as in `a | !a`, is not
    /// reported.
    pub fn collect_variables(&self) -> (r: Vec<Symbol>)
        ensures
            strictly_sorted(names_of(r@)),
            exists|nodes: Seq<BddNode>, root: int|
                #[trigger] represents(nodes, first_occurrences(self@), root, self@) && forall|
                    n: Seq<char>,
                | names_of(r@).contains(n) <==> support_name(
                    nodes,
                    first_occurrences(self@),
                    root,
                    n,
                ),
    {
        let (m, root) = BddManager::of_expr(self);
        let r = support_names(&m, root);
        proof {
            assert(represents(m.nodes(), first_occurrences(self@), root as int, self@));
        }
        r
    }

    /// The paths of the expression's reduced ordered decision diagram to true, each as a
    /// minterm over the dictionary-ordered variables the diagram tests, low branches first.
    #[verifier::loop_isolation(false)]
    pub fn to_cubes(&self) -> (r: Vec<Minterm>)
        ensures
            minterms_of(self@, r@),
    {
        let (m, root) = BddManager::of_expr(self);
        let header = support_names(&m, root);
        let ghost hv = names_of(header@);
        let ghost vars = m.vars();
        let ghost nodes = m.nodes();
        proof {
            lemma_sorted_distinct(hv);
        }
        // Position in the header of each variable id.
        let nv = m.var_count();
        let hn = header.len();
        let mut pos_of: Vec<Option<usize>> = Vec::new();
        let mut v: usize = 0;
        while v < nv
            invariant
                v <= nv,
                nv == vars.len(),
                vars == m.vars(),
                hn == hv.len(),
                hv == names_of(header@),
                forall|i: int, j: int| 0 <= i < j < hv.len() ==> hv[i] != hv[j],
                pos_of@.len() == v,
                forall|u: int|
                    0 <= u < v ==> match #[trigger] pos_of@[u] {
                        Some(q) => q < hv.len() && q as int == header_pos(hv, vars[u]),
                        None => header_pos(hv, vars[u]) < 0,
                    },
            decreases nv - v,
        {
            let name = m.var_name(v);
            let mut found: Option<usize> = None;
            match name {
                Some(s) => {
                    let mut q: usize = 0;
                    while q < hn && found.is_none()
                        invariant
                            q <= hn,
                            hn == hv.len(),
                            hv == names_of(header@),
                            s@ == vars[v as int],
                            found matches Some(x) ==> x < hn && hv[x as int] == s@,
                            found is None ==> forall|t: int| 0 <= t < q ==> hv[t] != s@,
                        decreases hn - q,
                    {
                        if header[q].same_as(s) {
                            found = Some(q);
                        }
                        q += 1;
                    }
                    proof {
                        match found {
                            Some(q) => {
                                assert(hv[q as int] == s@);
                                let c = choose|c: int| 0 <= c < hv.len() && hv[c] == s@;
                                if c != q {
                                    if c < q {
                                        assert(hv[c] != hv[q as int]);
                                    } else {
                                        assert(hv[q as int] != hv[c]);
                                    }
                                }
                            },
                            None => {},
                        }
                    }
                },
                None => {},
            }
            pos_of.push(found);
            v += 1;
        }
        let all_paths = m.collect_paths(root);
        let ghost ps = paths(nodes, root as int);
        let mut out: Vec<Minterm> = Vec::new();
        let mut k: usize = 0;
        while k < all_paths.len()
            invariant
                k <= all_paths@.len(),
                all_paths@.map_values(|p: Vec<(usize, bool)>| p@) == ps,
                nv == vars.len(),
                hn == hv.len(),
                hv == names_of(header@),
                pos_of@.len() == nv,
                forall|u: int|
                    0 <= u < nv ==> match #[trigger] pos_of@[u] {
                        Some(q) => q < hv.len() && q as int == header_pos(hv, vars[u]),
                        None => header_pos(hv, vars[u]) < 0,
                    },
                out@.len() == k,
                forall|j: int| 0 <= j < k ==> minterm_ok(#[trigger] out@[j], hv, ps[j], vars),
            decreases all_paths@.len() - k,
        {
            let path = &all_paths[k];
            let ghost pk = path@;
            proof {
                assert(ps[k as int] == pk);
            }
            let mut vals: Vec<Option<bool>> = Vec::new();
            let mut i: usize = 0;
            while i < hn
                invariant
                    i <= hn,
                    vals@.len() == i,
                    forall|t: int| 0 <= t < i ==> #[trigger] vals@[t] == None::<bool>,
                decreases hn - i,
            {
                vals.push(None);
                i += 1;
            }
            proof {
                assert(vals@ =~= fill(Seq::new(hv.len(), |i: int| None::<bool>), pk.take(0), vars, hv));
            }
            let mut t: usize = 0;
            while t < path.len()
                invariant
                    t <= pk.len(),
                    pk == path@,
                    nv == vars.len(),
                    pos_of@.len() == nv,
                    forall|u: int|
                        0 <= u < nv ==> match #[trigger] pos_of@[u] {
                            Some(q) => q < hv.len() && q as int == header_pos(hv, vars[u]),
                            None => header_pos(hv, vars[u]) < 0,
                        },
                    vals@ == fill(Seq::new(hv.len(), |i: int| None::<bool>), pk.take(t as int), vars, hv),
                    vals@.len() == hv.len(),
                decreases pk.len() - t,
            {
                let (var, b) = path[t];
                proof {
                    assert(pk.take(t + 1).drop_last() =~= pk.take(t as int));
                    assert(pk.take(t + 1).last() == pk[t as int]);
                }
                if var < nv {
                    match pos_of[var] {
                        Some(q) => {
                            vals.set(q, Some(b));
                        },
                        None => {},
                    }
                }
                t += 1;
            }
            proof {
                assert(pk.take(pk.len() as int) =~= pk);
            }
            let mut syms: Vec<Symbol> = Vec::new();
            let mut i: usize = 0;
            while i < hn
                invariant
                    i <= hn,
                    hn == hv.len(),
                    hv == names_of(header@),
                    syms@.len() == i,
                    forall|q: int| 0 <= q < i ==> #[trigger] syms@[q]@ == hv[q],
                decreases hn - i,
            {
                syms.push(header[i].copy());
                i += 1;
            }
            proof {
                assert(names_of(syms@) =~= hv);
                assert(vals@ == path_cube(ps[k as int], vars, hv));
            }
            let ghost before = out@;
            let mt = Minterm { symbols: syms, values: vals };
            out.push(mt);
            proof {
                assert(out@[k as int] == mt);
                assert(minterm_ok(mt, hv, ps[k as int], vars));
                assert forall|j: int| 0 <= j < k + 1 implies minterm_ok(
                    #[trigger] out@[j],
                    hv,
                    ps[j],
                    vars,
                ) by {
                    if j < k {
                        assert(out@[j] == before[j]);
                    }
                }
            }
            k += 1;
        }
        proof {
            let fo = first_occurrences(self@);
            assert(represents(m.nodes(), fo, root as int, self@));
            assert(strictly_sorted(hv));
            assert(ps.len() == all_paths@.len());
            assert(forall|n: Seq<char>| hv.contains(n) <==> support_name(nodes, fo, root as int, n));
            assert forall|j: int|
                0 <= j < out@.len() implies names_of(#[trigger] out@[j].symbols@) == hv && out@[j].values@
                    == path_cube(ps[j], fo, hv) by {
                assert(minterm_ok(out@[j], hv, ps[j], vars));
            }
            assert(minterms_from(self@, out@, nodes, root as int, hv));
        }
        out
    }
}


/// Two dictionary-sorted name lists with the same names are the same list.
proof fn lemma_sorted_same(a: Seq<Seq<char>>, b: Seq<Seq<char>>)
    requires
        strictly_sorted(a),
        strictly_sorted(b),
        forall|n: Seq<char>| a.contains(n) <==> b.contains(n),
    ensures
        a == b,
    decreases a.len(),
{
    if a.len() == 0 {
        if b.len() > 0 {
            assert(b.contains(b[0]));
        }
        assert(a =~= b);
    } else {
        assert(a.contains(a[0]));
        assert(b.contains(a[0]));
        assert(b.contains(b[0]));
        assert(a.contains(b[0]));
        let p = choose|p: int| 0 <= p < b.len() && b[p] == a[0];
        let q = choose|q: int| 0 <= q < a.len() && a[q] == b[0];
        if a[0] != b[0] {
            assert(seq_lt(b[0], b[p]));
            assert(seq_lt(a[0], a[q]));
            lemma_seq_lt_total(a[0], b[0]);
        }
        lemma_sorted_distinct(a);
        lemma_sorted_distinct(b);
        let ta = a.drop_first();
        let tb = b.drop_first();
        assert(strictly_sorted(ta)) by {
            assert forall|i: int, j: int| 0 <= i < j < ta.len() implies seq_lt(ta[i], ta[j]) by {
                assert(ta[i] == a[i + 1] && ta[j] == a[j + 1]);
            }
        }
        assert(strictly_sorted(tb)) by {
            assert forall|i: int, j: int| 0 <= i < j < tb.len() implies seq_lt(tb[i], tb[j]) by {
                assert(tb[i] == b[i + 1] && tb[j] == b[j + 1]);
            }
        }
        assert forall|n: Seq<char>| ta.contains(n) <==> tb.contains(n) by {
            if ta.contains(n) {
                let i = choose|i: int| 0 <= i < ta.len() && ta[i] == n;
                assert(a[i + 1] == n);
                assert(a.contains(n));
                let j = choose|j: int| 0 <= j < b.len() && b[j] == n;
                assert(j != 0);
                assert(tb[j - 1] == n);
            }
            if tb.contains(n) {
                let i = choose|i: int| 0 <= i < tb.len() && tb[i] == n;
                assert(b[i + 1] == n);
                assert(b.contains(n));
                let j = choose|j: int| 0 <= j < a.len() && a[j] == n;
                assert(j != 0);
                assert(ta[j - 1] == n);
            }
        }
        lemma_sorted_same(ta, tb);
        assert forall|i: int| 0 <= i < a.len() implies a[i] == b[i] by {
            if i > 0 {
                assert(a[i] == ta[i - 1]);
                assert(b[i] == tb[i - 1]);
            }
        }
        assert(a =~= b);
    }
}

/// The minterms of an expression do not depend on the diagram they are read from: any two
/// results of [`BoolExpr::to_cubes`] on one expression list the same minterms, in the same
/// order, over the same names.
pub proof fn law_minterms_repeatable(toks: Seq<SToken>, r1: Seq<Minterm>, r2: Seq<Minterm>)
    requires
        minterms_of(toks, r1),
        minterms_of(toks, r2),
    ensures
        r1.len() == r2.len(),
        forall|k: int|
            0 <= k < r1.len() ==> names_of(#[trigger] r1[k].symbols@) == names_of(r2[k].symbols@)
                && r1[k].values@ == r2[k].values@,
{
    let fo = first_occurrences(toks);
    let (n1, root1, h1) = choose|nodes: Seq<BddNode>, root: int, header: Seq<Seq<char>>|
        #[trigger] minterms_from(toks, r1, nodes, root, header);
    let (n2, root2, h2) = choose|nodes: Seq<BddNode>, root: int, header: Seq<Seq<char>>|
        #[trigger] minterms_from(toks, r2, nodes, root, header);
    assert(minterms_from(toks, r1, n1, root1, h1));
    assert(minterms_from(toks, r2, n2, root2, h2));
    let nv = fo.len() as int;
    assert forall|asg: Assignment| #[trigger] eval_node(n1, root1, asg) == eval_node(n2, root2, asg) by {
        let env = lemma_env_of_asg(fo, asg);
        lemma_eval_agree(n1, nv, 0, root1, asg, asg_of(fo, env));
        lemma_eval_agree(n2, nv, 0, root2, asg, asg_of(fo, env));
        assert(eval_node(n1, root1, asg_of(fo, env)) == eval(toks, env));
        assert(eval_node(n2, root2, asg_of(fo, env)) == eval(toks, env));
    }
    law_same_function_same_paths(n1, nv, root1, n2, root2);
    assert forall|n: Seq<char>| h1.contains(n) <==> h2.contains(n) by {
        if support_name(n1, fo, root1, n) {
            let v = choose|v: int| 0 <= v < fo.len() && #[trigger] in_support(n1, root1, v) && fo[v] == n;
            assert(in_support(n2, root2, v));
        }
        if support_name(n2, fo, root2, n) {
            let v = choose|v: int| 0 <= v < fo.len() && #[trigger] in_support(n2, root2, v) && fo[v] == n;
            assert(in_support(n1, root1, v));
        }
    }
    lemma_sorted_same(h1, h2);
}

} // verus!
