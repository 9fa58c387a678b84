//! The binary decision diagram engine: a hash-consed table of reduced, ordered decision nodes.
//!
//! Nodes live in one vector and are addressed by position. Positions `0` and `1` hold the two
//! terminals; every other node tests a variable and points at two strictly earlier nodes, so the
//! table only ever grows and a node id stays valid for the manager's whole life. Variables are
//! ordered by first registration, and every decision node tests a variable that comes before the
//! variables of its children. Together with hash consing (no two nodes are equal) this makes the
//! representation canonical: two nodes denote the same Boolean function exactly when they are the
//! same node.
use crate::expression::boolexpr::{first_occurrences, BoolExpr};
use crate::expression::rpn::{
    bool_alg, eval, lemma_full, lemma_prefix, run, step, toks_view, wf_program, SToken, Token,
};
use crate::expression::syntax::Syntax;
use crate::index::{HashIndex, NameIndex};
use crate::symbol::Symbol;
use std::collections::HashMap;
use vstd::prelude::*;

verus! {

broadcast use vstd::std_specs::hash::group_hash_axioms;

/// Id of the constant-false terminal.
pub const FALSE_NODE: usize = 0;

/// Id of the constant-true terminal.
pub const TRUE_NODE: usize = 1;

/// One node of the diagram.
#[derive(Clone, Copy, Debug, PartialEq, Eq, Hash)]
pub enum BddNode {
    /// A constant.
    Terminal(bool),
    /// A test of variable `var`: follow `high` when it is true, `low` when it is false.
    Decision { var: usize, low: usize, high: usize },
}

/// A truth assignment to variable ids.
pub type Assignment = spec_fn(int) -> bool;

/// The variable a node tests; terminals sit below every variable.
pub open spec fn level(nodes: Seq<BddNode>, i: int) -> int {
    match nodes[i] {
        BddNode::Terminal(_) => usize::MAX as int,
        BddNode::Decision { var, .. } => var as int,
    }
}

/// The truth value of node `i` under an assignment.
pub open spec fn eval_node(nodes: Seq<BddNode>, i: int, asg: Assignment) -> bool
    decreases i,
{
    if 0 <= i < nodes.len() {
        match nodes[i] {
            BddNode::Terminal(b) => b,
            BddNode::Decision { var, low, high } => {
                if 0 <= low < i && 0 <= high < i {
                    if asg(var as int) {
                        eval_node(nodes, high as int, asg)
                    } else {
                        eval_node(nodes, low as int, asg)
                    }
                } else {
                    false
                }
            },
        }
    } else {
        false
    }
}

/// A decision node at position `i` that is reduced and ordered over `nvars` variables.
pub open spec fn node_ok(nodes: Seq<BddNode>, i: int, nvars: int) -> bool {
    match nodes[i] {
        BddNode::Terminal(_) => false,
        BddNode::Decision { var, low, high } => {
            &&& var < nvars
            &&& low < i
            &&& high < i
            &&& low != high
            &&& var < level(nodes, low as int)
            &&& var < level(nodes, high as int)
        },
    }
}

/// A reduced ordered decision diagram over `nvars` variables: the two terminals first, then
/// reduced, ordered decision nodes, no two of them equal.
pub open spec fn robdd(nodes: Seq<BddNode>, nvars: int) -> bool {
    &&& nodes.len() >= 2
    &&& nodes[0] == BddNode::Terminal(false)
    &&& nodes[1] == BddNode::Terminal(true)
    &&& forall|i: int| 2 <= i < nodes.len() ==> #[trigger] node_ok(nodes, i, nvars)
    &&& forall|i: int, j: int|
        2 <= i < nodes.len() && 2 <= j < nodes.len() && i != j ==> #[trigger] nodes[i]
            != #[trigger] nodes[j]
}

/// `new` keeps every node of `old` at its position.
pub open spec fn extends(old: Seq<BddNode>, new: Seq<BddNode>) -> bool {
    &&& old.len() <= new.len()
    &&& forall|k: int| 0 <= k < old.len() ==> #[trigger] new[k] == old[k]
}

/// The assignment `asg` with variable `v` set to `x`.
pub open spec fn upd(asg: Assignment, v: int, x: bool) -> Assignment {
    |u: int| if u == v { x } else { asg(u) }
}

/// The Boolean function `if f then g else h`, node-wise.
pub open spec fn ite_fn(nodes: Seq<BddNode>, f: int, g: int, h: int, asg: Assignment) -> bool {
    if eval_node(nodes, f, asg) {
        eval_node(nodes, g, asg)
    } else {
        eval_node(nodes, h, asg)
    }
}

/// Node `r` denotes `if f then g else h` under every assignment.
pub open spec fn is_ite(nodes: Seq<BddNode>, f: int, g: int, h: int, r: int) -> bool {
    forall|asg: Assignment| #[trigger]
        eval_node(nodes, r, asg) == ite_fn(nodes, f, g, h, asg)
}

/// Two nodes denote the same Boolean function.
pub open spec fn same_fn(nodes: Seq<BddNode>, a: int, b: int) -> bool {
    forall|asg: Assignment| #[trigger] eval_node(nodes, a, asg) == eval_node(nodes, b, asg)
}

/// A node's value does not change when the table grows.
pub proof fn lemma_eval_extends(old: Seq<BddNode>, new: Seq<BddNode>, i: int, asg: Assignment)
    requires
        extends(old, new),
        0 <= i < old.len(),
    ensures
        eval_node(new, i, asg) == eval_node(old, i, asg),
    decreases i,
{
    assert(new[i] == old[i]);
    match old[i] {
        BddNode::Terminal(_) => {},
        BddNode::Decision { var, low, high } => {
            if 0 <= low < i && 0 <= high < i {
                lemma_eval_extends(old, new, low as int, asg);
                lemma_eval_extends(old, new, high as int, asg);
            }
        },
    }
}

/// Every node value of `old` carries over to `new`, for every assignment.
pub proof fn lemma_extends_all(old: Seq<BddNode>, new: Seq<BddNode>)
    requires
        extends(old, new),
    ensures
        forall|i: int, asg: Assignment|
            0 <= i < old.len() ==> #[trigger] eval_node(new, i, asg) == eval_node(old, i, asg),
{
    assert forall|i: int, asg: Assignment| 0 <= i < old.len() implies #[trigger] eval_node(
        new,
        i,
        asg,
    ) == eval_node(old, i, asg) by {
        lemma_eval_extends(old, new, i, asg);
    }
}

/// A node only reads the variables at or below its own level.
pub proof fn lemma_eval_agree(
    nodes: Seq<BddNode>,
    nvars: int,
    lo: int,
    i: int,
    a1: Assignment,
    a2: Assignment,
)
    requires
        robdd(nodes, nvars),
        0 <= i < nodes.len(),
        lo <= level(nodes, i),
        forall|v: int| lo <= v < nvars ==> #[trigger] a1(v) == a2(v),
    ensures
        eval_node(nodes, i, a1) == eval_node(nodes, i, a2),
    decreases i,
{
    if i >= 2 {
        assert(node_ok(nodes, i, nvars));
        match nodes[i] {
            BddNode::Terminal(_) => {},
            BddNode::Decision { var, low, high } => {
                lemma_eval_agree(nodes, nvars, lo, low as int, a1, a2);
                lemma_eval_agree(nodes, nvars, lo, high as int, a1, a2);
            },
        }
    }
}

/// Setting a variable above a node's level does not change its value.
pub proof fn lemma_eval_upd(nodes: Seq<BddNode>, nvars: int, i: int, asg: Assignment, v: int, x: bool)
    requires
        robdd(nodes, nvars),
        0 <= i < nodes.len(),
        v < level(nodes, i),
    ensures
        eval_node(nodes, i, upd(asg, v, x)) == eval_node(nodes, i, asg),
{
    lemma_eval_agree(nodes, nvars, v + 1, i, upd(asg, v, x), asg);
}

/// The terminals are the constants.
pub proof fn lemma_terminals(nodes: Seq<BddNode>, nvars: int, asg: Assignment)
    requires
        robdd(nodes, nvars),
    ensures
        eval_node(nodes, 0, asg) == false,
        eval_node(nodes, 1, asg) == true,
{
}

/// A decision node's value, unfolded.
pub proof fn lemma_eval_decision(nodes: Seq<BddNode>, nvars: int, i: int, asg: Assignment)
    requires
        robdd(nodes, nvars),
        2 <= i < nodes.len(),
    ensures
        nodes[i] is Decision,
        eval_node(nodes, i, asg) == if asg(nodes[i]->var as int) {
            eval_node(nodes, nodes[i]->high as int, asg)
        } else {
            eval_node(nodes, nodes[i]->low as int, asg)
        },
{
    assert(node_ok(nodes, i, nvars));
}

/// Canonicity: in a reduced ordered diagram, two nodes that denote the same Boolean function are
/// the same node.
pub proof fn lemma_canonical(nodes: Seq<BddNode>, nvars: int, a: int, b: int)
    requires
        robdd(nodes, nvars),
        0 <= a < nodes.len(),
        0 <= b < nodes.len(),
        same_fn(nodes, a, b),
    ensures
        a == b,
    decreases a + b, if level(nodes, a) <= level(nodes, b) {
        0int
    } else {
        1int
    },
{
    let f0: Assignment = |v: int| false;
    if a < 2 && b < 2 {
        assert(eval_node(nodes, a, f0) == eval_node(nodes, b, f0));
    } else if level(nodes, a) > level(nodes, b) {
        assert forall|asg: Assignment| #[trigger] eval_node(nodes, b, asg) == eval_node(
            nodes,
            a,
            asg,
        ) by {
            assert(eval_node(nodes, a, asg) == eval_node(nodes, b, asg));
        }
        lemma_canonical(nodes, nvars, b, a);
    } else {
        // `a` is a decision node testing the smaller variable.
        assert(a >= 2) by {
            if a < 2 {
                assert(b >= 2);
                assert(node_ok(nodes, b, nvars));
            }
        }
        assert(node_ok(nodes, a, nvars));
        let v = nodes[a]->var as int;
        let al = nodes[a]->low as int;
        let ah = nodes[a]->high as int;
        if level(nodes, b) == v {
            assert(b >= 2) by {
                if b < 2 {
                    assert(level(nodes, b) == usize::MAX as int);
                }
            }
            assert(node_ok(nodes, b, nvars));
            let bl = nodes[b]->low as int;
            let bh = nodes[b]->high as int;
            assert forall|asg: Assignment| #[trigger] eval_node(nodes, al, asg) == eval_node(
                nodes,
                bl,
                asg,
            ) by {
                let a0 = upd(asg, v, false);
                assert(eval_node(nodes, a, a0) == eval_node(nodes, b, a0));
                lemma_eval_decision(nodes, nvars, a, a0);
                lemma_eval_decision(nodes, nvars, b, a0);
                lemma_eval_upd(nodes, nvars, al, asg, v, false);
                lemma_eval_upd(nodes, nvars, bl, asg, v, false);
            }
            assert forall|asg: Assignment| #[trigger] eval_node(nodes, ah, asg) == eval_node(
                nodes,
                bh,
                asg,
            ) by {
                let a1 = upd(asg, v, true);
                assert(eval_node(nodes, a, a1) == eval_node(nodes, b, a1));
                lemma_eval_decision(nodes, nvars, a, a1);
                lemma_eval_decision(nodes, nvars, b, a1);
                lemma_eval_upd(nodes, nvars, ah, asg, v, true);
                lemma_eval_upd(nodes, nvars, bh, asg, v, true);
            }
            lemma_canonical(nodes, nvars, al, bl);
            lemma_canonical(nodes, nvars, ah, bh);
            if a != b {
                assert(nodes[a] != nodes[b]);
            }
        } else {
            // `b` does not test `v` at all: both branches of `a` equal `b`.
            assert forall|asg: Assignment| #[trigger] eval_node(nodes, al, asg) == eval_node(
                nodes,
                b,
                asg,
            ) by {
                let a0 = upd(asg, v, false);
                assert(eval_node(nodes, a, a0) == eval_node(nodes, b, a0));
                lemma_eval_decision(nodes, nvars, a, a0);
                lemma_eval_upd(nodes, nvars, al, asg, v, false);
                lemma_eval_upd(nodes, nvars, b, asg, v, false);
            }
            assert forall|asg: Assignment| #[trigger] eval_node(nodes, ah, asg) == eval_node(
                nodes,
                b,
                asg,
            ) by {
                let a1 = upd(asg, v, true);
                assert(eval_node(nodes, a, a1) == eval_node(nodes, b, a1));
                lemma_eval_decision(nodes, nvars, a, a1);
                lemma_eval_upd(nodes, nvars, ah, asg, v, true);
                lemma_eval_upd(nodes, nvars, b, asg, v, true);
            }
            lemma_canonical(nodes, nvars, al, b);
            lemma_canonical(nodes, nvars, ah, b);
        }
    }
}


/// Node `j` is a child of decision node `p`.
pub open spec fn is_child(nodes: Seq<BddNode>, p: int, j: int) -> bool {
    &&& 0 <= p < nodes.len()
    &&& nodes[p] is Decision
    &&& 0 <= nodes[p]->low < p
    &&& 0 <= nodes[p]->high < p
    &&& (nodes[p]->low == j || nodes[p]->high == j)
}

/// Node `b` lies in the sub-diagram rooted at node `a` (a node reaches itself).
pub open spec fn reaches(nodes: Seq<BddNode>, a: int, b: int) -> bool
    decreases a,
{
    if a == b {
        true
    } else if 0 <= a < nodes.len() {
        match nodes[a] {
            BddNode::Terminal(_) => false,
            BddNode::Decision { var, low, high } => {
                if 0 <= low < a && 0 <= high < a {
                    reaches(nodes, low as int, b) || reaches(nodes, high as int, b)
                } else {
                    false
                }
            },
        }
    } else {
        false
    }
}

/// Some node in `(lo, root]` reachable from `root` has `j` as a child.
pub open spec fn has_reached_parent(nodes: Seq<BddNode>, root: int, lo: int, j: int) -> bool {
    exists|p: int| lo < p <= root && #[trigger] reaches(nodes, root, p) && is_child(nodes, p, j)
}

/// Reachable nodes are at or below the root.
pub proof fn lemma_reaches_below(nodes: Seq<BddNode>, a: int, b: int)
    requires
        reaches(nodes, a, b),
    ensures
        b <= a,
    decreases a,
{
    if a != b {
        match nodes[a] {
            BddNode::Terminal(_) => {},
            BddNode::Decision { var, low, high } => {
                if reaches(nodes, low as int, b) {
                    lemma_reaches_below(nodes, low as int, b);
                } else {
                    lemma_reaches_below(nodes, high as int, b);
                }
            },
        }
    }
}

/// Reachability is transitive.
pub proof fn lemma_reaches_trans(nodes: Seq<BddNode>, a: int, b: int, c: int)
    requires
        reaches(nodes, a, b),
        reaches(nodes, b, c),
    ensures
        reaches(nodes, a, c),
    decreases a,
{
    if a != b {
        match nodes[a] {
            BddNode::Terminal(_) => {},
            BddNode::Decision { var, low, high } => {
                if reaches(nodes, low as int, b) {
                    lemma_reaches_trans(nodes, low as int, b, c);
                } else {
                    lemma_reaches_trans(nodes, high as int, b, c);
                }
            },
        }
    }
}

/// A child of a reachable node is reachable.
pub proof fn lemma_reaches_child(nodes: Seq<BddNode>, a: int, p: int, j: int)
    requires
        reaches(nodes, a, p),
        is_child(nodes, p, j),
    ensures
        reaches(nodes, a, j),
{
    assert(reaches(nodes, j, j));
    assert(reaches(nodes, p, j));
    lemma_reaches_trans(nodes, a, p, j);
}

/// A node other than the root is reachable exactly when it is a child of a reachable node.
pub proof fn lemma_reaches_parent(nodes: Seq<BddNode>, root: int, j: int)
    requires
        0 <= j < root,
    ensures
        reaches(nodes, root, j) <==> has_reached_parent(nodes, root, j, j),
    decreases root,
{
    if reaches(nodes, root, j) {
        match nodes[root] {
            BddNode::Terminal(_) => {},
            BddNode::Decision { var, low, high } => {
                assert(reaches(nodes, root, root));
                let c = if reaches(nodes, low as int, j) {
                    low as int
                } else {
                    high as int
                };
                assert(is_child(nodes, root, c));
                if c == j {
                    assert(reaches(nodes, root, root) && is_child(nodes, root, j));
                } else {
                    lemma_reaches_below(nodes, c, j);
                    lemma_reaches_parent(nodes, c, j);
                    let p = choose|p: int|
                        j < p <= c && #[trigger] reaches(nodes, c, p) && is_child(nodes, p, j);
                    lemma_reaches_child(nodes, root, root, c);
                    lemma_reaches_trans(nodes, root, c, p);
                    assert(reaches(nodes, root, p) && is_child(nodes, p, j));
                }
            },
        }
    }
    if has_reached_parent(nodes, root, j, j) {
        let p = choose|p: int| j < p <= root && #[trigger] reaches(nodes, root, p) && is_child(nodes, p, j);
        lemma_reaches_child(nodes, root, p, j);
    }
}

/// The key under which a node is filed in the unique table.
pub open spec fn hash3(a: usize, b: usize, c: usize) -> u64 {
    ((a as u64) << 42u64) ^ ((b as u64) << 21u64) ^ (c as u64)
}

fn hash3_exec(a: usize, b: usize, c: usize) -> (r: u64)
    ensures
        r == hash3(a, b, c),
{
    ((a as u64) << 42u64) ^ ((b as u64) << 21u64) ^ (c as u64)
}

spec fn node_key(n: BddNode) -> u64 {
    match n {
        BddNode::Terminal(b) => if b {
            1
        } else {
            0
        },
        BddNode::Decision { var, low, high } => hash3(var, low, high),
    }
}

spec fn node_keys(s: Seq<BddNode>) -> Seq<u64> {
    s.map_values(|n: BddNode| node_key(n))
}

spec fn entry_keys(s: Seq<(usize, usize, usize, usize)>) -> Seq<u64> {
    s.map_values(|e: (usize, usize, usize, usize)| hash3(e.0, e.1, e.2))
}

/// The lowest level among three nodes.
pub open spec fn min_level(nodes: Seq<BddNode>, f: int, g: int, h: int) -> int {
    let a = level(nodes, f);
    let b = level(nodes, g);
    let c = level(nodes, h);
    if a <= b && a <= c {
        a
    } else if b <= c {
        b
    } else {
        c
    }
}

/// Node `r` denotes `f` with variable `v` replaced by the function of node `g`.
pub open spec fn is_compose(nodes: Seq<BddNode>, f: int, v: int, g: int, r: int) -> bool {
    forall|asg: Assignment| #[trigger]
        eval_node(nodes, r, asg) == eval_node(nodes, f, upd(asg, v, eval_node(nodes, g, asg)))
}

spec fn ite_entry_ok(nodes: Seq<BddNode>, e: (usize, usize, usize, usize)) -> bool {
    &&& e.0 < nodes.len()
    &&& e.1 < nodes.len()
    &&& e.2 < nodes.len()
    &&& e.3 < nodes.len()
    &&& is_ite(nodes, e.0 as int, e.1 as int, e.2 as int, e.3 as int)
    &&& level(nodes, e.3 as int) >= min_level(nodes, e.0 as int, e.1 as int, e.2 as int)
}

spec fn compose_entry_ok(nodes: Seq<BddNode>, e: (usize, usize, usize, usize)) -> bool {
    &&& e.0 < nodes.len()
    &&& e.2 < nodes.len()
    &&& e.3 < nodes.len()
    &&& is_compose(nodes, e.0 as int, e.1 as int, e.2 as int, e.3 as int)
    &&& level(nodes, e.3 as int) >= min_level(nodes, e.0 as int, e.2 as int, e.2 as int)
}

proof fn lemma_entries_extend(old: Seq<BddNode>, new: Seq<BddNode>, e: (usize, usize, usize, usize))
    requires
        extends(old, new),
    ensures
        ite_entry_ok(old, e) ==> ite_entry_ok(new, e),
        compose_entry_ok(old, e) ==> compose_entry_ok(new, e),
{
    lemma_extends_all(old, new);
    if ite_entry_ok(old, e) {
        assert forall|asg: Assignment| #[trigger] eval_node(new, e.3 as int, asg) == ite_fn(
            new,
            e.0 as int,
            e.1 as int,
            e.2 as int,
            asg,
        ) by {
            assert(eval_node(old, e.3 as int, asg) == ite_fn(
                old,
                e.0 as int,
                e.1 as int,
                e.2 as int,
                asg,
            ));
        }
        assert(new[e.0 as int] == old[e.0 as int]);
        assert(new[e.1 as int] == old[e.1 as int]);
        assert(new[e.2 as int] == old[e.2 as int]);
        assert(new[e.3 as int] == old[e.3 as int]);
    }
    if compose_entry_ok(old, e) {
        assert forall|asg: Assignment| #[trigger] eval_node(new, e.3 as int, asg) == eval_node(
            new,
            e.0 as int,
            upd(asg, e.1 as int, eval_node(new, e.2 as int, asg)),
        ) by {
            assert(eval_node(old, e.3 as int, asg) == eval_node(
                old,
                e.0 as int,
                upd(asg, e.1 as int, eval_node(old, e.2 as int, asg)),
            ));
        }
        assert(new[e.0 as int] == old[e.0 as int]);
        assert(new[e.2 as int] == old[e.2 as int]);
        assert(new[e.3 as int] == old[e.3 as int]);
    }
}

/// The position of the cache entry keyed `(a, b, c)`, if there is one.
fn cache_find(
    cache: &Vec<(usize, usize, usize, usize)>,
    index: &HashIndex,
    a: usize,
    b: usize,
    c: usize,
) -> (r: Option<usize>)
    requires
        index.indexes(entry_keys(cache@)),
    ensures
        match r {
            Some(p) => p < cache@.len() && cache@[p as int].0 == a && cache@[p as int].1 == b
                && cache@[p as int].2 == c,
            None => forall|p: int|
                0 <= p < cache@.len() ==> !(#[trigger] cache@[p].0 == a && cache@[p].1 == b && cache@[p].2
                    == c),
        },
{
    let h = hash3_exec(a, b, c);
    let ghost keys = entry_keys(cache@);
    let clen = cache.len();
    match index.bucket(h, Ghost(keys)) {
        None => {
            proof {
                assert forall|p: int| 0 <= p < cache@.len() implies !(#[trigger] cache@[p].0 == a
                    && cache@[p].1 == b && cache@[p].2 == c) by {
                    assert(keys[p] == hash3(cache@[p].0, cache@[p].1, cache@[p].2));
                    assert(keys[p] != h);
                }
            }
            None
        },
        Some(bk) => {
            let m = bk.len();
            let mut j: usize = 0;
            while j < m
                invariant
                    m == bk@.len(),
                    j <= m,
                    keys == entry_keys(cache@),
                    keys.len() == cache@.len(),
                    clen == cache@.len(),
                    h == hash3(a, b, c),
                    forall|q: int|
                        0 <= q < bk@.len() ==> 0 <= #[trigger] bk@[q] < keys.len() && keys[bk@[q] as int]
                            == h,
                    forall|i: int| 0 <= i < keys.len() && keys[i] == h ==> bk@.contains(i as usize),
                    forall|q: int|
                        0 <= q < j ==> !(cache@[bk@[q] as int].0 == a && cache@[bk@[q] as int].1 == b
                            && cache@[bk@[q] as int].2 == c),
                decreases m - j,
            {
                let p = bk[j];
                proof {
                    assert(0 <= bk@[j as int] < keys.len());
                }
                let e = cache[p];
                if e.0 == a && e.1 == b && e.2 == c {
                    return Some(p);
                }
                j += 1;
            }
            proof {
                assert forall|p: int| 0 <= p < cache@.len() implies !(#[trigger] cache@[p].0 == a
                    && cache@[p].1 == b && cache@[p].2 == c) by {
                    if cache@[p].0 == a && cache@[p].1 == b && cache@[p].2 == c {
                        assert(keys[p] == hash3(cache@[p].0, cache@[p].1, cache@[p].2));
                        assert(keys[p] == h);
                        assert(bk@.contains(p as usize));
                        let q = choose|q: int| 0 <= q < bk@.len() && bk@[q] == p as usize;
                        assert(bk@[q] as int == p);
                        assert(q < j);
                        assert(!(cache@[bk@[q] as int].0 == a && cache@[bk@[q] as int].1 == b
                            && cache@[bk@[q] as int].2 == c));
                    }
                }
            }
            None
        },
    }
}

/// Append an entry to a cache and its index.
fn cache_push(
    cache: &mut Vec<(usize, usize, usize, usize)>,
    index: &mut HashIndex,
    e: (usize, usize, usize, usize),
)
    requires
        old(index).indexes(entry_keys(old(cache)@)),
    ensures
        final(cache)@ == old(cache)@.push(e),
        final(index).indexes(entry_keys(final(cache)@)),
{
    let ghost keys = entry_keys(cache@);
    let h = hash3_exec(e.0, e.1, e.2);
    let n = cache.len();
    index.insert(h, n, Ghost(keys));
    cache.push(e);
    proof {
        assert(entry_keys(cache@) =~= keys.push(h));
    }
}

/// The assignment seen through a substitution: each variable `v` that `m` maps reads the value
/// of node `m[v]` under `asg`; every other variable keeps its value.
pub open spec fn subst_asg(nodes: Seq<BddNode>, m: Map<usize, usize>, asg: Assignment) -> Assignment {
    |v: int|
        if 0 <= v <= usize::MAX && m.dom().contains(v as usize) {
            eval_node(nodes, m[v as usize] as int, asg)
        } else {
            asg(v)
        }
}

/// How many of the node ids below `k` lie in the sub-diagram rooted at `root`.
pub open spec fn count_reach(nodes: Seq<BddNode>, root: int, k: int) -> nat
    decreases k,
{
    if k <= 0 {
        0
    } else {
        count_reach(nodes, root, k - 1) + if reaches(nodes, root, k - 1) {
            1nat
        } else {
            0nat
        }
    }
}

/// The ids of the nodes in the sub-diagram rooted at `root`.
pub open spec fn reach_set(nodes: Seq<BddNode>, root: int) -> Set<int> {
    Set::new(|j: int| 0 <= j < nodes.len() && reaches(nodes, root, j))
}

proof fn lemma_count_reach_set(nodes: Seq<BddNode>, root: int, k: int)
    requires
        0 <= k,
    ensures
        Set::new(|j: int| 0 <= j < k && reaches(nodes, root, j)).finite(),
        count_reach(nodes, root, k) == Set::new(|j: int| 0 <= j < k && reaches(nodes, root, j)).len(),
    decreases k,
{
    let s = Set::new(|j: int| 0 <= j < k && reaches(nodes, root, j));
    if k == 0 {
        assert(s =~= Set::<int>::empty());
    } else {
        lemma_count_reach_set(nodes, root, k - 1);
        let p = Set::new(|j: int| 0 <= j < k - 1 && reaches(nodes, root, j));
        if reaches(nodes, root, k - 1) {
            assert(s =~= p.insert(k - 1));
        } else {
            assert(s =~= p);
        }
    }
}

/// The node count of a sub-diagram is the number of distinct node ids it reaches, terminals
/// included: nodes the root does not reach, wherever they sit in the table, do not count.
pub proof fn law_node_count_reachable(nodes: Seq<BddNode>, root: int)
    requires
        0 <= root < nodes.len(),
    ensures
        reach_set(nodes, root).finite(),
        count_reach(nodes, root, root + 1) == reach_set(nodes, root).len(),
{
    lemma_count_reach_set(nodes, root, root + 1);
    assert(reach_set(nodes, root) =~= Set::new(|j: int| 0 <= j < root + 1 && reaches(nodes, root, j)))
        by {
        assert forall|j: int| 0 <= j < nodes.len() && reaches(nodes, root, j) implies j <= root by {
            lemma_reaches_below(nodes, root, j);
        }
    }
}

/// Growing the table keeps every sub-diagram: the nodes a node reaches stay the same.
pub proof fn law_reach_set_extends(old: Seq<BddNode>, new: Seq<BddNode>, root: int)
    requires
        extends(old, new),
        0 <= root < old.len(),
    ensures
        reach_set(new, root) == reach_set(old, root),
{
    assert forall|j: int| reaches(new, root, j) == reaches(old, root, j) by {
        lemma_reaches_extends(old, new, root, j);
    }
    assert forall|j: int| #[trigger] reach_set(new, root).contains(j) implies reach_set(old, root).contains(j) by {
        lemma_reaches_below(new, root, j);
    }
    assert forall|j: int| #[trigger] reach_set(old, root).contains(j) implies reach_set(new, root).contains(j) by {
        lemma_reaches_below(old, root, j);
    }
    assert(reach_set(new, root) =~= reach_set(old, root));
}

proof fn lemma_reaches_extends(old: Seq<BddNode>, new: Seq<BddNode>, a: int, b: int)
    requires
        extends(old, new),
        0 <= a < old.len(),
    ensures
        reaches(new, a, b) == reaches(old, a, b),
    decreases a,
{
    if a != b {
        assert(new[a] == old[a]);
        match old[a] {
            BddNode::Terminal(_) => {},
            BddNode::Decision { var, low, high } => {
                if 0 <= low < a && 0 <= high < a {
                    lemma_reaches_extends(old, new, low as int, b);
                    lemma_reaches_extends(old, new, high as int, b);
                }
            },
        }
    }
}

/// Variable `v` is tested by some node of the sub-diagram rooted at `root`.
pub open spec fn in_support(nodes: Seq<BddNode>, root: int, v: int) -> bool {
    exists|j: int|
        0 <= j <= root && #[trigger] reaches(nodes, root, j) && nodes[j] is Decision && nodes[j]->var
            == v
}

/// How many of the variables below `k` the sub-diagram rooted at `root` tests.
pub open spec fn count_support(nodes: Seq<BddNode>, root: int, k: int) -> nat
    decreases k,
{
    if k <= 0 {
        0
    } else {
        count_support(nodes, root, k - 1) + if in_support(nodes, root, k - 1) {
            1nat
        } else {
            0nat
        }
    }
}

/// The paths from node `i` to the true terminal, low branch first; a path lists the variables
/// it tests with the branch it takes.
pub open spec fn paths(nodes: Seq<BddNode>, i: int) -> Seq<Seq<(usize, bool)>>
    decreases i,
{
    if 0 <= i < nodes.len() {
        match nodes[i] {
            BddNode::Terminal(b) => if b {
                seq![Seq::empty()]
            } else {
                Seq::empty()
            },
            BddNode::Decision { var, low, high } => {
                if 0 <= low < i && 0 <= high < i {
                    paths(nodes, low as int).map_values(
                        |p: Seq<(usize, bool)>| seq![(var, false)] + p,
                    ) + paths(nodes, high as int).map_values(
                        |p: Seq<(usize, bool)>| seq![(var, true)] + p,
                    )
                } else {
                    Seq::empty()
                }
            },
        }
    } else {
        Seq::empty()
    }
}

/// An assignment follows a path.
pub open spec fn follows(asg: Assignment, p: Seq<(usize, bool)>) -> bool {
    forall|k: int| 0 <= k < p.len() ==> asg(#[trigger] p[k].0 as int) == p[k].1
}

/// A node is true exactly under the assignments that follow one of its paths to true.
pub proof fn lemma_paths(nodes: Seq<BddNode>, nvars: int, i: int, asg: Assignment)
    requires
        robdd(nodes, nvars),
        0 <= i < nodes.len(),
    ensures
        eval_node(nodes, i, asg) <==> exists|k: int|
            0 <= k < paths(nodes, i).len() && follows(asg, #[trigger] paths(nodes, i)[k]),
    decreases i,
{
    if i >= 2 {
        assert(node_ok(nodes, i, nvars));
        let var = nodes[i]->var;
        let low = nodes[i]->low as int;
        let high = nodes[i]->high as int;
        lemma_paths(nodes, nvars, low, asg);
        lemma_paths(nodes, nvars, high, asg);
        let pl = paths(nodes, low);
        let ph = paths(nodes, high);
        let fl = |p: Seq<(usize, bool)>| seq![(var, false)] + p;
        let fh = |p: Seq<(usize, bool)>| seq![(var, true)] + p;
        let all = paths(nodes, i);
        assert(all == pl.map_values(fl) + ph.map_values(fh));
        if eval_node(nodes, i, asg) {
            if asg(var as int) {
                let k = choose|k: int| 0 <= k < ph.len() && follows(asg, #[trigger] ph[k]);
                let q = fh(ph[k]);
                assert(all[pl.len() + k] == q);
                assert forall|t: int| 0 <= t < q.len() implies asg(#[trigger] q[t].0 as int) == q[t].1 by {
                    if t > 0 {
                        assert(q[t] == ph[k][t - 1]);
                    }
                }
                assert(follows(asg, all[pl.len() + k]));
            } else {
                let k = choose|k: int| 0 <= k < pl.len() && follows(asg, #[trigger] pl[k]);
                let q = fl(pl[k]);
                assert(all[k] == q);
                assert forall|t: int| 0 <= t < q.len() implies asg(#[trigger] q[t].0 as int) == q[t].1 by {
                    if t > 0 {
                        assert(q[t] == pl[k][t - 1]);
                    }
                }
                assert(follows(asg, all[k]));
            }
        }
        if exists|k: int| 0 <= k < all.len() && follows(asg, #[trigger] all[k]) {
            let k = choose|k: int| 0 <= k < all.len() && follows(asg, #[trigger] all[k]);
            if k < pl.len() {
                let q = all[k];
                assert(q == fl(pl[k]));
                assert(q[0] == (var, false));
                assert(asg(q[0].0 as int) == q[0].1);
                assert(!asg(var as int));
                assert forall|t: int| 0 <= t < pl[k].len() implies asg(#[trigger] pl[k][t].0 as int)
                    == pl[k][t].1 by {
                    assert(q[t + 1] == pl[k][t]);
                }
                assert(follows(asg, pl[k]));
            } else {
                let k2 = k - pl.len();
                let q = all[k];
                assert(q == fh(ph[k2]));
                assert(q[0] == (var, true));
                assert(asg(q[0].0 as int) == q[0].1);
                assert(asg(var as int));
                assert forall|t: int| 0 <= t < ph[k2].len() implies asg(#[trigger] ph[k2][t].0 as int)
                    == ph[k2][t].1 by {
                    assert(q[t + 1] == ph[k2][t]);
                }
                assert(follows(asg, ph[k2]));
            }
        }
    } else {
        if i == 1 {
            assert(paths(nodes, 1) == seq![Seq::<(usize, bool)>::empty()]);
            assert(follows(asg, paths(nodes, 1)[0]));
        }
    }
}

/// The assignment of variable ids that gives each variable the value `env` gives its name.
pub open spec fn asg_of(vars: Seq<Seq<char>>, env: spec_fn(Seq<char>) -> bool) -> Assignment {
    |v: int|
        if 0 <= v < vars.len() {
            env(vars[v])
        } else {
            false
        }
}

/// `a` is a prefix of `b`.
pub open spec fn is_prefix<T>(a: Seq<T>, b: Seq<T>) -> bool {
    &&& a.len() <= b.len()
    &&& forall|k: int| 0 <= k < a.len() ==> #[trigger] b[k] == a[k]
}

/// The variable order after registering, in order, every variable a token program names.
pub open spec fn intern_all(vars: Seq<Seq<char>>, toks: Seq<SToken>) -> Seq<Seq<char>>
    decreases toks.len(),
{
    if toks.len() == 0 {
        vars
    } else {
        let prev = intern_all(vars, toks.drop_last());
        match toks.last() {
            SToken::Var(n) => if prev.contains(n) {
                prev
            } else {
                prev.push(n)
            },
            _ => prev,
        }
    }
}

/// Registering the variables of a program into an empty order yields its first occurrences.
pub proof fn lemma_intern_all_empty(toks: Seq<SToken>)
    ensures
        intern_all(Seq::empty(), toks) == first_occurrences(toks),
    decreases toks.len(),
{
    if toks.len() > 0 {
        lemma_intern_all_empty(toks.drop_last());
    }
}

/// Registering variables only appends to the order.
pub proof fn lemma_intern_all_prefix(vars: Seq<Seq<char>>, toks: Seq<SToken>)
    ensures
        is_prefix(vars, intern_all(vars, toks)),
    decreases toks.len(),
{
    if toks.len() > 0 {
        lemma_intern_all_prefix(vars, toks.drop_last());
    }
}

/// The values of a stack of nodes.
pub open spec fn stack_vals(nodes: Seq<BddNode>, st: Seq<usize>, asg: Assignment) -> Seq<bool> {
    st.map_values(|x: usize| eval_node(nodes, x as int, asg))
}

/// A node keeps its value when the table grows and new variables are registered after the old
/// ones.
pub proof fn lemma_lift_val(
    p: Seq<BddNode>,
    pv: Seq<Seq<char>>,
    c: Seq<BddNode>,
    cv: Seq<Seq<char>>,
    x: int,
    env: spec_fn(Seq<char>) -> bool,
)
    requires
        robdd(p, pv.len() as int),
        extends(p, c),
        is_prefix(pv, cv),
        0 <= x < p.len(),
    ensures
        eval_node(c, x, asg_of(cv, env)) == eval_node(p, x, asg_of(pv, env)),
{
    lemma_eval_extends(p, c, x, asg_of(cv, env));
    assert forall|v: int| 0 <= v < pv.len() implies #[trigger] asg_of(cv, env)(v) == asg_of(
        pv,
        env,
    )(v) by {
        assert(cv[v] == pv[v]);
    }
    lemma_eval_agree(p, pv.len() as int, 0, x, asg_of(cv, env), asg_of(pv, env));
}

/// A stack of nodes keeps its values when the table grows and new variables are registered.
pub proof fn lemma_lift_stack(
    p: Seq<BddNode>,
    pv: Seq<Seq<char>>,
    c: Seq<BddNode>,
    cv: Seq<Seq<char>>,
    st: Seq<usize>,
    env: spec_fn(Seq<char>) -> bool,
)
    requires
        robdd(p, pv.len() as int),
        extends(p, c),
        is_prefix(pv, cv),
        forall|k: int| 0 <= k < st.len() ==> #[trigger] st[k] < p.len(),
    ensures
        stack_vals(c, st, asg_of(cv, env)) == stack_vals(p, st, asg_of(pv, env)),
{
    assert forall|k: int| 0 <= k < st.len() implies #[trigger] stack_vals(
        c,
        st,
        asg_of(cv, env),
    )[k] == stack_vals(p, st, asg_of(pv, env))[k] by {
        lemma_lift_val(p, pv, c, cv, st[k] as int, env);
    }
    assert(stack_vals(c, st, asg_of(cv, env)) =~= stack_vals(p, st, asg_of(pv, env)));
}

/// No name occurs twice.
pub open spec fn distinct_names(vars: Seq<Seq<char>>) -> bool {
    forall|i: int, j: int| 0 <= i < j < vars.len() ==> vars[i] != vars[j]
}

/// Node `root` of `nodes` denotes token program `toks` when variable `v` is named `vars[v]`.
pub open spec fn represents(
    nodes: Seq<BddNode>,
    vars: Seq<Seq<char>>,
    root: int,
    toks: Seq<SToken>,
) -> bool {
    &&& robdd(nodes, vars.len() as int)
    &&& distinct_names(vars)
    &&& 0 <= root < nodes.len()
    &&& forall|env: spec_fn(Seq<char>) -> bool| #[trigger]
        eval_node(nodes, root, asg_of(vars, env)) == eval(toks, env)
}

/// Over distinct names, every assignment of variable ids comes from an assignment of names.
pub proof fn lemma_env_of_asg(vars: Seq<Seq<char>>, asg: Assignment) -> (env: spec_fn(
    Seq<char>,
) -> bool)
    requires
        distinct_names(vars),
    ensures
        forall|v: int| 0 <= v < vars.len() ==> #[trigger] asg_of(vars, env)(v) == asg(v),
{
    let env = |s: Seq<char>|
        if exists|v: int| 0 <= v < vars.len() && vars[v] == s {
            asg(choose|v: int| 0 <= v < vars.len() && vars[v] == s)
        } else {
            false
        };
    assert forall|v: int| 0 <= v < vars.len() implies #[trigger] asg_of(vars, env)(v) == asg(v) by {
        let s = vars[v];
        assert(exists|u: int| 0 <= u < vars.len() && vars[u] == s);
        let u = choose|u: int| 0 <= u < vars.len() && vars[u] == s;
        if u != v {
            if u < v {
                assert(vars[u] != vars[v]);
            } else {
                assert(vars[v] != vars[u]);
            }
        }
    }
    env
}

/// Over distinct names, two nodes that agree under every assignment of names are the same node.
pub proof fn lemma_same_by_names(nodes: Seq<BddNode>, vars: Seq<Seq<char>>, a: int, b: int)
    requires
        robdd(nodes, vars.len() as int),
        distinct_names(vars),
        0 <= a < nodes.len(),
        0 <= b < nodes.len(),
        forall|env: spec_fn(Seq<char>) -> bool|
            eval_node(nodes, a, asg_of(vars, env)) == #[trigger] eval_node(
                nodes,
                b,
                asg_of(vars, env),
            ),
    ensures
        a == b,
{
    assert forall|asg: Assignment| #[trigger] eval_node(nodes, a, asg) == eval_node(nodes, b, asg) by {
        let env = lemma_env_of_asg(vars, asg);
        assert(eval_node(nodes, a, asg_of(vars, env)) == eval_node(nodes, b, asg_of(vars, env)));
        lemma_eval_agree(nodes, vars.len() as int, 0, a, asg, asg_of(vars, env));
        lemma_eval_agree(nodes, vars.len() as int, 0, b, asg, asg_of(vars, env));
    }
    lemma_canonical(nodes, vars.len() as int, a, b);
}

/// Every step of every path from node `i` tests a registered variable.
pub proof fn lemma_paths_vars(nodes: Seq<BddNode>, nvars: int, i: int)
    requires
        robdd(nodes, nvars),
        0 <= i < nodes.len(),
    ensures
        forall|k: int, t: int|
            0 <= k < paths(nodes, i).len() && 0 <= t < paths(nodes, i)[k].len() ==> (#[trigger] paths(
                nodes,
                i,
            )[k][t]).0 < nvars,
    decreases i,
{
    if i >= 2 {
        assert(node_ok(nodes, i, nvars));
        let var = nodes[i]->var;
        let low = nodes[i]->low as int;
        let high = nodes[i]->high as int;
        lemma_paths_vars(nodes, nvars, low);
        lemma_paths_vars(nodes, nvars, high);
        let pl = paths(nodes, low);
        let ph = paths(nodes, high);
        let fl = |p: Seq<(usize, bool)>| seq![(var, false)] + p;
        let fh = |p: Seq<(usize, bool)>| seq![(var, true)] + p;
        let all = paths(nodes, i);
        assert(all == pl.map_values(fl) + ph.map_values(fh));
        assert forall|k: int, t: int| 0 <= k < all.len() && 0 <= t < all[k].len() implies (
        #[trigger] all[k][t]).0 < nvars by {
            if k < pl.len() {
                assert(all[k] == fl(pl[k]));
                if t > 0 {
                    assert(all[k][t] == pl[k][t - 1]);
                }
            } else {
                assert(all[k] == fh(ph[k - pl.len()]));
                if t > 0 {
                    assert(all[k][t] == ph[k - pl.len()][t - 1]);
                }
            }
        }
    }
}

/// A node of the sub-diagram rooted at `root` only reads the variables that sub-diagram tests.
pub proof fn lemma_eval_support(
    nodes: Seq<BddNode>,
    nvars: int,
    root: int,
    i: int,
    a1: Assignment,
    a2: Assignment,
)
    requires
        robdd(nodes, nvars),
        0 <= i < nodes.len(),
        reaches(nodes, root, i),
        forall|v: int| #[trigger] in_support(nodes, root, v) ==> a1(v) == a2(v),
    ensures
        eval_node(nodes, i, a1) == eval_node(nodes, i, a2),
    decreases i,
{
    if i >= 2 {
        assert(node_ok(nodes, i, nvars));
        let var = nodes[i]->var as int;
        let low = nodes[i]->low as int;
        let high = nodes[i]->high as int;
        lemma_reaches_below(nodes, root, i);
        assert(in_support(nodes, root, var));
        lemma_reaches_child(nodes, root, i, low);
        lemma_reaches_child(nodes, root, i, high);
        lemma_eval_support(nodes, nvars, root, low, a1, a2);
        lemma_eval_support(nodes, nvars, root, high, a1, a2);
    }
}

/// A represented program only reads the names of the variables its diagram tests.
pub proof fn lemma_eval_names_support(
    nodes: Seq<BddNode>,
    vars: Seq<Seq<char>>,
    root: int,
    toks: Seq<SToken>,
    e1: spec_fn(Seq<char>) -> bool,
    e2: spec_fn(Seq<char>) -> bool,
)
    requires
        represents(nodes, vars, root, toks),
        forall|v: int|
            0 <= v < vars.len() && #[trigger] in_support(nodes, root, v) ==> e1(vars[v]) == e2(vars[v]),
    ensures
        eval(toks, e1) == eval(toks, e2),
{
    assert(reaches(nodes, root, root));
    assert forall|v: int| #[trigger] in_support(nodes, root, v) implies asg_of(vars, e1)(v) == asg_of(
        vars,
        e2,
    )(v) by {
        if !(0 <= v < vars.len()) {
        }
    }
    lemma_eval_support(nodes, vars.len() as int, root, root, asg_of(vars, e1), asg_of(vars, e2));
    assert(eval_node(nodes, root, asg_of(vars, e1)) == eval(toks, e1));
    assert(eval_node(nodes, root, asg_of(vars, e2)) == eval(toks, e2));
}

/// The node table, the variable order and the operation caches of one diagram namespace.
pub struct BddManager {
    nodes: Vec<BddNode>,
    unique: HashIndex,
    vars: NameIndex,
    ite_cache: Vec<(usize, usize, usize, usize)>,
    ite_index: HashIndex,
    compose_cache: Vec<(usize, usize, usize, usize)>,
    compose_index: HashIndex,
}

impl BddManager {
    /// The node table.
    pub closed spec fn nodes(&self) -> Seq<BddNode> {
        self.nodes@
    }

    /// The variable names, in variable order.
    pub closed spec fn vars(&self) -> Seq<Seq<char>> {
        self.vars@
    }

    /// The if-then-else results recorded so far, as `(f, g, h, result)`.
    pub closed spec fn ite_entries(&self) -> Seq<(usize, usize, usize, usize)> {
        self.ite_cache@
    }

    /// The compositions recorded so far, as `(f, var, g, result)`.
    pub closed spec fn compose_entries(&self) -> Seq<(usize, usize, usize, usize)> {
        self.compose_cache@
    }

    /// The number of variables.
    pub open spec fn nvars(&self) -> int {
        self.vars().len() as int
    }

    /// The internal tables agree with the node table.
    pub closed spec fn tables_ok(&self) -> bool {
        &&& self.vars.wf()
        &&& self.unique.indexes(node_keys(self.nodes@))
        &&& self.ite_index.indexes(entry_keys(self.ite_cache@))
        &&& self.compose_index.indexes(entry_keys(self.compose_cache@))
        &&& forall|k: int|
            0 <= k < self.ite_cache@.len() ==> ite_entry_ok(self.nodes@, #[trigger] self.ite_cache@[k])
        &&& forall|k: int|
            0 <= k < self.compose_cache@.len() ==> compose_entry_ok(
                self.nodes@,
                #[trigger] self.compose_cache@[k],
            )
    }

    /// A well-formed manager: its nodes form a reduced ordered diagram over its variables.
    pub open spec fn wf(&self) -> bool {
        &&& robdd(self.nodes(), self.nvars())
        &&& self.tables_ok()
    }

    /// `self` is `old` with possibly more nodes and cache entries, and the same variables.
    pub open spec fn grows_from(&self, old: &BddManager) -> bool {
        &&& extends(old.nodes(), self.nodes())
        &&& self.vars() == old.vars()
    }

    /// A fresh manager holding only the two terminals.
    pub fn new() -> (r: BddManager)
        ensures
            r.wf(),
            r.nodes() == seq![BddNode::Terminal(false), BddNode::Terminal(true)],
            r.vars() == Seq::<Seq<char>>::empty(),
    {
        let mut nodes: Vec<BddNode> = Vec::new();
        let mut unique = HashIndex::new();
        let ghost k0: Seq<u64> = Seq::empty();
        let ghost k1: Seq<u64> = seq![0u64];
        unique.insert(0, 0, Ghost(k0));
        assert(k0.push(0u64) =~= k1);
        nodes.push(BddNode::Terminal(false));
        unique.insert(1, 1, Ghost(k1));
        nodes.push(BddNode::Terminal(true));
        let r = BddManager {
            nodes,
            unique,
            vars: NameIndex::new(),
            ite_cache: Vec::new(),
            ite_index: HashIndex::new(),
            compose_cache: Vec::new(),
            compose_index: HashIndex::new(),
        };
        proof {
            assert(node_keys(r.nodes@) =~= seq![0u64, 1u64]);
            assert(k1.push(1u64) =~= seq![0u64, 1u64]);
            assert(entry_keys(r.ite_cache@) =~= Seq::<u64>::empty());
            assert(entry_keys(r.compose_cache@) =~= Seq::<u64>::empty());
            assert(r.nodes@ =~= seq![BddNode::Terminal(false), BddNode::Terminal(true)]);
        }
        r
    }

    /// Number of nodes in the table.
    pub fn len(&self) -> (r: usize)
        ensures
            r == self.nodes().len(),
    {
        self.nodes.len()
    }

    /// Number of variables.
    pub fn var_count(&self) -> (r: usize)
        ensures
            r == self.vars().len(),
    {
        self.vars.len()
    }

    /// The id of the variable called `name`, if it is registered.
    pub fn var_id(&self, name: &str) -> (r: Option<usize>)
        requires
            self.wf(),
        ensures
            match r {
                Some(i) => i < self.vars().len() && self.vars()[i as int] == name@,
                None => !self.vars().contains(name@),
            },
    {
        let s = Symbol::new(name);
        self.vars.find(&s)
    }

    /// The id of the variable called `name`, registering it after all existing variables if it
    /// is new.
    pub fn make_var(&mut self, name: &str) -> (r: usize)
        requires
            old(self).wf(),
        ensures
            final(self).wf(),
            final(self).nodes() == old(self).nodes(),
            r < final(self).vars().len(),
            final(self).vars()[r as int] == name@,
            old(self).vars().contains(name@) ==> final(self).vars() == old(self).vars(),
            !old(self).vars().contains(name@) ==> final(self).vars() == old(self).vars().push(
                name@,
            ),
    {
        let s = Symbol::new(name);
        let ghost before = self.vars@;
        let r = self.vars.intern(&s);
        proof {
            let n = self.nodes@;
            let nv = self.vars@.len() as int;
            assert forall|i: int| 2 <= i < n.len() implies #[trigger] node_ok(n, i, nv) by {
                assert(node_ok(n, i, before.len() as int));
            }
        }
        r
    }

    /// The name of variable `id`.
    pub fn var_name(&self, id: usize) -> (r: Option<&Symbol>)
        ensures
            id < self.vars().len() ==> (r matches Some(s) && s@ == self.vars()[id as int]),
            id >= self.vars().len() ==> r is None,
    {
        if id < self.vars.len() {
            Some(self.vars.get(id))
        } else {
            None
        }
    }

    /// The node with id `id`.
    pub fn get_node(&self, id: usize) -> (r: Option<BddNode>)
        ensures
            id < self.nodes().len() ==> r == Some(self.nodes()[id as int]),
            id >= self.nodes().len() ==> r is None,
    {
        if id < self.nodes.len() {
            Some(self.nodes[id])
        } else {
            None
        }
    }

    /// Whether node `p` is the decision node `(var, low, high)`.
    fn is_node(&self, p: usize, var: usize, low: usize, high: usize) -> (r: bool)
        requires
            p < self.nodes().len(),
        ensures
            r == (self.nodes()[p as int] == BddNode::Decision { var, low, high }),
    {
        match self.nodes[p] {
            BddNode::Terminal(_) => false,
            BddNode::Decision { var: v, low: l, high: h } => v == var && l == low && h == high,
        }
    }

    /// The existing node `(var, low, high)`, if the table holds it.
    fn find_node(&self, var: usize, low: usize, high: usize) -> (r: Option<usize>)
        requires
            self.wf(),
        ensures
            match r {
                Some(p) => p < self.nodes().len() && self.nodes()[p as int] == BddNode::Decision {
                    var,
                    low,
                    high,
                },
                None => forall|i: int|
                    0 <= i < self.nodes().len() ==> self.nodes()[i] != BddNode::Decision {
                        var,
                        low,
                        high,
                    },
            },
    {
        let h = hash3_exec(var, low, high);
        let count = self.nodes.len();
        let ghost keys = node_keys(self.nodes@);
        let ghost target = BddNode::Decision { var, low, high };
        match self.unique.bucket(h, Ghost(keys)) {
            None => {
                proof {
                    assert forall|i: int| 0 <= i < self.nodes().len() implies self.nodes()[i]
                        != target by {
                        assert(keys[i] == node_key(self.nodes@[i]));
                    }
                }
                None
            },
            Some(b) => {
                let m = b.len();
                let mut j: usize = 0;
                while j < m
                    invariant
                        m == b@.len(),
                        j <= m,
                        keys == node_keys(self.nodes@),
                        h == hash3(var, low, high),
                        target == (BddNode::Decision { var, low, high }),
                        forall|q: int|
                            0 <= q < b@.len() ==> 0 <= #[trigger] b@[q] < keys.len() && keys[b@[q] as int]
                                == h,
                        forall|i: int| 0 <= i < keys.len() && keys[i] == h ==> b@.contains(i as usize),
                        forall|q: int| 0 <= q < j ==> self.nodes@[#[trigger] b@[q] as int] != target,
                    decreases m - j,
                {
                    let p = b[j];
                    proof {
                        assert(0 <= b@[j as int] < keys.len());
                    }
                    if self.is_node(p, var, low, high) {
                        return Some(p);
                    }
                    j += 1;
                }
                proof {
                    assert forall|i: int| 0 <= i < self.nodes().len() implies self.nodes()[i]
                        != target by {
                        if self.nodes@[i] == target {
                            assert(count == self.nodes@.len());
                            assert(keys.len() == self.nodes@.len());
                            assert(keys[i] == node_key(self.nodes@[i]));
                            assert(node_key(target) == h);
                            assert(keys[i] == h);
                            assert(b@.contains(i as usize));
                            let q = choose|q: int| 0 <= q < b@.len() && b@[q] == i as usize;
                            assert(self.nodes@[b@[q] as int] != target);
                        }
                    }
                }
                None
            },
        }
    }

    /// Intern the decision node `(var, low, high)`: the existing node if the table holds it,
    /// else a new node appended to the table.
    fn insert_node(&mut self, var: usize, low: usize, high: usize) -> (r: usize)
        requires
            old(self).wf(),
            var < old(self).nvars(),
            low < old(self).nodes().len(),
            high < old(self).nodes().len(),
            low != high,
            var < level(old(self).nodes(), low as int),
            var < level(old(self).nodes(), high as int),
        ensures
            final(self).wf(),
            final(self).grows_from(old(self)),
            r < final(self).nodes().len(),
            final(self).nodes()[r as int] == (BddNode::Decision { var, low, high }),
    {
        if let Some(p) = self.find_node(var, low, high) {
            return p;
        }
        let ghost old_nodes = self.nodes@;
        let ghost keys = node_keys(self.nodes@);
        let n = self.nodes.len();
        let h = hash3_exec(var, low, high);
        self.unique.insert(h, n, Ghost(keys));
        self.nodes.push(BddNode::Decision { var, low, high });
        proof {
            let nn = self.nodes@;
            let nv = self.vars@.len() as int;
            assert(extends(old_nodes, nn));
            assert(node_keys(nn) =~= keys.push(h));
            assert(nn[low as int] == old_nodes[low as int]);
            assert(nn[high as int] == old_nodes[high as int]);
            assert forall|i: int| 2 <= i < nn.len() implies #[trigger] node_ok(nn, i, nv) by {
                if i < n {
                    assert(node_ok(old_nodes, i, nv));
                    assert(nn[i] == old_nodes[i]);
                    let l = old_nodes[i]->low as int;
                    let hh = old_nodes[i]->high as int;
                    assert(nn[l] == old_nodes[l]);
                    assert(nn[hh] == old_nodes[hh]);
                }
            }
            assert forall|i: int, j: int|
                2 <= i < nn.len() && 2 <= j < nn.len() && i != j implies #[trigger] nn[i]
                != #[trigger] nn[j] by {
                if i < n && j < n {
                    assert(old_nodes[i] != old_nodes[j]);
                }
            }
            assert forall|k: int| 0 <= k < self.ite_cache@.len() implies ite_entry_ok(
                nn,
                #[trigger] self.ite_cache@[k],
            ) by {
                lemma_entries_extend(old_nodes, nn, self.ite_cache@[k]);
            }
            assert forall|k: int| 0 <= k < self.compose_cache@.len() implies compose_entry_ok(
                nn,
                #[trigger] self.compose_cache@[k],
            ) by {
                lemma_entries_extend(old_nodes, nn, self.compose_cache@[k]);
            }
        }
        n
    }

    /// The canonical node testing `var` with children `low` and `high`; a redundant test
    /// (`low == high`) is the child itself.
    pub fn make_node(&mut self, var: usize, low: usize, high: usize) -> (r: usize)
        requires
            old(self).wf(),
            var < old(self).nvars(),
            low < old(self).nodes().len(),
            high < old(self).nodes().len(),
            var < level(old(self).nodes(), low as int),
            var < level(old(self).nodes(), high as int),
        ensures
            final(self).wf(),
            final(self).grows_from(old(self)),
            r < final(self).nodes().len(),
            low == high ==> r == low,
            low != high ==> final(self).nodes()[r as int] == (BddNode::Decision { var, low, high }),
            level(final(self).nodes(), r as int) >= var,
            forall|asg: Assignment| #[trigger]
                eval_node(final(self).nodes(), r as int, asg) == if asg(var as int) {
                    eval_node(final(self).nodes(), high as int, asg)
                } else {
                    eval_node(final(self).nodes(), low as int, asg)
                },
    {
        if low == high {
            return low;
        }
        let r = self.insert_node(var, low, high);
        proof {
            let nn = self.nodes@;
            assert(node_ok(nn, r as int, self.nvars()) || r < 2);
            assert(r >= 2) by {
                if r < 2 {
                    assert(nn[r as int] == old(self).nodes@[r as int]);
                }
            }
            assert(node_ok(nn, r as int, self.nvars()));
        }
        r
    }

    /// The two cofactors of node `x` with respect to variable `top`, which lies at or above `x`'s
    /// level: `x`'s children if it tests `top`, else `x` itself twice.
    fn cofactors(&self, x: usize, top: usize) -> (r: (usize, usize))
        requires
            self.wf(),
            x < self.nodes().len(),
            top <= level(self.nodes(), x as int),
            top < self.nvars(),
        ensures
            r.0 < self.nodes().len(),
            r.1 < self.nodes().len(),
            level(self.nodes(), r.0 as int) > top,
            level(self.nodes(), r.1 as int) > top,
            level(self.nodes(), x as int) == top ==> r.0 < x && r.1 < x,
            level(self.nodes(), x as int) != top ==> r.0 == x && r.1 == x,
            forall|asg: Assignment| #[trigger]
                eval_node(self.nodes(), x as int, asg) == if asg(top as int) {
                    eval_node(self.nodes(), r.1 as int, asg)
                } else {
                    eval_node(self.nodes(), r.0 as int, asg)
                },
    {
        let nv = self.vars.len();
        assert(top < nv);
        match self.nodes[x] {
            BddNode::Decision { var, low, high } => {
                if var == top {
                    proof {
                        assert(x >= 2);
                        assert(node_ok(self.nodes@, x as int, self.nvars()));
                    }
                    (low, high)
                } else {
                    (x, x)
                }
            },
            BddNode::Terminal(_) => (x, x),
        }
    }

    /// Look `(f, g, h)` up without expanding it: the terminal cases of if-then-else, then the
    /// cache.
    fn ite_resolved(&self, f: usize, g: usize, h: usize) -> (r: Option<usize>)
        requires
            self.wf(),
            f < self.nodes().len(),
            g < self.nodes().len(),
            h < self.nodes().len(),
        ensures
            r matches Some(x) ==> x < self.nodes().len() && is_ite(
                self.nodes(),
                f as int,
                g as int,
                h as int,
                x as int,
            ) && level(self.nodes(), x as int) >= min_level(
                self.nodes(),
                f as int,
                g as int,
                h as int,
            ),
            r is None ==> f >= 2,
    {
        let ghost nodes = self.nodes@;
        if f == TRUE_NODE {
            return Some(g);
        }
        if f == FALSE_NODE {
            return Some(h);
        }
        if g == TRUE_NODE && h == FALSE_NODE {
            return Some(f);
        }
        if g == h {
            return Some(g);
        }
        match cache_find(&self.ite_cache, &self.ite_index, f, g, h) {
            Some(p) => {
                proof {
                    assert(ite_entry_ok(nodes, self.ite_cache@[p as int]));
                }
                Some(self.ite_cache[p].3)
            },
            None => None,
        }
    }

    /// Record a computed if-then-else result in the cache.
    fn record_ite(&mut self, f: usize, g: usize, h: usize, r: usize)
        requires
            old(self).wf(),
            ite_entry_ok(old(self).nodes(), (f, g, h, r)),
        ensures
            final(self).wf(),
            final(self).nodes() == old(self).nodes(),
            final(self).vars() == old(self).vars(),
            final(self).ite_entries() == old(self).ite_entries().push((f, g, h, r)),
            final(self).compose_entries() == old(self).compose_entries(),
    {
        cache_push(&mut self.ite_cache, &mut self.ite_index, (f, g, h, r));
    }

    /// If-then-else: the canonical node for `if f then g else h`. Every other Boolean operation
    /// is built from this one.
    pub fn ite(&mut self, f: usize, g: usize, h: usize) -> (r: usize)
        requires
            old(self).wf(),
            f < old(self).nodes().len(),
            g < old(self).nodes().len(),
            h < old(self).nodes().len(),
        ensures
            final(self).wf(),
            final(self).grows_from(old(self)),
            r < final(self).nodes().len(),
            is_ite(final(self).nodes(), f as int, g as int, h as int, r as int),
            level(final(self).nodes(), r as int) >= min_level(
                final(self).nodes(),
                f as int,
                g as int,
                h as int,
            ),
        decreases f + g + h,
    {
        if let Some(r) = self.ite_resolved(f, g, h) {
            return r;
        }
        let ghost n0 = self.nodes@;
        let fv = self.node_var(f);
        let gv = self.node_var(g);
        let hv = self.node_var(h);
        let top = if fv <= gv && fv <= hv {
            fv
        } else if gv <= hv {
            gv
        } else {
            hv
        };
        proof {
            assert(node_ok(n0, f as int, self.nvars()));
        }
        let (f0, f1) = self.cofactors(f, top);
        let (g0, g1) = self.cofactors(g, top);
        let (h0, h1) = self.cofactors(h, top);
        let r0 = self.ite(f0, g0, h0);
        let ghost n1 = self.nodes@;
        let r1 = self.ite(f1, g1, h1);
        let ghost n2 = self.nodes@;
        proof {
            assert(n1[r0 as int] == n2[r0 as int]);
            assert(n0[f0 as int] == n1[f0 as int]);
            assert(n0[g0 as int] == n1[g0 as int]);
            assert(n0[h0 as int] == n1[h0 as int]);
            assert(n0[f1 as int] == n2[f1 as int]);
            assert(n0[g1 as int] == n2[g1 as int]);
            assert(n0[h1 as int] == n2[h1 as int]);
        }
        let r = self.make_node(top, r0, r1);
        proof {
            let n3 = self.nodes@;
            lemma_extends_all(n0, n3);
            lemma_extends_all(n1, n3);
            lemma_extends_all(n2, n3);
            lemma_extends_all(n0, n1);
            lemma_extends_all(n0, n2);
            assert forall|asg: Assignment| #[trigger] eval_node(n3, r as int, asg) == ite_fn(
                n3,
                f as int,
                g as int,
                h as int,
                asg,
            ) by {
                assert(eval_node(n1, r0 as int, asg) == ite_fn(
                    n1,
                    f0 as int,
                    g0 as int,
                    h0 as int,
                    asg,
                ));
                assert(eval_node(n2, r1 as int, asg) == ite_fn(
                    n2,
                    f1 as int,
                    g1 as int,
                    h1 as int,
                    asg,
                ));
                assert(eval_node(n0, f as int, asg) == if asg(top as int) {
                    eval_node(n0, f1 as int, asg)
                } else {
                    eval_node(n0, f0 as int, asg)
                });
                assert(eval_node(n0, g as int, asg) == if asg(top as int) {
                    eval_node(n0, g1 as int, asg)
                } else {
                    eval_node(n0, g0 as int, asg)
                });
                assert(eval_node(n0, h as int, asg) == if asg(top as int) {
                    eval_node(n0, h1 as int, asg)
                } else {
                    eval_node(n0, h0 as int, asg)
                });
            }
            assert(n3[f as int] == n0[f as int]);
            assert(n3[g as int] == n0[g as int]);
            assert(n3[h as int] == n0[h as int]);
        }
        self.record_ite(f, g, h, r);
        r
    }

    /// Exclusive-or: `ite(f, !g, g)`.
    pub fn xor(&mut self, f: usize, g: usize) -> (r: usize)
        requires
            old(self).wf(),
            f < old(self).nodes().len(),
            g < old(self).nodes().len(),
        ensures
            final(self).wf(),
            final(self).grows_from(old(self)),
            r < final(self).nodes().len(),
            forall|asg: Assignment| #[trigger]
                eval_node(final(self).nodes(), r as int, asg) == (eval_node(
                    final(self).nodes(),
                    f as int,
                    asg,
                ) != eval_node(final(self).nodes(), g as int, asg)),
    {
        let ghost n0 = self.nodes@;
        let not_g = self.ite(g, FALSE_NODE, TRUE_NODE);
        let ghost n1 = self.nodes@;
        let r = self.ite(f, not_g, g);
        proof {
            let n2 = self.nodes@;
            lemma_extends_all(n0, n2);
            lemma_extends_all(n1, n2);
            lemma_extends_all(n0, n1);
            assert forall|asg: Assignment| #[trigger] eval_node(n2, r as int, asg) == (eval_node(
                n2,
                f as int,
                asg,
            ) != eval_node(n2, g as int, asg)) by {
                assert(eval_node(n1, not_g as int, asg) == ite_fn(n1, g as int, 0, 1, asg));
                assert(eval_node(n2, r as int, asg) == ite_fn(
                    n2,
                    f as int,
                    not_g as int,
                    g as int,
                    asg,
                ));
                lemma_terminals(n1, self.nvars(), asg);
            }
        }
        r
    }

    /// For each node id up to `root`, whether it lies in the sub-diagram rooted at `root`.
    pub fn reach_marks(&self, root: usize) -> (marks: Vec<bool>)
        requires
            root < self.nodes().len(),
        ensures
            marks@.len() == root + 1,
            forall|j: int| 0 <= j <= root ==> #[trigger] marks@[j] == reaches(self.nodes(), root as int, j),
    {
        let ghost nodes = self.nodes@;
        let count = self.nodes.len();
        let mut marks: Vec<bool> = Vec::new();
        let mut j: usize = 0;
        while j <= root
            invariant
                j <= root + 1,
                count == nodes.len(),
                root < nodes.len(),
                marks@.len() == j,
                forall|q: int| 0 <= q < j ==> #[trigger] marks@[q] == (q == root),
            decreases root + 1 - j,
        {
            marks.push(j == root);
            j += 1;
        }
        let mut i: usize = root + 1;
        while i > 0
            invariant
                i <= root + 1,
                root < nodes.len(),
                nodes == self.nodes@,
                marks@.len() == root + 1,
                forall|q: int| i <= q <= root ==> #[trigger] marks@[q] == reaches(nodes, root as int, q),
                forall|q: int|
                    0 <= q < i ==> #[trigger] marks@[q] == (q == root || has_reached_parent(
                        nodes,
                        root as int,
                        i - 1,
                        q,
                    )),
            decreases i,
        {
            i -= 1;
            let k = i;
            proof {
                if k < root {
                    lemma_reaches_parent(nodes, root as int, k as int);
                }
                assert(marks@[k as int] == reaches(nodes, root as int, k as int));
            }
            let ghost before = marks@;
            if marks[k] {
                match self.nodes[k] {
                    BddNode::Decision { var, low, high } => {
                        if low < k && high < k {
                            marks.set(low, true);
                            marks.set(high, true);
                        }
                    },
                    BddNode::Terminal(_) => {},
                }
            }
            proof {
                assert forall|q: int| k <= q <= root implies #[trigger] marks@[q] == reaches(
                    nodes,
                    root as int,
                    q,
                ) by {
                    assert(marks@[q] == before[q]);
                }
                assert forall|q: int| 0 <= q < k implies #[trigger] marks@[q] == (q == root
                    || has_reached_parent(nodes, root as int, k - 1, q)) by {
                    let old_val = before[q];
                    assert(old_val == (q == root || has_reached_parent(nodes, root as int, k as int, q)));
                    if has_reached_parent(nodes, root as int, k as int, q) {
                        let p = choose|p: int|
                            k < p <= root && #[trigger] reaches(nodes, root as int, p) && is_child(
                                nodes,
                                p,
                                q,
                            );
                        assert(k - 1 < p);
                    }
                    if reaches(nodes, root as int, k as int) && is_child(nodes, k as int, q) {
                        assert(has_reached_parent(nodes, root as int, k - 1, q));
                    }
                    if has_reached_parent(nodes, root as int, k - 1, q) {
                        let p = choose|p: int|
                            k - 1 < p <= root && #[trigger] reaches(nodes, root as int, p) && is_child(
                                nodes,
                                p,
                                q,
                            );
                        if p > k {
                            assert(has_reached_parent(nodes, root as int, k as int, q));
                        }
                    }
                }
            }
        }
        marks
    }

    /// Shannon cofactor by assignment: the canonical node for `node` with variable `var` fixed to
    /// `value`. Restricting a node that does not depend on `var` gives the node itself.
    pub fn restrict(&mut self, node: usize, var: usize, value: bool) -> (r: usize)
        requires
            old(self).wf(),
            node < old(self).nodes().len(),
        ensures
            final(self).wf(),
            final(self).grows_from(old(self)),
            r < final(self).nodes().len(),
            forall|asg: Assignment| #[trigger]
                eval_node(final(self).nodes(), r as int, asg) == eval_node(
                    final(self).nodes(),
                    node as int,
                    upd(asg, var as int, value),
                ),
            level(final(self).nodes(), r as int) >= level(final(self).nodes(), node as int),
            (forall|asg: Assignment|
                eval_node(old(self).nodes(), node as int, upd(asg, var as int, value))
                    == #[trigger] eval_node(old(self).nodes(), node as int, asg)) ==> r == node,
    {
        let ghost n0 = self.nodes@;
        let ghost nv = self.nvars();
        let count = self.nodes.len();
        let marks = self.reach_marks(node);
        let mut res: Vec<usize> = Vec::new();
        let mut i: usize = 0;
        while i <= node
            invariant
                i <= node + 1,
                node < n0.len(),
                count == n0.len(),
                robdd(n0, nv),
                nv == self.nvars(),
                self.wf(),
                extends(n0, self.nodes@),
                self.vars@ == old(self).vars@,
                n0 == old(self).nodes@,
                marks@.len() == node + 1,
                forall|j: int| 0 <= j <= node ==> #[trigger] marks@[j] == reaches(n0, node as int, j),
                res@.len() == i,
                forall|j: int|
                    0 <= j < i && #[trigger] marks@[j] ==> res@[j] < self.nodes@.len() && level(
                        self.nodes@,
                        res@[j] as int,
                    ) >= level(n0, j) && forall|asg: Assignment| #[trigger]
                        eval_node(self.nodes@, res@[j] as int, asg) == eval_node(
                            n0,
                            j,
                            upd(asg, var as int, value),
                        ),
            decreases node + 1 - i,
        {
            let ghost prev = self.nodes@;
            let mut out: usize = 0;
            if marks[i] {
                match self.nodes[i] {
                    BddNode::Terminal(_) => {
                        out = i;
                    },
                    BddNode::Decision { var: v, low, high } => {
                        proof {
                            assert(n0[i as int] == prev[i as int]);
                            assert(i >= 2);
                            assert(node_ok(n0, i as int, self.nvars()));
                            assert(is_child(n0, i as int, low as int));
                            assert(is_child(n0, i as int, high as int));
                            lemma_reaches_child(n0, node as int, i as int, low as int);
                            lemma_reaches_child(n0, node as int, i as int, high as int);
                            assert(marks@[low as int]);
                            assert(marks@[high as int]);
                        }
                        if v == var {
                            out = if value {
                                res[high]
                            } else {
                                res[low]
                            };
                            proof {
                                assert forall|asg: Assignment| #[trigger] eval_node(
                                    self.nodes@,
                                    out as int,
                                    asg,
                                ) == eval_node(n0, i as int, upd(asg, var as int, value)) by {
                                    lemma_eval_decision(n0, self.nvars(), i as int, upd(asg, var as int, value));
                                }
                            }
                        } else {
                            let lo = res[low];
                            let hi = res[high];
                            out = self.make_node(v, lo, hi);
                            proof {
                                let cur = self.nodes@;
                                lemma_extends_all(prev, cur);
                                assert forall|asg: Assignment| #[trigger] eval_node(
                                    cur,
                                    out as int,
                                    asg,
                                ) == eval_node(n0, i as int, upd(asg, var as int, value)) by {
                                    lemma_eval_decision(n0, self.nvars(), i as int, upd(asg, var as int, value));
                                    assert(eval_node(prev, lo as int, asg) == eval_node(
                                        n0,
                                        low as int,
                                        upd(asg, var as int, value),
                                    ));
                                    assert(eval_node(prev, hi as int, asg) == eval_node(
                                        n0,
                                        high as int,
                                        upd(asg, var as int, value),
                                    ));
                                }
                            }
                        }
                    },
                }
            }
            proof {
                let cur = self.nodes@;
                lemma_extends_all(prev, cur);
                assert forall|j: int|
                    0 <= j < i && #[trigger] marks@[j] implies res@[j] < cur.len() && level(
                    cur,
                    res@[j] as int,
                ) >= level(n0, j) && forall|asg: Assignment| #[trigger]
                    eval_node(cur, res@[j] as int, asg) == eval_node(
                        n0,
                        j,
                        upd(asg, var as int, value),
                    ) by {
                    assert(cur[res@[j] as int] == prev[res@[j] as int]);
                    assert forall|asg: Assignment| #[trigger] eval_node(cur, res@[j] as int, asg)
                        == eval_node(n0, j, upd(asg, var as int, value)) by {
                        assert(eval_node(prev, res@[j] as int, asg) == eval_node(
                            n0,
                            j,
                            upd(asg, var as int, value),
                        ));
                    }
                }
            }
            res.push(out);
            i += 1;
        }
        proof {
            assert(reaches(n0, node as int, node as int));
            assert(marks@[node as int]);
        }
        let r = res[node];
        proof {
            let cur = self.nodes@;
            lemma_extends_all(n0, cur);
            assert(cur[node as int] == n0[node as int]);
            if forall|asg: Assignment|
                eval_node(n0, node as int, upd(asg, var as int, value)) == #[trigger] eval_node(
                    n0,
                    node as int,
                    asg,
                ) {
                assert forall|asg: Assignment| #[trigger] eval_node(cur, r as int, asg) == eval_node(
                    cur,
                    node as int,
                    asg,
                ) by {
                    assert(eval_node(n0, node as int, upd(asg, var as int, value)) == eval_node(
                        n0,
                        node as int,
                        asg,
                    ));
                }
                lemma_canonical(cur, self.nvars(), r as int, node as int);
            }
        }
        r
    }

    /// Record a computed composition in the cache.
    fn record_compose(&mut self, f: usize, var: usize, g: usize, r: usize)
        requires
            old(self).wf(),
            compose_entry_ok(old(self).nodes(), (f, var, g, r)),
        ensures
            final(self).wf(),
            final(self).nodes() == old(self).nodes(),
            final(self).vars() == old(self).vars(),
            final(self).compose_entries() == old(self).compose_entries().push((f, var, g, r)),
            final(self).ite_entries() == old(self).ite_entries(),
    {
        cache_push(&mut self.compose_cache, &mut self.compose_index, (f, var, g, r));
    }

    /// Functional substitution: the canonical node for `f` with every test of variable `var`
    /// replaced by the function of node `g`.
    ///
    /// One walk over the pair `(f, g)`: above `var` both are split on their topmost variable;
    /// at a node of `f` that tests `var`, its two branches are selected by `g`.
    pub fn compose(&mut self, f: usize, var: usize, g: usize) -> (r: usize)
        requires
            old(self).wf(),
            f < old(self).nodes().len(),
            g < old(self).nodes().len(),
        ensures
            final(self).wf(),
            final(self).grows_from(old(self)),
            r < final(self).nodes().len(),
            is_compose(final(self).nodes(), f as int, var as int, g as int, r as int),
            level(final(self).nodes(), r as int) >= min_level(
                final(self).nodes(),
                f as int,
                g as int,
                g as int,
            ),
        decreases f + g,
    {
        let ghost n0 = self.nodes@;
        let ghost nv = self.nvars();
        if let Some(p) = cache_find(&self.compose_cache, &self.compose_index, f, var, g) {
            proof {
                assert(compose_entry_ok(n0, self.compose_cache@[p as int]));
            }
            return self.compose_cache[p].3;
        }
        let top_f = self.node_var(f);
        if f < 2 {
            return f;
        }
        proof {
            assert(node_ok(n0, f as int, nv));
        }
        if top_f > var {
            proof {
                assert forall|asg: Assignment| #[trigger] eval_node(n0, f as int, asg) == eval_node(
                    n0,
                    f as int,
                    upd(asg, var as int, eval_node(n0, g as int, asg)),
                ) by {
                    lemma_eval_upd(n0, nv, f as int, asg, var as int, eval_node(n0, g as int, asg));
                }
            }
            return f;
        }
        if top_f == var {
            let (fl, fh) = self.cofactors(f, var);
            let r = self.ite(g, fh, fl);
            proof {
                let n1 = self.nodes@;
                lemma_extends_all(n0, n1);
                assert forall|asg: Assignment| #[trigger] eval_node(n1, r as int, asg) == eval_node(
                    n1,
                    f as int,
                    upd(asg, var as int, eval_node(n1, g as int, asg)),
                ) by {
                    let x = eval_node(n0, g as int, asg);
                    let a2 = upd(asg, var as int, x);
                    assert(eval_node(n1, r as int, asg) == ite_fn(
                        n1,
                        g as int,
                        fh as int,
                        fl as int,
                        asg,
                    ));
                    assert(eval_node(n0, f as int, a2) == if a2(var as int) {
                        eval_node(n0, fh as int, a2)
                    } else {
                        eval_node(n0, fl as int, a2)
                    });
                    lemma_eval_upd(n0, nv, fh as int, asg, var as int, x);
                    lemma_eval_upd(n0, nv, fl as int, asg, var as int, x);
                }
                assert(n1[f as int] == n0[f as int]);
                assert(n1[g as int] == n0[g as int]);
                assert(n1[fh as int] == n0[fh as int]);
                assert(n1[fl as int] == n0[fl as int]);
            }
            self.record_compose(f, var, g, r);
            return r;
        }
        let top_g = self.node_var(g);
        let top = if top_f <= top_g {
            top_f
        } else {
            top_g
        };
        proof {
            assert(f >= 2);
            assert(node_ok(n0, f as int, nv));
        }
        let (f0, f1) = self.cofactors(f, top);
        let (g0, g1) = self.cofactors(g, top);
        let r0 = self.compose(f0, var, g0);
        let ghost n1 = self.nodes@;
        let r1 = self.compose(f1, var, g1);
        let ghost n2 = self.nodes@;
        proof {
            assert(n1[r0 as int] == n2[r0 as int]);
            assert(n0[f0 as int] == n1[f0 as int]);
            assert(n0[g0 as int] == n1[g0 as int]);
            assert(n0[f1 as int] == n2[f1 as int]);
            assert(n0[g1 as int] == n2[g1 as int]);
        }
        let r = self.make_node(top, r0, r1);
        proof {
            let n3 = self.nodes@;
            lemma_extends_all(n0, n3);
            lemma_extends_all(n1, n3);
            lemma_extends_all(n2, n3);
            lemma_extends_all(n0, n1);
            lemma_extends_all(n0, n2);
            assert forall|asg: Assignment| #[trigger] eval_node(n3, r as int, asg) == eval_node(
                n3,
                f as int,
                upd(asg, var as int, eval_node(n3, g as int, asg)),
            ) by {
                let x = eval_node(n0, g as int, asg);
                let a2 = upd(asg, var as int, x);
                assert(eval_node(n1, r0 as int, asg) == eval_node(
                    n1,
                    f0 as int,
                    upd(asg, var as int, eval_node(n1, g0 as int, asg)),
                ));
                assert(eval_node(n2, r1 as int, asg) == eval_node(
                    n2,
                    f1 as int,
                    upd(asg, var as int, eval_node(n2, g1 as int, asg)),
                ));
                assert(eval_node(n0, g as int, asg) == if asg(top as int) {
                    eval_node(n0, g1 as int, asg)
                } else {
                    eval_node(n0, g0 as int, asg)
                });
                assert(eval_node(n0, f as int, a2) == if a2(top as int) {
                    eval_node(n0, f1 as int, a2)
                } else {
                    eval_node(n0, f0 as int, a2)
                });
                assert(a2(top as int) == asg(top as int));
                assert(eval_node(n1, f0 as int, a2) == eval_node(n0, f0 as int, a2));
                assert(eval_node(n2, f1 as int, a2) == eval_node(n0, f1 as int, a2));
            }
            assert(n3[f as int] == n0[f as int]);
            assert(n3[g as int] == n0[g as int]);
        }
        self.record_compose(f, var, g, r);
        r
    }

    /// Simultaneous substitution: the canonical node for `f` with each variable `v` that `map`
    /// holds replaced by the function of node `map[v]`, all at once (so a map may swap two
    /// variables).
    ///
    /// Walks `f`'s own sub-diagram once, bottom-up. A node testing a mapped variable selects its
    /// rebuilt branches by the substituting function; a node testing an unmapped variable is
    /// rebuilt directly when its rebuilt branches still lie below it, and otherwise selects them
    /// by the variable's own projection.
    pub fn compose_map(&mut self, f: usize, map: &HashMap<usize, usize>) -> (r: usize)
        requires
            old(self).wf(),
            f < old(self).nodes().len(),
            forall|v: usize| #[trigger] map@.dom().contains(v) ==> map@[v] < old(self).nodes().len(),
        ensures
            final(self).wf(),
            final(self).grows_from(old(self)),
            r < final(self).nodes().len(),
            forall|asg: Assignment| #[trigger]
                eval_node(final(self).nodes(), r as int, asg) == eval_node(
                    final(self).nodes(),
                    f as int,
                    subst_asg(final(self).nodes(), map@, asg),
                ),
    {
        let ghost n0 = self.nodes@;
        let ghost nv = self.nvars();
        let ghost m = map@;
        let count = self.nodes.len();
        let marks = self.reach_marks(f);
        let mut res: Vec<usize> = Vec::new();
        let mut i: usize = 0;
        while i <= f
            invariant
                i <= f + 1,
                f < n0.len(),
                count == n0.len(),
                robdd(n0, nv),
                nv == self.nvars(),
                m == map@,
                forall|v: usize| #[trigger] m.dom().contains(v) ==> m[v] < n0.len(),
                self.wf(),
                extends(n0, self.nodes@),
                self.vars@ == old(self).vars@,
                n0 == old(self).nodes@,
                marks@.len() == f + 1,
                forall|j: int| 0 <= j <= f ==> #[trigger] marks@[j] == reaches(n0, f as int, j),
                res@.len() == i,
                forall|j: int|
                    0 <= j < i && #[trigger] marks@[j] ==> res@[j] < self.nodes@.len() && forall|
                        asg: Assignment,
                    | #[trigger]
                        eval_node(self.nodes@, res@[j] as int, asg) == eval_node(
                            n0,
                            j,
                            subst_asg(n0, m, asg),
                        ),
            decreases f + 1 - i,
        {
            let ghost prev = self.nodes@;
            let mut out: usize = 0;
            if marks[i] {
                match self.nodes[i] {
                    BddNode::Terminal(_) => {
                        out = i;
                    },
                    BddNode::Decision { var: v, low, high } => {
                        proof {
                            assert(n0[i as int] == prev[i as int]);
                            assert(i >= 2);
                            assert(node_ok(n0, i as int, nv));
                            assert(is_child(n0, i as int, low as int));
                            assert(is_child(n0, i as int, high as int));
                            lemma_reaches_child(n0, f as int, i as int, low as int);
                            lemma_reaches_child(n0, f as int, i as int, high as int);
                            assert(marks@[low as int]);
                            assert(marks@[high as int]);
                        }
                        let e = res[low];
                        let t = res[high];
                        match map.get(&v) {
                            Some(gv) => {
                                let gv = *gv;
                                proof {
                                    assert(m.dom().contains(v));
                                    assert(gv < n0.len());
                                    assert(prev[gv as int] == n0[gv as int]);
                                }
                                out = self.ite(gv, t, e);
                                proof {
                                    let cur = self.nodes@;
                                    lemma_extends_all(prev, cur);
                                    lemma_extends_all(n0, cur);
                                    assert forall|asg: Assignment| #[trigger] eval_node(
                                        cur,
                                        out as int,
                                        asg,
                                    ) == eval_node(n0, i as int, subst_asg(n0, m, asg)) by {
                                        let sa = subst_asg(n0, m, asg);
                                        lemma_eval_decision(n0, nv, i as int, sa);
                                        assert(sa(v as int) == eval_node(n0, gv as int, asg));
                                        assert(eval_node(cur, out as int, asg) == ite_fn(
                                            cur,
                                            gv as int,
                                            t as int,
                                            e as int,
                                            asg,
                                        ));
                                        assert(eval_node(prev, t as int, asg) == eval_node(
                                            n0,
                                            high as int,
                                            sa,
                                        ));
                                        assert(eval_node(prev, e as int, asg) == eval_node(
                                            n0,
                                            low as int,
                                            sa,
                                        ));
                                    }
                                }
                            },
                            None => {
                                let ev = self.node_var(e);
                                let tv = self.node_var(t);
                                if ev > v && tv > v {
                                    out = self.make_node(v, e, t);
                                    proof {
                                        let cur = self.nodes@;
                                        lemma_extends_all(prev, cur);
                                        assert forall|asg: Assignment| #[trigger] eval_node(
                                            cur,
                                            out as int,
                                            asg,
                                        ) == eval_node(n0, i as int, subst_asg(n0, m, asg)) by {
                                            let sa = subst_asg(n0, m, asg);
                                            lemma_eval_decision(n0, nv, i as int, sa);
                                            assert(!m.dom().contains(v));
                                            assert(sa(v as int) == asg(v as int));
                                            assert(eval_node(prev, t as int, asg) == eval_node(
                                                n0,
                                                high as int,
                                                sa,
                                            ));
                                            assert(eval_node(prev, e as int, asg) == eval_node(
                                                n0,
                                                low as int,
                                                sa,
                                            ));
                                        }
                                    }
                                } else {
                                    let proj = self.make_node(v, FALSE_NODE, TRUE_NODE);
                                    let ghost mid = self.nodes@;
                                    proof {
                                        assert(mid[t as int] == prev[t as int]);
                                        assert(mid[e as int] == prev[e as int]);
                                    }
                                    out = self.ite(proj, t, e);
                                    proof {
                                        let cur = self.nodes@;
                                        lemma_extends_all(prev, cur);
                                        lemma_extends_all(mid, cur);
                                        lemma_extends_all(prev, mid);
                                        assert forall|asg: Assignment| #[trigger] eval_node(
                                            cur,
                                            out as int,
                                            asg,
                                        ) == eval_node(n0, i as int, subst_asg(n0, m, asg)) by {
                                            let sa = subst_asg(n0, m, asg);
                                            lemma_eval_decision(n0, nv, i as int, sa);
                                            assert(!m.dom().contains(v));
                                            assert(sa(v as int) == asg(v as int));
                                            lemma_terminals(mid, nv, asg);
                                            assert(eval_node(mid, proj as int, asg) == asg(
                                                v as int,
                                            ));
                                            assert(eval_node(cur, out as int, asg) == ite_fn(
                                                cur,
                                                proj as int,
                                                t as int,
                                                e as int,
                                                asg,
                                            ));
                                            assert(eval_node(prev, t as int, asg) == eval_node(
                                                n0,
                                                high as int,
                                                sa,
                                            ));
                                            assert(eval_node(prev, e as int, asg) == eval_node(
                                                n0,
                                                low as int,
                                                sa,
                                            ));
                                        }
                                    }
                                }
                            },
                        }
                    },
                }
            }
            proof {
                let cur = self.nodes@;
                lemma_extends_all(prev, cur);
                assert forall|j: int|
                    0 <= j < i && #[trigger] marks@[j] implies res@[j] < cur.len() && forall|
                    asg: Assignment,
                | #[trigger]
                    eval_node(cur, res@[j] as int, asg) == eval_node(n0, j, subst_asg(n0, m, asg)) by {
                    assert forall|asg: Assignment| #[trigger] eval_node(cur, res@[j] as int, asg)
                        == eval_node(n0, j, subst_asg(n0, m, asg)) by {
                        assert(eval_node(prev, res@[j] as int, asg) == eval_node(
                            n0,
                            j,
                            subst_asg(n0, m, asg),
                        ));
                    }
                }
                if marks@[i as int] && n0[i as int] is Terminal {
                    assert(prev[i as int] == n0[i as int]);
                    assert forall|asg: Assignment| #[trigger] eval_node(cur, out as int, asg)
                        == eval_node(n0, i as int, subst_asg(n0, m, asg)) by {
                        assert(cur[i as int] == n0[i as int]);
                    }
                }
            }
            res.push(out);
            i += 1;
        }
        proof {
            assert(reaches(n0, f as int, f as int));
            assert(marks@[f as int]);
        }
        let r = res[f];
        proof {
            let cur = self.nodes@;
            lemma_extends_all(n0, cur);
            assert(cur[f as int] == n0[f as int]);
            assert forall|asg: Assignment| #[trigger] eval_node(cur, r as int, asg) == eval_node(
                cur,
                f as int,
                subst_asg(cur, m, asg),
            ) by {
                assert(subst_asg(cur, m, asg) =~= subst_asg(n0, m, asg)) by {
                    assert forall|v: int| #[trigger] subst_asg(cur, m, asg)(v) == subst_asg(n0, m, asg)(v) by {
                        if 0 <= v <= usize::MAX && m.dom().contains(v as usize) {
                            assert(m[v as usize] < n0.len());
                        }
                    }
                }
            }
        }
        r
    }

    /// The number of distinct nodes in the sub-diagram rooted at `root`, terminals included.
    pub fn node_count(&self, root: usize) -> (r: usize)
        requires
            root < self.nodes().len(),
        ensures
            r == count_reach(self.nodes(), root as int, root + 1),
            r == reach_set(self.nodes(), root as int).len(),
    {
        proof {
            law_node_count_reachable(self.nodes(), root as int);
        }
        let n = self.nodes.len();
        let marks = self.reach_marks(root);
        let mut count: usize = 0;
        let mut i: usize = 0;
        while i <= root
            invariant
                i <= root + 1,
                n == self.nodes().len(),
                root < self.nodes().len(),
                marks@.len() == root + 1,
                forall|j: int| 0 <= j <= root ==> #[trigger] marks@[j] == reaches(self.nodes(), root as int, j),
                count == count_reach(self.nodes(), root as int, i as int),
                count <= i,
            decreases root + 1 - i,
        {
            if marks[i] {
                count += 1;
            }
            i += 1;
        }
        count
    }

    /// The ids of the variables the sub-diagram rooted at `root` tests, in increasing order.
    pub fn support(&self, root: usize) -> (r: Vec<usize>)
        requires
            self.wf(),
            root < self.nodes().len(),
        ensures
            forall|a: int, b: int| 0 <= a < b < r@.len() ==> r@[a] < r@[b],
            forall|v: usize| r@.contains(v) <==> in_support(self.nodes(), root as int, v as int),
            forall|q: int| 0 <= q < r@.len() ==> #[trigger] r@[q] < self.nvars(),
            r@.len() == count_support(self.nodes(), root as int, self.nvars()),
    {
        let ghost nodes = self.nodes@;
        let nv = self.vars.len();
        let n = self.nodes.len();
        let marks = self.reach_marks(root);
        let mut flags: Vec<bool> = Vec::new();
        let mut v: usize = 0;
        while v < nv
            invariant
                v <= nv,
                flags@.len() == v,
                forall|q: int| 0 <= q < v ==> !#[trigger] flags@[q],
            decreases nv - v,
        {
            flags.push(false);
            v += 1;
        }
        let mut i: usize = 0;
        while i <= root
            invariant
                i <= root + 1,
                root < nodes.len(),
                n == nodes.len(),
                nodes == self.nodes@,
                self.wf(),
                nv == self.nvars(),
                flags@.len() == nv,
                marks@.len() == root + 1,
                forall|j: int| 0 <= j <= root ==> #[trigger] marks@[j] == reaches(nodes, root as int, j),
                forall|q: int|
                    0 <= q < nv ==> (#[trigger] flags@[q] <==> exists|j: int|
                        0 <= j < i && #[trigger] reaches(nodes, root as int, j) && nodes[j] is Decision
                            && nodes[j]->var == q),
            decreases root + 1 - i,
        {
            let ghost before = flags@;
            if marks[i] {
                match self.nodes[i] {
                    BddNode::Decision { var, .. } => {
                        proof {
                            assert(i >= 2);
                            assert(node_ok(nodes, i as int, nv as int));
                        }
                        flags.set(var, true);
                    },
                    BddNode::Terminal(_) => {},
                }
            }
            proof {
                assert forall|q: int| 0 <= q < nv implies (#[trigger] flags@[q] <==> exists|j: int|
                    0 <= j < i + 1 && #[trigger] reaches(nodes, root as int, j) && nodes[j] is Decision
                        && nodes[j]->var == q) by {
                    if flags@[q] && !before[q] {
                        assert(reaches(nodes, root as int, i as int) && nodes[i as int] is Decision
                            && nodes[i as int]->var == q);
                    }
                    if before[q] {
                        let j = choose|j: int|
                            0 <= j < i && #[trigger] reaches(nodes, root as int, j) && nodes[j] is Decision
                                && nodes[j]->var == q;
                        assert(0 <= j < i + 1);
                    }
                    if exists|j: int|
                        0 <= j < i + 1 && #[trigger] reaches(nodes, root as int, j) && nodes[j] is Decision
                            && nodes[j]->var == q {
                        let j = choose|j: int|
                            0 <= j < i + 1 && #[trigger] reaches(nodes, root as int, j) && nodes[j] is Decision
                                && nodes[j]->var == q;
                        if j < i {
                            assert(before[q]);
                        }
                    }
                }
            }
            i += 1;
        }
        proof {
            assert forall|q: int| 0 <= q < nv implies (#[trigger] flags@[q] <==> in_support(
                nodes,
                root as int,
                q,
            )) by {
                if in_support(nodes, root as int, q) {
                    let j = choose|j: int|
                        0 <= j <= root && #[trigger] reaches(nodes, root as int, j) && nodes[j] is Decision
                            && nodes[j]->var == q;
                    assert(0 <= j < root + 1);
                }
            }
            assert forall|q: int| q >= nv implies !in_support(nodes, root as int, q) by {
                if in_support(nodes, root as int, q) {
                    let j = choose|j: int|
                        0 <= j <= root && #[trigger] reaches(nodes, root as int, j) && nodes[j] is Decision
                            && nodes[j]->var == q;
                    assert(j >= 2);
                    assert(node_ok(nodes, j, nv as int));
                }
            }
        }
        let mut out: Vec<usize> = Vec::new();
        let mut v: usize = 0;
        while v < nv
            invariant
                v <= nv,
                flags@.len() == nv,
                nv == self.nvars(),
                nodes == self.nodes@,
                forall|q: int| 0 <= q < nv ==> (#[trigger] flags@[q] <==> in_support(nodes, root as int, q)),
                forall|a: int, b: int| 0 <= a < b < out@.len() ==> out@[a] < out@[b],
                forall|a: int| 0 <= a < out@.len() ==> out@[a] < v,
                forall|q: usize| q < v ==> (out@.contains(q) <==> in_support(nodes, root as int, q as int)),
                forall|q: usize| q >= v ==> !out@.contains(q),
                out@.len() == count_support(nodes, root as int, v as int),
            decreases nv - v,
        {
            let ghost before = out@;
            if flags[v] {
                out.push(v);
            }
            proof {
                assert forall|q: usize| q < v + 1 implies (out@.contains(q) <==> in_support(
                    nodes,
                    root as int,
                    q as int,
                )) by {
                    if q < v {
                        if out@.contains(q) {
                            let k = choose|k: int| 0 <= k < out@.len() && out@[k] == q;
                            if k < before.len() {
                                assert(before.contains(q));
                            }
                        }
                        if before.contains(q) {
                            let k = choose|k: int| 0 <= k < before.len() && before[k] == q;
                            assert(out@[k] == q);
                        }
                    } else {
                        if flags@[v as int] {
                            assert(out@[before.len() as int] == v);
                        } else {
                            assert(out@ == before);
                        }
                    }
                }
                assert forall|q: usize| q >= v + 1 implies !out@.contains(q) by {
                    if out@.contains(q) {
                        let k = choose|k: int| 0 <= k < out@.len() && out@[k] == q;
                        if k < before.len() {
                            assert(before.contains(q));
                        }
                    }
                }
            }
            v += 1;
        }
        out
    }

    /// Every path from node `i` to the true terminal, low branch first.
    pub fn collect_paths(&self, i: usize) -> (r: Vec<Vec<(usize, bool)>>)
        requires
            i < self.nodes().len(),
        ensures
            r@.map_values(|p: Vec<(usize, bool)>| p@) == paths(self.nodes(), i as int),
        decreases i,
    {
        let ghost nodes = self.nodes@;
        match self.nodes[i] {
            BddNode::Terminal(b) => {
                let mut r: Vec<Vec<(usize, bool)>> = Vec::new();
                if b {
                    r.push(Vec::new());
                }
                proof {
                    if b {
                        assert(r@.map_values(|p: Vec<(usize, bool)>| p@) =~= seq![
                            Seq::<(usize, bool)>::empty(),
                        ]);
                    } else {
                        assert(r@.map_values(|p: Vec<(usize, bool)>| p@) =~= Seq::<
                            Seq<(usize, bool)>,
                        >::empty());
                    }
                }
                r
            },
            BddNode::Decision { var, low, high } => {
                if low < i && high < i {
                    let lows = self.collect_paths(low);
                    let highs = self.collect_paths(high);
                    let mut r: Vec<Vec<(usize, bool)>> = Vec::new();
                    let ghost pl = paths(nodes, low as int);
                    let ghost ph = paths(nodes, high as int);
                    let ghost fl = |p: Seq<(usize, bool)>| seq![(var, false)] + p;
                    let ghost fh = |p: Seq<(usize, bool)>| seq![(var, true)] + p;
                    let mut k: usize = 0;
                    while k < lows.len()
                        invariant
                            k <= lows@.len(),
                            fl == (|p: Seq<(usize, bool)>| seq![(var, false)] + p),
                            lows@.map_values(|p: Vec<(usize, bool)>| p@) == pl,
                            r@.map_values(|p: Vec<(usize, bool)>| p@) == pl.map_values(fl).take(
                                k as int,
                            ),
                        decreases lows@.len() - k,
                    {
                        let mut p: Vec<(usize, bool)> = Vec::new();
                        p.push((var, false));
                        let src = &lows[k];
                        let mut t: usize = 0;
                        while t < src.len()
                            invariant
                                t <= src@.len(),
                                p@ == seq![(var, false)] + src@.take(t as int),
                                k < lows@.len(),
                                fl == (|p: Seq<(usize, bool)>| seq![(var, false)] + p),
                                src@ == lows@[k as int]@,
                                lows@.map_values(|p: Vec<(usize, bool)>| p@) == pl,
                                r@.map_values(|p: Vec<(usize, bool)>| p@) == pl.map_values(fl).take(
                                    k as int,
                                ),
                            decreases src@.len() - t,
                        {
                            p.push(src[t]);
                            proof {
                                assert(src@.take(t + 1) =~= src@.take(t as int).push(src@[t as int]));
                            }
                            t += 1;
                        }
                        proof {
                            assert(src@.take(src@.len() as int) =~= src@);
                            assert(pl[k as int] == src@);
                            assert(p@ == fl(pl[k as int]));
                        }
                        let ghost before = r@;
                        r.push(p);
                        proof {
                            let lhs = r@.map_values(|p: Vec<(usize, bool)>| p@);
                            let rhs = pl.map_values(fl).take(k + 1);
                            assert(pl.len() == lows@.len());
                            assert(before.map_values(|p: Vec<(usize, bool)>| p@).len() == k);
                            assert(lhs.len() == rhs.len());
                            assert forall|q: int| 0 <= q < lhs.len() implies lhs[q] == rhs[q] by {
                                if q < k {
                                    assert(before.map_values(|p: Vec<(usize, bool)>| p@)[q] == lhs[q]);
                                }
                            }
                            assert(lhs =~= rhs);
                        }
                        k += 1;
                    }
                    let ghost nl = r@.len();
                    let mut k: usize = 0;
                    while k < highs.len()
                        invariant
                            k <= highs@.len(),
                            nl == pl.len(),
                            fh == (|p: Seq<(usize, bool)>| seq![(var, true)] + p),
                            highs@.map_values(|p: Vec<(usize, bool)>| p@) == ph,
                            r@.map_values(|p: Vec<(usize, bool)>| p@) == pl.map_values(fl)
                                + ph.map_values(fh).take(k as int),
                        decreases highs@.len() - k,
                    {
                        let mut p: Vec<(usize, bool)> = Vec::new();
                        p.push((var, true));
                        let src = &highs[k];
                        let mut t: usize = 0;
                        while t < src.len()
                            invariant
                                t <= src@.len(),
                                p@ == seq![(var, true)] + src@.take(t as int),
                                k < highs@.len(),
                                nl == pl.len(),
                                fh == (|p: Seq<(usize, bool)>| seq![(var, true)] + p),
                                src@ == highs@[k as int]@,
                                highs@.map_values(|p: Vec<(usize, bool)>| p@) == ph,
                                r@.map_values(|p: Vec<(usize, bool)>| p@) == pl.map_values(fl)
                                    + ph.map_values(fh).take(k as int),
                            decreases src@.len() - t,
                        {
                            p.push(src[t]);
                            proof {
                                assert(src@.take(t + 1) =~= src@.take(t as int).push(src@[t as int]));
                            }
                            t += 1;
                        }
                        proof {
                            assert(src@.take(src@.len() as int) =~= src@);
                            assert(ph[k as int] == src@);
                            assert(p@ == fh(ph[k as int]));
                        }
                        let ghost before = r@;
                        r.push(p);
                        proof {
                            let lhs = r@.map_values(|p: Vec<(usize, bool)>| p@);
                            let rhs = pl.map_values(fl) + ph.map_values(fh).take(k + 1);
                            assert(ph.len() == highs@.len());
                            assert(before.map_values(|p: Vec<(usize, bool)>| p@).len() == pl.len() + k);
                            assert(lhs.len() == rhs.len());
                            assert forall|q: int| 0 <= q < lhs.len() implies lhs[q] == rhs[q] by {
                                if q < lhs.len() - 1 {
                                    assert(before.map_values(|p: Vec<(usize, bool)>| p@)[q] == lhs[q]);
                                }
                            }
                            assert(lhs =~= rhs);
                        }
                        k += 1;
                    }
                    proof {
                        assert(ph.map_values(fh).take(ph.len() as int) =~= ph.map_values(fh));
                        assert(pl.map_values(fl).take(pl.len() as int) =~= pl.map_values(fl));
                    }
                    r
                } else {
                    let r: Vec<Vec<(usize, bool)>> = Vec::new();
                    proof {
                        assert(r@.map_values(|p: Vec<(usize, bool)>| p@) =~= Seq::<
                            Seq<(usize, bool)>,
                        >::empty());
                    }
                    r
                }
            },
        }
    }

    /// Build the diagram of an expression: run its token program on a stack of nodes,
    /// registering each variable on first use. Returns the root.
    pub fn build_expr<S: Syntax>(&mut self, e: &BoolExpr<S>) -> (r: usize)
        requires
            old(self).wf(),
        ensures
            final(self).wf(),
            extends(old(self).nodes(), final(self).nodes()),
            final(self).vars() == intern_all(old(self).vars(), e@),
            r < final(self).nodes().len(),
            forall|env: spec_fn(Seq<char>) -> bool| #[trigger]
                eval_node(final(self).nodes(), r as int, asg_of(final(self).vars(), env)) == eval(
                    e@,
                    env,
                ),
    {
        e.assert_well_formed();
        let tokens = e.tokens();
        let ghost toks = e@;
        let ghost n0 = self.nodes@;
        let ghost v0 = self.vars@;
        let n = tokens.len();
        let mut stack: Vec<usize> = Vec::new();
        let mut i: usize = 0;
        proof {
            assert(toks.take(0) =~= Seq::<SToken>::empty());
            assert forall|env: spec_fn(Seq<char>) -> bool| #[trigger]
                stack_vals(self.nodes@, stack@, asg_of(self.vars@, env)) == run(
                    toks.take(0),
                    Seq::<bool>::empty(),
                    bool_alg(env),
                ) by {
                assert(stack_vals(self.nodes@, stack@, asg_of(self.vars@, env)) =~= Seq::<
                    bool,
                >::empty());
            }
        }
        while i < n
            invariant
                n == toks.len(),
                toks == e@,
                toks_view(tokens@) == toks,
                wf_program(toks),
                i <= n,
                self.wf(),
                extends(n0, self.nodes@),
                self.vars@ == intern_all(v0, toks.take(i as int)),
                forall|k: int| 0 <= k < stack@.len() ==> #[trigger] stack@[k] < self.nodes@.len(),
                forall|env: spec_fn(Seq<char>) -> bool| #[trigger]
                    stack_vals(self.nodes@, stack@, asg_of(self.vars@, env)) == run(
                        toks.take(i as int),
                        Seq::<bool>::empty(),
                        bool_alg(env),
                    ),
            decreases n - i,
        {
            let ghost p = self.nodes@;
            let ghost pv = self.vars@;
            let ghost ps = stack@;
            let ghost t = toks[i as int];
            let ghost e0: spec_fn(Seq<char>) -> bool = |s: Seq<char>| false;
            proof {
                lemma_prefix(toks, i as int, bool_alg(e0));
                assert(stack_vals(p, ps, asg_of(pv, e0)).len() == ps.len());
                assert(toks.take(i + 1).drop_last() =~= toks.take(i as int));
                assert(toks.take(i + 1).last() == toks[i as int]);
                assert(t == tokens@[i as int]@);
            }
            let ghost keep: int = ps.len() - super::rpn::arity(t);
            let mut nd: usize = 0;
            match &tokens[i] {
                Token::Var(name) => {
                    let v = self.make_var(name.as_str());
                    let nv = self.var_count();
                    assert(v < nv);
                    nd = self.make_node(v, FALSE_NODE, TRUE_NODE);
                    proof {
                        assert(self.vars@ == intern_all(v0, toks.take(i + 1)));
                        assert forall|env: spec_fn(Seq<char>) -> bool| #[trigger]
                            eval_node(self.nodes@, nd as int, asg_of(self.vars@, env)) == env(name@) by {
                            lemma_terminals(self.nodes@, self.nvars(), asg_of(self.vars@, env));
                        }
                    }
                },
                Token::Const(b) => {
                    nd = if *b {
                        TRUE_NODE
                    } else {
                        FALSE_NODE
                    };
                },
                Token::Not => {
                    let x = stack.pop().unwrap();
                    nd = self.ite(x, FALSE_NODE, TRUE_NODE);
                },
                Token::And => {
                    let b = stack.pop().unwrap();
                    let a = stack.pop().unwrap();
                    nd = self.ite(a, b, FALSE_NODE);
                },
                Token::Or => {
                    let b = stack.pop().unwrap();
                    let a = stack.pop().unwrap();
                    nd = self.ite(a, TRUE_NODE, b);
                },
                Token::Xor => {
                    let b = stack.pop().unwrap();
                    let a = stack.pop().unwrap();
                    nd = self.xor(a, b);
                },
            }
            proof {
                let c = self.nodes@;
                let cv = self.vars@;
                assert(stack@ =~= ps.take(keep));
                assert(is_prefix(pv, cv));
                assert(cv == intern_all(v0, toks.take(i + 1)));
                assert forall|env: spec_fn(Seq<char>) -> bool| #[trigger]
                    stack_vals(c, stack@.push(nd), asg_of(cv, env)) == run(
                        toks.take(i + 1),
                        Seq::<bool>::empty(),
                        bool_alg(env),
                    ) by {
                    let alg = bool_alg(env);
                    lemma_prefix(toks, i as int, alg);
                    let pre = run(toks.take(i as int), Seq::<bool>::empty(), alg);
                    assert(stack_vals(p, ps, asg_of(pv, env)) == pre);
                    lemma_lift_stack(p, pv, c, cv, ps.take(keep), env);
                    assert(stack_vals(p, ps.take(keep), asg_of(pv, env)) =~= pre.take(keep));
                    assert(stack_vals(c, stack@.push(nd), asg_of(cv, env)) =~= stack_vals(
                        c,
                        ps.take(keep),
                        asg_of(cv, env),
                    ).push(eval_node(c, nd as int, asg_of(cv, env))));
                    let ac = asg_of(cv, env);
                    let ap = asg_of(pv, env);
                    lemma_terminals(c, cv.len() as int, ac);
                    match t {
                        SToken::Var(_) => {},
                        SToken::Const(_) => {},
                        SToken::Not => {
                            let x = ps[ps.len() - 1];
                            lemma_lift_val(p, pv, c, cv, x as int, env);
                            assert(pre[ps.len() - 1] == eval_node(p, x as int, ap));
                        },
                        SToken::Xor => {
                            let x = ps[ps.len() - 2];
                            let y = ps[ps.len() - 1];
                            lemma_lift_val(p, pv, c, cv, x as int, env);
                            lemma_lift_val(p, pv, c, cv, y as int, env);
                            assert(pre[ps.len() - 2] == eval_node(p, x as int, ap));
                            assert(pre[ps.len() - 1] == eval_node(p, y as int, ap));
                        },
                        _ => {
                            let x = ps[ps.len() - 2];
                            let y = ps[ps.len() - 1];
                            lemma_lift_val(p, pv, c, cv, x as int, env);
                            lemma_lift_val(p, pv, c, cv, y as int, env);
                            assert(pre[ps.len() - 2] == eval_node(p, x as int, ap));
                            assert(pre[ps.len() - 1] == eval_node(p, y as int, ap));
                        },
                    }
                }
            }
            stack.push(nd);
            i += 1;
        }
        proof {
            let e0: spec_fn(Seq<char>) -> bool = |s: Seq<char>| false;
            lemma_full(toks, bool_alg(e0));
            assert(toks.take(n as int) =~= toks);
            assert(stack_vals(self.nodes@, stack@, asg_of(self.vars@, e0)) == run(
                toks,
                Seq::<bool>::empty(),
                bool_alg(e0),
            ));
            assert(stack@.len() == 1);
        }
        let r = stack[0];
        proof {
            assert forall|env: spec_fn(Seq<char>) -> bool| #[trigger]
                eval_node(self.nodes@, r as int, asg_of(self.vars@, env)) == eval(toks, env) by {
                lemma_full(toks, bool_alg(env));
                assert(stack_vals(self.nodes@, stack@, asg_of(self.vars@, env))[0] == eval_node(
                    self.nodes@,
                    r as int,
                    asg_of(self.vars@, env),
                ));
            }
        }
        r
    }

    /// The variable names of a well-formed manager are distinct.
    pub proof fn lemma_distinct_vars(&self)
        requires
            self.wf(),
        ensures
            distinct_names(self.vars()),
    {
        self.vars.lemma_distinct();
    }

    /// The diagram of an expression in a fresh manager, with the expression's variables in order
    /// of first occurrence.
    pub fn of_expr<S: Syntax>(e: &BoolExpr<S>) -> (r: (BddManager, usize))
        ensures
            r.0.wf(),
            r.0.vars() == first_occurrences(e@),
            represents(r.0.nodes(), r.0.vars(), r.1 as int, e@),
    {
        let mut m = BddManager::new();
        let root = m.build_expr(e);
        proof {
            lemma_intern_all_empty(e@);
            m.lemma_distinct_vars();
        }
        (m, root)
    }

    /// The variable node `id` tests, or `usize::MAX` for a terminal.
    pub fn node_var(&self, id: usize) -> (r: usize)
        requires
            id < self.nodes().len(),
        ensures
            r as int == level(self.nodes(), id as int),
    {
        match self.nodes[id] {
            BddNode::Terminal(_) => usize::MAX,
            BddNode::Decision { var, .. } => var,
        }
    }
}

/// Composing into a function that does not depend on the variable gives that function back:
/// the node `compose` returns is the node `f` itself.
pub proof fn law_compose_absent(nodes: Seq<BddNode>, nvars: int, f: int, var: int, g: int, r: int)
    requires
        robdd(nodes, nvars),
        0 <= f < nodes.len(),
        0 <= r < nodes.len(),
        is_compose(nodes, f, var, g, r),
        forall|asg: Assignment, x: bool| #[trigger] eval_node(nodes, f, upd(asg, var, x)) == eval_node(nodes, f, asg),
    ensures
        r == f,
{
    assert forall|asg: Assignment| #[trigger] eval_node(nodes, r, asg) == eval_node(nodes, f, asg) by {
        assert(eval_node(nodes, f, upd(asg, var, eval_node(nodes, g, asg))) == eval_node(nodes, f, asg));
    }
    lemma_canonical(nodes, nvars, r, f);
}

/// The result of restricting a variable no longer depends on it: setting the variable to any
/// value leaves its function unchanged, so restricting it again (to either value) returns it
/// unchanged, by `restrict`'s own contract.
pub proof fn law_restrict_independent(nodes: Seq<BddNode>, node: int, var: int, value: bool, r: int)
    requires
        forall|asg: Assignment| #[trigger] eval_node(nodes, r, asg) == eval_node(nodes, node, upd(asg, var, value)),
    ensures
        forall|asg: Assignment, b: bool| #[trigger] eval_node(nodes, r, upd(asg, var, b)) == eval_node(nodes, r, asg),
{
    assert forall|asg: Assignment, b: bool| #[trigger] eval_node(nodes, r, upd(asg, var, b)) == eval_node(nodes, r, asg) by {
        assert(upd(upd(asg, var, b), var, value) =~= upd(asg, var, value));
        assert(eval_node(nodes, r, upd(asg, var, b)) == eval_node(nodes, node, upd(upd(asg, var, b), var, value)));
        assert(eval_node(nodes, r, asg) == eval_node(nodes, node, upd(asg, var, value)));
    }
}

/// The paths of a node to true are disjoint: no assignment follows two of them. Each step
/// of a diagram goes one way on its variable, so two paths part where they first differ.
pub proof fn law_paths_disjoint(nodes: Seq<BddNode>, nvars: int, i: int, a: int, b: int, asg: Assignment)
    requires
        robdd(nodes, nvars),
        0 <= i < nodes.len(),
        0 <= a < b < paths(nodes, i).len(),
    ensures
        !(follows(asg, paths(nodes, i)[a]) && follows(asg, paths(nodes, i)[b])),
    decreases i,
{
    if i >= 2 {
        assert(node_ok(nodes, i, nvars));
        let var = nodes[i]->var;
        let low = nodes[i]->low as int;
        let high = nodes[i]->high as int;
        let pl = paths(nodes, low);
        let ph = paths(nodes, high);
        let ml = pl.map_values(|p: Seq<(usize, bool)>| seq![(var, false)] + p);
        let mh = ph.map_values(|p: Seq<(usize, bool)>| seq![(var, true)] + p);
        assert(paths(nodes, i) == ml + mh);
        let pa = paths(nodes, i)[a];
        let pb = paths(nodes, i)[b];
        if follows(asg, pa) && follows(asg, pb) {
            assert(pa[0].1 == (a >= ml.len()));
            assert(pb[0].1 == (b >= ml.len()));
            assert(asg(pa[0].0 as int) == pa[0].1);
            assert(asg(pb[0].0 as int) == pb[0].1);
            if b < ml.len() {
                assert(pa == seq![(var, false)] + pl[a]);
                assert(pb == seq![(var, false)] + pl[b]);
                assert forall|k: int| 0 <= k < pl[a].len() implies asg(#[trigger] pl[a][k].0 as int) == pl[a][k].1 by {
                    assert(pa[k + 1] == pl[a][k]);
                }
                assert forall|k: int| 0 <= k < pl[b].len() implies asg(#[trigger] pl[b][k].0 as int) == pl[b][k].1 by {
                    assert(pb[k + 1] == pl[b][k]);
                }
                law_paths_disjoint(nodes, nvars, low, a, b, asg);
            } else if a >= ml.len() {
                let a2 = a - ml.len();
                let b2 = b - ml.len();
                assert(pa == seq![(var, true)] + ph[a2]);
                assert(pb == seq![(var, true)] + ph[b2]);
                assert forall|k: int| 0 <= k < ph[a2].len() implies asg(#[trigger] ph[a2][k].0 as int) == ph[a2][k].1 by {
                    assert(pa[k + 1] == ph[a2][k]);
                }
                assert forall|k: int| 0 <= k < ph[b2].len() implies asg(#[trigger] ph[b2][k].0 as int) == ph[b2][k].1 by {
                    assert(pb[k + 1] == ph[b2][k]);
                }
                law_paths_disjoint(nodes, nvars, high, a2, b2, asg);
            }
        }
    }
}

/// The constant diagrams: `true` has one path, which tests nothing, and `false` has none.
pub proof fn law_constant_paths(nodes: Seq<BddNode>, nvars: int)
    requires
        robdd(nodes, nvars),
    ensures
        paths(nodes, TRUE_NODE as int) == seq![Seq::<(usize, bool)>::empty()],
        paths(nodes, FALSE_NODE as int) == Seq::<Seq<(usize, bool)>>::empty(),
{
}


/// A node tests variable `v` somewhere below it exactly when it tests `v` itself or one of its
/// children does; a terminal tests nothing.
proof fn lemma_support_unfold(nodes: Seq<BddNode>, nvars: int, a: int, v: int)
    requires
        robdd(nodes, nvars),
        0 <= a < nodes.len(),
    ensures
        a < 2 ==> !in_support(nodes, a, v),
        a >= 2 ==> (in_support(nodes, a, v) <==> (nodes[a]->var == v || in_support(
            nodes,
            nodes[a]->low as int,
            v,
        ) || in_support(nodes, nodes[a]->high as int, v))),
{
    if a < 2 {
        if in_support(nodes, a, v) {
            let j = choose|j: int|
                0 <= j <= a && #[trigger] reaches(nodes, a, j) && nodes[j] is Decision && nodes[j]->var
                    == v;
            assert(j == a);
        }
    } else {
        assert(node_ok(nodes, a, nvars));
        let lo = nodes[a]->low as int;
        let hi = nodes[a]->high as int;
        if in_support(nodes, a, v) {
            let j = choose|j: int|
                0 <= j <= a && #[trigger] reaches(nodes, a, j) && nodes[j] is Decision && nodes[j]->var
                    == v;
            if j != a {
                if reaches(nodes, lo, j) {
                    lemma_reaches_below(nodes, lo, j);
                    assert(in_support(nodes, lo, v));
                } else {
                    assert(reaches(nodes, hi, j));
                    lemma_reaches_below(nodes, hi, j);
                    assert(in_support(nodes, hi, v));
                }
            }
        }
        if nodes[a]->var == v {
            assert(reaches(nodes, a, a));
            assert(in_support(nodes, a, v));
        }
        if in_support(nodes, lo, v) {
            let j = choose|j: int|
                0 <= j <= lo && #[trigger] reaches(nodes, lo, j) && nodes[j] is Decision && nodes[j]->var
                    == v;
            assert(reaches(nodes, a, j));
            assert(in_support(nodes, a, v));
        }
        if in_support(nodes, hi, v) {
            let j = choose|j: int|
                0 <= j <= hi && #[trigger] reaches(nodes, hi, j) && nodes[j] is Decision && nodes[j]->var
                    == v;
            assert(reaches(nodes, a, j));
            assert(in_support(nodes, a, v));
        }
    }
}

/// Canonicity across diagrams: a node of one reduced ordered diagram and a node of another over
/// the same variables that denote the same Boolean function have the same paths to true and
/// test the same variables.
pub proof fn law_same_function_same_paths(
    n1: Seq<BddNode>,
    nvars: int,
    a: int,
    n2: Seq<BddNode>,
    b: int,
)
    requires
        robdd(n1, nvars),
        robdd(n2, nvars),
        0 <= a < n1.len(),
        0 <= b < n2.len(),
        forall|asg: Assignment| #[trigger] eval_node(n1, a, asg) == eval_node(n2, b, asg),
    ensures
        paths(n1, a) == paths(n2, b),
        forall|v: int| in_support(n1, a, v) == in_support(n2, b, v),
    decreases a + b, if level(n1, a) <= level(n2, b) {
        0int
    } else {
        1int
    },
{
    let f0: Assignment = |v: int| false;
    if a < 2 && b < 2 {
        assert(eval_node(n1, a, f0) == eval_node(n2, b, f0));
        assert forall|v: int| in_support(n1, a, v) == in_support(n2, b, v) by {
            lemma_support_unfold(n1, nvars, a, v);
            lemma_support_unfold(n2, nvars, b, v);
        }
    } else if level(n1, a) > level(n2, b) {
        assert forall|asg: Assignment| #[trigger] eval_node(n2, b, asg) == eval_node(n1, a, asg) by {
            assert(eval_node(n1, a, asg) == eval_node(n2, b, asg));
        }
        law_same_function_same_paths(n2, nvars, b, n1, a);
    } else {
        assert(a >= 2) by {
            if a < 2 {
                assert(b >= 2);
                assert(node_ok(n2, b, nvars));
            }
        }
        assert(node_ok(n1, a, nvars));
        let v = n1[a]->var as int;
        let al = n1[a]->low as int;
        let ah = n1[a]->high as int;
        if level(n2, b) == v {
            assert(b >= 2) by {
                if b < 2 {
                    assert(level(n2, b) == usize::MAX as int);
                }
            }
            assert(node_ok(n2, b, nvars));
            let bl = n2[b]->low as int;
            let bh = n2[b]->high as int;
            assert forall|asg: Assignment| #[trigger] eval_node(n1, al, asg) == eval_node(n2, bl, asg) by {
                let a0 = upd(asg, v, false);
                assert(eval_node(n1, a, a0) == eval_node(n2, b, a0));
                lemma_eval_decision(n1, nvars, a, a0);
                lemma_eval_decision(n2, nvars, b, a0);
                lemma_eval_upd(n1, nvars, al, asg, v, false);
                lemma_eval_upd(n2, nvars, bl, asg, v, false);
            }
            assert forall|asg: Assignment| #[trigger] eval_node(n1, ah, asg) == eval_node(n2, bh, asg) by {
                let a1 = upd(asg, v, true);
                assert(eval_node(n1, a, a1) == eval_node(n2, b, a1));
                lemma_eval_decision(n1, nvars, a, a1);
                lemma_eval_decision(n2, nvars, b, a1);
                lemma_eval_upd(n1, nvars, ah, asg, v, true);
                lemma_eval_upd(n2, nvars, bh, asg, v, true);
            }
            law_same_function_same_paths(n1, nvars, al, n2, bl);
            law_same_function_same_paths(n1, nvars, ah, n2, bh);
            assert(n2[b]->var == n1[a]->var);
            assert forall|u: int| in_support(n1, a, u) == in_support(n2, b, u) by {
                lemma_support_unfold(n1, nvars, a, u);
                lemma_support_unfold(n2, nvars, b, u);
            }
        } else {
            // `b` does not test `v`, so both children of `a` would denote its function.
            assert forall|asg: Assignment| #[trigger] eval_node(n1, al, asg) == eval_node(n1, ah, asg) by {
                let a0 = upd(asg, v, false);
                let a1 = upd(asg, v, true);
                assert(eval_node(n1, a, a0) == eval_node(n2, b, a0));
                assert(eval_node(n1, a, a1) == eval_node(n2, b, a1));
                lemma_eval_decision(n1, nvars, a, a0);
                lemma_eval_decision(n1, nvars, a, a1);
                lemma_eval_upd(n1, nvars, al, asg, v, false);
                lemma_eval_upd(n1, nvars, ah, asg, v, true);
                lemma_eval_upd(n2, nvars, b, asg, v, false);
                lemma_eval_upd(n2, nvars, b, asg, v, true);
            }
            lemma_canonical(n1, nvars, al, ah);
        }
    }
}

} // verus!
