//! [`ExprBuilder`]: an arena that assembles a [`BoolExpr`] from many pieces in linear time.
//!
//! Composing expressions with the operators copies whole token streams at every step. The builder
//! instead records one arena node per operation (an [`Expr`] handle is an index into the arena)
//! and serialises the arena to a single token stream once, at the end.
use super::boolexpr::BoolExpr;
use super::rpn::{extend_tokens, lemma_binary, lemma_leaf, lemma_unary, toks_view, wf_program, SToken, Token};
use crate::symbol::Symbol;
use vstd::prelude::*;

verus! {

/// One node of the arena; operands are ids of earlier nodes.
#[derive(Debug)]
pub enum BuildNode {
    Var(Symbol),
    Const(bool),
    Not(usize),
    And(usize, usize),
    Or(usize, usize),
    Xor(usize, usize),
    /// An existing expression, spliced in verbatim.
    Graft(BoolExpr),
}

/// The token program of node `id`: operands first, then the operator.
pub open spec fn tree_toks(nodes: Seq<BuildNode>, id: int) -> Seq<SToken>
    decreases id,
{
    if 0 <= id < nodes.len() {
        match nodes[id] {
            BuildNode::Var(s) => seq![SToken::Var(s@)],
            BuildNode::Const(b) => seq![SToken::Const(b)],
            BuildNode::Graft(e) => e@,
            BuildNode::Not(a) => if 0 <= a < id {
                tree_toks(nodes, a as int) + seq![SToken::Not]
            } else {
                Seq::empty()
            },
            BuildNode::And(a, b) => if 0 <= a < id && 0 <= b < id {
                tree_toks(nodes, a as int) + tree_toks(nodes, b as int) + seq![SToken::And]
            } else {
                Seq::empty()
            },
            BuildNode::Or(a, b) => if 0 <= a < id && 0 <= b < id {
                tree_toks(nodes, a as int) + tree_toks(nodes, b as int) + seq![SToken::Or]
            } else {
                Seq::empty()
            },
            BuildNode::Xor(a, b) => if 0 <= a < id && 0 <= b < id {
                tree_toks(nodes, a as int) + tree_toks(nodes, b as int) + seq![SToken::Xor]
            } else {
                Seq::empty()
            },
        }
    } else {
        Seq::empty()
    }
}

/// Every node's operands come before it.
pub open spec fn arena_ok(nodes: Seq<BuildNode>) -> bool {
    forall|id: int|
        0 <= id < nodes.len() ==> match #[trigger] nodes[id] {
            BuildNode::Not(a) => a < id,
            BuildNode::And(a, b) => a < id && b < id,
            BuildNode::Or(a, b) => a < id && b < id,
            BuildNode::Xor(a, b) => a < id && b < id,
            BuildNode::Graft(e) => wf_program(e@),
            _ => true,
        }
}

/// In a well-ordered arena every node denotes a well-formed program.
pub proof fn lemma_tree_wf(nodes: Seq<BuildNode>, id: int)
    requires
        arena_ok(nodes),
        0 <= id < nodes.len(),
    ensures
        wf_program(tree_toks(nodes, id)),
    decreases id,
{
    let alg = super::rpn::bool_alg(|s: Seq<char>| false);
    match nodes[id] {
        BuildNode::Var(s) => {
            lemma_leaf(SToken::Var(s@), alg);
        },
        BuildNode::Const(b) => {
            lemma_leaf(SToken::Const(b), alg);
        },
        BuildNode::Graft(e) => {},
        BuildNode::Not(a) => {
            lemma_tree_wf(nodes, a as int);
            lemma_unary(tree_toks(nodes, a as int), alg);
        },
        BuildNode::And(a, b) => {
            lemma_tree_wf(nodes, a as int);
            lemma_tree_wf(nodes, b as int);
            lemma_binary(tree_toks(nodes, a as int), tree_toks(nodes, b as int), SToken::And, alg);
        },
        BuildNode::Or(a, b) => {
            lemma_tree_wf(nodes, a as int);
            lemma_tree_wf(nodes, b as int);
            lemma_binary(tree_toks(nodes, a as int), tree_toks(nodes, b as int), SToken::Or, alg);
        },
        BuildNode::Xor(a, b) => {
            lemma_tree_wf(nodes, a as int);
            lemma_tree_wf(nodes, b as int);
            lemma_binary(tree_toks(nodes, a as int), tree_toks(nodes, b as int), SToken::Xor, alg);
        },
    }
}

/// A handle to a node of an [`ExprBuilder`]'s arena.
#[derive(Clone, Copy, Debug, PartialEq, Eq, Structural)]
pub struct Expr {
    id: usize,
}

impl Expr {
    /// The arena index of the handle.
    pub closed spec fn index(self) -> int {
        self.id as int
    }

    /// A handle to arena node `id`.
    pub fn new(id: usize) -> (r: Expr)
        ensures
            r.index() == id,
    {
        Expr { id }
    }
}

/// The arena an expression is assembled in.
#[derive(Debug)]
pub struct ExprBuilder {
    nodes: Vec<BuildNode>,
}

impl ExprBuilder {
    /// The arena's nodes.
    pub closed spec fn arena(&self) -> Seq<BuildNode> {
        self.nodes@
    }

    /// The arena is well ordered.
    pub open spec fn wf(&self) -> bool {
        arena_ok(self.arena())
    }

    /// `e` is a handle of this arena.
    pub open spec fn owns(&self, e: Expr) -> bool {
        0 <= e.index() < self.arena().len()
    }

    /// The token program handle `e` denotes.
    pub open spec fn toks(&self, e: Expr) -> Seq<SToken> {
        tree_toks(self.arena(), e.index())
    }

    /// An empty arena.
    pub fn new() -> (r: ExprBuilder)
        ensures
            r.wf(),
            r.arena().len() == 0,
    {
        ExprBuilder { nodes: Vec::new() }
    }

    /// Append a node and return its handle.
    fn push(&mut self, node: BuildNode) -> (r: Expr)
        requires
            old(self).wf(),
            match node {
                BuildNode::Not(a) => a < old(self).arena().len(),
                BuildNode::And(a, b) => a < old(self).arena().len() && b < old(self).arena().len(),
                BuildNode::Or(a, b) => a < old(self).arena().len() && b < old(self).arena().len(),
                BuildNode::Xor(a, b) => a < old(self).arena().len() && b < old(self).arena().len(),
                BuildNode::Graft(e) => wf_program(e@),
                _ => true,
            },
        ensures
            final(self).wf(),
            final(self).arena() == old(self).arena().push(node),
            r.index() == old(self).arena().len(),
    {
        let id = self.nodes.len();
        self.nodes.push(node);
        proof {
            let n = self.nodes@;
            assert forall|k: int| 0 <= k < n.len() implies match #[trigger] n[k] {
                BuildNode::Not(a) => a < k,
                BuildNode::And(a, b) => a < k && b < k,
                BuildNode::Or(a, b) => a < k && b < k,
                BuildNode::Xor(a, b) => a < k && b < k,
                BuildNode::Graft(e) => wf_program(e@),
                _ => true,
            } by {
                if k < id {
                    assert(n[k] == old(self).nodes@[k]);
                }
            }
        }
        Expr { id }
    }

    /// Every handle of `old` is a handle of `self` denoting the same program, and the arena
    /// grew by one node.
    pub open spec fn grew_from(&self, old: &ExprBuilder) -> bool {
        &&& self.arena().len() == old.arena().len() + 1
        &&& forall|e: Expr| #[trigger] old.owns(e) ==> self.owns(e) && self.toks(e) == old.toks(e)
    }

    proof fn lemma_pushed(&self, old: &ExprBuilder, node: BuildNode)
        requires
            old.wf(),
            self.arena() == old.arena().push(node),
        ensures
            self.grew_from(old),
    {
        assert forall|e: Expr| #[trigger] old.owns(e) implies self.owns(e) && self.toks(e) == old.toks(e) by {
            lemma_tree_prefix(old.arena(), self.arena(), e.index());
        }
    }

    /// A variable leaf.
    pub fn var(&mut self, name: &str) -> (r: Expr)
        requires
            old(self).wf(),
        ensures
            final(self).wf(),
            final(self).grew_from(old(self)),
            r.index() == old(self).arena().len(),
            final(self).toks(r) == seq![SToken::Var(name@)],
    {
        let ghost o = *self;
        let s = Symbol::new(name);
        let ghost node = BuildNode::Var(s);
        let r = self.push(BuildNode::Var(s));
        proof {
            self.lemma_pushed(&o, node);
        }
        r
    }

    /// A constant leaf.
    pub fn constant(&mut self, value: bool) -> (r: Expr)
        requires
            old(self).wf(),
        ensures
            final(self).wf(),
            final(self).grew_from(old(self)),
            r.index() == old(self).arena().len(),
            final(self).toks(r) == seq![SToken::Const(value)],
    {
        let ghost o = *self;
        let r = self.push(BuildNode::Const(value));
        proof {
            self.lemma_pushed(&o, BuildNode::Const(value));
        }
        r
    }

    /// Splice an existing expression in as one handle.
    pub fn graft(&mut self, expr: &BoolExpr) -> (r: Expr)
        requires
            old(self).wf(),
        ensures
            final(self).wf(),
            final(self).grew_from(old(self)),
            r.index() == old(self).arena().len(),
            final(self).toks(r) == expr@,
    {
        let ghost o = *self;
        expr.assert_well_formed();
        let e = expr.duplicate();
        let ghost node = BuildNode::Graft(e);
        let r = self.push(BuildNode::Graft(e));
        proof {
            self.lemma_pushed(&o, node);
        }
        r
    }

    /// Negation of a handle.
    pub fn not(&mut self, a: Expr) -> (r: Expr)
        requires
            old(self).wf(),
            old(self).owns(a),
        ensures
            final(self).wf(),
            final(self).grew_from(old(self)),
            r.index() == old(self).arena().len(),
            final(self).toks(r) == old(self).toks(a) + seq![SToken::Not],
    {
        let ghost o = *self;
        let r = self.push(BuildNode::Not(a.id));
        proof {
            self.lemma_pushed(&o, BuildNode::Not(a.id));
        }
        r
    }

    /// Conjunction of two handles.
    pub fn and(&mut self, a: Expr, b: Expr) -> (r: Expr)
        requires
            old(self).wf(),
            old(self).owns(a),
            old(self).owns(b),
        ensures
            final(self).wf(),
            final(self).grew_from(old(self)),
            r.index() == old(self).arena().len(),
            final(self).toks(r) == old(self).toks(a) + old(self).toks(b) + seq![SToken::And],
    {
        let ghost o = *self;
        let r = self.push(BuildNode::And(a.id, b.id));
        proof {
            self.lemma_pushed(&o, BuildNode::And(a.id, b.id));
        }
        r
    }

    /// Disjunction of two handles.
    pub fn or(&mut self, a: Expr, b: Expr) -> (r: Expr)
        requires
            old(self).wf(),
            old(self).owns(a),
            old(self).owns(b),
        ensures
            final(self).wf(),
            final(self).grew_from(old(self)),
            r.index() == old(self).arena().len(),
            final(self).toks(r) == old(self).toks(a) + old(self).toks(b) + seq![SToken::Or],
    {
        let ghost o = *self;
        let r = self.push(BuildNode::Or(a.id, b.id));
        proof {
            self.lemma_pushed(&o, BuildNode::Or(a.id, b.id));
        }
        r
    }

    /// Exclusive-or of two handles.
    pub fn xor(&mut self, a: Expr, b: Expr) -> (r: Expr)
        requires
            old(self).wf(),
            old(self).owns(a),
            old(self).owns(b),
        ensures
            final(self).wf(),
            final(self).grew_from(old(self)),
            r.index() == old(self).arena().len(),
            final(self).toks(r) == old(self).toks(a) + old(self).toks(b) + seq![SToken::Xor],
    {
        let ghost o = *self;
        let r = self.push(BuildNode::Xor(a.id, b.id));
        proof {
            self.lemma_pushed(&o, BuildNode::Xor(a.id, b.id));
        }
        r
    }
}

/// One step of the serialiser's work stack.
pub enum Step {
    /// Emit the whole program of a node.
    Visit(usize),
    /// Emit one operator token.
    Emit(Token),
}

/// The tokens a work stack still has to emit, top of the stack first.
pub open spec fn pending(nodes: Seq<BuildNode>, w: Seq<Step>) -> Seq<SToken>
    decreases w.len(),
{
    if w.len() == 0 {
        Seq::empty()
    } else {
        let rest = pending(nodes, w.drop_last());
        match w.last() {
            Step::Visit(id) => tree_toks(nodes, id as int) + rest,
            Step::Emit(t) => seq![t@] + rest,
        }
    }
}

/// A size for the work stack that every serialiser step shrinks.
pub open spec fn work_size(nodes: Seq<BuildNode>, w: Seq<Step>) -> nat
    decreases w.len(),
{
    if w.len() == 0 {
        0
    } else {
        work_size(nodes, w.drop_last()) + match w.last() {
            Step::Visit(id) => 3 * tree_toks(nodes, id as int).len() + 1,
            Step::Emit(_) => 1nat,
        }
    }
}

proof fn lemma_pending_push(ns: Seq<BuildNode>, w: Seq<Step>, s: Step)
    ensures
        pending(ns, w.push(s)) == match s {
            Step::Visit(id) => tree_toks(ns, id as int) + pending(ns, w),
            Step::Emit(t) => seq![t@] + pending(ns, w),
        },
        work_size(ns, w.push(s)) == work_size(ns, w) + match s {
            Step::Visit(id) => 3 * tree_toks(ns, id as int).len() + 1,
            Step::Emit(_) => 1nat,
        },
{
    assert(w.push(s).drop_last() =~= w);
}

/// Whether every visit on a work stack names an arena node.
pub open spec fn visits_ok(ns: Seq<BuildNode>, w: Seq<Step>) -> bool {
    forall|k: int| 0 <= k < w.len() ==> (#[trigger] w[k] matches Step::Visit(id) ==> id < ns.len())
}

/// One step of the serialiser: pop the top of the work stack and either emit tokens or schedule
/// a node's operands and operator.
fn serialise_step(nodes: &Vec<BuildNode>, tokens: &mut Vec<Token>, work: &mut Vec<Step>)
    requires
        arena_ok(nodes@),
        old(work)@.len() > 0,
        visits_ok(nodes@, old(work)@),
    ensures
        visits_ok(nodes@, final(work)@),
        toks_view(final(tokens)@) + pending(nodes@, final(work)@) == toks_view(old(tokens)@) + pending(
            nodes@,
            old(work)@,
        ),
        work_size(nodes@, final(work)@) < work_size(nodes@, old(work)@),
{
    let ghost ns = nodes@;
    let ghost w = work@;
    let ghost before = toks_view(tokens@);
    let s = work.pop().unwrap();
    let ghost rest_w = work@;
    proof {
        assert(rest_w == w.drop_last());
        assert(w == rest_w.push(s));
        lemma_pending_push(ns, rest_w, s);
        assert(w[w.len() - 1] == s);
        assert forall|k: int| 0 <= k < rest_w.len() implies (#[trigger] rest_w[k] matches Step::Visit(id) ==> id < ns.len()) by {
            assert(rest_w[k] == w[k]);
        }
    }
    let ghost rest = pending(ns, rest_w);
    match s {
        Step::Emit(t) => {
            let ghost tv = t@;
            tokens.push(t);
            proof {
                assert(toks_view(tokens@) =~= before.push(tv));
                assert(toks_view(tokens@) + rest =~= before + (seq![tv] + rest));
            }
        },
        Step::Visit(id) => {
            match &nodes[id] {
                BuildNode::Var(name) => {
                    let c = name.copy();
                    tokens.push(Token::Var(c));
                    proof {
                        assert(toks_view(tokens@) =~= before.push(SToken::Var(name@)));
                        assert(toks_view(tokens@) + rest =~= before + (tree_toks(ns, id as int) + rest));
                    }
                },
                BuildNode::Const(b) => {
                    tokens.push(Token::Const(*b));
                    proof {
                        assert(toks_view(tokens@) =~= before.push(SToken::Const(*b)));
                        assert(toks_view(tokens@) + rest =~= before + (tree_toks(ns, id as int) + rest));
                    }
                },
                BuildNode::Graft(e) => {
                    extend_tokens(tokens, e.tokens());
                    proof {
                        assert(toks_view(tokens@) + rest =~= before + (tree_toks(ns, id as int) + rest));
                    }
                },
                BuildNode::Not(a) => {
                    let a = *a;
                    work.push(Step::Emit(Token::Not));
                    work.push(Step::Visit(a));
                    proof {
                        let w1 = rest_w.push(Step::Emit(Token::Not));
                        lemma_pending_push(ns, rest_w, Step::Emit(Token::Not));
                        lemma_pending_push(ns, w1, Step::Visit(a));
                        assert(work@ == w1.push(Step::Visit(a)));
                        assert(toks_view(tokens@) + pending(ns, work@) =~= before + (tree_toks(ns, id as int) + rest));
                        assert forall|k: int| 0 <= k < work@.len() implies (#[trigger] work@[k] matches Step::Visit(i) ==> i < ns.len()) by {
                            if k < rest_w.len() {
                                assert(work@[k] == rest_w[k]);
                            }
                        }
                    }
                },
                BuildNode::And(a, b) => {
                    let (a, b) = (*a, *b);
                    work.push(Step::Emit(Token::And));
                    work.push(Step::Visit(b));
                    work.push(Step::Visit(a));
                    proof {
                        let w1 = rest_w.push(Step::Emit(Token::And));
                        let w2 = w1.push(Step::Visit(b));
                        lemma_pending_push(ns, rest_w, Step::Emit(Token::And));
                        lemma_pending_push(ns, w1, Step::Visit(b));
                        lemma_pending_push(ns, w2, Step::Visit(a));
                        assert(work@ == w2.push(Step::Visit(a)));
                        assert(toks_view(tokens@) + pending(ns, work@) =~= before + (tree_toks(ns, id as int) + rest));
                        assert forall|k: int| 0 <= k < work@.len() implies (#[trigger] work@[k] matches Step::Visit(i) ==> i < ns.len()) by {
                            if k < rest_w.len() {
                                assert(work@[k] == rest_w[k]);
                            }
                        }
                    }
                },
                BuildNode::Or(a, b) => {
                    let (a, b) = (*a, *b);
                    work.push(Step::Emit(Token::Or));
                    work.push(Step::Visit(b));
                    work.push(Step::Visit(a));
                    proof {
                        let w1 = rest_w.push(Step::Emit(Token::Or));
                        let w2 = w1.push(Step::Visit(b));
                        lemma_pending_push(ns, rest_w, Step::Emit(Token::Or));
                        lemma_pending_push(ns, w1, Step::Visit(b));
                        lemma_pending_push(ns, w2, Step::Visit(a));
                        assert(work@ == w2.push(Step::Visit(a)));
                        assert(toks_view(tokens@) + pending(ns, work@) =~= before + (tree_toks(ns, id as int) + rest));
                        assert forall|k: int| 0 <= k < work@.len() implies (#[trigger] work@[k] matches Step::Visit(i) ==> i < ns.len()) by {
                            if k < rest_w.len() {
                                assert(work@[k] == rest_w[k]);
                            }
                        }
                    }
                },
                BuildNode::Xor(a, b) => {
                    let (a, b) = (*a, *b);
                    work.push(Step::Emit(Token::Xor));
                    work.push(Step::Visit(b));
                    work.push(Step::Visit(a));
                    proof {
                        let w1 = rest_w.push(Step::Emit(Token::Xor));
                        let w2 = w1.push(Step::Visit(b));
                        lemma_pending_push(ns, rest_w, Step::Emit(Token::Xor));
                        lemma_pending_push(ns, w1, Step::Visit(b));
                        lemma_pending_push(ns, w2, Step::Visit(a));
                        assert(work@ == w2.push(Step::Visit(a)));
                        assert(toks_view(tokens@) + pending(ns, work@) =~= before + (tree_toks(ns, id as int) + rest));
                        assert forall|k: int| 0 <= k < work@.len() implies (#[trigger] work@[k] matches Step::Visit(i) ==> i < ns.len()) by {
                            if k < rest_w.len() {
                                assert(work@[k] == rest_w[k]);
                            }
                        }
                    }
                },
            }
        },
    }
}

/// Serialise the arena from `root` into reverse-Polish tokens: a postorder walk driven by an
/// explicit work stack, operands before their operator, grafts spliced verbatim.
pub fn serialise(nodes: &Vec<BuildNode>, root: usize) -> (r: Vec<Token>)
    requires
        arena_ok(nodes@),
        root < nodes@.len(),
    ensures
        toks_view(r@) == tree_toks(nodes@, root as int),
{
    let ghost ns = nodes@;
    let mut tokens: Vec<Token> = Vec::new();
    let mut work: Vec<Step> = Vec::new();
    work.push(Step::Visit(root));
    proof {
        lemma_pending_push(ns, Seq::empty(), Step::Visit(root));
        assert(work@ == Seq::<Step>::empty().push(Step::Visit(root)));
        assert(toks_view(tokens@) =~= Seq::<SToken>::empty());
        assert(pending(ns, work@) =~= tree_toks(ns, root as int));
        assert(toks_view(tokens@) + pending(ns, work@) =~= tree_toks(ns, root as int));
    }
    while work.len() > 0
        invariant
            ns == nodes@,
            arena_ok(ns),
            visits_ok(ns, work@),
            toks_view(tokens@) + pending(ns, work@) == tree_toks(ns, root as int),
        decreases work_size(ns, work@),
    {
        serialise_step(nodes, &mut tokens, &mut work);
    }
    proof {
        assert(pending(ns, work@) =~= Seq::<SToken>::empty());
        assert(toks_view(tokens@) + Seq::<SToken>::empty() =~= toks_view(tokens@));
    }
    tokens
}

impl BoolExpr {
    /// Serialise a builder's arena from the handle `root` into an expression.
    pub fn build(builder: &ExprBuilder, root: Expr) -> (r: BoolExpr)
        requires
            builder.wf(),
            builder.owns(root),
        ensures
            r@ == builder.toks(root),
    {
        let tokens = serialise(&builder.nodes, root.id);
        proof {
            lemma_tree_wf(builder.arena(), root.index());
        }
        BoolExpr::from_tokens(tokens)
    }
}

proof fn lemma_tree_prefix(a: Seq<BuildNode>, b: Seq<BuildNode>, id: int)
    requires
        arena_ok(a),
        0 <= id < a.len(),
        a.len() <= b.len(),
        forall|k: int| 0 <= k < a.len() ==> #[trigger] b[k] == a[k],
    ensures
        tree_toks(b, id) == tree_toks(a, id),
    decreases id,
{
    assert(b[id] == a[id]);
    match a[id] {
        BuildNode::Not(x) => {
            lemma_tree_prefix(a, b, x as int);
        },
        BuildNode::And(x, y) => {
            lemma_tree_prefix(a, b, x as int);
            lemma_tree_prefix(a, b, y as int);
        },
        BuildNode::Or(x, y) => {
            lemma_tree_prefix(a, b, x as int);
            lemma_tree_prefix(a, b, y as int);
        },
        BuildNode::Xor(x, y) => {
            lemma_tree_prefix(a, b, x as int);
            lemma_tree_prefix(a, b, y as int);
        },
        _ => {},
    }
}

} // verus!
