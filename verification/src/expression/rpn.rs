//! The reverse-Polish (postfix) token stream backing [`BoolExpr`](super::BoolExpr), and the
//! stack-machine semantics every consumer of a token stream is specified against.
use crate::symbol::Symbol;
use vstd::prelude::*;

verus! {

/// One step of a reverse-Polish Boolean expression program.
#[derive(Hash, Debug)]
pub enum Token {
    /// Push a variable by name.
    Var(Symbol),
    /// Push a constant.
    Const(bool),
    /// Pop one operand, push its negation.
    Not,
    /// Pop two operands, push their conjunction.
    And,
    /// Pop two operands, push their disjunction.
    Or,
    /// Pop two operands, push their exclusive-or.
    Xor,
}

/// The mathematical value of a token: a variable carries its name as a character sequence.
pub enum SToken {
    Var(Seq<char>),
    Const(bool),
    Not,
    And,
    Or,
    Xor,
}

impl View for Token {
    type V = SToken;

    open spec fn view(&self) -> SToken {
        match self {
            Token::Var(s) => SToken::Var(s@),
            Token::Const(b) => SToken::Const(*b),
            Token::Not => SToken::Not,
            Token::And => SToken::And,
            Token::Or => SToken::Or,
            Token::Xor => SToken::Xor,
        }
    }
}

/// The token sequence a vector of tokens denotes.
pub open spec fn toks_view(v: Seq<Token>) -> Seq<SToken> {
    v.map_values(|t: Token| t@)
}

impl Token {
    /// A token equal to this one.
    pub fn copy(&self) -> (r: Token)
        ensures
            r@ == self@,
    {
        match self {
            Token::Var(s) => Token::Var(s.copy()),
            Token::Const(b) => Token::Const(*b),
            Token::Not => Token::Not,
            Token::And => Token::And,
            Token::Or => Token::Or,
            Token::Xor => Token::Xor,
        }
    }

    /// Whether two tokens are the same token.
    pub fn same_as(&self, other: &Token) -> (r: bool)
        ensures
            r == (self@ == other@),
    {
        match (self, other) {
            (Token::Var(a), Token::Var(b)) => a.same_as(b),
            (Token::Const(a), Token::Const(b)) => *a == *b,
            (Token::Not, Token::Not) => true,
            (Token::And, Token::And) => true,
            (Token::Or, Token::Or) => true,
            (Token::Xor, Token::Xor) => true,
            _ => false,
        }
    }
}

impl Clone for Token {
    fn clone(&self) -> (r: Token)
        ensures
            r@ == self@,
    {
        self.copy()
    }
}

impl PartialEq for Token {
    fn eq(&self, other: &Token) -> (r: bool) {
        self.same_as(other)
    }
}

impl vstd::std_specs::cmp::PartialEqSpecImpl for Token {
    open spec fn obeys_eq_spec() -> bool {
        true
    }

    open spec fn eq_spec(&self, other: &Token) -> bool {
        self@ == other@
    }
}

impl Eq for Token {}

/// How many operands a token pops.
pub open spec fn arity(t: SToken) -> int {
    match t {
        SToken::Var(_) => 0,
        SToken::Const(_) => 0,
        SToken::Not => 1,
        _ => 2,
    }
}

/// The stack depth after running `toks` from depth `d`, or `None` if the program pops an empty
/// stack.
pub open spec fn depth_after(toks: Seq<SToken>, d: int) -> Option<int>
    decreases toks.len(),
{
    if toks.len() == 0 {
        Some(d)
    } else if d < arity(toks[0]) {
        None
    } else {
        depth_after(toks.drop_first(), d - arity(toks[0]) + 1)
    }
}

/// A well-formed program: it never pops an empty stack and leaves exactly one value.
pub open spec fn wf_program(toks: Seq<SToken>) -> bool {
    depth_after(toks, 0) == Some(1int)
}

/// An interpretation of the token operators over values of type `T`.
#[verifier::reject_recursive_types(T)]
pub ghost struct Alg<T> {
    pub var: spec_fn(Seq<char>) -> T,
    pub cst: spec_fn(bool) -> T,
    pub not: spec_fn(T) -> T,
    pub and: spec_fn(T, T) -> T,
    pub or: spec_fn(T, T) -> T,
    pub xor: spec_fn(T, T) -> T,
}

/// One step of the stack machine (assuming the stack holds enough operands).
pub open spec fn step<T>(t: SToken, st: Seq<T>, alg: Alg<T>) -> Seq<T> {
    let n = st.len() as int;
    match t {
        SToken::Var(s) => st.push((alg.var)(s)),
        SToken::Const(b) => st.push((alg.cst)(b)),
        SToken::Not => st.take(n - 1).push((alg.not)(st[n - 1])),
        SToken::And => st.take(n - 2).push((alg.and)(st[n - 2], st[n - 1])),
        SToken::Or => st.take(n - 2).push((alg.or)(st[n - 2], st[n - 1])),
        SToken::Xor => st.take(n - 2).push((alg.xor)(st[n - 2], st[n - 1])),
    }
}

/// Run a token program over a value stack.
pub open spec fn run<T>(toks: Seq<SToken>, st: Seq<T>, alg: Alg<T>) -> Seq<T>
    decreases toks.len(),
{
    if toks.len() == 0 {
        st
    } else {
        run(toks.drop_first(), step(toks[0], st, alg), alg)
    }
}

/// The value a well-formed program computes.
pub open spec fn value<T>(toks: Seq<SToken>, alg: Alg<T>) -> T {
    run(toks, Seq::empty(), alg)[0]
}

/// Boolean semantics under an assignment of truth values to names.
pub open spec fn bool_alg(env: spec_fn(Seq<char>) -> bool) -> Alg<bool> {
    Alg {
        var: env,
        cst: |b: bool| b,
        not: |a: bool| !a,
        and: |a: bool, b: bool| a && b,
        or: |a: bool, b: bool| a || b,
        xor: |a: bool, b: bool| a != b,
    }
}

/// The truth value of a token program under an assignment.
pub open spec fn eval(toks: Seq<SToken>, env: spec_fn(Seq<char>) -> bool) -> bool {
    value(toks, bool_alg(env))
}

pub proof fn lemma_step_len<T>(t: SToken, st: Seq<T>, alg: Alg<T>)
    requires
        st.len() >= arity(t),
    ensures
        step(t, st, alg).len() == st.len() - arity(t) + 1,
{
}

/// Running a program only touches the top of the stack: what lies below stays in place.
pub proof fn lemma_run_frame<T>(toks: Seq<SToken>, p: Seq<T>, st: Seq<T>, alg: Alg<T>)
    requires
        depth_after(toks, st.len() as int) is Some,
    ensures
        run(toks, p + st, alg) == p + run(toks, st, alg),
        run(toks, st, alg).len() == depth_after(toks, st.len() as int)->0,
    decreases toks.len(),
{
    if toks.len() > 0 {
        let t = toks[0];
        let st2 = step(t, st, alg);
        let n = st.len() as int;
        let m = p.len() as int;
        assert(step(t, p + st, alg) =~= p + st2) by {
            match t {
                SToken::Var(_) => {},
                SToken::Const(_) => {},
                SToken::Not => {
                    assert((p + st).take(m + n - 1) =~= p + st.take(n - 1));
                },
                _ => {
                    assert((p + st).take(m + n - 2) =~= p + st.take(n - 2));
                },
            }
        }
        lemma_run_frame(toks.drop_first(), p, st2, alg);
    }
}

/// Depth through a concatenation.
pub proof fn lemma_depth_concat(a: Seq<SToken>, b: Seq<SToken>, d: int)
    ensures
        depth_after(a + b, d) == (match depth_after(a, d) {
            Some(d2) => depth_after(b, d2),
            None => None,
        }),
    decreases a.len(),
{
    if a.len() > 0 {
        assert((a + b).drop_first() =~= a.drop_first() + b);
        lemma_depth_concat(a.drop_first(), b, d - arity(a[0]) + 1);
    } else {
        assert(a + b =~= b);
    }
}

/// Running through a concatenation.
pub proof fn lemma_run_concat<T>(a: Seq<SToken>, b: Seq<SToken>, st: Seq<T>, alg: Alg<T>)
    ensures
        run(a + b, st, alg) == run(b, run(a, st, alg), alg),
    decreases a.len(),
{
    if a.len() > 0 {
        assert((a + b).drop_first() =~= a.drop_first() + b);
        lemma_run_concat(a.drop_first(), b, step(a[0], st, alg), alg);
    } else {
        assert(a + b =~= b);
    }
}

/// A well-formed program pushes exactly its value onto whatever stack it starts from.
pub proof fn lemma_run_wf<T>(toks: Seq<SToken>, st: Seq<T>, alg: Alg<T>)
    requires
        wf_program(toks),
    ensures
        run(toks, st, alg) == st.push(value(toks, alg)),
        run(toks, Seq::<T>::empty(), alg).len() == 1,
{
    lemma_depth_shift(toks, 0, st.len() as int);
    lemma_run_frame(toks, st, Seq::<T>::empty(), alg);
    assert(st + Seq::<T>::empty() =~= st);
    let r = run(toks, Seq::<T>::empty(), alg);
    assert(st + r =~= st.push(r[0]));
}

/// Raising the starting depth raises every intermediate depth by the same amount.
pub proof fn lemma_depth_shift(toks: Seq<SToken>, d: int, k: int)
    requires
        depth_after(toks, d) is Some,
        k >= 0,
    ensures
        depth_after(toks, d + k) == Some(depth_after(toks, d)->0 + k),
    decreases toks.len(),
{
    if toks.len() > 0 {
        lemma_depth_shift(toks.drop_first(), d - arity(toks[0]) + 1, k);
    }
}

/// Facts about the prefix of a well-formed program: the stack holds enough operands for the next
/// token, and one more step extends the prefix run.
pub proof fn lemma_prefix<T>(toks: Seq<SToken>, i: int, alg: Alg<T>)
    requires
        wf_program(toks),
        0 <= i < toks.len(),
    ensures
        depth_after(toks.take(i), 0) is Some,
        run(toks.take(i), Seq::<T>::empty(), alg).len() == depth_after(toks.take(i), 0)->0,
        run(toks.take(i), Seq::<T>::empty(), alg).len() >= arity(toks[i]),
        run(toks.take(i + 1), Seq::<T>::empty(), alg) == step(
            toks[i],
            run(toks.take(i), Seq::<T>::empty(), alg),
            alg,
        ),
{
    let pre = toks.take(i);
    let rest = toks.skip(i);
    assert(toks =~= pre + rest);
    lemma_depth_concat(pre, rest, 0);
    let d = depth_after(pre, 0)->0;
    assert(rest[0] == toks[i]);
    lemma_run_frame(pre, Seq::<T>::empty(), Seq::<T>::empty(), alg);
    assert(toks.take(i + 1) =~= pre + seq![toks[i]]);
    lemma_run_concat(pre, seq![toks[i]], Seq::<T>::empty(), alg);
    assert(seq![toks[i]].drop_first() =~= Seq::<SToken>::empty());
    reveal_with_fuel(run, 2);
}

/// The whole run of a well-formed program, stated for its full prefix.
pub proof fn lemma_full<T>(toks: Seq<SToken>, alg: Alg<T>)
    requires
        wf_program(toks),
    ensures
        toks.take(toks.len() as int) == toks,
        run(toks, Seq::<T>::empty(), alg).len() == 1,
{
    assert(toks.take(toks.len() as int) =~= toks);
    lemma_run_wf(toks, Seq::<T>::empty(), alg);
}

/// Composition law: the program `a ++ b ++ [op]` computes `op(value(a), value(b))`.
pub proof fn lemma_binary<T>(a: Seq<SToken>, b: Seq<SToken>, op: SToken, alg: Alg<T>)
    requires
        wf_program(a),
        wf_program(b),
        arity(op) == 2,
    ensures
        wf_program(a + b + seq![op]),
        value(a + b + seq![op], alg) == (match op {
            SToken::And => (alg.and)(value(a, alg), value(b, alg)),
            SToken::Or => (alg.or)(value(a, alg), value(b, alg)),
            _ => (alg.xor)(value(a, alg), value(b, alg)),
        }),
{
    lemma_depth_concat(a, b, 0);
    lemma_depth_shift(b, 0, 1);
    lemma_depth_concat(a + b, seq![op], 0);
    let e = Seq::<T>::empty();
    lemma_run_concat(a + b, seq![op], e, alg);
    lemma_run_concat(a, b, e, alg);
    lemma_run_wf(a, e, alg);
    lemma_run_wf(b, e.push(value(a, alg)), alg);
    let st = e.push(value(a, alg)).push(value(b, alg));
    assert(seq![op].drop_first() =~= Seq::<SToken>::empty());
    assert(st.take(0) =~= e);
    reveal_with_fuel(run, 2);
    reveal_with_fuel(depth_after, 3);
}

/// Composition law: the program `a ++ [Not]` computes `not(value(a))`.
pub proof fn lemma_unary<T>(a: Seq<SToken>, alg: Alg<T>)
    requires
        wf_program(a),
    ensures
        wf_program(a + seq![SToken::Not]),
        value(a + seq![SToken::Not], alg) == (alg.not)(value(a, alg)),
{
    lemma_depth_concat(a, seq![SToken::Not], 0);
    let e = Seq::<T>::empty();
    lemma_run_concat(a, seq![SToken::Not], e, alg);
    lemma_run_wf(a, e, alg);
    assert(seq![SToken::Not].drop_first() =~= Seq::<SToken>::empty());
    assert(e.push(value(a, alg)).take(0) =~= e);
    reveal_with_fuel(run, 2);
    reveal_with_fuel(depth_after, 2);
}

/// A single leaf token is a well-formed program.
pub proof fn lemma_leaf<T>(t: SToken, alg: Alg<T>)
    requires
        arity(t) == 0,
    ensures
        wf_program(seq![t]),
        value(seq![t], alg) == (match t {
            SToken::Var(s) => (alg.var)(s),
            SToken::Const(b) => (alg.cst)(b),
            _ => (alg.cst)(false),
        }),
{
    assert(seq![t].drop_first() =~= Seq::<SToken>::empty());
    reveal_with_fuel(run, 2);
    reveal_with_fuel(depth_after, 2);
}

/// Copy a run of tokens onto the end of `out`.
pub fn extend_tokens(out: &mut Vec<Token>, src: &Vec<Token>)
    ensures
        toks_view(final(out)@) == toks_view(old(out)@) + toks_view(src@),
{
    let n = src.len();
    let mut i: usize = 0;
    while i < n
        invariant
            n == src@.len(),
            i <= n,
            toks_view(out@) == toks_view(old(out)@) + toks_view(src@).take(i as int),
        decreases n - i,
    {
        let t = src[i].copy();
        let ghost prev = out@;
        out.push(t);
        proof {
            assert(toks_view(out@) =~= toks_view(prev).push(t@));
            assert(toks_view(src@)[i as int] == t@);
            assert(toks_view(src@).take(i + 1) =~= toks_view(src@).take(i as int).push(t@));
        }
        i += 1;
        proof {
            assert(toks_view(out@) =~= toks_view(old(out)@) + toks_view(src@).take(i as int));
        }
    }
    proof {
        assert(toks_view(src@).take(n as int) =~= toks_view(src@));
    }
}

/// Compose a binary operator: `left ++ right ++ [op]`.
pub fn binary(op: Token, left: &Vec<Token>, right: &Vec<Token>) -> (r: Vec<Token>)
    ensures
        toks_view(r@) == toks_view(left@) + toks_view(right@) + seq![op@],
{
    let mut tokens: Vec<Token> = Vec::new();
    extend_tokens(&mut tokens, left);
    extend_tokens(&mut tokens, right);
    proof {
        assert(toks_view(Seq::<Token>::empty()) =~= Seq::<SToken>::empty());
    }
    let ghost before = tokens@;
    tokens.push(op);
    proof {
        assert(toks_view(tokens@) =~= toks_view(before) + seq![op@]);
        assert(toks_view(left@) =~= Seq::<SToken>::empty() + toks_view(left@));
    }
    tokens
}

/// Compose a unary negation: `child ++ [Not]`.
pub fn unary_not(child: &Vec<Token>) -> (r: Vec<Token>)
    ensures
        toks_view(r@) == toks_view(child@) + seq![SToken::Not],
{
    let mut tokens: Vec<Token> = Vec::new();
    extend_tokens(&mut tokens, child);
    let ghost before = tokens@;
    tokens.push(Token::Not);
    proof {
        assert(toks_view(Seq::<Token>::empty()) =~= Seq::<SToken>::empty());
        assert(toks_view(tokens@) =~= toks_view(before) + seq![SToken::Not]);
        assert(Seq::<SToken>::empty() + toks_view(child@) =~= toks_view(child@));
    }
    tokens
}

} // verus!
