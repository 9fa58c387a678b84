//! [`BoolExpr`]: an owned, syntactic Boolean expression.
//!
//! A `BoolExpr` is a value: build it, compose it, parse it, display it. Internally it is a flat
//! reverse-Polish token stream. It does not canonicalise: `a & b` and `b & a` are different
//! expressions, and equality compares the token structure, not the Boolean function.
use super::display::{render, render_spec};
use super::error::{reports_input, ParseBoolExprError};
use super::rpn::{
    binary, bool_alg, eval, extend_tokens, lemma_binary, lemma_full, lemma_leaf, lemma_prefix,
    lemma_unary, run, step, toks_view, unary_not, wf_program, SToken, Token,
};
use super::parser::{parsed, SyntaxKind};
use super::syntax::{StdSyntax, Syntax};
use crate::index::NameIndex;
use crate::symbol::{seq_lt, Symbol};
use std::marker::PhantomData;
use vstd::prelude::*;

verus! {

/// An owned, syntactic Boolean expression spelled in syntax `S`.
///
/// Its view is the token program it holds, which is always well formed.
#[derive(Hash, Debug)]
pub struct BoolExpr<S: Syntax = StdSyntax> {
    tokens: Vec<Token>,
    _syntax: PhantomData<S>,
}

impl<S: Syntax> View for BoolExpr<S> {
    type V = Seq<SToken>;

    closed spec fn view(&self) -> Seq<SToken> {
        toks_view(self.tokens@)
    }
}

/// The truth value of an assignment list at a name: the first entry for that name, or `false`
/// when the name is absent.
pub open spec fn lookup(a: Seq<(Symbol, bool)>, name: Seq<char>) -> bool
    decreases a.len(),
{
    if a.len() == 0 {
        false
    } else if a[0].0@ == name {
        a[0].1
    } else {
        lookup(a.drop_first(), name)
    }
}

/// A variable reads, under an assignment list, the value of the first entry whose name is
/// exactly the variable's name, however many other entries share a prefix or a first character
/// with it; evaluating the one-variable program gives that value.
pub proof fn law_assignment_reads_exact_name(a: Seq<(Symbol, bool)>, name: Seq<char>, k: int)
    requires
        0 <= k < a.len(),
        a[k].0@ == name,
        forall|q: int| 0 <= q < k ==> (#[trigger] a[q]).0@ != name,
    ensures
        lookup(a, name) == a[k].1,
        env_of(a)(name) == a[k].1,
        eval(seq![SToken::Var(name)], env_of(a)) == a[k].1,
    decreases k,
{
    if k > 0 {
        assert(a[0].0@ != name);
        assert forall|q: int| 0 <= q < k - 1 implies (#[trigger] a.drop_first()[q]).0@ != name by {
            assert(a.drop_first()[q] == a[q + 1]);
        }
        law_assignment_reads_exact_name(a.drop_first(), name, k - 1);
    }
    lemma_var_value(name, env_of(a));
}

/// A variable no entry of an assignment list names is false under it.
pub proof fn law_assignment_absent_name(a: Seq<(Symbol, bool)>, name: Seq<char>)
    requires
        forall|q: int| 0 <= q < a.len() ==> (#[trigger] a[q]).0@ != name,
    ensures
        lookup(a, name) == false,
        eval(seq![SToken::Var(name)], env_of(a)) == false,
    decreases a.len(),
{
    if a.len() > 0 {
        assert(a[0].0@ != name);
        assert forall|q: int| 0 <= q < a.len() - 1 implies (#[trigger] a.drop_first()[q]).0@ != name by {
            assert(a.drop_first()[q] == a[q + 1]);
        }
        law_assignment_absent_name(a.drop_first(), name);
    }
    lemma_var_value(name, env_of(a));
}

proof fn lemma_var_value(name: Seq<char>, env: spec_fn(Seq<char>) -> bool)
    ensures
        eval(seq![SToken::Var(name)], env) == env(name),
{
    let t = seq![SToken::Var(name)];
    assert(t.drop_first() =~= Seq::<SToken>::empty());
    reveal_with_fuel(run, 2);
}

/// The assignment an assignment list denotes.
pub open spec fn env_of(a: Seq<(Symbol, bool)>) -> spec_fn(Seq<char>) -> bool {
    |name: Seq<char>| lookup(a, name)
}

/// The distinct variable names of a token program, in order of first occurrence.
pub open spec fn first_occurrences(toks: Seq<SToken>) -> Seq<Seq<char>>
    decreases toks.len(),
{
    if toks.len() == 0 {
        Seq::empty()
    } else {
        let prev = first_occurrences(toks.drop_last());
        match toks.last() {
            SToken::Var(n) => if prev.contains(n) {
                prev
            } else {
                prev.push(n)
            },
            _ => prev,
        }
    }
}

/// Whether a name occurs as a variable of a token program.
pub open spec fn mentions(toks: Seq<SToken>, name: Seq<char>) -> bool {
    exists|i: int| 0 <= i < toks.len() && toks[i] == SToken::Var(name)
}

/// The names of a list of symbols.
pub open spec fn names_of(v: Seq<Symbol>) -> Seq<Seq<char>> {
    v.map_values(|s: Symbol| s@)
}

/// A strictly increasing list of names (so also free of repeats).
pub open spec fn strictly_sorted(v: Seq<Seq<char>>) -> bool {
    forall|i: int, j: int| 0 <= i < j < v.len() ==> seq_lt(v[i], v[j])
}

pub proof fn lemma_first_occurrences(toks: Seq<SToken>)
    ensures
        forall|i: int, j: int|
            0 <= i < j < first_occurrences(toks).len() ==> first_occurrences(toks)[i]
                != first_occurrences(toks)[j],
        forall|n: Seq<char>| first_occurrences(toks).contains(n) <==> mentions(toks, n),
    decreases toks.len(),
{
    if toks.len() > 0 {
        let pre = toks.drop_last();
        lemma_first_occurrences(pre);
        let prev = first_occurrences(pre);
        let fo = first_occurrences(toks);
        assert forall|n: Seq<char>| fo.contains(n) implies mentions(toks, n) by {
            if prev.contains(n) {
                assert(mentions(pre, n));
                let i = choose|i: int| 0 <= i < pre.len() && pre[i] == SToken::Var(n);
                assert(toks[i] == pre[i]);
            } else {
                let k = choose|k: int| 0 <= k < fo.len() && fo[k] == n;
                match toks.last() {
                    SToken::Var(x) => {
                        assert(fo == prev.push(x));
                        if k < prev.len() {
                            assert(fo[k] == prev[k]);
                        }
                        assert(toks[toks.len() - 1] == SToken::Var(n));
                    },
                    _ => {},
                }
            }
        }
        assert forall|n: Seq<char>| mentions(toks, n) implies fo.contains(n) by {
            let i = choose|i: int| 0 <= i < toks.len() && toks[i] == SToken::Var(n);
            if i < toks.len() - 1 {
                assert(pre[i] == toks[i]);
                assert(mentions(pre, n));
                assert(prev.contains(n));
                let k = choose|k: int| 0 <= k < prev.len() && prev[k] == n;
                if !(fo == prev) {
                    match toks.last() {
                        SToken::Var(x) => {
                            assert(fo == prev.push(x));
                            assert(fo[k] == n);
                        },
                        _ => {},
                    }
                }
            } else {
                assert(toks.last() == SToken::Var(n));
                if prev.contains(n) {
                    assert(fo == prev);
                } else {
                    assert(fo == prev.push(n));
                    assert(fo[prev.len() as int] == n);
                }
            }
        }
        assert forall|i: int, j: int| 0 <= i < j < fo.len() implies fo[i] != fo[j] by {
            match toks.last() {
                SToken::Var(x) => {
                    if !prev.contains(x) {
                        assert(fo == prev.push(x));
                        if j == prev.len() {
                            assert(fo[i] == prev[i]);
                        }
                    }
                },
                _ => {},
            }
        }
    }
}

impl<S: Syntax> BoolExpr<S> {
    #[verifier::type_invariant]
    closed spec fn well_formed(&self) -> bool {
        wf_program(toks_view(self.tokens@))
    }

    /// Build from a well-formed token program.
    pub fn from_tokens(tokens: Vec<Token>) -> (r: BoolExpr<S>)
        requires
            wf_program(toks_view(tokens@)),
        ensures
            r@ == toks_view(tokens@),
    {
        BoolExpr { tokens, _syntax: PhantomData }
    }

    /// Every expression's token program is well formed.
    pub fn assert_well_formed(&self)
        ensures
            wf_program(self@),
    {
        proof {
            use_type_invariant(self);
        }
    }

    /// The expression's reverse-Polish token stream.
    pub fn tokens(&self) -> (r: &Vec<Token>)
        ensures
            toks_view(r@) == self@,
    {
        &self.tokens
    }

    /// Reinterpret this expression under another surface syntax: the same tokens, displayed with
    /// the other syntax's spellings.
    pub fn as_syntax<T: Syntax>(&self) -> (r: BoolExpr<T>)
        ensures
            r@ == self@,
    {
        proof {
            use_type_invariant(self);
        }
        let mut tokens: Vec<Token> = Vec::new();
        extend_tokens(&mut tokens, &self.tokens);
        proof {
            assert(toks_view(Seq::<Token>::empty()) + toks_view(self.tokens@) =~= toks_view(
                self.tokens@,
            ));
        }
        BoolExpr { tokens, _syntax: PhantomData }
    }

    /// A copy of this expression.
    pub fn duplicate(&self) -> (r: BoolExpr<S>)
        ensures
            r@ == self@,
    {
        self.as_syntax::<S>()
    }

    /// Logical AND: `self ++ other ++ [And]`.
    pub fn and(&self, other: &BoolExpr<S>) -> (r: BoolExpr<S>)
        ensures
            r@ == self@ + other@ + seq![SToken::And],
            forall|env: spec_fn(Seq<char>) -> bool|
                #![trigger eval(r@, env)]
                eval(r@, env) == (eval(self@, env) && eval(other@, env)),
    {
        proof {
            use_type_invariant(self);
            use_type_invariant(other);
        }
        let t = binary(Token::And, &self.tokens, &other.tokens);
        proof {
            assert forall|env: spec_fn(Seq<char>) -> bool| eval(toks_view(t@), env) == (eval(
                self@,
                env,
            ) && eval(other@, env)) by {
                lemma_binary(self@, other@, SToken::And, bool_alg(env));
            }
            lemma_binary(self@, other@, SToken::And, bool_alg(|n: Seq<char>| false));
        }
        BoolExpr { tokens: t, _syntax: PhantomData }
    }

    /// Logical OR: `self ++ other ++ [Or]`.
    pub fn or(&self, other: &BoolExpr<S>) -> (r: BoolExpr<S>)
        ensures
            r@ == self@ + other@ + seq![SToken::Or],
            forall|env: spec_fn(Seq<char>) -> bool|
                #![trigger eval(r@, env)]
                eval(r@, env) == (eval(self@, env) || eval(other@, env)),
    {
        proof {
            use_type_invariant(self);
            use_type_invariant(other);
        }
        let t = binary(Token::Or, &self.tokens, &other.tokens);
        proof {
            assert forall|env: spec_fn(Seq<char>) -> bool| eval(toks_view(t@), env) == (eval(
                self@,
                env,
            ) || eval(other@, env)) by {
                lemma_binary(self@, other@, SToken::Or, bool_alg(env));
            }
            lemma_binary(self@, other@, SToken::Or, bool_alg(|n: Seq<char>| false));
        }
        BoolExpr { tokens: t, _syntax: PhantomData }
    }

    /// Logical XOR: `self ++ other ++ [Xor]`.
    pub fn xor(&self, other: &BoolExpr<S>) -> (r: BoolExpr<S>)
        ensures
            r@ == self@ + other@ + seq![SToken::Xor],
            forall|env: spec_fn(Seq<char>) -> bool|
                #![trigger eval(r@, env)]
                eval(r@, env) == (eval(self@, env) != eval(other@, env)),
    {
        proof {
            use_type_invariant(self);
            use_type_invariant(other);
        }
        let t = binary(Token::Xor, &self.tokens, &other.tokens);
        proof {
            assert forall|env: spec_fn(Seq<char>) -> bool| eval(toks_view(t@), env) == (eval(
                self@,
                env,
            ) != eval(other@, env)) by {
                lemma_binary(self@, other@, SToken::Xor, bool_alg(env));
            }
            lemma_binary(self@, other@, SToken::Xor, bool_alg(|n: Seq<char>| false));
        }
        BoolExpr { tokens: t, _syntax: PhantomData }
    }

    /// Logical NOT: `self ++ [Not]`.
    pub fn not(&self) -> (r: BoolExpr<S>)
        ensures
            r@ == self@ + seq![SToken::Not],
            forall|env: spec_fn(Seq<char>) -> bool|
                #![trigger eval(r@, env)]
                eval(r@, env) == !eval(self@, env),
    {
        proof {
            use_type_invariant(self);
        }
        let t = unary_not(&self.tokens);
        proof {
            assert forall|env: spec_fn(Seq<char>) -> bool| eval(toks_view(t@), env) == !eval(
                self@,
                env,
            ) by {
                lemma_unary(self@, bool_alg(env));
            }
            lemma_unary(self@, bool_alg(|n: Seq<char>| false));
        }
        BoolExpr { tokens: t, _syntax: PhantomData }
    }

    /// Structural equality: the same token program.
    pub fn same_as(&self, other: &BoolExpr<S>) -> (r: bool)
        ensures
            r == (self@ == other@),
    {
        let n = self.tokens.len();
        if n != other.tokens.len() {
            return false;
        }
        let mut i: usize = 0;
        while i < n
            invariant
                n == self@.len(),
                n == other@.len(),
                i <= n,
                forall|j: int| 0 <= j < i ==> self@[j] == other@[j],
            decreases n - i,
        {
            if !self.tokens[i].same_as(&other.tokens[i]) {
                proof {
                    assert(self@[i as int] != other@[i as int]);
                }
                return false;
            }
            i += 1;
        }
        assert(self@ =~= other@);
        true
    }

    /// Evaluate the expression under a variable assignment. A variable absent from the assignment
    /// is `false`; when a name is listed twice its first entry counts.
    pub fn evaluate(&self, assignment: &Vec<(Symbol, bool)>) -> (r: bool)
        ensures
            r == eval(self@, env_of(assignment@)),
    {
        proof {
            use_type_invariant(self);
        }
        let ghost toks = self@;
        let ghost alg = bool_alg(env_of(assignment@));
        let n = self.tokens.len();
        let mut stack: Vec<bool> = Vec::new();
        let mut i: usize = 0;
        proof {
            assert(toks.take(0) =~= Seq::<SToken>::empty());
        }
        while i < n
            invariant
                n == toks.len(),
                toks == self@,
                wf_program(toks),
                alg == bool_alg(env_of(assignment@)),
                i <= n,
                stack@ == run(toks.take(i as int), Seq::empty(), alg),
            decreases n - i,
        {
            proof {
                lemma_prefix(toks, i as int, alg);
            }
            let ghost before = stack@;
            let ghost t = toks[i as int];
            match &self.tokens[i] {
                Token::Var(name) => {
                    let v = lookup_value(assignment, name);
                    stack.push(v);
                },
                Token::Const(b) => {
                    stack.push(*b);
                },
                Token::Not => {
                    let a = stack.pop().unwrap();
                    stack.push(!a);
                },
                Token::And => {
                    let b = stack.pop().unwrap();
                    let a = stack.pop().unwrap();
                    stack.push(a && b);
                },
                Token::Or => {
                    let b = stack.pop().unwrap();
                    let a = stack.pop().unwrap();
                    stack.push(a || b);
                },
                Token::Xor => {
                    let b = stack.pop().unwrap();
                    let a = stack.pop().unwrap();
                    stack.push(a != b);
                },
            }
            proof {
                assert(stack@ =~= step(t, before, alg));
            }
            i += 1;
        }
        proof {
            lemma_full(toks, alg);
        }
        stack[0]
    }

    /// The variables appearing in this expression, each once, in order of first occurrence. This
    /// is a syntactic scan: `a & !a` still reports `a`.
    pub fn variables(&self) -> (r: Vec<Symbol>)
        ensures
            names_of(r@) == first_occurrences(self@),
    {
        let n = self.tokens.len();
        let mut seen = NameIndex::new();
        let mut i: usize = 0;
        while i < n
            invariant
                n == self@.len(),
                i <= n,
                seen.wf(),
                seen@ == first_occurrences(self@.take(i as int)),
            decreases n - i,
        {
            proof {
                assert(self@.take(i + 1).drop_last() =~= self@.take(i as int));
                assert(self@.take(i + 1).last() == self@[i as int]);
            }
            match &self.tokens[i] {
                Token::Var(name) => {
                    seen.intern(name);
                },
                _ => {},
            }
            i += 1;
        }
        proof {
            assert(self@.take(n as int) =~= self@);
        }
        seen.to_vec()
    }

    /// The expression rendered in its syntax, with minimal parentheses.
    pub fn to_string(&self) -> (r: String)
        ensures
            r@ == render_spec(self@, S::spelling()),
    {
        proof {
            use_type_invariant(self);
        }
        render::<S>(&self.tokens)
    }

    /// Parse text in this expression's syntax: the expression the syntax's grammar reads from
    /// the text (see [`parsed`](super::parser::parsed)), or an error when it reads none.
    pub fn parse_in(input: &str) -> (r: Result<BoolExpr<S>, ParseBoolExprError>)
        ensures
            match parsed(S::grammar(), input@) {
                Some(t) => r matches Ok(e) && e@ == t,
                None => r is Err,
            },
            r matches Err(e) ==> reports_input(e, input@),
    {
        match S::parse_tokens(input) {
            Ok(tokens) => Ok(BoolExpr { tokens, _syntax: PhantomData }),
            Err(e) => Err(e),
        }
    }
}

impl BoolExpr<StdSyntax> {
    /// A variable expression with the given name.
    pub fn var(name: &str) -> (r: BoolExpr)
        ensures
            r@ == seq![SToken::Var(name@)],
            forall|env: spec_fn(Seq<char>) -> bool|
                #![trigger eval(r@, env)]
                eval(r@, env) == env(name@),
    {
        let mut tokens: Vec<Token> = Vec::new();
        tokens.push(Token::Var(Symbol::new(name)));
        proof {
            assert(toks_view(tokens@) =~= seq![SToken::Var(name@)]);
            lemma_leaf(SToken::Var(name@), bool_alg(|n: Seq<char>| false));
            assert forall|env: spec_fn(Seq<char>) -> bool| eval(toks_view(tokens@), env) == env(
                name@,
            ) by {
                lemma_leaf(SToken::Var(name@), bool_alg(env));
            }
        }
        BoolExpr { tokens, _syntax: PhantomData }
    }

    /// A constant expression.
    pub fn constant(value: bool) -> (r: BoolExpr)
        ensures
            r@ == seq![SToken::Const(value)],
            forall|env: spec_fn(Seq<char>) -> bool|
                #![trigger eval(r@, env)]
                eval(r@, env) == value,
    {
        let mut tokens: Vec<Token> = Vec::new();
        tokens.push(Token::Const(value));
        proof {
            assert(toks_view(tokens@) =~= seq![SToken::Const(value)]);
            lemma_leaf(SToken::Const(value), bool_alg(|n: Seq<char>| false));
            assert forall|env: spec_fn(Seq<char>) -> bool| eval(toks_view(tokens@), env)
                == value by {
                lemma_leaf(SToken::Const(value), bool_alg(env));
            }
        }
        BoolExpr { tokens, _syntax: PhantomData }
    }

    /// Parse an expression in the standard syntax (see [`parsed`](super::parser::parsed)).
    pub fn parse(input: &str) -> (r: Result<BoolExpr, ParseBoolExprError>)
        ensures
            match parsed(SyntaxKind::Std, input@) {
                Some(t) => r matches Ok(e) && e@ == t,
                None => r is Err,
            },
            r matches Err(e) ==> reports_input(e, input@),
    {
        BoolExpr::<StdSyntax>::parse_in(input)
    }
}

impl Default for BoolExpr<StdSyntax> {
    /// The constant `false`.
    fn default() -> (r: BoolExpr)
        ensures
            r@ == seq![SToken::Const(false)],
    {
        BoolExpr::constant(false)
    }
}

impl<S: Syntax> Clone for BoolExpr<S> {
    fn clone(&self) -> (r: BoolExpr<S>)
        ensures
            r@ == self@,
    {
        self.duplicate()
    }
}

impl<S: Syntax> PartialEq for BoolExpr<S> {
    fn eq(&self, other: &BoolExpr<S>) -> (r: bool) {
        self.same_as(other)
    }
}

impl<S: Syntax> vstd::std_specs::cmp::PartialEqSpecImpl for BoolExpr<S> {
    open spec fn obeys_eq_spec() -> bool {
        true
    }

    open spec fn eq_spec(&self, other: &BoolExpr<S>) -> bool {
        self@ == other@
    }
}

impl<S: Syntax> Eq for BoolExpr<S> {}

impl<S: Syntax> core::ops::BitAnd<BoolExpr<S>> for BoolExpr<S> {
    type Output = BoolExpr<S>;

    fn bitand(self, rhs: BoolExpr<S>) -> (r: BoolExpr<S>)
        ensures
            r@ == self@ + rhs@ + seq![SToken::And],
    {
        BoolExpr::and(&self, &rhs)
    }
}

impl<S: Syntax> core::ops::BitAnd<&BoolExpr<S>> for &BoolExpr<S> {
    type Output = BoolExpr<S>;

    fn bitand(self, rhs: &BoolExpr<S>) -> (r: BoolExpr<S>)
        ensures
            r@ == self@ + rhs@ + seq![SToken::And],
    {
        BoolExpr::and(self, rhs)
    }
}

impl<S: Syntax> core::ops::BitAnd<&BoolExpr<S>> for BoolExpr<S> {
    type Output = BoolExpr<S>;

    fn bitand(self, rhs: &BoolExpr<S>) -> (r: BoolExpr<S>)
        ensures
            r@ == self@ + rhs@ + seq![SToken::And],
    {
        BoolExpr::and(&self, rhs)
    }
}

impl<S: Syntax> core::ops::BitAnd<BoolExpr<S>> for &BoolExpr<S> {
    type Output = BoolExpr<S>;

    fn bitand(self, rhs: BoolExpr<S>) -> (r: BoolExpr<S>)
        ensures
            r@ == self@ + rhs@ + seq![SToken::And],
    {
        BoolExpr::and(self, &rhs)
    }
}

impl<S: Syntax> core::ops::BitOr<BoolExpr<S>> for BoolExpr<S> {
    type Output = BoolExpr<S>;

    fn bitor(self, rhs: BoolExpr<S>) -> (r: BoolExpr<S>)
        ensures
            r@ == self@ + rhs@ + seq![SToken::Or],
    {
        BoolExpr::or(&self, &rhs)
    }
}

impl<S: Syntax> core::ops::BitOr<&BoolExpr<S>> for &BoolExpr<S> {
    type Output = BoolExpr<S>;

    fn bitor(self, rhs: &BoolExpr<S>) -> (r: BoolExpr<S>)
        ensures
            r@ == self@ + rhs@ + seq![SToken::Or],
    {
        BoolExpr::or(self, rhs)
    }
}

impl<S: Syntax> core::ops::BitOr<&BoolExpr<S>> for BoolExpr<S> {
    type Output = BoolExpr<S>;

    fn bitor(self, rhs: &BoolExpr<S>) -> (r: BoolExpr<S>)
        ensures
            r@ == self@ + rhs@ + seq![SToken::Or],
    {
        BoolExpr::or(&self, rhs)
    }
}

impl<S: Syntax> core::ops::BitOr<BoolExpr<S>> for &BoolExpr<S> {
    type Output = BoolExpr<S>;

    fn bitor(self, rhs: BoolExpr<S>) -> (r: BoolExpr<S>)
        ensures
            r@ == self@ + rhs@ + seq![SToken::Or],
    {
        BoolExpr::or(self, &rhs)
    }
}

impl<S: Syntax> core::ops::BitXor<BoolExpr<S>> for BoolExpr<S> {
    type Output = BoolExpr<S>;

    fn bitxor(self, rhs: BoolExpr<S>) -> (r: BoolExpr<S>)
        ensures
            r@ == self@ + rhs@ + seq![SToken::Xor],
    {
        BoolExpr::xor(&self, &rhs)
    }
}

impl<S: Syntax> core::ops::BitXor<&BoolExpr<S>> for &BoolExpr<S> {
    type Output = BoolExpr<S>;

    fn bitxor(self, rhs: &BoolExpr<S>) -> (r: BoolExpr<S>)
        ensures
            r@ == self@ + rhs@ + seq![SToken::Xor],
    {
        BoolExpr::xor(self, rhs)
    }
}

impl<S: Syntax> core::ops::BitXor<&BoolExpr<S>> for BoolExpr<S> {
    type Output = BoolExpr<S>;

    fn bitxor(self, rhs: &BoolExpr<S>) -> (r: BoolExpr<S>)
        ensures
            r@ == self@ + rhs@ + seq![SToken::Xor],
    {
        BoolExpr::xor(&self, rhs)
    }
}

impl<S: Syntax> core::ops::BitXor<BoolExpr<S>> for &BoolExpr<S> {
    type Output = BoolExpr<S>;

    fn bitxor(self, rhs: BoolExpr<S>) -> (r: BoolExpr<S>)
        ensures
            r@ == self@ + rhs@ + seq![SToken::Xor],
    {
        BoolExpr::xor(self, &rhs)
    }
}

impl<S: Syntax> core::ops::Not for BoolExpr<S> {
    type Output = BoolExpr<S>;

    fn not(self) -> (r: BoolExpr<S>)
        ensures
            r@ == self@ + seq![SToken::Not],
    {
        BoolExpr::not(&self)
    }
}

impl<S: Syntax> core::ops::Not for &BoolExpr<S> {
    type Output = BoolExpr<S>;

    fn not(self) -> (r: BoolExpr<S>)
        ensures
            r@ == self@ + seq![SToken::Not],
    {
        BoolExpr::not(self)
    }
}

impl<S: Syntax> vstd::std_specs::ops::BitAndSpecImpl<BoolExpr<S>> for BoolExpr<S> {
    open spec fn obeys_bitand_spec() -> bool {
        false
    }

    open spec fn bitand_req(self, rhs: BoolExpr<S>) -> bool {
        true
    }

    open spec fn bitand_spec(self, rhs: BoolExpr<S>) -> BoolExpr<S> {
        arbitrary()
    }
}

impl<S: Syntax> vstd::std_specs::ops::BitAndSpecImpl<&BoolExpr<S>> for &BoolExpr<S> {
    open spec fn obeys_bitand_spec() -> bool {
        false
    }

    open spec fn bitand_req(self, rhs: &BoolExpr<S>) -> bool {
        true
    }

    open spec fn bitand_spec(self, rhs: &BoolExpr<S>) -> BoolExpr<S> {
        arbitrary()
    }
}

impl<S: Syntax> vstd::std_specs::ops::BitAndSpecImpl<&BoolExpr<S>> for BoolExpr<S> {
    open spec fn obeys_bitand_spec() -> bool {
        false
    }

    open spec fn bitand_req(self, rhs: &BoolExpr<S>) -> bool {
        true
    }

    open spec fn bitand_spec(self, rhs: &BoolExpr<S>) -> BoolExpr<S> {
        arbitrary()
    }
}

impl<S: Syntax> vstd::std_specs::ops::BitAndSpecImpl<BoolExpr<S>> for &BoolExpr<S> {
    open spec fn obeys_bitand_spec() -> bool {
        false
    }

    open spec fn bitand_req(self, rhs: BoolExpr<S>) -> bool {
        true
    }

    open spec fn bitand_spec(self, rhs: BoolExpr<S>) -> BoolExpr<S> {
        arbitrary()
    }
}

impl<S: Syntax> vstd::std_specs::ops::BitOrSpecImpl<BoolExpr<S>> for BoolExpr<S> {
    open spec fn obeys_bitor_spec() -> bool {
        false
    }

    open spec fn bitor_req(self, rhs: BoolExpr<S>) -> bool {
        true
    }

    open spec fn bitor_spec(self, rhs: BoolExpr<S>) -> BoolExpr<S> {
        arbitrary()
    }
}

impl<S: Syntax> vstd::std_specs::ops::BitOrSpecImpl<&BoolExpr<S>> for &BoolExpr<S> {
    open spec fn obeys_bitor_spec() -> bool {
        false
    }

    open spec fn bitor_req(self, rhs: &BoolExpr<S>) -> bool {
        true
    }

    open spec fn bitor_spec(self, rhs: &BoolExpr<S>) -> BoolExpr<S> {
        arbitrary()
    }
}

impl<S: Syntax> vstd::std_specs::ops::BitOrSpecImpl<&BoolExpr<S>> for BoolExpr<S> {
    open spec fn obeys_bitor_spec() -> bool {
        false
    }

    open spec fn bitor_req(self, rhs: &BoolExpr<S>) -> bool {
        true
    }

    open spec fn bitor_spec(self, rhs: &BoolExpr<S>) -> BoolExpr<S> {
        arbitrary()
    }
}

impl<S: Syntax> vstd::std_specs::ops::BitOrSpecImpl<BoolExpr<S>> for &BoolExpr<S> {
    open spec fn obeys_bitor_spec() -> bool {
        false
    }

    open spec fn bitor_req(self, rhs: BoolExpr<S>) -> bool {
        true
    }

    open spec fn bitor_spec(self, rhs: BoolExpr<S>) -> BoolExpr<S> {
        arbitrary()
    }
}

impl<S: Syntax> vstd::std_specs::ops::BitXorSpecImpl<BoolExpr<S>> for BoolExpr<S> {
    open spec fn obeys_bitxor_spec() -> bool {
        false
    }

    open spec fn bitxor_req(self, rhs: BoolExpr<S>) -> bool {
        true
    }

    open spec fn bitxor_spec(self, rhs: BoolExpr<S>) -> BoolExpr<S> {
        arbitrary()
    }
}

impl<S: Syntax> vstd::std_specs::ops::BitXorSpecImpl<&BoolExpr<S>> for &BoolExpr<S> {
    open spec fn obeys_bitxor_spec() -> bool {
        false
    }

    open spec fn bitxor_req(self, rhs: &BoolExpr<S>) -> bool {
        true
    }

    open spec fn bitxor_spec(self, rhs: &BoolExpr<S>) -> BoolExpr<S> {
        arbitrary()
    }
}

impl<S: Syntax> vstd::std_specs::ops::BitXorSpecImpl<&BoolExpr<S>> for BoolExpr<S> {
    open spec fn obeys_bitxor_spec() -> bool {
        false
    }

    open spec fn bitxor_req(self, rhs: &BoolExpr<S>) -> bool {
        true
    }

    open spec fn bitxor_spec(self, rhs: &BoolExpr<S>) -> BoolExpr<S> {
        arbitrary()
    }
}

impl<S: Syntax> vstd::std_specs::ops::BitXorSpecImpl<BoolExpr<S>> for &BoolExpr<S> {
    open spec fn obeys_bitxor_spec() -> bool {
        false
    }

    open spec fn bitxor_req(self, rhs: BoolExpr<S>) -> bool {
        true
    }

    open spec fn bitxor_spec(self, rhs: BoolExpr<S>) -> BoolExpr<S> {
        arbitrary()
    }
}

impl<S: Syntax> vstd::std_specs::ops::NotSpecImpl for BoolExpr<S> {
    open spec fn obeys_not_spec() -> bool {
        false
    }

    open spec fn not_req(self) -> bool {
        true
    }

    open spec fn not_spec(self) -> BoolExpr<S> {
        arbitrary()
    }
}

impl<S: Syntax> vstd::std_specs::ops::NotSpecImpl for &BoolExpr<S> {
    open spec fn obeys_not_spec() -> bool {
        false
    }

    open spec fn not_req(self) -> bool {
        true
    }

    open spec fn not_spec(self) -> BoolExpr<S> {
        arbitrary()
    }
}

impl<S: Syntax> std::str::FromStr for BoolExpr<S> {
    type Err = ParseBoolExprError;

    fn from_str(s: &str) -> (r: Result<BoolExpr<S>, ParseBoolExprError>)
        ensures
            match parsed(S::grammar(), s@) {
                Some(t) => r matches Ok(e) && e@ == t,
                None => r is Err,
            },
            r matches Err(e) ==> reports_input(e, s@),
    {
        BoolExpr::<S>::parse_in(s)
    }
}

/// The truth value of `name` in an assignment list.
fn lookup_value(assignment: &Vec<(Symbol, bool)>, name: &Symbol) -> (r: bool)
    ensures
        r == lookup(assignment@, name@),
{
    let n = assignment.len();
    let mut i: usize = 0;
    proof {
        assert(assignment@.skip(0) =~= assignment@);
    }
    while i < n
        invariant
            n == assignment@.len(),
            i <= n,
            lookup(assignment@, name@) == lookup(assignment@.skip(i as int), name@),
        decreases n - i,
    {
        proof {
            assert(assignment@.skip(i as int).drop_first() =~= assignment@.skip(i + 1));
            assert(assignment@.skip(i as int)[0] == assignment@[i as int]);
        }
        if assignment[i].0.same_as(name) {
            return assignment[i].1;
        }
        i += 1;
    }
    false
}

/// Sort distinct names into dictionary order.
pub fn sort_names(v: Vec<Symbol>) -> (r: Vec<Symbol>)
    requires
        forall|i: int, j: int| 0 <= i < j < v@.len() ==> names_of(v@)[i] != names_of(v@)[j],
    ensures
        strictly_sorted(names_of(r@)),
        forall|n: Seq<char>| names_of(r@).contains(n) <==> names_of(v@).contains(n),
{
    let mut out: Vec<Symbol> = Vec::new();
    let n = v.len();
    let mut i: usize = 0;
    while i < n
        invariant
            n == v@.len(),
            i <= n,
            forall|a: int, b: int| 0 <= a < b < v@.len() ==> names_of(v@)[a] != names_of(v@)[b],
            strictly_sorted(names_of(out@)),
            forall|m: Seq<char>|
                names_of(out@).contains(m) <==> names_of(v@).take(i as int).contains(m),
        decreases n - i,
    {
        let item = v[i].copy();
        let len = out.len();
        let mut k: usize = 0;
        while k < len && out[k].less_than(&item)
            invariant
                len == out@.len(),
                k <= len,
                forall|q: int| 0 <= q < k ==> seq_lt(names_of(out@)[q], item@),
            decreases len - k,
        {
            k += 1;
        }
        proof {
            assert(!names_of(out@).contains(item@)) by {
                if names_of(out@).contains(item@) {
                    let m = choose|m: int| 0 <= m < i && names_of(v@)[m] == item@;
                    assert(names_of(v@)[i as int] == item@);
                }
            }
            if k < len {
                assert(!seq_lt(names_of(out@)[k as int], item@));
                crate::symbol::lemma_seq_lt_total(names_of(out@)[k as int], item@);
                assert(names_of(out@)[k as int] != item@);
                assert(seq_lt(item@, names_of(out@)[k as int]));
            }
        }
        let ghost old_out = names_of(out@);
        let ghost it = item@;
        out.insert(k, item);
        proof {
            assert(names_of(out@) =~= old_out.insert(k as int, it));
            assert forall|a: int, b: int|
                0 <= a < b < names_of(out@).len() implies seq_lt(
                names_of(out@)[a],
                names_of(out@)[b],
            ) by {
                let no = names_of(out@);
                if b < k {
                } else if b == k {
                } else if a < k {
                    if k < len {
                        crate::symbol::lemma_seq_lt_trans(no[a], it, old_out[k as int]);
                        if b - 1 > k {
                            crate::symbol::lemma_seq_lt_trans(no[a], old_out[k as int], old_out[b - 1]);
                        }
                    }
                } else if a == k {
                    if b - 1 > k {
                        crate::symbol::lemma_seq_lt_trans(it, old_out[k as int], old_out[b - 1]);
                    }
                } else {
                }
            }
            assert(names_of(v@).take(i + 1) =~= names_of(v@).take(i as int).push(it));
            assert forall|m: Seq<char>|
                names_of(out@).contains(m) <==> names_of(v@).take(i + 1).contains(m) by {
                let no = names_of(out@);
                if no.contains(m) {
                    let q = choose|q: int| 0 <= q < no.len() && no[q] == m;
                    if q < k {
                        assert(old_out[q] == m);
                    } else if q > k {
                        assert(old_out[q - 1] == m);
                    }
                    if m != it {
                        assert(old_out.contains(m));
                        assert(names_of(v@).take(i as int).contains(m));
                        let w = choose|w: int|
                            0 <= w < i && names_of(v@).take(i as int)[w] == m;
                        assert(names_of(v@).take(i + 1)[w] == m);
                    } else {
                        assert(names_of(v@).take(i + 1)[i as int] == m);
                    }
                }
                if names_of(v@).take(i + 1).contains(m) {
                    if m == it {
                        assert(no[k as int] == m);
                    } else {
                        let tk = names_of(v@).take(i + 1);
                        let w = choose|w: int| 0 <= w < i + 1 && tk[w] == m;
                        assert(w < i);
                        assert(names_of(v@).take(i as int)[w] == m);
                        assert(old_out.contains(m));
                        let q = choose|q: int| 0 <= q < old_out.len() && old_out[q] == m;
                        if q < k {
                            assert(no[q] == m);
                        } else {
                            assert(no[q + 1] == m);
                        }
                    }
                }
            }
        }
        i += 1;
    }
    proof {
        assert(names_of(v@).take(n as int) =~= names_of(v@));
    }
    out
}

} // verus!
