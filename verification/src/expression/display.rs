//! Rendering an expression's token stream as text with minimal parentheses.
//!
//! An atom binds tighter than any operator and `&`, `|`, `^` are left-associative, so the left
//! operand of a binary node is parenthesised only when it binds strictly looser than the node,
//! and the right operand when it binds at most as tightly. That keeps the parentheses minimal while
//! preserving the syntactic tree.
use super::rpn::{lemma_full, lemma_prefix, run, step, toks_view, value, wf_program, Alg, SToken, Token};
use super::syntax::{Syntax, SyntaxSpec};
use vstd::prelude::*;
use vstd::string::StringExecFns;

verus! {

/// Parenthesise `s` when its top operator binds strictly more loosely than `need`.
pub open spec fn wrap(s: Seq<char>, have: int, need: int) -> Seq<char> {
    if have < need {
        seq!['('] + s + seq![')']
    } else {
        s
    }
}

/// Parenthesise `s` when its top operator binds at most as tightly as `need`.
pub open spec fn wrap_right(s: Seq<char>, have: int, need: int) -> Seq<char> {
    if have <= need {
        seq!['('] + s + seq![')']
    } else {
        s
    }
}

/// A binary node's text: `left op right`, each side wrapped as needed.
pub open spec fn infix(
    l: (Seq<char>, int),
    op: Seq<char>,
    r: (Seq<char>, int),
    prec: int,
) -> (Seq<char>, int) {
    (wrap(l.0, l.1, prec) + seq![' '] + op + seq![' '] + wrap_right(r.0, r.1, prec), prec)
}

/// Rendering semantics: each value is a text and the binding tightness of its top operator.
pub open spec fn render_alg(sx: SyntaxSpec) -> Alg<(Seq<char>, int)> {
    Alg {
        var: |n: Seq<char>| (n, sx.prec_atom as int),
        cst: |b: bool|
            (
                if b {
                    sx.one@
                } else {
                    sx.zero@
                },
                sx.prec_atom as int,
            ),
        not: |a: (Seq<char>, int)|
            (
                sx.not_prefix@ + wrap(a.0, a.1, sx.prec_not as int) + sx.not_suffix@,
                sx.prec_not as int,
            ),
        and: |a: (Seq<char>, int), b: (Seq<char>, int)| infix(a, sx.and@, b, sx.prec_and as int),
        or: |a: (Seq<char>, int), b: (Seq<char>, int)| infix(a, sx.or@, b, sx.prec_or as int),
        xor: |a: (Seq<char>, int), b: (Seq<char>, int)| infix(a, sx.xor@, b, sx.prec_xor as int),
    }
}

/// The text of a well-formed token program in the given spelling.
pub open spec fn render_spec(toks: Seq<SToken>, sx: SyntaxSpec) -> Seq<char> {
    value(toks, render_alg(sx)).0
}

/// The view of a stack of rendered operands.
pub open spec fn text_stack(v: Seq<(String, u8)>) -> Seq<(Seq<char>, int)> {
    v.map_values(|e: (String, u8)| (e.0@, e.1 as int))
}

fn paren_wrap(s: String, have: u8, need: u8, right: bool) -> (r: String)
    ensures
        r@ == if right {
            wrap_right(s@, have as int, need as int)
        } else {
            wrap(s@, have as int, need as int)
        },
{
    if have < need || (right && have == need) {
        let mut r = String::from_str("(");
        r.append(s.as_str());
        r.append(")");
        proof {
            reveal_strlit("(");
            reveal_strlit(")");
        }
        r
    } else {
        s
    }
}

fn infix_text(l: (String, u8), op: &str, r: (String, u8), prec: u8) -> (t: (String, u8))
    ensures
        (t.0@, t.1 as int) == infix((l.0@, l.1 as int), op@, (r.0@, r.1 as int), prec as int),
{
    let mut out = paren_wrap(l.0, l.1, prec, false);
    out.append(" ");
    out.append(op);
    out.append(" ");
    let rt = paren_wrap(r.0, r.1, prec, true);
    out.append(rt.as_str());
    proof {
        reveal_strlit(" ");
    }
    (out, prec)
}

/// Render a well-formed token program with the spellings of `S`.
pub fn render<S: Syntax>(tokens: &Vec<Token>) -> (r: String)
    requires
        wf_program(toks_view(tokens@)),
    ensures
        r@ == render_spec(toks_view(tokens@), S::spelling()),
{
    let sx = S::syntax_spec();
    let ghost toks = toks_view(tokens@);
    let ghost alg = render_alg(sx);
    let n = tokens.len();
    let mut stack: Vec<(String, u8)> = Vec::new();
    let mut i: usize = 0;
    proof {
        assert(toks.take(0) =~= Seq::<SToken>::empty());
        assert(text_stack(stack@) =~= Seq::<(Seq<char>, int)>::empty());
    }
    while i < n
        invariant
            n == tokens@.len(),
            toks == toks_view(tokens@),
            wf_program(toks),
            sx == S::spelling(),
            alg == render_alg(sx),
            i <= n,
            text_stack(stack@) == run(toks.take(i as int), Seq::empty(), alg),
        decreases n - i,
    {
        proof {
            lemma_prefix(toks, i as int, alg);
        }
        let ghost before = text_stack(stack@);
        let ghost t = toks[i as int];
        match &tokens[i] {
            Token::Var(name) => {
                stack.push((name.to_string(), sx.prec_atom));
                proof {
                    assert(text_stack(stack@) =~= step(t, before, alg));
                }
            },
            Token::Const(b) => {
                let text = if *b {
                    String::from_str(sx.one)
                } else {
                    String::from_str(sx.zero)
                };
                stack.push((text, sx.prec_atom));
                proof {
                    assert(text_stack(stack@) =~= step(t, before, alg));
                }
            },
            Token::Not => {
                let a = stack.pop().unwrap();
                let mut text = String::from_str(sx.not_prefix);
                let inner = paren_wrap(a.0, a.1, sx.prec_not, false);
                text.append(inner.as_str());
                text.append(sx.not_suffix);
                stack.push((text, sx.prec_not));
                proof {
                    assert(text_stack(stack@) =~= step(t, before, alg));
                }
            },
            Token::And => {
                let r = stack.pop().unwrap();
                let l = stack.pop().unwrap();
                stack.push(infix_text(l, sx.and, r, sx.prec_and));
                proof {
                    assert(text_stack(stack@) =~= step(t, before, alg));
                }
            },
            Token::Or => {
                let r = stack.pop().unwrap();
                let l = stack.pop().unwrap();
                stack.push(infix_text(l, sx.or, r, sx.prec_or));
                proof {
                    assert(text_stack(stack@) =~= step(t, before, alg));
                }
            },
            Token::Xor => {
                let r = stack.pop().unwrap();
                let l = stack.pop().unwrap();
                stack.push(infix_text(l, sx.xor, r, sx.prec_xor));
                proof {
                    assert(text_stack(stack@) =~= step(t, before, alg));
                }
            },
        }
        i += 1;
    }
    proof {
        lemma_full(toks, alg);
    }
    let top = stack.pop().unwrap();
    top.0
}

} // verus!
