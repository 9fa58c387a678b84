//! Building expressions in an arena and serialising them to one token stream.

use espresso_logic::expression::ExprBuilder;
use espresso_logic::{BddContext, BoolExpr};

#[test]
fn build_is_token_identical_to_operator_composition() {
    let mut b = ExprBuilder::new();
    let a = b.var("a");
    let c = b.var("c");
    let bv = b.var("b");
    let x = b.xor(a, bv);
    let nc = b.not(c);
    let root = b.and(x, nc);
    let built = BoolExpr::build(&b, root);
    let composed = (BoolExpr::var("a") ^ BoolExpr::var("b")) & !BoolExpr::var("c");
    assert_eq!(built, composed);
}

#[test]
fn constant_leaves_build() {
    let mut b = ExprBuilder::new();
    let a = b.var("a");
    let t = b.constant(true);
    let root = b.or(a, t);
    let f = BoolExpr::build(&b, root);
    assert_eq!(f, BoolExpr::var("a") | BoolExpr::constant(true));
}

#[test]
fn graft_splices_an_existing_expression_verbatim() {
    let sub = BoolExpr::parse("a & b").unwrap();
    let mut b = ExprBuilder::new();
    let g = b.graft(&sub);
    let c = b.var("c");
    let root = b.or(g, c);
    let built = BoolExpr::build(&b, root);
    assert_eq!(built, sub.clone() | BoolExpr::var("c"));
}

#[test]
fn a_handle_may_be_reused_without_cloning() {
    let mut b = ExprBuilder::new();
    let a = b.var("a");
    let root = b.and(a, a);
    let built = BoolExpr::build(&b, root);
    assert_eq!(built, BoolExpr::var("a") & BoolExpr::var("a"));
}

#[test]
fn built_expression_is_equivalent_to_operator_form_as_a_bdd() {
    let mut b = ExprBuilder::new();
    let a = b.var("a");
    let c = b.var("c");
    let bv = b.var("b");
    let x = b.xor(a, bv);
    let nc = b.not(c);
    let root = b.and(x, nc);
    let built = BoolExpr::build(&b, root);
    let composed = (BoolExpr::var("a") ^ BoolExpr::var("b")) & !BoolExpr::var("c");

    let mut ctx: BddContext = BddContext::new();
    let f = ctx.build(&built);
    let g = ctx.build(&composed);
    assert!(ctx.equivalent(f, g));
}

#[test]
fn deep_build_does_not_overflow_and_stays_linear() {
    const N: usize = 50_000;
    let names: Vec<String> = (0..N).map(|i| format!("v{i}")).collect();
    let mut b = ExprBuilder::new();
    let mut acc = b.var(&names[0]);
    for name in &names[1..] {
        let v = b.var(name);
        acc = b.and(acc, v);
    }
    let built = BoolExpr::build(&b, acc);
    assert_eq!(built.tokens().len(), N + (N - 1));
    assert_eq!(built.variables().len(), N);
}
