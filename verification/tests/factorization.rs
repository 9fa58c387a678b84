//! Algebraic factorisation of sums of products.

use espresso_logic::expression::factorization::{
    factor_literal, factorise_cubes, factorise_once, find_common_divisors, ProductTerm,
};
use espresso_logic::{BddContext, BoolExpr, ExprNode, Symbol};

fn sym(s: &str) -> Symbol {
    Symbol::new(s)
}

fn equiv(a: &BoolExpr, b: &BoolExpr) -> bool {
    let mut ctx: BddContext = BddContext::new();
    let x = ctx.build(a);
    let y = ctx.build(b);
    ctx.equivalent(x, y)
}

fn count_operators(expr: &BoolExpr) -> usize {
    expr.fold(|node: ExprNode<usize>| -> usize {
        match node {
            ExprNode::Constant(_) | ExprNode::Variable(_) => 0,
            ExprNode::Not(inner_count) => inner_count + 1,
            ExprNode::And(left_count, right_count)
            | ExprNode::Or(left_count, right_count)
            | ExprNode::Xor(left_count, right_count) => left_count + right_count + 1,
        }
    })
}

#[test]
fn test_common_divisor_extraction() {
    let term1 = ProductTerm::new(vec![(sym("a"), true), (sym("b"), true)]);
    let term2 = ProductTerm::new(vec![(sym("a"), true), (sym("c"), true)]);

    let terms = vec![term1, term2];
    let common = find_common_divisors(&terms);

    assert!(common.contains(&(sym("a"), true)));
}

#[test]
fn test_factor_literal() {
    let term1 = ProductTerm::new(vec![(sym("a"), true), (sym("b"), true)]);
    let term2 = ProductTerm::new(vec![(sym("a"), true), (sym("c"), true)]);
    let term3 = ProductTerm::new(vec![(sym("d"), true)]);

    let terms = vec![term1, term2, term3];
    let (with_a, without_a) = factor_literal(terms, &sym("a"), true);

    assert_eq!(with_a.len(), 2);
    assert_eq!(without_a.len(), 1);
}

#[test]
fn test_simple_factorisation() {
    let term1 = vec![(sym("a"), true), (sym("b"), true)];
    let term2 = vec![(sym("a"), true), (sym("c"), true)];

    let cubes = vec![(term1, true), (term2, true)];
    let factored = factorise_cubes(cubes);

    let a = BoolExpr::var("a");
    let b = BoolExpr::var("b");
    let c = BoolExpr::var("c");
    let unfactored = a.and(&b).or(&a.and(&c));

    assert!(equiv(&unfactored, &factored));

    let unfactored_ops = count_operators(&unfactored);
    let factored_ops = count_operators(&factored);
    assert!(
        factored_ops <= unfactored_ops,
        "Factored has {} ops, unfactored has {} ops",
        factored_ops,
        unfactored_ops
    );
}

#[test]
fn test_factorisation_equivalence() {
    let term1 = vec![(sym("a"), true), (sym("b"), true)];
    let term2 = vec![(sym("a"), true), (sym("c"), true)];

    let cubes = vec![(term1, true), (term2, true)];
    let factored = factorise_cubes(cubes);

    let a = BoolExpr::var("a");
    let b = BoolExpr::var("b");
    let c = BoolExpr::var("c");
    let original = a.and(&b).or(&a.and(&c));

    assert!(equiv(&original, &factored));
}

#[test]
fn test_no_factorisation_needed() {
    let cubes = vec![(vec![(sym("a"), true)], true)];
    let factored = factorise_cubes(cubes);

    let a = BoolExpr::var("a");
    assert!(equiv(&a, &factored));

    let factored_false = factorise_cubes(vec![]);
    assert!(equiv(&factored_false, &BoolExpr::constant(false)));

    let cubes_true = vec![(vec![], true)];
    let factored_true = factorise_cubes(cubes_true);
    assert!(equiv(&factored_true, &BoolExpr::constant(true)));
}

#[test]
fn test_complex_factorisation() {
    let term1 = vec![(sym("a"), true), (sym("b"), true), (sym("c"), true)];
    let term2 = vec![(sym("a"), true), (sym("b"), true), (sym("d"), true)];

    let cubes = vec![(term1, true), (term2, true)];
    let factored = factorise_cubes(cubes);

    let a = BoolExpr::var("a");
    let b = BoolExpr::var("b");
    let c = BoolExpr::var("c");
    let d = BoolExpr::var("d");
    let original = a.and(&b).and(&c).or(&a.and(&b).and(&d));

    assert!(equiv(&original, &factored));

    let original_ops = count_operators(&original);
    let factored_ops = count_operators(&factored);
    assert!(
        factored_ops <= original_ops,
        "Factored has {} ops, original has {} ops",
        factored_ops,
        original_ops
    );
}

#[test]
fn unflagged_cubes_are_left_out() {
    let cubes = vec![(vec![(sym("a"), true)], true), (vec![(sym("b"), true)], false)];
    let f = factorise_cubes(cubes);
    assert!(equiv(&f, &BoolExpr::var("a")));
}

#[test]
fn factorisation_pulls_out_the_shared_literal() {
    let t1 = ProductTerm::new(vec![(sym("a"), true), (sym("b"), true)]);
    let t2 = ProductTerm::new(vec![(sym("a"), true), (sym("c"), true)]);
    assert_eq!(factorise_once(vec![t1, t2]).to_string(), "a & (b | c)");

    let t1 = ProductTerm::new(vec![(sym("a"), true), (sym("b"), true)]);
    let t2 = ProductTerm::new(vec![(sym("a"), true), (sym("c"), true)]);
    let t3 = ProductTerm::new(vec![(sym("d"), false)]);
    assert_eq!(factorise_once(vec![t1, t2, t3]).to_string(), "!d | a & (b | c)");

    // One term is its product, in name order; none is false.
    let one = ProductTerm::new(vec![(sym("c"), false), (sym("a"), true)]);
    assert_eq!(factorise_once(vec![one]).to_string(), "a & !c");
    assert_eq!(factorise_once(vec![]).to_string(), "0");

    // Nothing shared: the sum of the products.
    let t1 = ProductTerm::new(vec![(sym("a"), true)]);
    let t2 = ProductTerm::new(vec![(sym("b"), false)]);
    assert_eq!(factorise_once(vec![t1, t2]).to_string(), "a | !b");
}

#[test]
fn factorise_cubes_keeps_only_flagged_cubes() {
    let cubes = vec![
        (vec![(sym("b"), true), (sym("a"), true)], true),
        (vec![(sym("z"), true)], false),
        (vec![(sym("a"), true), (sym("c"), true)], true),
    ];
    assert_eq!(factorise_cubes(cubes).to_string(), "a & (b | c)");
}
