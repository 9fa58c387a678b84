//! Sum-of-products forms of expressions and the covers built from them.

use espresso_logic::cover::{CubeType, PLAType};
use espresso_logic::expression::cover::{dnf_to_cubes, term_get, to_dnf, ExprCover};
use espresso_logic::{BddContext, BoolExpr, Symbol};

fn sym(s: &str) -> Symbol {
    Symbol::new(s)
}

#[test]
fn test_to_dnf_variable() {
    let a = BoolExpr::var("a");
    let dnf = to_dnf(&a);

    assert_eq!(dnf.len(), 1);
    assert_eq!(dnf[0].len(), 1);
    assert_eq!(term_get(&dnf[0], &sym("a")), Some(true));
}

#[test]
fn test_to_dnf_not() {
    let a = BoolExpr::var("a");
    let not_a = a.not();
    let dnf = to_dnf(&not_a);

    assert_eq!(dnf.len(), 1);
    assert_eq!(dnf[0].len(), 1);
    assert_eq!(term_get(&dnf[0], &sym("a")), Some(false));
}

#[test]
fn test_to_dnf_and() {
    let a = BoolExpr::var("a");
    let b = BoolExpr::var("b");
    let and_expr = a.and(&b);
    let dnf = to_dnf(&and_expr);

    assert_eq!(dnf.len(), 1);
    assert_eq!(dnf[0].len(), 2);
    assert_eq!(term_get(&dnf[0], &sym("a")), Some(true));
    assert_eq!(term_get(&dnf[0], &sym("b")), Some(true));
}

#[test]
fn test_to_dnf_or() {
    let a = BoolExpr::var("a");
    let b = BoolExpr::var("b");
    let or_expr = a.or(&b);
    let dnf = to_dnf(&or_expr);

    assert_eq!(dnf.len(), 2);
}

#[test]
fn test_to_dnf_complex() {
    let a = BoolExpr::var("a");
    let b = BoolExpr::var("b");
    let expr = a.and(&b).or(&a.not().and(&b.not()));
    let dnf = to_dnf(&expr);

    assert_eq!(dnf.len(), 2);
}

#[test]
fn to_dnf_drops_contradictory_products() {
    let a = BoolExpr::var("a");
    let contra = a.and(&a.not());
    assert_eq!(to_dnf(&contra).len(), 0);
    let xor = BoolExpr::var("a") ^ BoolExpr::var("b");
    let dnf = to_dnf(&xor);
    assert_eq!(dnf.len(), 2);
    for term in &dnf {
        assert_eq!(term.len(), 2);
        assert_ne!(term_get(term, &sym("a")), term_get(term, &sym("b")));
    }
}

#[test]
fn test_dnf_to_cubes() {
    let variables = vec![sym("a"), sym("b")];
    let dnf = vec![vec![(sym("a"), true), (sym("b"), true)]];

    let cubes = dnf_to_cubes(&dnf, &variables);

    assert_eq!(cubes.len(), 1);
    assert_eq!(cubes[0].inputs[0], Some(true));
    assert_eq!(cubes[0].inputs[1], Some(true));
    assert_eq!(cubes[0].outputs, vec![true]);
    assert_eq!(cubes[0].cube_type, CubeType::F);
}

#[test]
fn test_expr_cover_trait() {
    let a = BoolExpr::var("a");
    let b = BoolExpr::var("b");
    let expr = a.and(&b);

    let cover = ExprCover::from_expr(expr);
    assert_eq!(cover.num_inputs(), 2);
    assert_eq!(cover.num_outputs(), 1);
    assert_eq!(cover.cover_type(), PLAType::F);
}

#[test]
fn expr_cover_round_trips_the_function() {
    let f = (BoolExpr::var("a") & !BoolExpr::var("b")) | BoolExpr::var("c");
    let cover = ExprCover::from_expr(f.clone());
    let names: Vec<String> = cover.variables().iter().map(|s| s.to_string()).collect();
    assert_eq!(names, vec!["a".to_string(), "b".to_string(), "c".to_string()]);
    let back = cover.to_expr();
    let mut ctx: BddContext = BddContext::new();
    let x = ctx.build(&f);
    let y = ctx.build(&back);
    assert!(ctx.equivalent(x, y));
}

#[test]
fn to_dnf_lists_terms_row_by_row() {
    let a = BoolExpr::var("a");
    let b = BoolExpr::var("b");
    let c = BoolExpr::var("c");
    let expr = (a.clone() | b) & (c | !a);
    let dnf = to_dnf(&expr);
    assert_eq!(
        dnf,
        vec![
            vec![(sym("a"), true), (sym("c"), true)],
            vec![(sym("b"), true), (sym("c"), true)],
            vec![(sym("b"), true), (sym("a"), false)],
        ]
    );
    let cover = ExprCover::from_expr(expr);
    let inputs: Vec<Vec<Option<bool>>> = cover.cubes().iter().map(|c| c.inputs.clone()).collect();
    assert_eq!(
        inputs,
        vec![
            vec![Some(true), None, Some(true)],
            vec![None, Some(true), Some(true)],
            vec![Some(false), Some(true), None],
        ]
    );
}
