//! The shared BDD node store: hash-consed nodes, the `ite` engine, cofactors.

use espresso_logic::expression::manager::{BddManager, FALSE_NODE, TRUE_NODE};

/// Builds `(a & b) | (a ^ c)` and returns the root and the number of variables.
fn build_sample(m: &mut BddManager) -> (usize, usize) {
    let a = m.make_var("a");
    let b = m.make_var("b");
    let c = m.make_var("c");
    let a_node = m.make_node(a, FALSE_NODE, TRUE_NODE);
    let b_node = m.make_node(b, FALSE_NODE, TRUE_NODE);
    let c_node = m.make_node(c, FALSE_NODE, TRUE_NODE);

    let and = m.ite(a_node, b_node, FALSE_NODE);
    let xor = m.xor(a_node, c_node);
    let or = m.ite(and, TRUE_NODE, xor);
    (or, m.var_count())
}

#[test]
fn engine_runs_on_local_cell() {
    let mut m = BddManager::new();
    let (root, arity) = build_sample(&mut m);
    assert_eq!(arity, 3);
    let (root2, _) = build_sample(&mut m);
    assert_eq!(root, root2);
}

#[test]
fn both_cells_agree() {
    let mut first = BddManager::new();
    let mut second = BddManager::new();
    let (first_root, first_arity) = build_sample(&mut first);
    let (second_root, second_arity) = build_sample(&mut second);
    assert_eq!(first_root, second_root);
    assert_eq!(first_arity, second_arity);
}

#[test]
fn restrict_cofactors_on_local_cell() {
    let mut m = BddManager::new();
    let a = m.make_var("a");
    let b = m.make_var("b");
    let a_node = m.make_node(a, FALSE_NODE, TRUE_NODE);
    let b_node = m.make_node(b, FALSE_NODE, TRUE_NODE);
    let and = m.ite(a_node, b_node, FALSE_NODE);

    assert_eq!(m.restrict(and, a, true), b_node);
    assert_eq!(m.restrict(and, a, false), FALSE_NODE);

    let c = m.make_var("c");
    assert_eq!(m.restrict(and, c, true), and);
}

#[test]
fn restrict_deep_chain_no_overflow() {
    let mut m = BddManager::new();
    let n = 50_000;
    let ids: Vec<usize> = (0..n).map(|i| m.make_var(&format!("v{i}"))).collect();
    let mut node = TRUE_NODE;
    for &id in ids.iter().rev() {
        node = m.make_node(id, FALSE_NODE, node);
    }
    assert_eq!(m.restrict(node, ids[n - 1], false), FALSE_NODE);
    let dropped = m.restrict(node, ids[n - 1], true);
    assert_ne!(dropped, FALSE_NODE);
    assert_ne!(dropped, TRUE_NODE);
}

#[test]
fn deep_chain_on_local_cell() {
    let mut m = BddManager::new();
    let names: Vec<String> = (0..400).map(|i| format!("v{i}")).collect();
    let mut acc = {
        let id = m.make_var(&names[0]);
        m.make_node(id, FALSE_NODE, TRUE_NODE)
    };
    for name in &names[1..] {
        let id = m.make_var(name);
        let node = m.make_node(id, FALSE_NODE, TRUE_NODE);
        acc = m.ite(acc, node, FALSE_NODE);
    }
    assert_ne!(acc, FALSE_NODE);
}

#[test]
fn make_node_is_hash_consed_and_reduced() {
    let mut m = BddManager::new();
    let a = m.make_var("a");
    let n1 = m.make_node(a, FALSE_NODE, TRUE_NODE);
    let n2 = m.make_node(a, FALSE_NODE, TRUE_NODE);
    assert_eq!(n1, n2);
    // A node whose branches agree is its branch.
    assert_eq!(m.make_node(a, TRUE_NODE, TRUE_NODE), TRUE_NODE);
    assert_eq!(m.node_count(n1), 3);
}

#[test]
fn compose_substitutes_a_function_for_a_variable() {
    let mut m = BddManager::new();
    let a = m.make_var("a");
    let b = m.make_var("b");
    let c = m.make_var("c");
    let a_node = m.make_node(a, FALSE_NODE, TRUE_NODE);
    let b_node = m.make_node(b, FALSE_NODE, TRUE_NODE);
    let c_node = m.make_node(c, FALSE_NODE, TRUE_NODE);
    let f = m.ite(a_node, b_node, FALSE_NODE); // a & b
    let g = m.ite(c_node, FALSE_NODE, TRUE_NODE); // !c
    let composed = m.compose(f, a, g); // !c & b
    let expected = m.ite(g, b_node, FALSE_NODE);
    assert_eq!(composed, expected);
    let mut map = std::collections::HashMap::new();
    map.insert(a, g);
    assert_eq!(m.compose_map(f, &map), expected);
}
