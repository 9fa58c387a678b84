//! The owned, syntactic `BoolExpr`: construction, structural equality and hashing, the operators,
//! parsing, rendering, and the bridge to the canonical BDD layer.

use espresso_logic::expression::StdSyntax;
use espresso_logic::{BddContext, BoolExpr, ExprNode, Symbol};
use std::collections::HashSet;

fn v(name: &str) -> BoolExpr {
    BoolExpr::var(name)
}

fn one() -> BoolExpr {
    BoolExpr::constant(true)
}

fn zero() -> BoolExpr {
    BoolExpr::constant(false)
}

/// Whether two expressions denote the same Boolean function, decided through one BDD context.
fn equivalent(a: &BoolExpr, b: &BoolExpr) -> bool {
    let mut ctx: BddContext = BddContext::new();
    let fa = ctx.build(a);
    let fb = ctx.build(b);
    ctx.equivalent(fa, fb)
}

#[test]
fn var_and_constant_construct() {
    let a: BoolExpr = BoolExpr::var("a");
    assert_eq!(a, BoolExpr::var("a"));
    assert_ne!(BoolExpr::var("a"), BoolExpr::var("b"));
    assert_ne!(BoolExpr::constant(true), BoolExpr::constant(false));
    assert_ne!(BoolExpr::var("a"), BoolExpr::constant(true));
}

#[test]
fn default_is_constant_false() {
    assert_eq!(BoolExpr::default(), BoolExpr::constant(false));
}

#[test]
fn var_accepts_any_as_ref_str() {
    let owned = String::from("x");
    let from_string: BoolExpr = BoolExpr::var(owned.as_str());
    let from_str = BoolExpr::var("x");
    assert_eq!(from_string, from_str);
}

#[test]
fn clone_is_structural_equal() {
    let f: BoolExpr = BoolExpr::var("a") & BoolExpr::var("b");
    assert_eq!(f.clone(), f);
}

#[test]
fn equality_is_syntactic() {
    let a: BoolExpr = BoolExpr::var("a");
    let b = BoolExpr::var("b");

    assert_eq!(&a & &b, &a & &b);
    assert_ne!(&a & &b, &b & &a);
    assert_ne!(&a & &b, &a | &b);
    assert_ne!(a.clone(), !a.clone());
}

#[test]
fn hash_agrees_with_eq() {
    let a = BoolExpr::var("a");
    let b = BoolExpr::var("b");
    let mut set: HashSet<BoolExpr> = HashSet::new();
    set.insert(&a & &b);
    assert!(set.contains(&(&a & &b)));
    assert!(!set.contains(&(&b & &a)));
    assert!(!set.contains(&(&a | &b)));
}

#[test]
fn operator_ref_and_value_forms_agree() {
    let a: BoolExpr = BoolExpr::var("a");
    let b = BoolExpr::var("b");
    let by_value = a.clone() & b.clone();
    assert_eq!(&a & &b, by_value);
    assert_eq!(a.clone() & &b, by_value);
    assert_eq!(&a & b.clone(), by_value);
    assert_eq!(!a.clone(), !&a);
}

#[test]
fn operators_match_named_methods() {
    let a: BoolExpr = BoolExpr::var("a");
    let b = BoolExpr::var("b");
    assert_eq!(&a & &b, a.and(&b));
    assert_eq!(&a | &b, a.or(&b));
    assert_eq!(&a ^ &b, a.xor(&b));
    assert_eq!(!&a, a.not());
}

#[test]
fn operators_build_the_expected_functions() {
    let a: BoolExpr = BoolExpr::var("a");
    let b = BoolExpr::var("b");
    let mut ctx: BddContext = BddContext::new();
    let ba = ctx.var("a");
    let bb = ctx.var("b");

    let built = ctx.build(&(&a & &b));
    let direct = ctx.and(ba, bb);
    assert!(ctx.equivalent(built, direct));

    let built = ctx.build(&(&a | &b));
    let direct = ctx.or(ba, bb);
    assert!(ctx.equivalent(built, direct));

    let built = ctx.build(&(&a ^ &b));
    let direct = ctx.xor(ba, bb);
    assert!(ctx.equivalent(built, direct));

    let built = ctx.build(&!&a);
    let direct = ctx.not(ba);
    assert!(ctx.equivalent(built, direct));
}

#[test]
fn fold_walks_the_token_structure_including_xor() {
    let expr: BoolExpr = v("a") ^ v("b") | !v("c");

    let (ops, xors) = expr.fold(|node: ExprNode<(usize, usize)>| match node {
        ExprNode::Variable(_) | ExprNode::Constant(_) => (0, 0),
        ExprNode::Not((o, x)) => (o + 1, x),
        ExprNode::And((lo, lx), (ro, rx)) | ExprNode::Or((lo, lx), (ro, rx)) => (lo + ro + 1, lx + rx),
        ExprNode::Xor((lo, lx), (ro, rx)) => (lo + ro + 1, lx + rx + 1),
    });
    assert_eq!(ops, 3);
    assert_eq!(xors, 1);
}

#[test]
fn fold_hands_variables_over_by_name_in_order() {
    let expr: BoolExpr = v("x") & (v("y") | BoolExpr::constant(true));
    let rendered = expr.fold(|node: ExprNode<String>| match node {
        ExprNode::Variable(name) => name.to_string(),
        ExprNode::Constant(b) => if b { "T".to_string() } else { "F".to_string() },
        ExprNode::Not(a) => format!("-{a}"),
        ExprNode::And(a, b) => format!("({a}.{b})"),
        ExprNode::Or(a, b) => format!("({a}+{b})"),
        ExprNode::Xor(a, b) => format!("({a}x{b})"),
    });
    assert_eq!(rendered, "(x.(y+T))");
}

#[test]
fn parse_round_trips_semantically() {
    let parsed = BoolExpr::parse("a & b | c").unwrap();
    let built = (BoolExpr::var("a") & BoolExpr::var("b")) | BoolExpr::var("c");
    assert!(equivalent(&parsed, &built));
}

#[test]
fn parse_star_plus_equals_amp_pipe() {
    assert_eq!(
        BoolExpr::parse("a * b + c").unwrap(),
        BoolExpr::parse("a & b | c").unwrap()
    );
    assert_eq!(BoolExpr::parse("~a").unwrap(), BoolExpr::parse("!a").unwrap());
}

#[test]
fn parse_respects_precedence() {
    let parsed = BoolExpr::parse("a | b & c").unwrap();
    let expected = BoolExpr::var("a") | (BoolExpr::var("b") & BoolExpr::var("c"));
    assert!(equivalent(&parsed, &expected));
    let other = (BoolExpr::var("a") | BoolExpr::var("b")) & BoolExpr::var("c");
    assert!(!equivalent(&parsed, &other));
}

#[test]
fn from_str_works() {
    let expr: BoolExpr = "a ^ b".parse().unwrap();
    assert!(equivalent(&expr, &(BoolExpr::var("a") ^ BoolExpr::var("b"))));
}

fn same(built: BoolExpr, text: &str) {
    let parsed: BoolExpr = BoolExpr::parse(text).expect("parses");
    assert_eq!(built, parsed, "operators and parse disagree on `{}`", text);
}

#[test]
fn macro_and_parser_agree() {
    // Rust's own operator precedence and associativity match the grammar's: `&` over `^` over `|`,
    // all left-associative, `!` tightest.
    same(v("a") | v("b") & v("c"), "a | b & c");
    same(v("a") ^ v("b") & v("c"), "a ^ b & c");
    same(v("a") | v("b") ^ v("c"), "a | b ^ c");
    same(v("a") | v("b") & v("c") ^ v("d"), "a | b & c ^ d");

    same(v("a") & v("b") & v("c"), "a & b & c");
    same(v("a") | v("b") | v("c"), "a | b | c");
    same(v("a") ^ v("b") ^ v("c"), "a ^ b ^ c");

    same((v("a") | v("b")) & v("c"), "(a | b) & c");
    same(v("a") & (v("b") | v("c")), "a & (b | c)");

    same(!v("a"), "!a");
    same(!!v("a"), "!!a");
    same(!(v("a") & v("b")), "!(a & b)");

    same(v("a") & one(), "a & 1");
    same(v("a") | zero(), "a | 0");

    same(v("a") & v("b"), "a * b");
    same(v("a") | v("b"), "a + b");
    same(!v("a"), "~a");
    same(!v("a") & v("b") | v("c"), "~a * b + c");
}

#[test]
fn display_uses_canonical_spellings_minimal_parens() {
    let a: BoolExpr = BoolExpr::var("a");
    let b = BoolExpr::var("b");
    let c = BoolExpr::var("c");

    assert_eq!((&a & &b | &c).to_string(), "a & b | c");
    assert_eq!(((&a | &b) & &c).to_string(), "(a | b) & c");
    assert_eq!((!(&a & &b)).to_string(), "!(a & b)");
    assert_eq!((!&a & &b).to_string(), "!a & b");
    assert_eq!((&a ^ &b).to_string(), "a ^ b");
    assert_eq!(BoolExpr::constant(true).to_string(), "1");
    assert_eq!(BoolExpr::constant(false).to_string(), "0");
}

#[test]
fn display_reparses_to_equivalent() {
    let exprs = [
        v("a") & v("b") | !v("c"),
        (v("a") | v("b")) & v("c"),
        v("a") ^ v("b") ^ v("c"),
        !(v("a") & (v("b") | v("c"))),
    ];
    for expr in &exprs {
        let reparsed = BoolExpr::parse(&expr.to_string()).unwrap();
        assert!(
            equivalent(expr, &reparsed),
            "display `{}` did not reparse equivalently",
            expr.to_string()
        );
    }
}

#[test]
fn display_round_trips_right_nested_associative() {
    let exprs: [BoolExpr; 5] = [
        v("a") & (v("b") & v("c")),
        v("a") | (v("b") | v("c")),
        v("a") ^ (v("b") ^ v("c")),
        v("a") & (v("b") | v("c")),
        v("a") | (v("b") ^ v("c")),
    ];
    for expr in &exprs {
        let reparsed = BoolExpr::parse(&expr.to_string()).unwrap();
        assert_eq!(
            *expr,
            reparsed,
            "display `{}` did not round-trip syntactically",
            expr.to_string()
        );
    }

    let right_nested: BoolExpr = v("a") & (v("b") & v("c"));
    assert_eq!(right_nested.to_string(), "a & (b & c)");
    let left_nested: BoolExpr = (v("a") & v("b")) & v("c");
    assert_eq!(left_nested.to_string(), "a & b & c");
}

#[test]
fn variables_are_syntactic() {
    let f: BoolExpr = v("b") & (v("a") | !v("a"));
    let mut vars: Vec<String> = f.variables().iter().map(|s| s.to_string()).collect();
    vars.sort();
    assert_eq!(vars, vec!["a".to_string(), "b".to_string()]);
}

#[test]
fn bdd_build_matches_parse() {
    let mut ctx: BddContext = BddContext::new();
    let f: BoolExpr = v("a") & v("b") | v("c");
    let built = ctx.build(&f);
    let parsed = ctx.parse("a & b | c").unwrap();
    assert!(ctx.equivalent(built, parsed));
}

#[test]
fn bdd_build_canonicalises_commutativity() {
    let mut ctx: BddContext = BddContext::new();
    let ab_expr: BoolExpr = v("a") & v("b");
    let ba_expr: BoolExpr = v("b") & v("a");
    let ab = ctx.build(&ab_expr);
    let ba = ctx.build(&ba_expr);
    assert!(ctx.equivalent(ab, ba));
    assert_eq!(ab, ba);
}

#[test]
fn to_expr_round_trips_semantically() {
    let mut ctx: BddContext = BddContext::new();
    let f = (v("a") & v("b")) | (v("a") & v("c"));
    let bdd = ctx.build(&f);
    let recovered = ctx.to_expr(bdd);
    assert!(equivalent(&f, &recovered));
}

#[test]
fn sync_context_build_works() {
    let mut ctx: BddContext = BddContext::default();
    let f: BoolExpr = v("a") ^ v("b");
    let built = ctx.build(&f);
    let parsed = ctx.parse("a ^ b").unwrap();
    assert!(ctx.equivalent(built, parsed));
}

#[test]
fn parse_generic_label_displays_and_matches_symbol_parse() {
    let text = "a & (b | !c)";
    let string_parsed: BoolExpr = text.parse().unwrap();
    let symbol_parsed: BoolExpr = BoolExpr::parse(text).unwrap();

    assert_eq!(string_parsed.to_string(), text);
    assert_eq!(string_parsed.to_string(), symbol_parsed.to_string());
    assert_eq!(string_parsed, BoolExpr::parse(text).unwrap());
}

#[test]
fn variables_generic_label_yields_stored_type() {
    let f: BoolExpr = "a & (b | !c)".parse().unwrap();
    let mut vars: Vec<String> = f.variables().iter().map(|s| s.as_str().to_string()).collect();
    vars.sort();
    assert_eq!(vars, vec!["a".to_string(), "b".to_string(), "c".to_string()]);
}

#[test]
fn arc_str_label_preserves_display() {
    let text = "a & (b | !c)";
    let symbol_parsed: BoolExpr = BoolExpr::parse(text).unwrap();
    let other: BoolExpr = text.parse().unwrap();
    assert_eq!(other.to_string(), symbol_parsed.to_string());
}

#[test]
fn cast_reinterns_labels_into_target_type() {
    let text = "a & (b | !c)";
    let symbol_parsed: BoolExpr = BoolExpr::parse(text).unwrap();

    let recast: BoolExpr = symbol_parsed.as_syntax::<StdSyntax>();
    assert_eq!(recast, BoolExpr::parse(text).unwrap());
    assert_eq!(recast.to_string(), text);
}

#[test]
fn evaluate_follows_the_assignment() {
    let f: BoolExpr = v("a") & !v("b") | v("c");
    let env = |a: bool, b: bool, c: bool| {
        vec![
            (espresso_logic::Symbol::new("a"), a),
            (espresso_logic::Symbol::new("b"), b),
            (espresso_logic::Symbol::new("c"), c),
        ]
    };
    assert!(f.evaluate(&env(true, false, false)));
    assert!(!f.evaluate(&env(true, true, false)));
    assert!(f.evaluate(&env(false, true, true)));
    assert!(!f.evaluate(&env(false, false, false)));
    // A name the assignment does not mention reads as false.
    assert!(!v("z").evaluate(&env(true, true, true)));
}

#[test]
fn expression_level_bdd_queries() {
    let taut: BoolExpr = v("a") | !v("a");
    assert!(taut.is_true());
    assert!(!taut.is_false());
    assert!(taut.is_terminal());
    let contra: BoolExpr = v("a") & !v("a");
    assert!(contra.is_false());
    let f: BoolExpr = v("b") & (v("a") | !v("a"));
    assert_eq!(f.var_count(), 1);
    let names: Vec<String> = f.collect_variables().iter().map(|s| s.to_string()).collect();
    assert_eq!(names, vec!["b".to_string()]);
    assert!(!f.is_terminal());
}

#[test]
fn fold_with_context_tracks_depth_down_and_maximum_up() {
    let expr: BoolExpr = !(v("a") & (v("b") | v("c")));
    let max_depth = expr.fold_with_context(
        0usize,
        |_node: ExprNode<()>, depth: &usize| (depth + 1, depth + 1),
        |node: ExprNode<usize>, depth: usize| match node {
            ExprNode::Variable(_) | ExprNode::Constant(_) => depth,
            ExprNode::Not(inner) => inner,
            ExprNode::And(l, r) | ExprNode::Or(l, r) | ExprNode::Xor(l, r) => l.max(r),
        },
    );
    // not -> and -> or -> b/c: the deepest leaves sit three levels below the root.
    assert_eq!(max_depth, 3);
}

#[test]
fn fold_with_context_pushes_negations_to_the_leaves() {
    let expr: BoolExpr = !(v("a") & !v("b")) | v("c");
    let rendered = expr.fold_with_context(
        false,
        |node: ExprNode<()>, negate: &bool| match node {
            ExprNode::Not(()) => (!*negate, !*negate),
            _ => (*negate, *negate),
        },
        |node: ExprNode<String>, negate: bool| match node {
            ExprNode::Variable(name) => {
                if negate {
                    format!("~{name}")
                } else {
                    name.to_string()
                }
            }
            ExprNode::Constant(b) => (b != negate).to_string(),
            ExprNode::Not(inner) => inner,
            ExprNode::And(l, r) if negate => format!("({l} | {r})"),
            ExprNode::Or(l, r) if negate => format!("({l} & {r})"),
            ExprNode::And(l, r) => format!("({l} & {r})"),
            ExprNode::Or(l, r) => format!("({l} | {r})"),
            ExprNode::Xor(l, r) => format!("({l} ^ {r})"),
        },
    );
    assert_eq!(rendered, "((~a | b) | c)");
}

#[test]
fn fold_with_context_hands_the_root_its_context() {
    let expr: BoolExpr = v("x");
    let seen = expr.fold_with_context(
        7u32,
        |_node: ExprNode<()>, c: &u32| (*c, *c),
        |node: ExprNode<(String, u32)>, c: u32| match node {
            ExprNode::Variable(name) => (name.to_string(), c),
            _ => (String::new(), 0),
        },
    );
    assert_eq!(seen, ("x".to_string(), 7));
}

#[test]
fn to_cubes_lists_paths_low_first_and_repeats() {
    let e = (v("a") & v("b")) | (v("a").not() & v("c"));
    let first = e.to_cubes();
    let again = e.to_cubes();
    let names = vec![Symbol::new("a"), Symbol::new("b"), Symbol::new("c")];
    assert_eq!(first.len(), 2);
    for mt in &first {
        assert_eq!(mt.symbols, names);
    }
    assert_eq!(first[0].values, vec![Some(false), None, Some(true)]);
    assert_eq!(first[1].values, vec![Some(true), Some(true), None]);
    assert_eq!(first.len(), again.len());
    for (x, y) in first.iter().zip(again.iter()) {
        assert_eq!(x.symbols, y.symbols);
        assert_eq!(x.values, y.values);
    }
}

#[test]
fn parsed_hierarchical_names_display_back() {
    for text in ["top.u1/q[3] & b<2> | !x.y", "a[7:0] ^ (b & c.d)"] {
        let e = BoolExpr::parse(text).unwrap();
        let back = BoolExpr::parse(&e.to_string()).unwrap();
        assert_eq!(e, back, "display `{}` of `{}` did not read back", e.to_string(), text);
    }
}

#[test]
fn to_cubes_depends_only_on_the_function() {
    let e1 = (v("a") & v("b")) | (v("a") & v("b").not());
    let e2 = v("a") & (v("b") | v("b").not());
    let c1 = e1.to_cubes();
    let c2 = e2.to_cubes();
    assert_eq!(c1.len(), 1);
    assert_eq!(c2.len(), 1);
    assert_eq!(c1[0].symbols, vec![Symbol::new("a")]);
    assert_eq!(c1[0].symbols, c2[0].symbols);
    assert_eq!(c1[0].values, vec![Some(true)]);
    assert_eq!(c1[0].values, c2[0].values);
}
