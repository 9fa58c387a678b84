//! Symbol tables: one label per position, looked up by identity.

use espresso_logic::cover::symbols::{Anonymous, LabelKey, Symbols};
use espresso_logic::cover::{CubeType, PLAType};
use espresso_logic::Symbol;

fn names(t: &Symbols<Symbol>) -> Vec<String> {
    t.labels().iter().map(|s| s.as_str().to_string()).collect()
}

#[test]
fn new_rejects_a_repeated_label_at_its_second_occurrence() {
    let ok = Symbols::new(vec![Symbol::new("a"), Symbol::new("b")]);
    assert!(ok.is_ok());
    let dup = Symbols::new(vec![Symbol::new("a"), Symbol::new("b"), Symbol::new("a")]);
    assert_eq!(dup.unwrap_err().index, 2);
}

#[test]
fn index_of_finds_names_and_positions() {
    let t = Symbols::new(vec![Symbol::new("c"), Symbol::new("a"), Symbol::new("b")]).unwrap();
    assert_eq!(t.index_of(&LabelKey::Name(Symbol::new("a"))), Some(1));
    assert_eq!(t.index_of(&LabelKey::Name(Symbol::new("c"))), Some(0));
    assert_eq!(t.index_of(&LabelKey::Name(Symbol::new("z"))), None);
    assert_eq!(t.sorted_order(), &vec![1, 2, 0]);
    let anon = Symbols::<Anonymous>::anonymous(3);
    assert_eq!(anon.index_of(&LabelKey::Position(2)), Some(2));
    assert_eq!(anon.index_of(&LabelKey::Position(3)), None);
}

#[test]
fn deduped_keeps_first_occurrences() {
    let t = Symbols::deduped(vec![
        Symbol::new("b"),
        Symbol::new("a"),
        Symbol::new("b"),
        Symbol::new("c"),
        Symbol::new("a"),
    ]);
    assert_eq!(names(&t), vec!["b", "a", "c"]);
    assert_eq!(t.index_of(&LabelKey::Name(Symbol::new("c"))), Some(2));
    let anon = Symbols::deduped(vec![Anonymous, Anonymous, Anonymous]);
    assert_eq!(anon.arity(), 3);
}

#[test]
fn tables_are_equal_by_identities_in_order() {
    let ab = Symbols::new(vec![Symbol::new("a"), Symbol::new("b")]).unwrap();
    let ab2 = Symbols::new(vec![Symbol::new("a"), Symbol::new("b")]).unwrap();
    let ba = Symbols::new(vec![Symbol::new("b"), Symbol::new("a")]).unwrap();
    let a = Symbols::new(vec![Symbol::new("a")]).unwrap();
    assert!(ab.equals(&ab2));
    assert!(!ab.equals(&ba));
    assert!(!ab.equals(&a));
    assert!(Symbols::<Anonymous>::anonymous(2).equals(&Symbols::anonymous(2)));
    assert!(!Symbols::<Anonymous>::anonymous(2).equals(&Symbols::anonymous(3)));
}

#[test]
fn defaults_and_symbols_clone() {
    assert_eq!(PLAType::default(), PLAType::F);
    assert_eq!(CubeType::default(), CubeType::F);

    let table = Symbols::<Symbol>::new(vec![Symbol::new("a"), Symbol::new("b")]).unwrap();
    let cloned: Symbols<Symbol> = table.clone();
    assert_eq!(cloned.arity(), 2);
    assert!(table.equals(&cloned));
    assert_eq!(names(&cloned), vec!["a", "b"]);
}
