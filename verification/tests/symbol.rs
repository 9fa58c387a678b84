//! Variable names.

use espresso_logic::Symbol;
use std::borrow::Cow;
use std::cmp::Ordering;
use std::sync::Arc;

const LONG: &str = "this_is_a_long_variable_name_well_over_the_inline_cap";

#[test]
fn roundtrip_inline_and_heap() {
    for s in ["", "a", "x0", "carry_in", LONG] {
        assert_eq!(Symbol::new(s).as_str(), s);
    }
}

#[test]
fn new_accepts_any_str_type_without_privilege() {
    let owned = String::from("a");
    let boxed: Box<str> = Box::from("a");
    let shared: std::sync::Arc<str> = std::sync::Arc::from("a");
    let cow: std::borrow::Cow<str> = std::borrow::Cow::Borrowed("a");
    assert_eq!(Symbol::new("a"), Symbol::new(owned.as_str()));
    assert_eq!(Symbol::new("a"), Symbol::new(&shared));
    assert_eq!(Symbol::new("a"), Symbol::new(&boxed));
    assert_eq!(Symbol::new("a"), Symbol::new(&cow));
    assert_eq!(Symbol::new("a"), Symbol::new(Symbol::new("a").as_str()));
    let long_shared: std::sync::Arc<str> = std::sync::Arc::from(LONG);
    assert_eq!(Symbol::new(LONG), Symbol::new(&long_shared));
}

#[test]
fn symbols_order_by_their_characters() {
    assert!(Symbol::new("a").less_than(&Symbol::new("b")));
    assert!(Symbol::new("a").less_than(&Symbol::new("ab")));
    assert!(!Symbol::new("b").less_than(&Symbol::new("a")));
    assert!(!Symbol::new("a").less_than(&Symbol::new("a")));
    assert_eq!(Symbol::new("héllo").len(), 5);
    assert_eq!(Symbol::new("héllo").char_at(1), 'é');
}

#[test]
fn from_accepts_common_string_types() {
    // Every common owned/shared/borrowed string type converts via `From`/`.into()` with no privilege.
    let mut owned = String::from("a");
    assert_eq!(Symbol::from("a"), Symbol::from(String::from("a")));
    assert_eq!(Symbol::from("a"), Symbol::from(&String::from("a")));
    assert_eq!(Symbol::from("a"), Symbol::from(owned.as_mut_str()));
    assert_eq!(Symbol::from("a"), Symbol::from(Box::<str>::from("a")));
    assert_eq!(Symbol::from("a"), Symbol::from(Arc::<str>::from("a")));
    assert_eq!(Symbol::from("a"), Symbol::from(Cow::Borrowed("a")));
    assert_eq!(Symbol::from("a"), Symbol::from(Cow::<str>::Owned("a".into())));
}

#[test]
fn ord_hash_borrow_match_str() {
    assert!(Symbol::new("a") < Symbol::new("b"));
    assert_eq!(Symbol::new("foo").cmp(&Symbol::new("foo")), Ordering::Equal);

    // HashMap keyed by Symbol, queried by &str (relies on Borrow<str> + matching Hash/Eq).
    let mut map = std::collections::HashMap::new();
    map.insert(Symbol::new("key"), 42);
    assert_eq!(map.get("key"), Some(&42));

    // BTreeMap keyed by Symbol, queried by &str (relies on Borrow<str> + matching Ord).
    let mut bt = std::collections::BTreeMap::new();
    bt.insert(Symbol::new(LONG), 7);
    assert_eq!(bt.get(LONG), Some(&7));
}

#[test]
fn compares_against_str_in_both_directions() {
    let sym = Symbol::new("m");

    // Equality, both orders, against `&str` and `str`.
    assert!(sym == "m");
    assert!("m" == sym);
    assert!(*"m" == sym);
    assert!(sym != "n");
    assert!("n" != sym);

    // Ordering, both orders, against `&str`.
    assert!(sym < "n");
    assert!(sym > "a");
    assert!("a" < sym);
    assert!("n" > sym);
    assert_eq!(sym.partial_cmp("m"), Some(Ordering::Equal));
    assert_eq!("m".partial_cmp(&sym), Some(Ordering::Equal));
}

fn assert_send_sync<T: Send + Sync>() {}

#[test]
fn is_send_and_sync() {
    assert_send_sync::<Symbol>();
}
