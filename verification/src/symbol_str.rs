//! Comparing a [`Symbol`] with string slices, in either order: by the characters, equality and
//! dictionary order both.
use crate::symbol::{seq_lt, Symbol};
use std::cmp::Ordering;
use vstd::prelude::*;

verus! {

/// How two character sequences compare in dictionary order.
pub open spec fn text_order(a: Seq<char>, b: Seq<char>) -> Ordering {
    if seq_lt(a, b) {
        Ordering::Less
    } else if a == b {
        Ordering::Equal
    } else {
        Ordering::Greater
    }
}

/// How the text of a symbol compares with a string slice.
fn order_with(sym: &Symbol, s: &str) -> (r: Ordering)
    ensures
        r == text_order(sym@, s@),
{
    let other = Symbol::new(s);
    if sym.less_than(&other) {
        Ordering::Less
    } else if sym.same_as(&other) {
        Ordering::Equal
    } else {
        Ordering::Greater
    }
}

/// How a string slice compares with the text of a symbol.
fn order_of(s: &str, sym: &Symbol) -> (r: Ordering)
    ensures
        r == text_order(s@, sym@),
{
    let other = Symbol::new(s);
    if other.less_than(sym) {
        Ordering::Less
    } else if other.same_as(sym) {
        Ordering::Equal
    } else {
        Ordering::Greater
    }
}

impl PartialEq<str> for Symbol {
    fn eq(&self, other: &str) -> (r: bool) {
        self.same_as(&Symbol::new(other))
    }
}

impl vstd::std_specs::cmp::PartialEqSpecImpl<str> for Symbol {
    open spec fn obeys_eq_spec() -> bool {
        true
    }

    open spec fn eq_spec(&self, other: &str) -> bool {
        self@ == other@
    }
}

impl<'a> PartialEq<&'a str> for Symbol {
    fn eq(&self, other: &&'a str) -> (r: bool) {
        self.same_as(&Symbol::new(*other))
    }
}

impl<'a> vstd::std_specs::cmp::PartialEqSpecImpl<&'a str> for Symbol {
    open spec fn obeys_eq_spec() -> bool {
        true
    }

    open spec fn eq_spec(&self, other: &&'a str) -> bool {
        self@ == (*other)@
    }
}

impl PartialEq<Symbol> for str {
    fn eq(&self, other: &Symbol) -> (r: bool) {
        Symbol::new(self).same_as(other)
    }
}

impl vstd::std_specs::cmp::PartialEqSpecImpl<Symbol> for str {
    open spec fn obeys_eq_spec() -> bool {
        true
    }

    open spec fn eq_spec(&self, other: &Symbol) -> bool {
        self@ == other@
    }
}

impl<'a> PartialEq<Symbol> for &'a str {
    fn eq(&self, other: &Symbol) -> (r: bool) {
        Symbol::new(*self).same_as(other)
    }
}

impl<'a> vstd::std_specs::cmp::PartialEqSpecImpl<Symbol> for &'a str {
    open spec fn obeys_eq_spec() -> bool {
        true
    }

    open spec fn eq_spec(&self, other: &Symbol) -> bool {
        (*self)@ == other@
    }
}

impl PartialOrd<str> for Symbol {
    fn partial_cmp(&self, other: &str) -> (r: Option<Ordering>) {
        Some(order_with(self, other))
    }
}

impl vstd::std_specs::cmp::PartialOrdSpecImpl<str> for Symbol {
    open spec fn obeys_partial_cmp_spec() -> bool {
        true
    }

    open spec fn partial_cmp_spec(&self, other: &str) -> Option<Ordering> {
        Some(text_order(self@, other@))
    }
}

impl<'a> PartialOrd<&'a str> for Symbol {
    fn partial_cmp(&self, other: &&'a str) -> (r: Option<Ordering>) {
        Some(order_with(self, *other))
    }
}

impl<'a> vstd::std_specs::cmp::PartialOrdSpecImpl<&'a str> for Symbol {
    open spec fn obeys_partial_cmp_spec() -> bool {
        true
    }

    open spec fn partial_cmp_spec(&self, other: &&'a str) -> Option<Ordering> {
        Some(text_order(self@, (*other)@))
    }
}

impl PartialOrd<Symbol> for str {
    fn partial_cmp(&self, other: &Symbol) -> (r: Option<Ordering>) {
        Some(order_of(self, other))
    }
}

impl vstd::std_specs::cmp::PartialOrdSpecImpl<Symbol> for str {
    open spec fn obeys_partial_cmp_spec() -> bool {
        true
    }

    open spec fn partial_cmp_spec(&self, other: &Symbol) -> Option<Ordering> {
        Some(text_order(self@, other@))
    }
}

impl<'a> PartialOrd<Symbol> for &'a str {
    fn partial_cmp(&self, other: &Symbol) -> (r: Option<Ordering>) {
        Some(order_of(*self, other))
    }
}

impl<'a> vstd::std_specs::cmp::PartialOrdSpecImpl<Symbol> for &'a str {
    open spec fn obeys_partial_cmp_spec() -> bool {
        true
    }

    open spec fn partial_cmp_spec(&self, other: &Symbol) -> Option<Ordering> {
        Some(text_order((*self)@, other@))
    }
}

} // verus!
