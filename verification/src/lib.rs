//! Verified Boolean-expression, BDD and cover logic for the Espresso logic minimiser.
use vstd::prelude::*;

pub mod batch;
pub mod cover;
pub mod espresso;
pub mod expression;
pub mod index;
pub mod io_error;
pub mod ipc;
pub mod lines;
pub mod symbol;
pub mod symbol_str;
pub mod text;

pub use espresso::EspressoConfig;
pub use expression::context::{Bdd, BddContext, Brand};
pub use expression::manager::BddNode;
pub use expression::{BoolExpr, ExprNode};
pub use symbol::Symbol;

verus! {

} // verus!
