//! Owned, syntactic Boolean expressions.
pub mod bdd;
pub mod constant_words;
pub mod boolexpr;
pub mod builder;
pub mod context;
pub mod cover;
pub mod display;
pub mod factorization;
pub mod fold;
pub mod fold_split;
pub mod error;
pub mod manager;
pub mod parser;
pub mod names_read_back;
pub mod roundtrip;
pub mod rpn;
pub mod sop;
pub mod syntax;

pub use boolexpr::BoolExpr;
pub use builder::{Expr, ExprBuilder};
pub use fold::ExprNode;
pub use error::{ExpressionParseError, ParseBoolExprError};
pub use syntax::{LibertySyntax, StdSyntax, Syntax, SyntaxSpec, VerilogSyntax};
