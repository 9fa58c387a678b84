//! Cubes, covers and variable headers.
pub mod cube;
pub mod pla;
pub mod pla_round_trip;
pub mod symbols;

pub use cube::{Cube, CubeType, Minterm, PLAType};
pub use symbols::{Anonymous, DuplicateSymbol, Label, LabelKey, Symbols};
