//! The cube: one row of a cover, a product term over the inputs with its output part.
use crate::symbol::Symbol;
use vstd::prelude::*;

verus! {

/// Which set of a cover a cube belongs to.
#[derive(Clone, Copy, Debug, PartialEq, Eq, Hash)]
pub enum CubeType {
    /// The on-set.
    F,
    /// The don't-care set.
    D,
    /// The off-set.
    R,
}

/// Which sets a cover carries.
#[derive(Clone, Copy, Debug, PartialEq, Eq, Hash)]
pub enum PLAType {
    /// On-set only.
    F,
    /// On-set and don't-care set.
    FD,
    /// On-set and off-set.
    FR,
    /// On-set, don't-care set and off-set.
    FDR,
}

impl Default for CubeType {
    /// The on-set.
    fn default() -> (r: CubeType)
        ensures
            r == CubeType::F,
    {
        CubeType::F
    }
}

impl Default for PLAType {
    /// On-set only.
    fn default() -> (r: PLAType)
        ensures
            r == PLAType::F,
    {
        PLAType::F
    }
}

impl PLAType {
    /// Whether the cover carries its on-set (every kind does).
    pub open spec fn spec_has_f(self) -> bool {
        true
    }

    /// Whether the cover carries its don't-care set.
    pub open spec fn spec_has_d(self) -> bool {
        self is FD || self is FDR
    }

    /// Whether the cover carries its off-set.
    pub open spec fn spec_has_r(self) -> bool {
        self is FR || self is FDR
    }

    /// Whether the cover carries its on-set (every kind does).
    pub fn has_f(&self) -> (r: bool)
        ensures
            r == self.spec_has_f(),
    {
        true
    }

    /// Whether the cover carries its don't-care set.
    pub fn has_d(&self) -> (r: bool)
        ensures
            r == self.spec_has_d(),
    {
        match self {
            PLAType::FD | PLAType::FDR => true,
            _ => false,
        }
    }

    /// Whether the cover carries its off-set.
    pub fn has_r(&self) -> (r: bool)
        ensures
            r == self.spec_has_r(),
    {
        match self {
            PLAType::FR | PLAType::FDR => true,
            _ => false,
        }
    }
}

/// A product term over the inputs (`Some(true)` a positive literal, `Some(false)` a negative
/// one, `None` a don't-care) together with the outputs it drives.
#[derive(Debug, Clone, PartialEq, Eq)]
pub struct Cube {
    pub inputs: Vec<Option<bool>>,
    pub outputs: Vec<bool>,
    pub cube_type: CubeType,
}

impl Cube {
    /// A cube with the given parts.
    pub fn new(inputs: Vec<Option<bool>>, outputs: Vec<bool>, cube_type: CubeType) -> (r: Cube)
        ensures
            r.inputs@ == inputs@,
            r.outputs@ == outputs@,
            r.cube_type == cube_type,
    {
        Cube { inputs, outputs, cube_type }
    }
}

/// A single-output product term over a header of named inputs: `values[i]` is the literal of
/// `symbols[i]`.
#[derive(Debug)]
pub struct Minterm {
    pub symbols: Vec<Symbol>,
    pub values: Vec<Option<bool>>,
}

} // verus!
