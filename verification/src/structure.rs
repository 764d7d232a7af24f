//! Which entries of a matrix region are stored.

use vstd::prelude::*;

verus! {

/// Which entries of a matrix region are stored and meaningful.
#[derive(Clone, Copy, Debug, PartialEq, Eq, Structural)]
pub enum BlockStructure {
    /// Every entry.
    Rectangular,
    /// The diagonal and what lies below it.
    TriangularLower,
    /// The diagonal and what lies above it.
    TriangularUpper,
    /// What lies strictly below the diagonal; the diagonal is implicitly one.
    UnitTriangularLower,
    /// What lies strictly above the diagonal; the diagonal is implicitly one.
    UnitTriangularUpper,
}

/// Whether a product replaces the destination or is added into it.
#[derive(Clone, Copy, Debug, PartialEq, Eq, Structural)]
pub enum Accum {
    Replace,
    Add,
}

impl BlockStructure {
    /// Lower triangular, with or without an implicit unit diagonal.
    pub open spec fn lower(self) -> bool {
        self == BlockStructure::TriangularLower || self == BlockStructure::UnitTriangularLower
    }

    /// Upper triangular, with or without an implicit unit diagonal.
    pub open spec fn upper(self) -> bool {
        self == BlockStructure::TriangularUpper || self == BlockStructure::UnitTriangularUpper
    }

    /// Rectangular: every entry is stored.
    pub open spec fn dense(self) -> bool {
        self == BlockStructure::Rectangular
    }

    /// Triangular with an implicit unit diagonal.
    pub open spec fn unit(self) -> bool {
        self == BlockStructure::UnitTriangularLower || self == BlockStructure::UnitTriangularUpper
    }

    /// Whether entry `(i, j)` is stored.
    pub open spec fn holds(self, i: int, j: int) -> bool {
        match self {
            BlockStructure::Rectangular => true,
            BlockStructure::TriangularLower => j <= i,
            BlockStructure::TriangularUpper => i <= j,
            BlockStructure::UnitTriangularLower => j < i,
            BlockStructure::UnitTriangularUpper => i < j,
        }
    }

    /// The lower triangular structure with or without an implicit unit diagonal.
    pub open spec fn lower_of(unit: bool) -> BlockStructure {
        if unit {
            BlockStructure::UnitTriangularLower
        } else {
            BlockStructure::TriangularLower
        }
    }

    /// The upper triangular structure with or without an implicit unit diagonal.
    pub open spec fn upper_of(unit: bool) -> BlockStructure {
        if unit {
            BlockStructure::UnitTriangularUpper
        } else {
            BlockStructure::TriangularUpper
        }
    }

    /// Whether every entry is stored.
    pub fn is_dense(self) -> (r: bool)
        ensures
            r == self.dense(),
    {
        matches!(self, BlockStructure::Rectangular)
    }

    /// Whether the structure is lower triangular.
    pub fn is_lower(self) -> (r: bool)
        ensures
            r == self.lower(),
    {
        matches!(self, BlockStructure::TriangularLower | BlockStructure::UnitTriangularLower)
    }

    /// Whether the structure is upper triangular.
    pub fn is_upper(self) -> (r: bool)
        ensures
            r == self.upper(),
    {
        matches!(self, BlockStructure::TriangularUpper | BlockStructure::UnitTriangularUpper)
    }

    /// Whether the diagonal is implicitly one.
    pub fn is_unit(self) -> (r: bool)
        ensures
            r == self.unit(),
    {
        matches!(self, BlockStructure::UnitTriangularLower | BlockStructure::UnitTriangularUpper)
    }

    /// Whether entry `(i, j)` is stored.
    pub fn stores(self, i: usize, j: usize) -> (r: bool)
        ensures
            r == self.holds(i as int, j as int),
    {
        match self {
            BlockStructure::Rectangular => true,
            BlockStructure::TriangularLower => j <= i,
            BlockStructure::TriangularUpper => i <= j,
            BlockStructure::UnitTriangularLower => j < i,
            BlockStructure::UnitTriangularUpper => i < j,
        }
    }
}

} // verus!
