//! Error conditions of the library.

use vstd::prelude::*;

verus! {

/// Everything that a library call can fail with.
///
/// `InvalidDimension` comes from grid construction with a non-positive side.
/// `InvalidConfig` comes from a generator whose minimum room size is
/// non-positive or exceeds the board. `OutOfBounds` comes from a grid access
/// outside the declared extents.
#[derive(Clone, Copy, PartialEq, Eq, Structural, Debug)]
pub enum DungeonError {
    InvalidDimension,
    InvalidConfig,
    OutOfBounds,
}

impl DungeonError {
    /// A short human-readable description of the error.
    pub fn describe(&self) -> (s: &'static str)
        ensures
            s@.len() > 0,
    {
        proof {
            reveal_strlit("grid dimensions must be positive");
            reveal_strlit("minimum room size must be positive and fit the board");
            reveal_strlit("coordinate outside the grid");
        }
        match self {
            DungeonError::InvalidDimension => "grid dimensions must be positive",
            DungeonError::InvalidConfig => "minimum room size must be positive and fit the board",
            DungeonError::OutOfBounds => "coordinate outside the grid",
        }
    }
}

} // verus!
