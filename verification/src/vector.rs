//! Axis identifiers for the three spatial dimensions. The scalar vector
//! arithmetic itself is floating point and lives with the caller; the
//! structural algorithms here only ever need to name an axis.

use vstd::prelude::*;

verus! {

#[derive(Debug, Clone, Copy, PartialEq, Eq, Structural, PartialOrd, Ord, Hash)]
pub enum Dimension {
    X,
    Y,
    Z,
}

impl Dimension {
    /// The component index this axis selects in a coordinate triple.
    pub fn index(self) -> (i: usize)
        ensures
            i == (match self {
                Dimension::X => 0usize,
                Dimension::Y => 1usize,
                Dimension::Z => 2usize,
            }),
            i < 3,
    {
        match self {
            Dimension::X => 0,
            Dimension::Y => 1,
            Dimension::Z => 2,
        }
    }
}

} // verus!
