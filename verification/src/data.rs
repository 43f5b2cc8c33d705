//! The axes of the box.

use vstd::prelude::*;

verus! {

/// One of the three axes of space.
#[derive(Clone, Copy, PartialEq, Eq, PartialOrd, Ord, Hash, Debug, Structural)]
pub enum Dimension {
    X,
    Y,
    Z,
}

impl Dimension {
    /// The position of the axis in a vector: 0 for X, 1 for Y, 2 for Z.
    pub open spec fn spec_index(&self) -> usize {
        match self {
            Dimension::X => 0,
            Dimension::Y => 1,
            Dimension::Z => 2,
        }
    }

    /// The position of the axis in a vector.
    #[verifier::when_used_as_spec(spec_index)]
    pub fn index(&self) -> (r: usize)
        ensures
            r == self.spec_index(),
            r < 3,
    {
        match self {
            Dimension::X => 0,
            Dimension::Y => 1,
            Dimension::Z => 2,
        }
    }

    /// The letter that names the axis.
    pub fn name(&self) -> (r: &'static str)
        ensures
            *self == Dimension::X ==> r@ == "X"@,
            *self == Dimension::Y ==> r@ == "Y"@,
            *self == Dimension::Z ==> r@ == "Z"@,
    {
        match self {
            Dimension::X => "X",
            Dimension::Y => "Y",
            Dimension::Z => "Z",
        }
    }
}

} // verus!
