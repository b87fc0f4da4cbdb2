//! The three axes of the block grid.
use vstd::prelude::*;

verus! {

/// An axis, numbered Y = 0, Z = 1, X = 2.
#[derive(Debug, Clone, Copy, PartialEq, Eq, Hash, Structural)]
pub enum Axis {
    Y,
    Z,
    X,
}

impl Axis {
    /// The axis's number.
    pub open spec fn spec_id(self) -> u8 {
        match self {
            Axis::Y => 0,
            Axis::Z => 1,
            Axis::X => 2,
        }
    }

    /// The axis with a number, if any.
    pub fn from_int(axis: u8) -> (r: Option<Self>)
        ensures
            axis <= 2 ==> (r matches Some(a) && a.spec_id() == axis),
            axis > 2 ==> r is None,
    {
        match axis {
            0 => Some(Axis::Y),
            1 => Some(Axis::Z),
            2 => Some(Axis::X),
            _ => None,
        }
    }

    /// The axis's name.
    pub fn to_string(axis: Axis) -> (r: Option<&'static str>)
        ensures
            r matches Some(s) && s@ == match axis {
                Axis::Y => "y"@,
                Axis::Z => "z"@,
                Axis::X => "x"@,
            },
    {
        match axis {
            Axis::Y => Some("y"),
            Axis::Z => Some("z"),
            Axis::X => Some("x"),
        }
    }
}

} // verus!
