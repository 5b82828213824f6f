//! An integer board position or offset.

use vstd::prelude::*;

verus! {

/// A signed 2D point, used both as a board position and as a heading.
#[derive(Clone, Copy, Debug, PartialEq, Eq, Structural)]
pub struct Coord {
    pub x: i32,
    pub y: i32,
}

impl Coord {
    /// Build a coordinate from its two components.
    pub fn new(x: i32, y: i32) -> (c: Coord)
        ensures
            c == (Coord { x, y }),
    {
        Coord { x, y }
    }

    /// Component-wise sum of two coordinates.
    pub fn add(self, rhs: Coord) -> (c: Coord)
        requires
            i32::MIN <= self.x + rhs.x <= i32::MAX,
            i32::MIN <= self.y + rhs.y <= i32::MAX,
        ensures
            c.x == self.x + rhs.x,
            c.y == self.y + rhs.y,
    {
        Coord { x: self.x + rhs.x, y: self.y + rhs.y }
    }
}

impl From<(i32, i32)> for Coord {
    /// Turn an `(x, y)` pair into a coordinate.
    fn from(pair: (i32, i32)) -> (c: Coord)
        ensures
            c == (Coord { x: pair.0, y: pair.1 }),
    {
        Coord { x: pair.0, y: pair.1 }
    }
}

impl vstd::std_specs::convert::FromSpecImpl<(i32, i32)> for Coord {
    open spec fn obeys_from_spec() -> bool {
        true
    }

    open spec fn from_spec(pair: (i32, i32)) -> Coord {
        Coord { x: pair.0, y: pair.1 }
    }
}

} // verus!
