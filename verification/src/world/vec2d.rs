//! An integer 2D vector with component-wise addition.

use vstd::prelude::*;

verus! {

/// A signed 2D vector.
#[derive(Clone, Copy, Debug, PartialEq, Eq, Structural)]
pub struct Vec2D {
    pub x: i32,
    pub y: i32,
}

impl Vec2D {
    /// Build a vector from its two components.
    pub fn new(x: i32, y: i32) -> (v: Vec2D)
        ensures
            v == (Vec2D { x, y }),
    {
        Vec2D { x, y }
    }

    /// Component-wise sum of two vectors.
    pub fn add(self, rhs: Vec2D) -> (v: Vec2D)
        requires
            i32::MIN <= self.x + rhs.x <= i32::MAX,
            i32::MIN <= self.y + rhs.y <= i32::MAX,
        ensures
            v.x == self.x + rhs.x,
            v.y == self.y + rhs.y,
    {
        Vec2D { x: self.x + rhs.x, y: self.y + rhs.y }
    }
}

impl From<(i32, i32)> for Vec2D {
    /// Turn an `(x, y)` pair into a vector.
    fn from(pair: (i32, i32)) -> (v: Vec2D)
        ensures
            v == (Vec2D { x: pair.0, y: pair.1 }),
    {
        Vec2D { x: pair.0, y: pair.1 }
    }
}

impl vstd::std_specs::convert::FromSpecImpl<(i32, i32)> for Vec2D {
    open spec fn obeys_from_spec() -> bool {
        true
    }

    open spec fn from_spec(pair: (i32, i32)) -> Vec2D {
        Vec2D { x: pair.0, y: pair.1 }
    }
}

} // verus!
