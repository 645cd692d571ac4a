//! Plane vectors: the mathematical `Vector` that contracts speak of, and
//! the machine `Vec2` that stands for it at run time.

use vstd::prelude::*;
use crate::fixed::saturate;

verus! {

/// A vector of the plane with integer components.
pub struct Vector {
    pub x: int,
    pub y: int,
}

impl Vector {
    /// Component-wise sum.
    pub open spec fn plus(self, other: Vector) -> Vector {
        Vector { x: self.x + other.x, y: self.y + other.y }
    }

    /// Component-wise difference.
    pub open spec fn minus(self, other: Vector) -> Vector {
        Vector { x: self.x - other.x, y: self.y - other.y }
    }

    /// Each component multiplied by `k`.
    pub open spec fn scaled(self, k: int) -> Vector {
        Vector { x: k * self.x, y: k * self.y }
    }

    /// Inner product.
    pub open spec fn dot(self, other: Vector) -> int {
        self.x * other.x + self.y * other.y
    }

    /// The planar cross product: zero exactly for parallel vectors.
    pub open spec fn cross(self, other: Vector) -> int {
        self.x * other.y - self.y * other.x
    }

    /// The sum of the magnitudes of the two components.
    pub open spec fn taxicab(self) -> int {
        (if self.x < 0 { -self.x } else { self.x }) + (if self.y < 0 { -self.y } else { self.y })
    }

    /// Each component held inside `[-limit, limit]`.
    pub open spec fn saturated(self, limit: int) -> Vector {
        Vector { x: saturate(self.x, limit), y: saturate(self.y, limit) }
    }

    /// Both components lie in `[-limit, limit]`.
    pub open spec fn within(self, limit: int) -> bool {
        &&& -limit <= self.x <= limit
        &&& -limit <= self.y <= limit
    }
}

/// A vector of the plane with machine-integer components.
#[derive(Clone, Copy, Debug, PartialEq, Eq, Structural)]
pub struct Vec2 {
    pub x: i64,
    pub y: i64,
}

impl View for Vec2 {
    type V = Vector;

    open spec fn view(&self) -> Vector {
        Vector { x: self.x as int, y: self.y as int }
    }
}

/// Builds a vector from its components.
pub fn vec2(x: i64, y: i64) -> (v: Vec2)
    ensures
        v.x == x,
        v.y == y,
{
    Vec2 { x, y }
}

} // verus!
