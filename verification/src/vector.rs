//! Planar vectors: stored ones with fixed-point coordinates, and exact ones
//! for sums that may leave the stored range.

use vstd::prelude::*;

verus! {

/// A point or a velocity, each coordinate a fixed-point number.
#[derive(Clone, Copy, Debug, PartialEq, Eq, Structural)]
pub struct Vec2 {
    pub x: i64,
    pub y: i64,
}

/// A vector with unbounded integer coordinates.
pub struct Vector {
    pub x: int,
    pub y: int,
}

impl Vector {
    /// The vector of no length.
    pub open spec fn zero() -> Vector {
        Vector { x: 0, y: 0 }
    }

    /// The sum of two vectors.
    pub open spec fn plus(self, other: Vector) -> Vector {
        Vector { x: self.x + other.x, y: self.y + other.y }
    }

    /// Both coordinates lie within `[-bound, bound]`.
    pub open spec fn within(self, bound: int) -> bool {
        -bound <= self.x <= bound && -bound <= self.y <= bound
    }
}

impl Vec2 {
    /// The same vector with unbounded coordinates.
    pub open spec fn exact(self) -> Vector {
        Vector { x: self.x as int, y: self.y as int }
    }

    /// Both coordinates lie within `[-bound, bound]`.
    pub open spec fn within(self, bound: int) -> bool {
        -bound <= self.x <= bound && -bound <= self.y <= bound
    }

    /// The vector of the given coordinates.
    pub fn new(x: i64, y: i64) -> (v: Vec2)
        ensures
            v == (Vec2 { x, y }),
    {
        Vec2 { x, y }
    }
}

/// Squared Euclidean length of `(x, y)`.
pub open spec fn norm_sq(x: int, y: int) -> int {
    x * x + y * y
}

/// Squared distance between two points.
pub open spec fn dist_sq(p: Vec2, q: Vec2) -> int {
    norm_sq(p.x - q.x, p.y - q.y)
}

/// Bound on a product from bounds on the magnitudes of its factors.
pub proof fn lemma_product_bound(a: int, a_max: int, b: int, b_max: int)
    by (nonlinear_arith)
    requires
        -a_max <= a <= a_max,
        -b_max <= b <= b_max,
    ensures
        -(a_max * b_max) <= a * b <= a_max * b_max,
{
}

/// Squared distance of two points of the world.
pub fn distance_squared(p: Vec2, q: Vec2) -> (d: i128)
    requires
        p.within(0x1_0000_0000),
        q.within(0x1_0000_0000),
    ensures
        d == dist_sq(p, q),
        0 <= d <= 0x8_0000_0000_0000_0000,
{
    let dx: i128 = p.x as i128 - q.x as i128;
    let dy: i128 = p.y as i128 - q.y as i128;
    proof {
        lemma_product_bound(dx as int, 0x2_0000_0000, dx as int, 0x2_0000_0000);
        lemma_product_bound(dy as int, 0x2_0000_0000, dy as int, 0x2_0000_0000);
        assert(dx * dx >= 0) by (nonlinear_arith);
        assert(dy * dy >= 0) by (nonlinear_arith);
    }
    dx * dx + dy * dy
}

} // verus!
