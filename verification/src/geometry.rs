//! Axis-aligned boxes and the bounding rectangle of a store.

use vstd::prelude::*;
use crate::body::{lemma_radius_bounds, Body, RADIUS_MAX, RADIUS_MIN};
use crate::fixed::POS_MAX;
use crate::store::{all_wf, BodyStore};
use crate::vector::Vec2;

verus! {

/// The points `p` with `top_left <= p < bottom_right`, coordinate by coordinate.
#[derive(Clone, Copy, Debug, PartialEq, Eq, Structural)]
pub struct Rectangle {
    pub top_left: Vec2,
    pub bottom_right: Vec2,
}

impl Rectangle {
    /// The rectangle holds `pos`.
    pub open spec fn holds(self, pos: Vec2) -> bool {
        &&& self.top_left.x <= pos.x < self.bottom_right.x
        &&& self.top_left.y <= pos.y < self.bottom_right.y
    }

    /// The extent along x.
    pub open spec fn width(self) -> int {
        self.bottom_right.x - self.top_left.x
    }

    /// The extent along y.
    pub open spec fn height(self) -> int {
        self.bottom_right.y - self.top_left.y
    }

    /// Whether `pos` lies in the rectangle.
    pub fn contains(&self, pos: Vec2) -> (r: bool)
        ensures
            r == self.holds(pos),
    {
        self.top_left.x <= pos.x && pos.x < self.bottom_right.x && self.top_left.y <= pos.y
            && pos.y < self.bottom_right.y
    }
}

/// The least rectangle that holds the disc of the one body `b`: from its
/// position less its radius to its position plus its radius.
pub open spec fn box_of(b: Body) -> Rectangle {
    Rectangle {
        top_left: Vec2 { x: (b.pos.x - b.radius) as i64, y: (b.pos.y - b.radius) as i64 },
        bottom_right: Vec2 { x: (b.pos.x + b.radius) as i64, y: (b.pos.y + b.radius) as i64 },
    }
}

/// The least rectangle that holds both `r` and `s`.
pub open spec fn hull(r: Rectangle, s: Rectangle) -> Rectangle {
    Rectangle {
        top_left: Vec2 {
            x: if r.top_left.x <= s.top_left.x {
                r.top_left.x
            } else {
                s.top_left.x
            },
            y: if r.top_left.y <= s.top_left.y {
                r.top_left.y
            } else {
                s.top_left.y
            },
        },
        bottom_right: Vec2 {
            x: if r.bottom_right.x >= s.bottom_right.x {
                r.bottom_right.x
            } else {
                s.bottom_right.x
            },
            y: if r.bottom_right.y >= s.bottom_right.y {
                r.bottom_right.y
            } else {
                s.bottom_right.y
            },
        },
    }
}

/// The bounding rectangle of the first `n >= 1` bodies, the least rectangle
/// that holds all their discs: from the least position less radius to the
/// greatest position plus radius, along each axis.
pub open spec fn bounds_upto(bodies: Seq<Body>, n: int) -> Rectangle
    decreases n,
{
    if n <= 1 {
        box_of(bodies[0])
    } else {
        hull(bounds_upto(bodies, n - 1), box_of(bodies[n - 1]))
    }
}

/// The bounding rectangle of a non-empty sequence of bodies.
pub open spec fn bounds(bodies: Seq<Body>) -> Rectangle {
    bounds_upto(bodies, bodies.len() as int)
}

/// The bounding rectangle holds the disc of every body, lies inside the
/// world grown by one radius on each side, and is at least one diameter wide
/// and high.
pub proof fn lemma_bounds(bodies: Seq<Body>, n: int)
    requires
        all_wf(bodies),
        1 <= n <= bodies.len(),
    ensures
        forall|k: int| 0 <= k < n ==> bounds_upto(bodies, n).holds((#[trigger] bodies[k]).pos),
        forall|k: int|
            0 <= k < n ==> bounds_upto(bodies, n).top_left.x <= (#[trigger] bodies[k]).pos.x
                - bodies[k].radius && bodies[k].pos.x + bodies[k].radius <= bounds_upto(
                bodies,
                n,
            ).bottom_right.x && bounds_upto(bodies, n).top_left.y <= bodies[k].pos.y
                - bodies[k].radius && bodies[k].pos.y + bodies[k].radius <= bounds_upto(
                bodies,
                n,
            ).bottom_right.y,
        bounds_upto(bodies, n).top_left.within(POS_MAX + RADIUS_MAX),
        bounds_upto(bodies, n).bottom_right.within(POS_MAX + RADIUS_MAX),
        bounds_upto(bodies, n).width() >= 2 * RADIUS_MIN,
        bounds_upto(bodies, n).height() >= 2 * RADIUS_MIN,
    decreases n,
{
    let b = bodies[n - 1];
    assert(b.wf());
    lemma_radius_bounds(b.mass as int);
    if n > 1 {
        lemma_bounds(bodies, n - 1);
        let r = bounds_upto(bodies, n - 1);
        assert forall|k: int| 0 <= k < n implies bounds_upto(bodies, n).holds(
            (#[trigger] bodies[k]).pos,
        ) by {
            if k < n - 1 {
                assert(r.holds(bodies[k].pos));
            }
        }
        assert forall|k: int| 0 <= k < n implies bounds_upto(bodies, n).top_left.x <= (
        #[trigger] bodies[k]).pos.x - bodies[k].radius && bodies[k].pos.x + bodies[k].radius
            <= bounds_upto(bodies, n).bottom_right.x && bounds_upto(bodies, n).top_left.y
            <= bodies[k].pos.y - bodies[k].radius && bodies[k].pos.y + bodies[k].radius
            <= bounds_upto(bodies, n).bottom_right.y by {
            if k < n - 1 {
                assert(r.holds(bodies[k].pos));
            }
        }
    } else {
        assert(bodies[0].wf());
    }
}

/// The bounding rectangle of the bodies, the least rectangle that holds all
/// their discs, or `None` for an empty store.
pub fn get_rectangle(bodies: &BodyStore) -> (r: Option<Rectangle>)
    requires
        bodies.wf(),
    ensures
        r is None <==> bodies@.bodies.len() == 0,
        r matches Some(rect) ==> rect == bounds(bodies@.bodies),
{
    let n: usize = bodies.len();
    if n == 0 {
        return None;
    }
    let first: Body = bodies.body(0);
    proof {
        assert(first.wf());
        lemma_radius_bounds(first.mass as int);
    }
    let mut rect: Rectangle = Rectangle {
        top_left: Vec2 { x: first.pos.x - first.radius, y: first.pos.y - first.radius },
        bottom_right: Vec2 { x: first.pos.x + first.radius, y: first.pos.y + first.radius },
    };
    let mut k: usize = 1;
    while k < n
        invariant
            1 <= k <= n,
            n == bodies@.bodies.len(),
            bodies.wf(),
            rect == bounds_upto(bodies@.bodies, k as int),
        decreases n - k,
    {
        let b: Body = bodies.body(k);
        proof {
            assert(b.wf());
            lemma_radius_bounds(b.mass as int);
        }
        if b.pos.x - b.radius < rect.top_left.x {
            rect.top_left.x = b.pos.x - b.radius;
        }
        if b.pos.y - b.radius < rect.top_left.y {
            rect.top_left.y = b.pos.y - b.radius;
        }
        if b.pos.x + b.radius > rect.bottom_right.x {
            rect.bottom_right.x = b.pos.x + b.radius;
        }
        if b.pos.y + b.radius > rect.bottom_right.y {
            rect.bottom_right.y = b.pos.y + b.radius;
        }
        k += 1;
    }
    Some(rect)
}

} // verus!
