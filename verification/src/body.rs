//! Bodies: discs with a position, a velocity, a mass and the radius that
//! follows from the mass.

use vstd::prelude::*;
use crate::fixed::{
    cbrt_floor, icbrt, is_cbrt_floor, is_sqrt_floor, isqrt, lemma_cube_monotonic,
    lemma_trunc_div_between, sqrt_floor, trunc_div, OutOfRange, G_DEN, MASS_MAX, POS_MAX,
    SPEED_MAX, TIME_MAX, UNIT,
};
use crate::vector::{dist_sq, distance_squared, lemma_product_bound, Vec2, Vector};

verus! {

/// Smallest radius of a body: that of mass 1.
pub const RADIUS_MIN: i64 = 10_321;

/// Largest radius of a body: that of mass `MASS_MAX`.
pub const RADIUS_MAX: i64 = 16_777_216;

/// Largest magnitude of one pull: `UNIT * TIME_MAX * MASS_MAX`.
pub const PULL_MAX: i128 = 0x10_0000_0000_0000_0000_0000;

/// A disc of the plane: where it is, how it moves, what it weighs, and its
/// radius, which is the cube root of its mass.
#[derive(Clone, Copy, Debug, PartialEq, Eq, Structural)]
pub struct Body {
    pub pos: Vec2,
    pub speed: Vec2,
    pub mass: i64,
    pub radius: i64,
}

/// The radius of a body of the given mass: the cube root of the mass.
pub open spec fn radius_of(mass: int) -> int {
    cbrt_floor(mass * UNIT * UNIT)
}

/// Mean of `x1` and `x2` weighted by `m1` and `m2`, rounded toward zero.
pub open spec fn weighted_mean(m1: int, x1: int, m2: int, x2: int) -> int {
    trunc_div(m1 * x1 + m2 * x2, m1 + m2)
}

/// The body that two colliding bodies merge into: it has their joint mass,
/// sits at their centre of mass and moves with their joint momentum.
pub open spec fn merged(a: Body, b: Body) -> Body {
    Body {
        pos: Vec2 {
            x: weighted_mean(a.mass as int, a.pos.x as int, b.mass as int, b.pos.x as int) as i64,
            y: weighted_mean(a.mass as int, a.pos.y as int, b.mass as int, b.pos.y as int) as i64,
        },
        speed: Vec2 {
            x: weighted_mean(a.mass as int, a.speed.x as int, b.mass as int, b.speed.x as int) as i64,
            y: weighted_mean(a.mass as int, a.speed.y as int, b.mass as int, b.speed.y as int) as i64,
        },
        mass: (a.mass + b.mass) as i64,
        radius: radius_of(a.mass + b.mass) as i64,
    }
}

/// One coordinate of the velocity that a point mass at offset `(rx, ry)`
/// imparts during `dt`: `dt * G * mass * r / |r|^3`, rounded toward zero.
pub open spec fn pull_along(r: int, n2: int, mass: int, dt: int) -> int {
    trunc_div(UNIT * dt * mass * r, G_DEN * n2 * sqrt_floor(n2))
}

/// The velocity that a point mass `mass` at `to` imparts on a body at `from`
/// during `dt`. Coincident points exert nothing on each other.
pub open spec fn pull(from: Vec2, to: Vec2, mass: int, dt: int) -> Vector {
    let n2 = dist_sq(to, from);
    if n2 == 0 {
        Vector::zero()
    } else {
        Vector {
            x: pull_along(to.x - from.x, n2, mass, dt),
            y: pull_along(to.y - from.y, n2, mass, dt),
        }
    }
}

impl Body {
    /// Every field is in its range and the radius is that of the mass.
    pub open spec fn wf(self) -> bool {
        &&& self.pos.within(POS_MAX as int)
        &&& self.speed.within(SPEED_MAX as int)
        &&& 1 <= self.mass <= MASS_MAX
        &&& self.radius == radius_of(self.mass as int)
    }

    /// The body as it is after moving at its velocity for `t`.
    pub open spec fn moved(self, t: int) -> Body {
        Body {
            pos: Vec2 {
                x: (self.pos.x + trunc_div(self.speed.x * t, UNIT as int)) as i64,
                y: (self.pos.y + trunc_div(self.speed.y * t, UNIT as int)) as i64,
            },
            ..self
        }
    }

    /// Moving for `t` keeps the body inside the world.
    pub open spec fn can_move(self, t: int) -> bool {
        &&& -POS_MAX <= self.pos.x + trunc_div(self.speed.x * t, UNIT as int) <= POS_MAX
        &&& -POS_MAX <= self.pos.y + trunc_div(self.speed.y * t, UNIT as int) <= POS_MAX
    }

    /// The body with `dv` added to its velocity.
    pub open spec fn pushed(self, dv: Vector) -> Body {
        Body {
            speed: Vec2 { x: (self.speed.x + dv.x) as i64, y: (self.speed.y + dv.y) as i64 },
            ..self
        }
    }

    /// Adding `dv` keeps the velocity representable.
    pub open spec fn can_push(self, dv: Vector) -> bool {
        self.speed.exact().plus(dv).within(SPEED_MAX as int)
    }

    /// The radius of a body of the given mass.
    pub fn get_radius(mass: i64) -> (r: i64)
        requires
            0 <= mass <= MASS_MAX,
        ensures
            r == radius_of(mass as int),
            0 <= r <= RADIUS_MAX,
            mass >= 1 ==> r >= RADIUS_MIN,
    {
        proof {
            lemma_radius_bounds(mass as int);
            assert(mass * UNIT * UNIT <= 0x1_0000_0000 * 0x1_0000_0000_00) by (nonlinear_arith)
                requires
                    0 <= mass <= 0x1_0000_0000,
                    UNIT == 0x10_0000,
            ;
            assert(mass * UNIT * UNIT >= 0) by (nonlinear_arith)
                requires
                    0 <= mass,
                    UNIT == 0x10_0000,
            ;
            assert(mass * UNIT == mass * 0x10_0000);
        }
        let scaled: u128 = (mass as u128) * (UNIT as u128) * (UNIT as u128);
        let r: u128 = icbrt(scaled);
        r as i64
    }

    /// Adds to the velocity what a point mass `mass` at `pos` imparts during
    /// `dt`, unless the sum is not representable.
    pub fn adjust_speed(&mut self, pos: Vec2, mass: i64, dt: i64) -> (r: Result<(), OutOfRange>)
        requires
            old(self).wf(),
            pos.within(POS_MAX as int),
            0 <= mass <= MASS_MAX,
            0 <= dt <= TIME_MAX,
        ensures
            r is Ok <==> old(self).can_push(pull(old(self).pos, pos, mass as int, dt as int)),
            r is Ok ==> *final(self) == old(self).pushed(
                pull(old(self).pos, pos, mass as int, dt as int),
            ),
            r is Err ==> *final(self) == *old(self),
            final(self).wf(),
    {
        let a: (i128, i128) = pull_of(self.pos, pos, mass, dt);
        match self.try_push(a.0, a.1) {
            Some(b) => {
                *self = b;
                Ok(())
            },
            None => Err(OutOfRange),
        }
    }

    /// The body with `(dvx, dvy)` added to its velocity, if that is representable.
    pub fn try_push(&self, dvx: i128, dvy: i128) -> (r: Option<Body>)
        requires
            self.wf(),
            -0x100_0000_0000_0000_0000_0000_0000_0000 <= dvx <= 0x100_0000_0000_0000_0000_0000_0000_0000,
            -0x100_0000_0000_0000_0000_0000_0000_0000 <= dvy <= 0x100_0000_0000_0000_0000_0000_0000_0000,
        ensures
            r is Some <==> self.can_push(Vector { x: dvx as int, y: dvy as int }),
            r matches Some(b) ==> b == self.pushed(Vector { x: dvx as int, y: dvy as int })
                && b.wf(),
    {
        let vx: i128 = self.speed.x as i128 + dvx;
        let vy: i128 = self.speed.y as i128 + dvy;
        let lim: i128 = SPEED_MAX as i128;
        if vx < -lim || vx > lim || vy < -lim || vy > lim {
            None
        } else {
            Some(Body { speed: Vec2 { x: vx as i64, y: vy as i64 }, ..*self })
        }
    }

    /// The body after moving at its velocity for `t`, if it stays inside the world.
    pub fn try_move(&self, t: i64) -> (r: Option<Body>)
        requires
            self.wf(),
            -TIME_MAX <= t <= TIME_MAX,
        ensures
            r is Some <==> self.can_move(t as int),
            r matches Some(b) ==> b == self.moved(t as int) && b.wf(),
    {
        proof {
            lemma_product_bound(self.speed.x as int, 0x100_0000, t as int, 0x1_0000_0000);
            lemma_product_bound(self.speed.y as int, 0x100_0000, t as int, 0x1_0000_0000);
            lemma_trunc_div_between(self.speed.x * t, UNIT as int, -0x100_0000_0000_0000,
                0x100_0000_0000_0000);
            lemma_trunc_div_between(self.speed.y * t, UNIT as int, -0x100_0000_0000_0000,
                0x100_0000_0000_0000);
        }
        let x: i128 = self.pos.x as i128 + (self.speed.x as i128) * (t as i128) / (UNIT as i128);
        let y: i128 = self.pos.y as i128 + (self.speed.y as i128) * (t as i128) / (UNIT as i128);
        let lim: i128 = POS_MAX as i128;
        if x < -lim || x > lim || y < -lim || y > lim {
            None
        } else {
            Some(Body { pos: Vec2 { x: x as i64, y: y as i64 }, ..*self })
        }
    }

    /// The body that `a` and `b` merge into.
    pub fn merge(a: &Body, b: &Body) -> (c: Body)
        requires
            a.wf(),
            b.wf(),
            a.mass + b.mass <= MASS_MAX,
        ensures
            c == merged(*a, *b),
            c.wf(),
    {
        let mass: i64 = a.mass + b.mass;
        Body {
            pos: Vec2 {
                x: mean_of(a.mass, a.pos.x, b.mass, b.pos.x),
                y: mean_of(a.mass, a.pos.y, b.mass, b.pos.y),
            },
            speed: Vec2 {
                x: mean_of(a.mass, a.speed.x, b.mass, b.speed.x),
                y: mean_of(a.mass, a.speed.y, b.mass, b.speed.y),
            },
            mass,
            radius: Body::get_radius(mass),
        }
    }

    /// Whether every field is in its range and the radius is that of the mass.
    pub fn valid(&self) -> (r: bool)
        ensures
            r == self.wf(),
    {
        -POS_MAX <= self.pos.x && self.pos.x <= POS_MAX && -POS_MAX <= self.pos.y && self.pos.y
            <= POS_MAX && -SPEED_MAX <= self.speed.x && self.speed.x <= SPEED_MAX && -SPEED_MAX
            <= self.speed.y && self.speed.y <= SPEED_MAX && 1 <= self.mass && self.mass <= MASS_MAX
            && self.radius == Body::get_radius(self.mass)
    }

    /// A body of the given position, velocity and mass, if they are in range.
    pub fn new(pos: Vec2, speed: Vec2, mass: i64) -> (b: Option<Body>)
        ensures
            b is Some <==> pos.within(POS_MAX as int) && speed.within(SPEED_MAX as int) && 1
                <= mass <= MASS_MAX,
            b matches Some(body) ==> body.wf() && body.pos == pos && body.speed == speed
                && body.mass == mass,
    {
        if pos.x < -POS_MAX || pos.x > POS_MAX || pos.y < -POS_MAX || pos.y > POS_MAX {
            return None;
        }
        if speed.x < -SPEED_MAX || speed.x > SPEED_MAX || speed.y < -SPEED_MAX || speed.y
            > SPEED_MAX {
            return None;
        }
        if mass < 1 || mass > MASS_MAX {
            return None;
        }
        Some(Body { pos, speed, mass, radius: Body::get_radius(mass) })
    }
}

/// The velocity that a point mass `mass` at `to` imparts on a body at `from`
/// during `dt`, one coordinate after the other.
pub fn pull_of(from: Vec2, to: Vec2, mass: i64, dt: i64) -> (a: (i128, i128))
    requires
        from.within(POS_MAX as int),
        to.within(POS_MAX as int),
        0 <= mass <= MASS_MAX,
        0 <= dt <= TIME_MAX,
    ensures
        a.0 == pull(from, to, mass as int, dt as int).x,
        a.1 == pull(from, to, mass as int, dt as int).y,
        -(UNIT * dt * mass) <= a.0 <= UNIT * dt * mass,
        -(UNIT * dt * mass) <= a.1 <= UNIT * dt * mass,
        UNIT * dt * mass <= PULL_MAX,
{
    let n2: i128 = distance_squared(to, from);
    proof {
        lemma_product_bound(UNIT as int, 0x10_0000, dt as int, 0x1_0000_0000);
        assert(UNIT * dt >= 0) by (nonlinear_arith)
            requires
                UNIT >= 0,
                dt >= 0,
        ;
    }
    let k: i128 = (UNIT as i128) * (dt as i128);
    proof {
        lemma_product_bound(k as int, 0x10_0000_0000_0000, mass as int, 0x1_0000_0000);
        assert(k * mass >= 0) by (nonlinear_arith)
            requires
                k >= 0,
                mass >= 0,
        ;
    }
    let k: i128 = k * (mass as i128);
    assert(k == UNIT * dt * mass);
    if n2 == 0 {
        return (0, 0);
    }
    let n: u128 = isqrt(n2 as u128);
    proof {
        if n >= 0x4_0000_0000 {
            crate::fixed::lemma_square_monotonic(0x4_0000_0000, n as int);
        }
        assert(n >= 1) by {
            if n == 0 {
                assert((n + 1) * (n + 1) == 1) by (nonlinear_arith)
                    requires
                        n == 0,
                ;
            }
        }
        lemma_product_bound(G_DEN as int, 20, n2 as int, 0x8_0000_0000_0000_0000);
        lemma_product_bound(G_DEN * n2, 0xa0_0000_0000_0000_0000, n as int, 0x4_0000_0000);
        assert(G_DEN * n2 * n > 0) by (nonlinear_arith)
            requires
                G_DEN > 0,
                n2 > 0,
                n >= 1,
        ;
    }
    let n: i128 = n as i128;
    let den: i128 = (G_DEN as i128) * n2 * n;
    assert(den == G_DEN * n2 * sqrt_floor(n2 as int));
    let rx: i128 = to.x as i128 - from.x as i128;
    let ry: i128 = to.y as i128 - from.y as i128;
    proof {
        lemma_product_bound(k as int, 0x10_0000_0000_0000_0000_0000, rx as int,
            0x2_0000_0000);
        lemma_product_bound(k as int, 0x10_0000_0000_0000_0000_0000, ry as int,
            0x2_0000_0000);
        lemma_coordinate_below_cube(rx as int, ry as int, n as int);
        lemma_coordinate_below_cube(ry as int, rx as int, n as int);
        assert(dist_sq(to, from) == rx * rx + ry * ry);
        assert(ry * ry + rx * rx == n2);
        lemma_scaled_quotient_bound(k as int, rx as int, den as int);
        lemma_scaled_quotient_bound(k as int, ry as int, den as int);
    }
    (k * rx / den, k * ry / den)
}

/// A coordinate of a nonzero offset is no longer than 20 times the cube of its length.
pub proof fn lemma_coordinate_below_cube(rx: int, ry: int, n: int)
    by (nonlinear_arith)
    requires
        is_sqrt_floor(rx * rx + ry * ry, n),
        n >= 1,
    ensures
        -(G_DEN * (rx * rx + ry * ry) * n) <= rx <= G_DEN * (rx * rx + ry * ry) * n,
{
    assert(rx * rx >= rx && rx * rx >= -rx);
    assert(ry * ry >= 0);
    assert((rx * rx + ry * ry) * n >= rx * rx + ry * ry);
    assert(G_DEN * (rx * rx + ry * ry) * n == 20 * ((rx * rx + ry * ry) * n));
}

/// If `r` is at most `den` in magnitude, `k * r / den` is at most `k`.
pub proof fn lemma_scaled_quotient_bound(k: int, r: int, den: int)
    requires
        k >= 0,
        den > 0,
        -den <= r <= den,
    ensures
        -k <= trunc_div(k * r, den) <= k,
{
    if r >= 0 {
        assert(0 <= k * r <= k * den) by (nonlinear_arith)
            requires
                k >= 0,
                0 <= r <= den,
        ;
        vstd::arithmetic::div_mod::lemma_div_is_ordered(k * r, k * den, den);
        vstd::arithmetic::div_mod::lemma_div_multiples_vanish(k, den);
        vstd::arithmetic::div_mod::lemma_div_pos_is_pos(k * r, den);
        assert(k * den == den * k) by (nonlinear_arith);
    } else {
        assert(k * r <= 0 && 0 <= -(k * r) <= k * den) by (nonlinear_arith)
            requires
                k >= 0,
                -den <= r < 0,
        ;
        vstd::arithmetic::div_mod::lemma_div_is_ordered(-(k * r), k * den, den);
        vstd::arithmetic::div_mod::lemma_div_multiples_vanish(k, den);
        vstd::arithmetic::div_mod::lemma_div_pos_is_pos(-(k * r), den);
        assert(k * den == den * k) by (nonlinear_arith);
    }
}

/// Mean of `x1` and `x2` weighted by the masses `m1` and `m2`.
pub fn mean_of(m1: i64, x1: i64, m2: i64, x2: i64) -> (r: i64)
    requires
        1 <= m1,
        1 <= m2,
        m1 + m2 <= MASS_MAX,
        -POS_MAX <= x1 <= POS_MAX,
        -POS_MAX <= x2 <= POS_MAX,
    ensures
        r == weighted_mean(m1 as int, x1 as int, m2 as int, x2 as int),
        x1 <= x2 ==> x1 <= r <= x2,
        x2 <= x1 ==> x2 <= r <= x1,
{
    proof {
        lemma_product_bound(m1 as int, 0x1_0000_0000, x1 as int, 0x1_0000_0000);
        lemma_product_bound(m2 as int, 0x1_0000_0000, x2 as int, 0x1_0000_0000);
        lemma_weighted_mean_between(m1 as int, x1 as int, m2 as int, x2 as int);
    }
    let num: i128 = (m1 as i128) * (x1 as i128) + (m2 as i128) * (x2 as i128);
    let den: i128 = m1 as i128 + m2 as i128;
    (num / den) as i64
}

/// A weighted mean lies between the two values.
pub proof fn lemma_weighted_mean_between(m1: int, x1: int, m2: int, x2: int)
    requires
        1 <= m1,
        1 <= m2,
    ensures
        x1 <= x2 ==> x1 <= weighted_mean(m1, x1, m2, x2) <= x2,
        x2 <= x1 ==> x2 <= weighted_mean(m1, x1, m2, x2) <= x1,
{
    let n = m1 * x1 + m2 * x2;
    let d = m1 + m2;
    if x1 <= x2 {
        assert(d * x1 <= n <= d * x2) by (nonlinear_arith)
            requires
                n == m1 * x1 + m2 * x2,
                d == m1 + m2,
                1 <= m1,
                1 <= m2,
                x1 <= x2,
        ;
        lemma_trunc_div_between(n, d, x1, x2);
    }
    if x2 <= x1 {
        assert(d * x2 <= n <= d * x1) by (nonlinear_arith)
            requires
                n == m1 * x1 + m2 * x2,
                d == m1 + m2,
                1 <= m1,
                1 <= m2,
                x2 <= x1,
        ;
        lemma_trunc_div_between(n, d, x2, x1);
    }
}

/// The product of a merge is well formed when the joint mass is representable.
pub proof fn lemma_merged_wf(a: Body, b: Body)
    requires
        a.wf(),
        b.wf(),
        a.mass + b.mass <= MASS_MAX,
    ensures
        merged(a, b).wf(),
        merged(a, b).mass == a.mass + b.mass,
{
    lemma_weighted_mean_between(a.mass as int, a.pos.x as int, b.mass as int, b.pos.x as int);
    lemma_weighted_mean_between(a.mass as int, a.pos.y as int, b.mass as int, b.pos.y as int);
    lemma_weighted_mean_between(a.mass as int, a.speed.x as int, b.mass as int, b.speed.x as int);
    lemma_weighted_mean_between(a.mass as int, a.speed.y as int, b.mass as int, b.speed.y as int);
    lemma_radius_bounds(a.mass + b.mass);
}

/// The radius of a representable mass lies between `RADIUS_MIN` and `RADIUS_MAX`.
pub proof fn lemma_radius_bounds(mass: int)
    requires
        0 <= mass <= MASS_MAX,
    ensures
        0 <= radius_of(mass) <= RADIUS_MAX,
        mass >= 1 ==> radius_of(mass) >= RADIUS_MIN,
        is_cbrt_floor(mass * UNIT * UNIT, radius_of(mass)),
{
    let x = mass * UNIT * UNIT;
    assert(0 <= x <= 0x1_0000_0000 * 0x1_0000_0000_00) by (nonlinear_arith)
        requires
            0 <= mass <= 0x1_0000_0000,
            x == mass * 0x10_0000 * 0x10_0000,
    ;
    // a witness for the choice: the cube root exists
    lemma_cbrt_exists(x);
    let r = radius_of(mass);
    assert(is_cbrt_floor(x, r));
    if r > RADIUS_MAX {
        lemma_cube_monotonic(RADIUS_MAX + 1, r);
        assert((RADIUS_MAX + 1) * (RADIUS_MAX + 1) * (RADIUS_MAX + 1) > 0x1_0000_0000
            * 0x1_0000_0000_00) by (nonlinear_arith)
            requires
                RADIUS_MAX == 0x100_0000,
        ;
    }
    if mass >= 1 && r < RADIUS_MIN {
        lemma_cube_monotonic(r + 1, RADIUS_MIN as int);
        assert(RADIUS_MIN * RADIUS_MIN * RADIUS_MIN <= 0x1_0000_0000_00) by (nonlinear_arith)
            requires
                RADIUS_MIN == 10_321,
        ;
        assert(x >= 0x1_0000_0000_00) by (nonlinear_arith)
            requires
                mass >= 1,
                x == mass * 0x10_0000 * 0x10_0000,
        ;
    }
}

/// Every natural number has an integer cube root.
pub proof fn lemma_cbrt_exists(x: int)
    requires
        x >= 0,
    ensures
        exists|r: int| is_cbrt_floor(x, r),
    decreases x,
{
    if x == 0 {
        assert(is_cbrt_floor(0, 0));
    } else {
        lemma_cbrt_exists(x - 1);
        let r = cbrt_floor(x - 1);
        if (r + 1) * (r + 1) * (r + 1) <= x {
            assert((r + 2) * (r + 2) * (r + 2) > (r + 1) * (r + 1) * (r + 1)) by (nonlinear_arith)
                requires
                    r >= 0,
            ;
            assert(is_cbrt_floor(x, r + 1));
        } else {
            assert(is_cbrt_floor(x, r));
        }
    }
}

} // verus!
