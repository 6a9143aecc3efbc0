//! Why a tick leaves no overlap: bodies that do not collide within a span of
//! time are apart at its end, up to the rounding of their positions.

use vstd::prelude::*;
use crate::body::{lemma_radius_bounds, Body};
use crate::collision::{apart, contact_time, gap_poly, CONTACT_SLACK};
use crate::fixed::{lemma_trunc_div_error, sqrt_ceil, trunc_div, UNIT};

verus! {

/// Completing the square of the gap polynomial `f = a t^2 + b u t + c u^2`.
pub proof fn lemma_completed_square(a: int, b: int, c: int, t: int, u: int)
    ensures
        4 * a * (a * t * t + b * u * t + c * u * u) == (2 * a * t + b * u) * (2 * a * t + b * u)
            - u * u * (b * b - 4 * a * c),
{
    let p = a * t;
    let q = b * u;
    let f = a * t * t + b * u * t + c * u * u;
    assert(a * (a * t * t) == p * p) by (nonlinear_arith)
        requires
            p == a * t,
    ;
    assert(a * (b * u * t) == p * q) by (nonlinear_arith)
        requires
            p == a * t,
            q == b * u,
    ;
    assert(u * u * (b * b) == q * q) by (nonlinear_arith)
        requires
            q == b * u,
    ;
    assert(u * u * (4 * a * c) == 4 * (a * (c * u * u))) by (nonlinear_arith);
    assert(u * u * (b * b - 4 * a * c) == u * u * (b * b) - u * u * (4 * a * c))
        by (nonlinear_arith);
    assert(4 * a * f == 4 * (a * (a * t * t)) + 4 * (a * (b * u * t)) + 4 * (a * (c * u * u)))
        by (nonlinear_arith)
        requires
            f == a * t * t + b * u * t + c * u * u,
    ;
    assert(2 * a * t == 2 * p) by (nonlinear_arith)
        requires
            p == a * t,
    ;
    assert((2 * p + q) * (2 * p + q) == 4 * (p * p) + 4 * (p * q) + q * q) by (nonlinear_arith);
}

/// The square of a sum of two terms.
pub proof fn lemma_square_of_sum(x: int, y: int)
    by (nonlinear_arith)
    ensures
        (x + y) * (x + y) == x * x + 2 * (x * y) + y * y,
{
}

/// The gap polynomial at `t` is the squared distance at `t` less the squared
/// sum of the radii, all scaled by `u`.
pub proof fn lemma_gap_is_distance(dx: int, dy: int, wx: int, wy: int, r: int, t: int, u: int)
    ensures
        (u * dx + wx * t) * (u * dx + wx * t) + (u * dy + wy * t) * (u * dy + wy * t) - u * u * (r
            * r) == (wx * wx + wy * wy) * t * t + (2 * (dx * wx + dy * wy)) * u * t + (dx * dx
            + dy * dy - r * r) * u * u,
{
    lemma_square_of_sum(u * dx, wx * t);
    lemma_square_of_sum(u * dy, wy * t);
    assert((u * dx) * (u * dx) == (dx * dx) * u * u) by (nonlinear_arith);
    assert((u * dy) * (u * dy) == (dy * dy) * u * u) by (nonlinear_arith);
    assert((wx * t) * (wx * t) == (wx * wx) * t * t) by (nonlinear_arith);
    assert((wy * t) * (wy * t) == (wy * wy) * t * t) by (nonlinear_arith);
    assert((u * dx) * (wx * t) == (dx * wx) * u * t) by (nonlinear_arith);
    assert((u * dy) * (wy * t) == (dy * wy) * u * t) by (nonlinear_arith);
    assert((wx * wx + wy * wy) * t * t == (wx * wx) * t * t + (wy * wy) * t * t)
        by (nonlinear_arith);
    assert((2 * (dx * wx + dy * wy)) * u * t == 2 * ((dx * wx) * u * t) + 2 * ((dy * wy) * u * t))
        by (nonlinear_arith);
    assert((dx * dx + dy * dy - r * r) * u * u == (dx * dx) * u * u + (dy * dy) * u * u - u * u
        * (r * r)) by (nonlinear_arith);
}

/// A positive multiple of `f` is positive only if `f` is.
pub proof fn lemma_positive_factor(a: int, f: int)
    by (nonlinear_arith)
    requires
        a > 0,
        4 * a * f > 0,
    ensures
        f > 0,
{
}

/// A square below the square of a positive bound lies within the bound.
pub proof fn lemma_square_root_bound(z: int, m: int)
    by (nonlinear_arith)
    requires
        m >= 0,
        z * z < m * m,
    ensures
        -m < z < m,
{
}

/// The Cauchy-Schwarz inequality in the plane.
pub proof fn lemma_cauchy_schwarz(ax: int, ay: int, ex: int, ey: int)
    ensures
        (ax * ex + ay * ey) * (ax * ex + ay * ey) <= (ax * ax + ay * ay) * (ex * ex + ey * ey),
{
    let p = ax * ex;
    let q = ay * ey;
    let m = ax * ey;
    let n = ay * ex;
    lemma_square_of_sum(p, q);
    lemma_square_of_sum(m, -n);
    assert((m + (-n)) * (m + (-n)) >= 0) by (nonlinear_arith);
    assert(m * (-n) == -(p * q)) by (nonlinear_arith)
        requires
            p == ax * ex,
            q == ay * ey,
            m == ax * ey,
            n == ay * ex,
    ;
    assert((-n) * (-n) == n * n) by (nonlinear_arith);
    assert((ax * ax + ay * ay) * (ex * ex + ey * ey) == p * p + m * m + n * n + q * q)
        by (nonlinear_arith)
        requires
            p == ax * ex,
            q == ay * ey,
            m == ax * ey,
            n == ay * ex,
    {
        assert((ax * ax) * (ex * ex) == (ax * ex) * (ax * ex));
        assert((ax * ax) * (ey * ey) == (ax * ey) * (ax * ey));
        assert((ay * ay) * (ex * ex) == (ay * ex) * (ay * ex));
        assert((ay * ay) * (ey * ey) == (ay * ey) * (ay * ey));
        assert((ax * ax + ay * ay) * (ex * ex + ey * ey) == (ax * ax) * (ex * ex) + (ax * ax) * (
        ey * ey) + (ay * ay) * (ex * ex) + (ay * ay) * (ey * ey));
    }
}

/// Where the gap polynomial of two bodies has no root that begins a contact
/// within `[0, t]`, it is positive at `t`.
pub proof fn lemma_gap_positive(a: int, b: int, c: int, t: int, u: int, hit: Option<int>)
    requires
        a >= 0,
        u > 0,
        t >= 0,
        a == 0 ==> b == 0,
        hit == if a == 0 {
            if c <= 0 {
                Some(0int)
            } else {
                None
            }
        } else {
            let disc = b * b - 4 * a * c;
            if disc >= 0 && (b <= 0 || b * b <= disc) {
                Some((-(b + sqrt_ceil(disc)) * u) / (2 * a))
            } else {
                None
            }
        },
        hit matches Some(h) ==> h > t,
    ensures
        a * t * t + b * u * t + c * u * u > 0,
{
    let f = a * t * t + b * u * t + c * u * u;
    if a == 0 {
        assert(c > 0);
        assert(f == c * u * u) by (nonlinear_arith)
            requires
                f == a * t * t + b * u * t + c * u * u,
                a == 0,
                b == 0,
        ;
        assert(c * u * u > 0) by (nonlinear_arith)
            requires
                c > 0,
                u > 0,
        ;
    } else {
        let disc = b * b - 4 * a * c;
        let g = 2 * a * t + b * u;
        lemma_completed_square(a, b, c, t, u);
        assert(4 * a * f == g * g - u * u * disc);
        assert(2 * a * t >= 0) by (nonlinear_arith)
            requires
                a > 0,
                t >= 0,
        ;
        if disc < 0 {
            assert(g * g - u * u * disc > 0) by (nonlinear_arith)
                requires
                    disc < 0,
                    u > 0,
            ;
        } else if !(b <= 0 || b * b <= disc) {
            assert(g * g - u * u * disc > 0) by (nonlinear_arith)
                requires
                    g >= b * u,
                    b > 0,
                    u > 0,
                    b * b > disc,
                    disc >= 0,
            {
                assert(g * g >= (b * u) * (b * u));
                assert((b * u) * (b * u) == u * u * (b * b));
                assert(u * u * (b * b) > u * u * disc);
            }
        } else {
            let s = sqrt_ceil(disc);
            crate::fixed::lemma_sqrt_ceil_covers(disc);
            let num = -(b + s) * u;
            let h = num / (2 * a);
            assert(h > t);
            vstd::arithmetic::div_mod::lemma_fundamental_div_mod(num, 2 * a);
            vstd::arithmetic::div_mod::lemma_mod_bound(num, 2 * a);
            assert(num >= (2 * a) * h);
            assert((2 * a) * h > 2 * a * t) by (nonlinear_arith)
                requires
                    a > 0,
                    h > t,
            ;
            assert(num == -(b * u) - s * u) by (nonlinear_arith)
                requires
                    num == -(b + s) * u,
            ;
            assert(s * u >= 0) by (nonlinear_arith)
                requires
                    s >= 0,
                    u > 0,
            ;
            // -g > s * u >= 0
            assert(g * g - u * u * disc > 0) by (nonlinear_arith)
                requires
                    -g > s * u,
                    s * u >= 0,
                    s * s >= disc,
                    u > 0,
            {
                assert(g * g > (s * u) * (s * u));
                assert((s * u) * (s * u) == u * u * (s * s));
                assert(u * u * (s * s) >= u * u * disc);
            }
        }
        lemma_positive_factor(a, f);
    }
}

/// If `b = a - e`, `|b|^2` exceeds `(u r)^2` and each coordinate of `e` is
/// below `2u`, then `|a|^2` is at least `(u (r - 3))^2`.
pub proof fn lemma_rounding_slack(
    ax: int,
    ay: int,
    ex: int,
    ey: int,
    u: int,
    r: int,
)
    requires
        u > 0,
        r >= 3,
        -2 * u < ex < 2 * u,
        -2 * u < ey < 2 * u,
        (ax - ex) * (ax - ex) + (ay - ey) * (ay - ey) > u * u * (r * r),
    ensures
        ax * ax + ay * ay >= u * u * ((r - 3) * (r - 3)),
{
    let s = r - 3;
    let x = ax * ax + ay * ay;
    let y = ex * ex + ey * ey;
    let z = ax * ex + ay * ey;
    if x < u * u * (s * s) {
        lemma_cauchy_schwarz(ax, ay, ex, ey);
        assert(z * z <= x * y);
        assert(ex * ex < 4 * (u * u) && ey * ey < 4 * (u * u)) by (nonlinear_arith)
            requires
                -2 * u < ex < 2 * u,
                -2 * u < ey < 2 * u,
                u > 0,
        ;
        assert(x >= 0 && y >= 0) by (nonlinear_arith)
            requires
                x == ax * ax + ay * ay,
                y == ex * ex + ey * ey,
        ;
        let m = 3 * (u * u) * s;
        assert(u * u > 0) by (nonlinear_arith)
            requires
                u > 0,
        ;
        assert(x * y < m * m) by (nonlinear_arith)
            requires
                0 <= x < u * u * (s * s),
                0 <= y < 8 * (u * u),
                m == 3 * (u * u) * s,
                u * u > 0,
                s >= 0,
        {
            assert(x * y <= (u * u * (s * s)) * y);
            assert((u * u * (s * s)) * y <= (u * u * (s * s)) * (8 * (u * u)));
            assert(m * m == 9 * ((u * u) * (u * u)) * (s * s));
            assert((u * u * (s * s)) * (8 * (u * u)) == 8 * ((u * u) * (u * u)) * (s * s));
            assert(x < u * u * (s * s));
            assert(s * s > 0);
            assert(((u * u) * (u * u)) * (s * s) > 0);
        }
        assert(m >= 0) by (nonlinear_arith)
            requires
                m == 3 * (u * u) * s,
                u * u > 0,
                s >= 0,
        ;
        lemma_square_root_bound(z, m);
        assert((ax - ex) * (ax - ex) + (ay - ey) * (ay - ey) == x - 2 * z + y) by (nonlinear_arith)
            requires
                x == ax * ax + ay * ay,
                y == ex * ex + ey * ey,
                z == ax * ex + ay * ey,
        ;
        assert(u * u * (r * r) == u * u * (s * s) + 2 * m + 9 * (u * u)) by (nonlinear_arith)
            requires
                s == r - 3,
                m == 3 * (u * u) * s,
        ;
        assert(false);
    }
}

/// Two bodies that do not come into contact within `[0, t]` are apart after
/// both have moved for `t`.
pub proof fn lemma_drift_keeps_apart(p: Body, q: Body, t: int)
    requires
        p.wf(),
        q.wf(),
        t >= 0,
        contact_time(p, q) matches Some(h) ==> h > t,
        p.can_move(t),
        q.can_move(t),
    ensures
        apart(p.moved(t), q.moved(t)),
{
    let u = UNIT as int;
    let dx = p.pos.x - q.pos.x;
    let dy = p.pos.y - q.pos.y;
    let wx = p.speed.x - q.speed.x;
    let wy = p.speed.y - q.speed.y;
    let r = p.radius + q.radius;
    let (a, b, c) = gap_poly(p, q);
    lemma_radius_bounds(p.mass as int);
    lemma_radius_bounds(q.mass as int);
    assert(a >= 0 && (a == 0 ==> wx == 0 && wy == 0)) by (nonlinear_arith)
        requires
            a == wx * wx + wy * wy,
    ;
    assert(a == 0 ==> b == 0) by (nonlinear_arith)
        requires
            a == 0 ==> wx == 0 && wy == 0,
            b == 2 * (dx * wx + dy * wy),
    ;
    lemma_gap_positive(a, b, c, t, u, contact_time(p, q));
    lemma_gap_is_distance(dx, dy, wx, wy, r, t, u);
    let tpx = trunc_div(p.speed.x * t, u);
    let tpy = trunc_div(p.speed.y * t, u);
    let tqx = trunc_div(q.speed.x * t, u);
    let tqy = trunc_div(q.speed.y * t, u);
    lemma_trunc_div_error(p.speed.x * t, u);
    lemma_trunc_div_error(p.speed.y * t, u);
    lemma_trunc_div_error(q.speed.x * t, u);
    lemma_trunc_div_error(q.speed.y * t, u);
    let p_then = p.moved(t);
    let q_then = q.moved(t);
    let ddx = p_then.pos.x - q_then.pos.x;
    let ddy = p_then.pos.y - q_then.pos.y;
    assert(ddx == dx + tpx - tqx);
    assert(ddy == dy + tpy - tqy);
    let ax = u * ddx;
    let ay = u * ddy;
    let bx = u * dx + wx * t;
    let by = u * dy + wy * t;
    assert(wx * t == p.speed.x * t - q.speed.x * t) by (nonlinear_arith)
        requires
            wx == p.speed.x - q.speed.x,
    ;
    assert(wy * t == p.speed.y * t - q.speed.y * t) by (nonlinear_arith)
        requires
            wy == p.speed.y - q.speed.y,
    ;
    assert(ax == u * dx + u * tpx - u * tqx) by (nonlinear_arith)
        requires
            ax == u * ddx,
            ddx == dx + tpx - tqx,
    ;
    assert(ay == u * dy + u * tpy - u * tqy) by (nonlinear_arith)
        requires
            ay == u * ddy,
            ddy == dy + tpy - tqy,
    ;
    let ex = ax - bx;
    let ey = ay - by;
    assert(-2 * u < ex < 2 * u);
    assert(-2 * u < ey < 2 * u);
    assert(ax - ex == bx && ay - ey == by);
    lemma_rounding_slack(ax, ay, ex, ey, u, r);
    let s = r - CONTACT_SLACK;
    assert(ax * ax + ay * ay == u * u * (ddx * ddx + ddy * ddy)) by (nonlinear_arith)
        requires
            ax == u * ddx,
            ay == u * ddy,
    ;
    assert(ddx * ddx + ddy * ddy >= s * s) by (nonlinear_arith)
        requires
            u * u * (ddx * ddx + ddy * ddy) >= u * u * (s * s),
            u > 0,
    ;
}

} // verus!
