//! Why a cluster stays a cluster: the product of two bodies overlaps whatever
//! both of them overlapped by more than the rounding of positions.

use vstd::prelude::*;
use crate::body::{lemma_merged_wf, lemma_radius_bounds, merged, radius_of, Body};
use crate::collision::{apart, clear, CONTACT_SLACK};
use crate::fixed::{
    lemma_cube_monotonic, lemma_square_monotonic, lemma_trunc_div_error, trunc_div, MASS_MAX, UNIT,
};
use crate::separation::{lemma_cauchy_schwarz, lemma_square_of_sum, lemma_square_root_bound};
use crate::vector::dist_sq;

verus! {

/// A heavier body is no smaller.
pub proof fn lemma_radius_grows(light: int, heavy: int)
    requires
        0 <= light <= heavy <= MASS_MAX,
    ensures
        radius_of(light) <= radius_of(heavy),
{
    lemma_radius_bounds(light);
    lemma_radius_bounds(heavy);
    let r = radius_of(light);
    let s = radius_of(heavy);
    assert(light * UNIT * UNIT <= heavy * UNIT * UNIT) by (nonlinear_arith)
        requires
            light <= heavy,
            UNIT == 0x10_0000,
    ;
    if r > s {
        lemma_cube_monotonic(s + 1, r);
    }
}

/// A weighted sum of two vectors shorter than `s` is shorter than the sum of
/// the weights times `s`.
pub proof fn lemma_weighted_sum_is_short(
    ux: int,
    uy: int,
    vx: int,
    vy: int,
    ma: int,
    mb: int,
    s: int,
)
    requires
        ma >= 1,
        mb >= 1,
        s >= 0,
        ux * ux + uy * uy < s * s,
        vx * vx + vy * vy < s * s,
    ensures
        (ma * ux + mb * vx) * (ma * ux + mb * vx) + (ma * uy + mb * vy) * (ma * uy + mb * vy) < (ma
            + mb) * (ma + mb) * (s * s),
{
    let u2 = ux * ux + uy * uy;
    let v2 = vx * vx + vy * vy;
    let d = ux * vx + uy * vy;
    let s2 = s * s;
    lemma_cauchy_schwarz(ux, uy, vx, vy);
    assert(u2 >= 0 && v2 >= 0) by (nonlinear_arith)
        requires
            u2 == ux * ux + uy * uy,
            v2 == vx * vx + vy * vy,
    ;
    assert(u2 * v2 < s2 * s2) by (nonlinear_arith)
        requires
            0 <= u2 < s2,
            0 <= v2 < s2,
    ;
    assert(s2 >= 0) by (nonlinear_arith)
        requires
            s2 == s * s,
    ;
    lemma_square_root_bound(d, s2);
    let a2 = ma * ma;
    let b2 = mb * mb;
    let ab = ma * mb;
    lemma_square_of_sum(ma * ux, mb * vx);
    lemma_square_of_sum(ma * uy, mb * vy);
    assert((ma * ux) * (ma * ux) == a2 * (ux * ux)) by (nonlinear_arith)
        requires
            a2 == ma * ma,
    ;
    assert((ma * uy) * (ma * uy) == a2 * (uy * uy)) by (nonlinear_arith)
        requires
            a2 == ma * ma,
    ;
    assert((mb * vx) * (mb * vx) == b2 * (vx * vx)) by (nonlinear_arith)
        requires
            b2 == mb * mb,
    ;
    assert((mb * vy) * (mb * vy) == b2 * (vy * vy)) by (nonlinear_arith)
        requires
            b2 == mb * mb,
    ;
    assert((ma * ux) * (mb * vx) == ab * (ux * vx)) by (nonlinear_arith)
        requires
            ab == ma * mb,
    ;
    assert((ma * uy) * (mb * vy) == ab * (uy * vy)) by (nonlinear_arith)
        requires
            ab == ma * mb,
    ;
    assert(a2 * (ux * ux) + a2 * (uy * uy) == a2 * u2) by (nonlinear_arith)
        requires
            u2 == ux * ux + uy * uy,
    ;
    assert(b2 * (vx * vx) + b2 * (vy * vy) == b2 * v2) by (nonlinear_arith)
        requires
            v2 == vx * vx + vy * vy,
    ;
    assert(ab * (ux * vx) + ab * (uy * vy) == ab * d) by (nonlinear_arith)
        requires
            d == ux * vx + uy * vy,
    ;
    assert(a2 * u2 < a2 * s2 && b2 * v2 < b2 * s2 && ab * d < ab * s2) by (nonlinear_arith)
        requires
            a2 == ma * ma,
            b2 == mb * mb,
            ab == ma * mb,
            ma >= 1,
            mb >= 1,
            u2 < s2,
            v2 < s2,
            d < s2,
    ;
    assert((ma + mb) * (ma + mb) * s2 == a2 * s2 + 2 * (ab * s2) + b2 * s2) by (nonlinear_arith)
        requires
            a2 == ma * ma,
            b2 == mb * mb,
            ab == ma * mb,
    ;
}

/// A vector shorter than `m * s`, changed by less than `m` along each axis,
/// is shorter than `m * (s + 2)`.
pub proof fn lemma_rounded_is_short(wx: int, wy: int, ex: int, ey: int, m: int, s: int)
    requires
        m >= 1,
        s >= 0,
        wx * wx + wy * wy < m * m * (s * s),
        -m < ex < m,
        -m < ey < m,
    ensures
        (wx - ex) * (wx - ex) + (wy - ey) * (wy - ey) < m * m * ((s + 2) * (s + 2)),
{
    let w2 = wx * wx + wy * wy;
    let e2 = ex * ex + ey * ey;
    let z = wx * ex + wy * ey;
    let m2 = m * m;
    lemma_cauchy_schwarz(wx, wy, ex, ey);
    assert(ex * ex < m2 && ey * ey < m2) by (nonlinear_arith)
        requires
            -m < ex < m,
            -m < ey < m,
            m2 == m * m,
    ;
    assert(w2 >= 0 && e2 >= 0 && m2 >= 1) by (nonlinear_arith)
        requires
            w2 == wx * wx + wy * wy,
            e2 == ex * ex + ey * ey,
            m2 == m * m,
            m >= 1,
    ;
    assert(s >= 1) by {
        if s == 0 {
            assert(m * m * (s * s) == 0) by (nonlinear_arith)
                requires
                    s == 0,
            ;
        }
    }
    let bound = 2 * m2 * s;
    assert(w2 * e2 < bound * bound) by (nonlinear_arith)
        requires
            0 <= w2 < m2 * (s * s),
            0 <= e2 < 2 * m2,
            bound == 2 * m2 * s,
            m2 >= 1,
            s >= 1,
    {
        assert(w2 * e2 <= (m2 * (s * s)) * e2);
        assert((m2 * (s * s)) * e2 <= (m2 * (s * s)) * (2 * m2));
        assert(bound * bound == 4 * ((m2 * m2) * (s * s)));
        assert((m2 * (s * s)) * (2 * m2) == 2 * ((m2 * m2) * (s * s)));
        assert((m2 * m2) * (s * s) > 0);
    }
    assert(bound >= 0) by (nonlinear_arith)
        requires
            bound == 2 * m2 * s,
            m2 >= 1,
            s >= 1,
    ;
    lemma_square_root_bound(z, bound);
    assert((wx - ex) * (wx - ex) + (wy - ey) * (wy - ey) == w2 - 2 * z + e2) by (nonlinear_arith)
        requires
            w2 == wx * wx + wy * wy,
            e2 == ex * ex + ey * ey,
            z == wx * ex + wy * ey,
    ;
    assert(m * m * ((s + 2) * (s + 2)) == m2 * (s * s) + 2 * bound + 4 * m2) by (nonlinear_arith)
        requires
            m2 == m * m,
            bound == 2 * m2 * s,
    ;
}

/// The product of two bodies overlaps every body that both of them overlap
/// by more than `CONTACT_SLACK`: its centre lies between theirs, and it is at
/// least as large as either.
pub proof fn lemma_product_overlaps_third(a: Body, b: Body, c: Body)
    requires
        a.wf(),
        b.wf(),
        c.wf(),
        a.mass + b.mass <= MASS_MAX,
        !apart(a, c),
        !apart(b, c),
    ensures
        !clear(c, merged(a, b)),
        !clear(merged(a, b), c),
{
    let p = merged(a, b);
    lemma_merged_wf(a, b);
    lemma_radius_bounds(a.mass as int);
    lemma_radius_bounds(b.mass as int);
    lemma_radius_bounds(c.mass as int);
    lemma_radius_grows(a.mass as int, a.mass + b.mass);
    lemma_radius_grows(b.mass as int, a.mass + b.mass);
    let m = a.mass + b.mass;
    let top = if a.radius >= b.radius {
        a.radius as int
    } else {
        b.radius as int
    };
    let s = top + c.radius - CONTACT_SLACK;
    lemma_square_monotonic(a.radius + c.radius - CONTACT_SLACK, s);
    lemma_square_monotonic(b.radius + c.radius - CONTACT_SLACK, s);
    let ux = a.pos.x - c.pos.x;
    let uy = a.pos.y - c.pos.y;
    let vx = b.pos.x - c.pos.x;
    let vy = b.pos.y - c.pos.y;
    assert(dist_sq(a.pos, c.pos) == ux * ux + uy * uy);
    assert(dist_sq(b.pos, c.pos) == vx * vx + vy * vy);
    lemma_weighted_sum_is_short(ux, uy, vx, vy, a.mass as int, b.mass as int, s);
    let nx = a.mass * a.pos.x + b.mass * b.pos.x;
    let ny = a.mass * a.pos.y + b.mass * b.pos.y;
    crate::body::lemma_weighted_mean_between(
        a.mass as int,
        a.pos.x as int,
        b.mass as int,
        b.pos.x as int,
    );
    crate::body::lemma_weighted_mean_between(
        a.mass as int,
        a.pos.y as int,
        b.mass as int,
        b.pos.y as int,
    );
    assert(p.pos.x == trunc_div(nx, m));
    assert(p.pos.y == trunc_div(ny, m));
    lemma_trunc_div_error(nx, m);
    lemma_trunc_div_error(ny, m);
    let ex = nx - m * p.pos.x;
    let ey = ny - m * p.pos.y;
    let wx = a.mass * ux + b.mass * vx;
    let wy = a.mass * uy + b.mass * vy;
    assert(wx == nx - m * c.pos.x) by (nonlinear_arith)
        requires
            wx == a.mass * ux + b.mass * vx,
            ux == a.pos.x - c.pos.x,
            vx == b.pos.x - c.pos.x,
            nx == a.mass * a.pos.x + b.mass * b.pos.x,
            m == a.mass + b.mass,
    ;
    assert(wy == ny - m * c.pos.y) by (nonlinear_arith)
        requires
            wy == a.mass * uy + b.mass * vy,
            uy == a.pos.y - c.pos.y,
            vy == b.pos.y - c.pos.y,
            ny == a.mass * a.pos.y + b.mass * b.pos.y,
            m == a.mass + b.mass,
    ;
    lemma_rounded_is_short(wx, wy, ex, ey, m, s);
    let px = p.pos.x - c.pos.x;
    let py = p.pos.y - c.pos.y;
    assert(wx - ex == m * px) by (nonlinear_arith)
        requires
            wx == nx - m * c.pos.x,
            ex == nx - m * p.pos.x,
            px == p.pos.x - c.pos.x,
    ;
    assert(wy - ey == m * py) by (nonlinear_arith)
        requires
            wy == ny - m * c.pos.y,
            ey == ny - m * p.pos.y,
            py == p.pos.y - c.pos.y,
    ;
    let k = s + 2;
    assert(px * px + py * py < k * k) by (nonlinear_arith)
        requires
            (m * px) * (m * px) + (m * py) * (m * py) < m * m * (k * k),
            m >= 1,
    {
        assert((m * px) * (m * px) + (m * py) * (m * py) == m * m * (px * px + py * py));
    }
    lemma_square_monotonic(k, c.radius + p.radius);
    assert(dist_sq(p.pos, c.pos) == px * px + py * py);
    assert(dist_sq(c.pos, p.pos) == px * px + py * py) by (nonlinear_arith)
        requires
            dist_sq(c.pos, p.pos) == (c.pos.x - p.pos.x) * (c.pos.x - p.pos.x) + (c.pos.y
                - p.pos.y) * (c.pos.y - p.pos.y),
            px == p.pos.x - c.pos.x,
            py == p.pos.y - c.pos.y,
    ;
}

} // verus!
