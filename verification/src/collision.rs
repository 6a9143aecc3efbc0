//! Continuous-time collisions: when two bodies touch, which pair touches
//! first, and what a tick of merging and settling leaves.

use vstd::prelude::*;
use crate::body::{lemma_radius_bounds, Body};
use crate::fixed::{
    floor_div, is_sqrt_floor, isqrt, isqrt_ceil, lemma_square_monotonic, sqrt_ceil, sqrt_floor,
    OutOfRange, TIME_MAX, UNIT,
};
use crate::pairs::{
    first_least, is_first_least, lemma_first_least_unique, lemma_scan_row, lemma_scan_start,
    lemma_scan_step, with_pair,
};
use crate::store::{total_mass, BodyID, BodyStore, World};
use crate::vector::{dist_sq, distance_squared, lemma_product_bound};

verus! {

/// How far two discs may intrude into each other after a tick, from the
/// rounding of the positions.
pub const CONTACT_SLACK: i64 = 3;

/// The coefficients `(a, b, c)` of the polynomial `a t^2 + b t + c` whose sign
/// is that of the gap between `p` and `q` after they have moved for `t`:
/// `a = |w|^2`, `b = 2 (d . w)`, `c = |d|^2 - r^2`, with `d` their offset, `w`
/// their relative velocity and `r` the sum of their radii.
pub open spec fn gap_poly(p: Body, q: Body) -> (int, int, int) {
    let dx = p.pos.x - q.pos.x;
    let dy = p.pos.y - q.pos.y;
    let wx = p.speed.x - q.speed.x;
    let wy = p.speed.y - q.speed.y;
    let r = p.radius + q.radius;
    (wx * wx + wy * wy, 2 * (dx * wx + dy * wy), dx * dx + dy * dy - r * r)
}

/// The time at which the discs of `p` and `q` come into contact if both keep
/// their velocity, rounded down. Without relative motion they are in contact
/// at time 0 if they touch or overlap. With it, the time is the first root
/// `-(b + sqrt(D)) / (2a)` of the gap polynomial, where it has one
/// (`D = b^2 - 4ac >= 0`) and that root begins the contact (`sqrt(D) >= b`).
pub open spec fn contact_time(p: Body, q: Body) -> Option<int> {
    let (a, b, c) = gap_poly(p, q);
    if a == 0 {
        if c <= 0 {
            Some(0)
        } else {
            None
        }
    } else {
        let disc = b * b - 4 * a * c;
        if disc >= 0 && (b <= 0 || b * b <= disc) {
            Some((-(b + sqrt_ceil(disc)) * UNIT) / (2 * a))
        } else {
            None
        }
    }
}

/// The contact time of the bodies at `k` and `l`, if it is no later than
/// `lambda`.
pub open spec fn hit_time(bodies: Seq<Body>, lambda: int, k: int, l: int) -> Option<int> {
    match contact_time(bodies[k], bodies[l]) {
        Some(t) => if t <= lambda {
            Some(t)
        } else {
            None
        },
        None => None,
    }
}

/// The scores by which the earliest collision within `lambda` is the first
/// least-scored pair.
pub open spec fn hit_score(bodies: Seq<Body>, lambda: int) -> spec_fn(int, int) -> Option<int> {
    |k: int, l: int| hit_time(bodies, lambda, k, l)
}

/// The earliest collision within `lambda`: its time and the places `i < j` of
/// the pair. Among pairs of equal time the first in the order of the store
/// wins.
pub open spec fn earliest_collision(bodies: Seq<Body>, lambda: int) -> Option<(int, int, int)> {
    first_least(hit_score(bodies, lambda), bodies.len() as int)
}

/// How deep the discs of `p` and `q` intrude into each other: the sum of the
/// radii less the distance, the distance rounded down.
pub open spec fn depth(p: Body, q: Body) -> int {
    p.radius + q.radius - sqrt_floor(dist_sq(p.pos, q.pos))
}

/// The negated depth of the overlap of the bodies at `k` and `l`, if they overlap.
pub open spec fn overlap_score(bodies: Seq<Body>) -> spec_fn(int, int) -> Option<int> {
    |k: int, l: int|
        if depth(bodies[k], bodies[l]) > 0 {
            Some(-depth(bodies[k], bodies[l]))
        } else {
            None
        }
}

/// The deepest overlap: the negated depth and the places `i < j` of the pair.
/// Among pairs of equal depth the first in the order of the store wins.
pub open spec fn deepest_overlap(bodies: Seq<Body>) -> Option<(int, int, int)> {
    first_least(overlap_score(bodies), bodies.len() as int)
}

/// The discs of `p` and `q` do not overlap: they may touch.
pub open spec fn clear(p: Body, q: Body) -> bool {
    dist_sq(p.pos, q.pos) >= (p.radius + q.radius) * (p.radius + q.radius)
}

/// The discs of `p` and `q` overlap by no more than `CONTACT_SLACK`.
pub open spec fn apart(p: Body, q: Body) -> bool {
    dist_sq(p.pos, q.pos) >= (p.radius + q.radius - CONTACT_SLACK) * (p.radius + q.radius
        - CONTACT_SLACK)
}

/// No two bodies overlap by more than `CONTACT_SLACK`.
pub open spec fn all_apart(bodies: Seq<Body>) -> bool {
    forall|k: int, l: int| 0 <= k < l < bodies.len() ==> apart(#[trigger] bodies[k], #[trigger] bodies[l])
}

/// No two bodies overlap.
pub open spec fn all_clear(bodies: Seq<Body>) -> bool {
    forall|k: int, l: int| 0 <= k < l < bodies.len() ==> clear(#[trigger] bodies[k], #[trigger] bodies[l])
}

/// The contact time of two bodies.
pub fn contact_time_of(p: &Body, q: &Body) -> (r: Option<i128>)
    requires
        p.wf(),
        q.wf(),
    ensures
        r matches Some(t) ==> contact_time(*p, *q) == Some(t as int),
        r is None ==> contact_time(*p, *q) is None,
        r matches Some(t) ==> -0x8_0000_0000_0000_0000_0000 <= t <= 0x8_0000_0000_0000_0000_0000,
{
    let dx: i128 = p.pos.x as i128 - q.pos.x as i128;
    let dy: i128 = p.pos.y as i128 - q.pos.y as i128;
    let wx: i128 = p.speed.x as i128 - q.speed.x as i128;
    let wy: i128 = p.speed.y as i128 - q.speed.y as i128;
    proof {
        lemma_radius_bounds(p.mass as int);
        lemma_radius_bounds(q.mass as int);
    }
    let r: i128 = p.radius as i128 + q.radius as i128;
    proof {
        lemma_product_bound(wx as int, 0x200_0000, wx as int, 0x200_0000);
        lemma_product_bound(wy as int, 0x200_0000, wy as int, 0x200_0000);
        lemma_product_bound(dx as int, 0x2_0000_0000, dx as int, 0x2_0000_0000);
        lemma_product_bound(dy as int, 0x2_0000_0000, dy as int, 0x2_0000_0000);
        lemma_product_bound(dx as int, 0x2_0000_0000, wx as int, 0x200_0000);
        lemma_product_bound(dy as int, 0x2_0000_0000, wy as int, 0x200_0000);
        lemma_product_bound(r as int, 0x200_0000, r as int, 0x200_0000);
        assert(wx * wx >= 0 && wy * wy >= 0 && dx * dx >= 0 && dy * dy >= 0 && r * r >= 0)
            by (nonlinear_arith);
    }
    let a: i128 = wx * wx + wy * wy;
    let b: i128 = 2 * (dx * wx + dy * wy);
    let c: i128 = dx * dx + dy * dy - r * r;
    if a == 0 {
        return if c <= 0 {
            Some(0)
        } else {
            None
        };
    }
    proof {
        lemma_product_bound(b as int, 0x1000_0000_0000_0000, b as int, 0x1000_0000_0000_0000);
        lemma_product_bound(a as int, 0x8_0000_0000_0000, c as int, 0x8_0000_0000_0000_0000);
        assert(b * b >= 0) by (nonlinear_arith);
        assert(4 * a * c == 4 * (a * c)) by (nonlinear_arith);
    }
    let bb: i128 = b * b;
    let disc: i128 = bb - 4 * (a * c);
    if disc < 0 || !(b <= 0 || bb <= disc) {
        return None;
    }
    let s: u128 = isqrt_ceil(disc as u128);
    proof {
        lemma_sqrt_ceil_bound(disc as int, 0x2000_0000_0000_0000);
        lemma_product_bound(-(b + s), 0x4000_0000_0000_0000, UNIT as int, 0x10_0000);
    }
    let num: i128 = -(b + s as i128) * (UNIT as i128);
    let t: i128 = floor_div(num, 2 * a);
    proof {
        let ai = a as int;
        vstd::arithmetic::div_mod::lemma_div_is_ordered(num as int, 0x4_0000_0000_0000_0000_0000, 2 * ai);
        vstd::arithmetic::div_mod::lemma_div_is_ordered(-0x4_0000_0000_0000_0000_0000, num as int, 2 * ai);
        lemma_quotient_shrinks(0x4_0000_0000_0000_0000_0000, 2 * ai);
    }
    Some(t)
}

/// Dividing by a positive number does not grow a magnitude.
pub proof fn lemma_quotient_shrinks(n: int, d: int)
    requires
        n >= 0,
        d > 0,
    ensures
        n / d <= n,
        (-n) / d >= -n,
{
    vstd::arithmetic::div_mod::lemma_div_is_ordered_by_denominator(n, 1, d);
    crate::fixed::lemma_floor_of_negative(n, d);
    vstd::arithmetic::div_mod::lemma_div_pos_is_pos(n, d);
    if d == 1 {
        assert(n % 1 == 0);
    } else {
        vstd::arithmetic::div_mod::lemma_div_is_ordered_by_denominator(n, 2, d);
        assert(n / 2 < n || n == 0);
        if n == 0 {
            assert(0int % d == 0) by (nonlinear_arith)
                requires
                    d > 0,
            ;
        }
    }
}

/// The rounded-up square root of a number below `bound^2` is at most `bound`.
pub proof fn lemma_sqrt_ceil_bound(x: int, bound: int)
    requires
        0 <= x,
        0 < bound,
        x <= bound * bound,
    ensures
        0 <= sqrt_ceil(x) <= bound,
        sqrt_ceil(x) * sqrt_ceil(x) >= x,
{
    crate::fixed::lemma_sqrt_exists(x);
    let r = sqrt_floor(x);
    assert(is_sqrt_floor(x, r));
    if r * r != x {
        if r + 1 > bound {
            lemma_square_monotonic(bound, r);
        }
    } else {
        if r > bound {
            lemma_square_monotonic(bound + 1, r);
            assert((bound + 1) * (bound + 1) > bound * bound) by (nonlinear_arith)
                requires
                    bound > 0,
            ;
        }
    }
}

/// A scan result over machine integers, as the mathematical scan names it.
pub open spec fn as_places(best: Option<(i128, usize, usize)>) -> Option<(int, int, int)> {
    match best {
        Some((v, i, j)) => Some((v as int, i as int, j as int)),
        None => None,
    }
}

/// The better of `best` and the pair `(i, j)` of score `s`.
fn better(best: Option<(i128, usize, usize)>, s: Option<i128>, i: usize, j: usize) -> (r: Option<
    (i128, usize, usize),
>)
    ensures
        as_places(r) == with_pair(
            as_places(best),
            match s {
                Some(v) => Some(v as int),
                None => None,
            },
            i as int,
            j as int,
        ),
        r == best || (s matches Some(v) && r == Some((v, i, j))),
{
    match s {
        Some(v) => match best {
            Some((u, _, _)) => if v < u {
                Some((v, i, j))
            } else {
                best
            },
            None => Some((v, i, j)),
        },
        None => best,
    }
}

/// How deep the discs of `p` and `q` intrude into each other.
pub fn depth_of(p: &Body, q: &Body) -> (d: i64)
    requires
        p.wf(),
        q.wf(),
    ensures
        d == depth(*p, *q),
        d > 0 <==> !clear(*p, *q),
{
    proof {
        lemma_radius_bounds(p.mass as int);
        lemma_radius_bounds(q.mass as int);
    }
    let d2: i128 = distance_squared(p.pos, q.pos);
    let d: u128 = isqrt(d2 as u128);
    proof {
        if d >= 0x4_0000_0000 {
            lemma_square_monotonic(0x4_0000_0000, d as int);
        }
        let r = p.radius + q.radius;
        if d < r {
            lemma_square_monotonic(d + 1, r);
        } else {
            lemma_square_monotonic(r, d as int);
        }
    }
    (p.radius as i128 + q.radius as i128 - d as i128) as i64
}

/// The earliest collision within `lambda`: its time and the places of the pair.
pub fn earliest_pair(lambda: i64, bodies: &BodyStore) -> (r: Option<(i128, usize, usize)>)
    requires
        bodies.wf(),
    ensures
        earliest_collision(bodies@.bodies, lambda as int) == as_places(r),
        is_first_least(
            hit_score(bodies@.bodies, lambda as int),
            bodies@.bodies.len() as int,
            as_places(r),
            bodies@.bodies.len() as int,
            0,
        ),
        r matches Some((t, i, j)) ==> i < j < bodies@.bodies.len()
            && -0x8_0000_0000_0000_0000_0000 <= t <= lambda,
{
    let n: usize = bodies.len();
    let ghost score = hit_score(bodies@.bodies, lambda as int);
    let mut best: Option<(i128, usize, usize)> = None;
    proof {
        lemma_scan_start(score, n as int);
    }
    let mut i: usize = 0;
    while i < n
        invariant
            i <= n,
            n == bodies@.bodies.len(),
            bodies.wf(),
            score == hit_score(bodies@.bodies, lambda as int),
            is_first_least(score, n as int, as_places(best), i as int, 0),
            is_first_least(score, n as int, as_places(best), i as int, i + 1),
            best matches Some((v, _, _)) ==> -0x8_0000_0000_0000_0000_0000 <= v,
        decreases n - i,
    {
        let p: Body = bodies.body(i);
        let mut j: usize = i + 1;
        while j < n
            invariant
                i < j <= n,
                n == bodies@.bodies.len(),
                bodies.wf(),
                p == bodies@.bodies[i as int],
                score == hit_score(bodies@.bodies, lambda as int),
                is_first_least(score, n as int, as_places(best), i as int, j as int),
                best matches Some((v, _, _)) ==> -0x8_0000_0000_0000_0000_0000 <= v,
            decreases n - j,
        {
            let q: Body = bodies.body(j);
            let found: Option<i128> = match contact_time_of(&p, &q) {
                Some(t) => if t <= lambda as i128 {
                    Some(t)
                } else {
                    None
                },
                None => None,
            };
            proof {
                lemma_scan_step(score, n as int, as_places(best), i as int, j as int);
            }
            best = better(best, found, i, j);
            j += 1;
        }
        proof {
            lemma_scan_row(score, n as int, as_places(best), i as int);
        }
        i += 1;
    }
    proof {
        lemma_first_least_unique(score, n as int, as_places(best));
    }
    best
}

/// The deepest overlap: the negated depth and the places of the pair.
pub fn deepest_pair(bodies: &BodyStore) -> (r: Option<(i128, usize, usize)>)
    requires
        bodies.wf(),
    ensures
        deepest_overlap(bodies@.bodies) == as_places(r),
        r matches Some((d, i, j)) ==> i < j < bodies@.bodies.len(),
        r is None ==> all_clear(bodies@.bodies),
{
    let n: usize = bodies.len();
    let ghost score = overlap_score(bodies@.bodies);
    let mut best: Option<(i128, usize, usize)> = None;
    proof {
        lemma_scan_start(score, n as int);
    }
    let mut i: usize = 0;
    while i < n
        invariant
            i <= n,
            n == bodies@.bodies.len(),
            bodies.wf(),
            score == overlap_score(bodies@.bodies),
            is_first_least(score, n as int, as_places(best), i as int, 0),
            is_first_least(score, n as int, as_places(best), i as int, i + 1),
        decreases n - i,
    {
        let p: Body = bodies.body(i);
        let mut j: usize = i + 1;
        while j < n
            invariant
                i < j <= n,
                n == bodies@.bodies.len(),
                bodies.wf(),
                p == bodies@.bodies[i as int],
                score == overlap_score(bodies@.bodies),
                is_first_least(score, n as int, as_places(best), i as int, j as int),
            decreases n - j,
        {
            let q: Body = bodies.body(j);
            let d: i64 = depth_of(&p, &q);
            let found: Option<i128> = if d > 0 {
                Some(-(d as i128))
            } else {
                None
            };
            proof {
                lemma_scan_step(score, n as int, as_places(best), i as int, j as int);
            }
            best = better(best, found, i, j);
            j += 1;
        }
        proof {
            lemma_scan_row(score, n as int, as_places(best), i as int);
        }
        i += 1;
    }
    proof {
        lemma_first_least_unique(score, n as int, as_places(best));
        if best is None {
            lemma_no_overlap_is_clear(bodies@);
        }
    }
    best
}

/// Where no overlap is deepest, no two bodies overlap.
pub proof fn lemma_no_overlap_is_clear(w: World)
    requires
        w.wf(),
        deepest_overlap(w.bodies) is None,
    ensures
        all_clear(w.bodies),
{
    let score = overlap_score(w.bodies);
    let n = w.bodies.len() as int;
    crate::pairs::lemma_first_least(score, n);
    assert forall|k: int, l: int| 0 <= k < l < w.bodies.len() implies clear(
        #[trigger] w.bodies[k],
        #[trigger] w.bodies[l],
    ) by {
        assert(score(k, l) is None);
        lemma_depth_sign(w.bodies[k], w.bodies[l]);
    }
}

/// The depth is positive exactly where the discs overlap.
pub proof fn lemma_depth_sign(p: Body, q: Body)
    requires
        p.wf(),
        q.wf(),
    ensures
        depth(p, q) > 0 <==> !clear(p, q),
{
    lemma_radius_bounds(p.mass as int);
    lemma_radius_bounds(q.mass as int);
    let x = dist_sq(p.pos, q.pos);
    assert(x >= 0) by (nonlinear_arith)
        requires
            x == (p.pos.x - q.pos.x) * (p.pos.x - q.pos.x) + (p.pos.y - q.pos.y) * (p.pos.y
                - q.pos.y),
    ;
    crate::fixed::lemma_sqrt_exists(x);
    let d = sqrt_floor(x);
    let r = p.radius + q.radius;
    if d < r {
        lemma_square_monotonic(d + 1, r);
    } else {
        lemma_square_monotonic(r, d);
    }
}

/// What settling leaves: as long as two bodies overlap, the pair of the
/// deepest overlap merges.
pub open spec fn settle(w: World) -> World
    decreases w.bodies.len(),
{
    match deepest_overlap(w.bodies) {
        Some((_, i, j)) => {
            proof {
                crate::pairs::lemma_first_least(overlap_score(w.bodies), w.bodies.len() as int);
            }
            settle(w.merged_at(i, j))
        },
        None => w,
    }
}

/// Settling adds no body.
pub proof fn lemma_settle_len(w: World)
    ensures
        settle(w).bodies.len() <= w.bodies.len(),
    decreases w.bodies.len(),
{
    crate::pairs::lemma_first_least(overlap_score(w.bodies), w.bodies.len() as int);
    match deepest_overlap(w.bodies) {
        Some((_, i, j)) => {
            lemma_settle_len(w.merged_at(i, j));
        },
        None => {},
    }
}

/// Settling keeps the state well formed and the total mass, and leaves no overlap.
pub proof fn lemma_settle(w: World)
    requires
        w.wf(),
    ensures
        settle(w).wf(),
        total_mass(settle(w).bodies) == total_mass(w.bodies),
        all_clear(settle(w).bodies),
    decreases w.bodies.len(),
{
    crate::pairs::lemma_first_least(overlap_score(w.bodies), w.bodies.len() as int);
    match deepest_overlap(w.bodies) {
        Some((_, i, j)) => {
            crate::store::lemma_merged_at_wf(w, i, j);
            lemma_settle(w.merged_at(i, j));
        },
        None => {
            lemma_no_overlap_is_clear(w);
        },
    }
}

/// Where no pair collides within `lambda`, all bodies are apart after they
/// have moved for `lambda`.
pub proof fn lemma_drift_leaves_apart(w: World, lambda: int)
    requires
        w.wf(),
        lambda >= 0,
        w.can_drift(lambda),
        earliest_collision(w.bodies, lambda) is None,
    ensures
        all_apart(w.drifted(lambda).bodies),
{
    let score = hit_score(w.bodies, lambda);
    crate::pairs::lemma_first_least(score, w.bodies.len() as int);
    let d = w.drifted(lambda).bodies;
    assert forall|k: int, l: int| 0 <= k < l < d.len() implies apart(
        #[trigger] d[k],
        #[trigger] d[l],
    ) by {
        assert(score(k, l) is None);
        assert(w.bodies[k].wf() && w.bodies[l].wf());
        assert(w.bodies[k].can_move(lambda) && w.bodies[l].can_move(lambda));
        crate::separation::lemma_drift_keeps_apart(w.bodies[k], w.bodies[l], lambda);
    }
}

/// What a tick of length `lambda` leaves, or `None` where a position or a
/// time leaves its range.
///
/// Where no pair collides within `lambda`, every body moves for `lambda`.
/// Otherwise every body moves up to the earliest collision, that pair merges,
/// the overlaps settle, and the rest of the tick follows in the same way.
pub open spec fn tick(w: World, lambda: int) -> Option<World>
    decreases w.bodies.len(),
{
    match earliest_collision(w.bodies, lambda) {
        None => if w.can_drift(lambda) {
            Some(w.drifted(lambda))
        } else {
            None
        },
        Some((t, i, j)) => if lambda - t > TIME_MAX || !w.can_drift(t) {
            None
        } else {
            proof {
                crate::pairs::lemma_first_least(hit_score(w.bodies, lambda), w.bodies.len() as int);
                lemma_settle_len(w.drifted(t).merged_at(i, j));
            }
            tick(settle(w.drifted(t).merged_at(i, j)), lambda - t)
        },
    }
}

/// A tick keeps the state well formed, adds no body, conserves the total
/// mass, and leaves no two bodies overlapping by more than `CONTACT_SLACK`.
pub proof fn lemma_tick(w: World, lambda: int)
    requires
        w.wf(),
        0 <= lambda <= TIME_MAX,
        tick(w, lambda) is Some,
    ensures
        tick(w, lambda).unwrap().wf(),
        tick(w, lambda).unwrap().bodies.len() <= w.bodies.len(),
        total_mass(tick(w, lambda).unwrap().bodies) == total_mass(w.bodies),
        all_apart(tick(w, lambda).unwrap().bodies),
    decreases w.bodies.len(),
{
    crate::pairs::lemma_first_least(hit_score(w.bodies, lambda), w.bodies.len() as int);
    match earliest_collision(w.bodies, lambda) {
        None => {
            crate::store::lemma_drifted_wf(w, lambda);
            lemma_drift_leaves_apart(w, lambda);
        },
        Some((t, i, j)) => {
            let moved = w.drifted(t);
            crate::store::lemma_drifted_wf(w, t);
            crate::store::lemma_merged_at_wf(moved, i, j);
            lemma_settle(moved.merged_at(i, j));
            lemma_settle_len(moved.merged_at(i, j));
            lemma_tick(settle(moved.merged_at(i, j)), lambda - t);
        },
    }
}

impl Body {
    /// Merges the two bodies of the given identities: both leave the store and
    /// their product enters it under a fresh identity.
    pub fn connect(pair: [BodyID; 2], bodies: &mut BodyStore)
        requires
            old(bodies).wf(),
            pair[0] != pair[1],
            old(bodies)@.ids.contains(pair[0]),
            old(bodies)@.ids.contains(pair[1]),
        ensures
            final(bodies).wf(),
            exists|i: int, j: int|
                0 <= i < j < old(bodies)@.bodies.len() && (#[trigger] old(bodies)@.ids[i] == pair[0]
                    && #[trigger] old(bodies)@.ids[j] == pair[1] || old(bodies)@.ids[i] == pair[1]
                    && old(bodies)@.ids[j] == pair[0]) && final(bodies)@ == old(bodies)@.merged_at(
                    i,
                    j,
                ),
            total_mass(final(bodies)@.bodies) == total_mass(old(bodies)@.bodies),
    {
        let first: Option<usize> = bodies.index_of(pair[0]);
        let second: Option<usize> = bodies.index_of(pair[1]);
        match (first, second) {
            (Some(i), Some(j)) => {
                proof {
                    crate::store::lemma_merged_at_wf(
                        bodies@,
                        if i < j { i as int } else { j as int },
                        if i < j { j as int } else { i as int },
                    );
                }
                if i < j {
                    bodies.merge_at(i, j);
                } else {
                    bodies.merge_at(j, i);
                }
            },
            _ => {
                assert(false);
            },
        }
    }

    /// Settles the overlaps: as long as two bodies overlap, the pair of the
    /// deepest overlap merges.
    pub fn connect_all(bodies: &mut BodyStore)
        requires
            old(bodies).wf(),
        ensures
            final(bodies).wf(),
            final(bodies)@ == settle(old(bodies)@),
            all_clear(final(bodies)@.bodies),
            total_mass(final(bodies)@.bodies) == total_mass(old(bodies)@.bodies),
    {
        proof {
            lemma_settle(bodies@);
        }
        loop
            invariant
                bodies.wf(),
                settle(bodies@) == settle(old(bodies)@),
            ensures
                bodies.wf(),
                bodies@ == settle(old(bodies)@),
            decreases bodies@.bodies.len(),
        {
            match deepest_pair(bodies) {
                Some((_, i, j)) => {
                    bodies.merge_at(i, j);
                },
                None => {
                    break ;
                },
            }
        }
    }

    /// The earliest collision within `lambda`: its time and the identities of
    /// the pair that collides.
    pub fn get_earliest_collision(lambda: i64, bodies: &BodyStore) -> (r: Option<
        (i128, [BodyID; 2]),
    >)
        requires
            bodies.wf(),
        ensures
            r is None <==> earliest_collision(bodies@.bodies, lambda as int) is None,
            r matches Some((t, pair)) ==> t <= lambda && exists|i: int, j: int|
                0 <= i < j < bodies@.bodies.len() && earliest_collision(
                    bodies@.bodies,
                    lambda as int,
                ) == Some((t as int, i, j)) && #[trigger] bodies@.ids[i] == pair[0]
                    && #[trigger] bodies@.ids[j] == pair[1],
    {
        match earliest_pair(lambda, bodies) {
            Some((t, i, j)) => Some((t, [bodies.id(i), bodies.id(j)])),
            None => None,
        }
    }

    /// Advances the store by one tick of length `lambda`: the bodies move, and
    /// those that collide on the way merge. Where a position or a time would
    /// leave its range, the store stays as it was.
    pub fn update_bodies(lambda: i64, bodies: &mut BodyStore) -> (r: Result<(), OutOfRange>)
        requires
            old(bodies).wf(),
            0 <= lambda <= TIME_MAX,
        ensures
            final(bodies).wf(),
            match tick(old(bodies)@, lambda as int) {
                Some(w) => r is Ok && final(bodies)@ == w,
                None => r is Err && final(bodies)@ == old(bodies)@,
            },
            total_mass(final(bodies)@.bodies) == total_mass(old(bodies)@.bodies),
            r is Ok ==> all_apart(final(bodies)@.bodies),
    {
        let mut work: BodyStore = bodies.copy();
        let mut lam: i64 = lambda;
        loop
            invariant
                work.wf(),
                *bodies == *old(bodies),
                bodies.wf(),
                0 <= lam <= TIME_MAX,
                tick(work@, lam as int) == tick(old(bodies)@, lambda as int),
                total_mass(work@.bodies) == total_mass(old(bodies)@.bodies),
            decreases work@.bodies.len(),
        {
            match earliest_pair(lam, &work) {
                None => {
                    let ghost before = work@;
                    if work.try_drift(lam) {
                        proof {
                            crate::store::lemma_drifted_wf(before, lam as int);
                            lemma_drift_leaves_apart(before, lam as int);
                        }
                        *bodies = work;
                        return Ok(());
                    } else {
                        return Err(OutOfRange);
                    }
                },
                Some((t, i, j)) => {
                    if lam as i128 - t > TIME_MAX as i128 {
                        return Err(OutOfRange);
                    }
                    let t: i64 = t as i64;
                    let ghost before = work@;
                    if !work.try_drift(t) {
                        return Err(OutOfRange);
                    }
                    proof {
                        crate::store::lemma_drifted_wf(before, t as int);
                        crate::store::lemma_merged_at_wf(before.drifted(t as int), i as int, j as int);
                        lemma_settle_len(before.drifted(t as int).merged_at(i as int, j as int));
                    }
                    work.merge_at(i, j);
                    Body::connect_all(&mut work);
                    lam = lam - t;
                },
            }
        }
    }
}

} // verus!
