//! What holds of the smallest stores. A single body: no engine moves it,
//! and a tick carries it along its velocity. Two bodies that come into
//! contact within a tick: the tick leaves their product alone in the store.
//! Three bodies that move as one and overlap each other: the tick leaves
//! their product alone in the store.

use vstd::prelude::*;
use crate::barnes_hut::{bh_pull, bh_pulls, iota, root_square};
use crate::body::{merged, pull, Body};
use crate::cluster::{list_mass, list_moment_x, list_moment_y, list_pull, mean_point};
use crate::collision::{
    apart, contact_time, depth, hit_score, overlap_score, settle, tick, CONTACT_SLACK,
};
use crate::direct::{direct_pull, direct_pulls};
use crate::fixed::{lemma_sqrt_exists, G_DEN, MASS_MAX, TIME_MAX, UNIT};
use crate::geometry::bounds;
use crate::grid::{cell_pull, grid_layout, grid_pulls, members, row_pull, rows_pull, Layout};
use crate::pairs::{before, is_first_least, lemma_first_least, lemma_first_least_unique};
use crate::store::{BodyID, World};
use crate::vector::{dist_sq, Vec2, Vector};

verus! {

/// No mass pulls nothing.
pub proof fn lemma_no_mass_no_pull(from: Vec2, to: Vec2, dt: int)
    ensures
        pull(from, to, 0, dt) == Vector::zero(),
{
    let n2 = dist_sq(to, from);
    if n2 != 0 {
        assert(n2 > 0) by (nonlinear_arith)
            requires
                n2 == (to.x - from.x) * (to.x - from.x) + (to.y - from.y) * (to.y - from.y),
                n2 != 0,
        ;
        lemma_sqrt_exists(n2);
        let n = crate::fixed::sqrt_floor(n2);
        assert(n >= 1) by (nonlinear_arith)
            requires
                n >= 0,
                (n + 1) * (n + 1) > n2,
                n2 >= 1,
        ;
        let den = G_DEN * n2 * n;
        assert(den > 0) by (nonlinear_arith)
            requires
                den == G_DEN * n2 * n,
                G_DEN == 20,
                n2 >= 1,
                n >= 1,
        ;
        assert(UNIT * dt * 0 * (to.x - from.x) == 0) by (nonlinear_arith);
        assert(UNIT * dt * 0 * (to.y - from.y) == 0) by (nonlinear_arith);
        assert(0int / den == 0) by (nonlinear_arith)
            requires
                den > 0,
        ;
    }
}

/// No cell of a grid moves a lone body.
pub proof fn lemma_lone_cell(b: Body, g: Layout, m: int, n: int, dt: int)
    ensures
        cell_pull(seq![b], g, 0, m, n, dt) == Vector::zero(),
{
    let bodies = seq![b];
    let list = members(bodies, g, m, n, 1);
    assert(members(bodies, g, m, n, 0) =~= Seq::<usize>::empty());
    if g.in_cell(b.pos, m, n) {
        assert(list =~= seq![0usize]);
        assert(list.drop_last() =~= Seq::<usize>::empty());
        assert(list.last() == 0);
        assert(list_pull(bodies, 0, list.drop_last(), dt) == Vector::zero());
        assert(list_pull(bodies, 0, list, dt) == Vector::zero());
    } else {
        assert(list =~= Seq::<usize>::empty());
        assert(list_pull(bodies, 0, list, dt) == Vector::zero());
        assert(list_mass(bodies, list) == 0);
        assert(mean_point(0, list_moment_x(bodies, list), list_moment_y(bodies, list)) == Vec2 {
            x: 0,
            y: 0,
        });
        lemma_no_mass_no_pull(b.pos, Vec2 { x: 0, y: 0 }, dt);
    }
}

/// No row of a grid moves a lone body.
pub proof fn lemma_lone_row(b: Body, g: Layout, m: int, n: int, dt: int)
    ensures
        row_pull(seq![b], g, 0, m, n, dt) == Vector::zero(),
    decreases n,
{
    if n > 0 {
        lemma_lone_row(b, g, m, n - 1, dt);
        lemma_lone_cell(b, g, m, n - 1, dt);
    }
}

/// No grid moves a lone body.
pub proof fn lemma_lone_rows(b: Body, g: Layout, m: int, dt: int)
    ensures
        rows_pull(seq![b], g, 0, m, dt) == Vector::zero(),
    decreases m,
{
    if m > 0 {
        lemma_lone_rows(b, g, m - 1, dt);
        lemma_lone_row(b, g, m - 1, g.cols as int, dt);
    }
}

/// A body alone in its store feels no force: each of the three engines
/// leaves its velocity as it is, whatever the threshold and the time.
pub proof fn lemma_lone_body_feels_nothing(b: Body, theta: int, dt: int)
    ensures
        direct_pulls(seq![b], dt) == seq![Vector::zero()],
        grid_pulls(seq![b], dt) == seq![Vector::zero()],
        bh_pulls(seq![b], theta, dt) == seq![Vector::zero()],
{
    let bodies = seq![b];
    assert(direct_pull(bodies, 0, 1, dt) == Vector::zero()) by {
        assert(direct_pull(bodies, 0, 0, dt) == Vector::zero());
    }
    assert(direct_pulls(bodies, dt) =~= seq![Vector::zero()]);
    let g = grid_layout(bounds(bodies), 1);
    lemma_lone_rows(b, g, g.rows as int, dt);
    assert(grid_pulls(bodies, dt) =~= seq![Vector::zero()]);
    let list = iota(1);
    assert(list[0] == 0usize);
    assert(list.contains(0usize));
    assert(bh_pull(bodies, list, root_square(bounds(bodies)), 0, theta, dt) == Vector::zero());
    assert(bh_pulls(bodies, theta, dt) =~= seq![Vector::zero()]);
}

/// A body alone in its store collides with nothing: a tick moves it at its
/// velocity for the whole time, if that keeps it inside the world.
pub proof fn lemma_lone_body_moves(w: World, lambda: int)
    requires
        w.bodies.len() == 1,
    ensures
        tick(w, lambda) == if w.can_drift(lambda) {
            Some(w.drifted(lambda))
        } else {
            None
        },
{
    lemma_first_least(hit_score(w.bodies, lambda), 1);
}

/// A store of one body has no overlap to settle.
pub proof fn lemma_lone_body_is_settled(w: World)
    requires
        w.bodies.len() == 1,
    ensures
        settle(w) == w,
{
    lemma_first_least(overlap_score(w.bodies), 1);
}

/// Two bodies alone in their store whose contact falls within the tick
/// become one: both move up to their contact and merge there, and their
/// product, which has their joint mass and the one fresh identity, moves on
/// for the rest of the tick. Neither of the two identities is left.
pub proof fn lemma_pair_in_contact_becomes_one(w: World, lambda: int, t: int)
    requires
        w.bodies.len() == 2,
        w.ids.len() == 2,
        contact_time(w.bodies[0], w.bodies[1]) == Some(t),
        t <= lambda,
        lambda - t <= TIME_MAX,
        w.can_drift(t),
        merged(w.bodies[0].moved(t), w.bodies[1].moved(t)).can_move(lambda - t),
    ensures
        tick(w, lambda) == Some(
            World {
                bodies: seq![
                    merged(w.bodies[0].moved(t), w.bodies[1].moved(t)).moved(lambda - t),
                ],
                ids: seq![w.next],
                next: (w.next + 1) as BodyID,
            },
        ),
        merged(w.bodies[0].moved(t), w.bodies[1].moved(t)).moved(lambda - t).mass == (
        w.bodies[0].mass + w.bodies[1].mass) as i64,
{
    let score = hit_score(w.bodies, lambda);
    let best = Some((t, 0int, 1int));
    assert(score(0, 1) == Some(t));
    assert(is_first_least(score, 2, best, 2, 0)) by {
        assert forall|k: int, l: int| 0 <= k < l < 2 && before(k, l, 2, 0) implies ((
        #[trigger] score(k, l)) matches Some(u) ==> t < u || (t == u && !before(k, l, 0, 1))) by {
            assert(k == 0 && l == 1);
        }
    }
    lemma_first_least_unique(score, 2, best);
    let product = merged(w.bodies[0].moved(t), w.bodies[1].moved(t));
    let joined = w.drifted(t).merged_at(0, 1);
    assert(joined.bodies =~= seq![product]);
    assert(joined.ids =~= seq![w.next]);
    lemma_lone_body_is_settled(joined);
    lemma_lone_body_moves(joined, lambda - t);
    assert(joined.can_drift(lambda - t)) by {
        assert forall|k: int| 0 <= k < joined.bodies.len() implies (
        #[trigger] joined.bodies[k]).can_move(lambda - t) by {
            assert(joined.bodies[k] == product);
        }
    }
    assert(joined.drifted(lambda - t).bodies =~= seq![product.moved(lambda - t)]);
}

/// Bodies of one velocity that overlap are in contact at time 0.
pub proof fn lemma_resting_overlap_is_contact(p: Body, q: Body)
    requires
        p.wf(),
        q.wf(),
        p.speed == q.speed,
        !apart(p, q),
    ensures
        contact_time(p, q) == Some(0int),
{
    crate::body::lemma_radius_bounds(p.mass as int);
    crate::body::lemma_radius_bounds(q.mass as int);
    let r = p.radius + q.radius;
    crate::fixed::lemma_square_monotonic(r - CONTACT_SLACK, r);
    let wx = p.speed.x - q.speed.x;
    let wy = p.speed.y - q.speed.y;
    assert(wx * wx + wy * wy == 0) by (nonlinear_arith)
        requires
            wx == 0,
            wy == 0,
    ;
}

/// Two bodies of one velocity merge into a body of that velocity.
pub proof fn lemma_merged_keeps_common_speed(a: Body, b: Body)
    requires
        a.wf(),
        b.wf(),
        a.mass + b.mass <= MASS_MAX,
        a.speed == b.speed,
    ensures
        merged(a, b).speed == a.speed,
{
    let m = a.mass + b.mass;
    crate::barnes_hut::lemma_mean_of_one(m, a.speed.x as int);
    crate::barnes_hut::lemma_mean_of_one(m, a.speed.y as int);
    assert(a.mass * a.speed.x + b.mass * b.speed.x == m * a.speed.x) by (nonlinear_arith)
        requires
            m == a.mass + b.mass,
            b.speed.x == a.speed.x,
    ;
    assert(a.mass * a.speed.y + b.mass * b.speed.y == m * a.speed.y) by (nonlinear_arith)
        requires
            m == a.mass + b.mass,
            b.speed.y == a.speed.y,
    ;
}

/// Three bodies alone in their store that move as one, each pair of them
/// overlapping by more than `CONTACT_SLACK`, become one body within any
/// tick: the first two merge at once, their product overlaps the third and
/// takes it in, and what is left moves on for the whole tick. It has the
/// mass of all three and their velocity, under the second fresh identity.
pub proof fn lemma_resting_cluster_of_three_becomes_one(w: World, lambda: int)
    requires
        w.wf(),
        w.bodies.len() == 3,
        0 <= lambda <= TIME_MAX,
        w.bodies[0].speed == w.bodies[1].speed,
        w.bodies[1].speed == w.bodies[2].speed,
        !apart(w.bodies[0], w.bodies[1]),
        !apart(w.bodies[0], w.bodies[2]),
        !apart(w.bodies[1], w.bodies[2]),
        merged(w.bodies[2], merged(w.bodies[0], w.bodies[1])).can_move(lambda),
    ensures
        tick(w, lambda) == Some(
            World {
                bodies: seq![
                    merged(w.bodies[2], merged(w.bodies[0], w.bodies[1])).moved(lambda),
                ],
                ids: seq![(w.next + 1) as BodyID],
                next: (w.next + 2) as BodyID,
            },
        ),
        merged(w.bodies[2], merged(w.bodies[0], w.bodies[1])).mass == w.bodies[0].mass
            + w.bodies[1].mass + w.bodies[2].mass,
        merged(w.bodies[2], merged(w.bodies[0], w.bodies[1])).speed == w.bodies[0].speed,
{
    let a = w.bodies[0];
    let b = w.bodies[1];
    let c = w.bodies[2];
    assert(a.wf() && b.wf() && c.wf());
    // all three pairs are in contact at time 0, and the first pair comes first
    lemma_resting_overlap_is_contact(a, b);
    lemma_resting_overlap_is_contact(a, c);
    lemma_resting_overlap_is_contact(b, c);
    let score = hit_score(w.bodies, lambda);
    let best = Some((0int, 0int, 1int));
    assert(score(0, 1) == Some(0int));
    assert(is_first_least(score, 3, best, 3, 0)) by {
        assert forall|k: int, l: int| 0 <= k < l < 3 && before(k, l, 3, 0) implies ((
        #[trigger] score(k, l)) matches Some(u) ==> 0 < u || (0 == u && !before(k, l, 0, 1))) by {
            assert(score(0, 2) == Some(0int));
            assert(score(1, 2) == Some(0int));
        }
    }
    lemma_first_least_unique(score, 3, best);
    // no time passes up to the contact
    assert forall|k: int| 0 <= k < 3 implies (#[trigger] w.bodies[k]).can_move(0)
        && w.bodies[k].moved(0) == w.bodies[k] by {
        let body = w.bodies[k];
        assert(body.wf());
        assert(body.speed.x * 0 == 0 && body.speed.y * 0 == 0) by (nonlinear_arith);
        assert(0int / (UNIT as int) == 0);
    }
    assert(w.drifted(0).bodies =~= w.bodies);
    assert(w.drifted(0) == w);
    // the product of the first two takes the third in
    crate::store::lemma_total_mass_covers(w.bodies);
    crate::store::lemma_merged_at_wf(w, 0, 1);
    let product = merged(a, b);
    let joined = w.merged_at(0, 1);
    assert(joined.bodies =~= seq![c, product]);
    assert(joined.ids =~= seq![w.ids[2], w.next]);
    crate::cohesion::lemma_product_overlaps_third(a, b, c);
    crate::collision::lemma_depth_sign(c, product);
    let depths = overlap_score(joined.bodies);
    let deepest = Some((-depth(c, product), 0int, 1int));
    assert(depths(0, 1) == Some(-depth(c, product)));
    assert(is_first_least(depths, 2, deepest, 2, 0)) by {
        assert forall|k: int, l: int| 0 <= k < l < 2 && before(k, l, 2, 0) implies ((
        #[trigger] depths(k, l)) matches Some(u) ==> -depth(c, product) < u || (-depth(
            c,
            product,
        ) == u && !before(k, l, 0, 1))) by {
            assert(k == 0 && l == 1);
        }
    }
    lemma_first_least_unique(depths, 2, deepest);
    crate::store::lemma_merged_at_wf(joined, 0, 1);
    let whole = merged(c, product);
    let single = joined.merged_at(0, 1);
    assert(single.bodies =~= seq![whole]);
    assert(single.ids =~= seq![(w.next + 1) as BodyID]);
    lemma_lone_body_is_settled(single);
    assert(settle(joined) == single);
    // and what is left moves on
    lemma_lone_body_moves(single, lambda);
    assert(single.can_drift(lambda)) by {
        assert forall|k: int| 0 <= k < single.bodies.len() implies (
        #[trigger] single.bodies[k]).can_move(lambda) by {
            assert(single.bodies[k] == whole);
        }
    }
    assert(single.drifted(lambda).bodies =~= seq![whole.moved(lambda)]);
    crate::body::lemma_merged_wf(a, b);
    lemma_merged_keeps_common_speed(a, b);
    lemma_merged_keeps_common_speed(c, product);
}

} // verus!
