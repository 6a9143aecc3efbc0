//! Clusters: lists of places in a store, with their joint mass, their
//! moments, their centre of mass and the pull they exert body by body.

use vstd::prelude::*;
use crate::body::{pull, pull_of, Body};
use crate::fixed::{trunc_div, MASS_MAX, TIME_MAX, UNIT};
use crate::store::{all_wf, BodyStore};
use crate::vector::{lemma_product_bound, Vec2, Vector};

verus! {

/// The joint mass of the bodies at the places of `list`.
pub open spec fn list_mass(bodies: Seq<Body>, list: Seq<usize>) -> int
    decreases list.len(),
{
    if list.len() == 0 {
        0
    } else {
        list_mass(bodies, list.drop_last()) + bodies[list.last() as int].mass
    }
}

/// The sum over the places of `list` of mass times abscissa.
pub open spec fn list_moment_x(bodies: Seq<Body>, list: Seq<usize>) -> int
    decreases list.len(),
{
    if list.len() == 0 {
        0
    } else {
        list_moment_x(bodies, list.drop_last()) + bodies[list.last() as int].mass
            * bodies[list.last() as int].pos.x
    }
}

/// The sum over the places of `list` of mass times ordinate.
pub open spec fn list_moment_y(bodies: Seq<Body>, list: Seq<usize>) -> int
    decreases list.len(),
{
    if list.len() == 0 {
        0
    } else {
        list_moment_y(bodies, list.drop_last()) + bodies[list.last() as int].mass
            * bodies[list.last() as int].pos.y
    }
}

/// The centre of mass of a joint mass with the given moments, rounded toward
/// zero; the origin for no mass.
pub open spec fn mean_point(mass: int, mx: int, my: int) -> Vec2 {
    if mass == 0 {
        Vec2 { x: 0, y: 0 }
    } else {
        Vec2 { x: trunc_div(mx, mass) as i64, y: trunc_div(my, mass) as i64 }
    }
}

/// The velocity that the bodies at the places of `list`, but for the body at
/// `i` itself, impart on the body at `i` during `dt`.
pub open spec fn list_pull(bodies: Seq<Body>, i: int, list: Seq<usize>, dt: int) -> Vector
    decreases list.len(),
{
    if list.len() == 0 {
        Vector::zero()
    } else if list.last() == i {
        list_pull(bodies, i, list.drop_last(), dt)
    } else {
        list_pull(bodies, i, list.drop_last(), dt).plus(
            pull(
                bodies[i].pos,
                bodies[list.last() as int].pos,
                bodies[list.last() as int].mass as int,
                dt,
            ),
        )
    }
}

/// A prefix of a list of places weighs no more than the list.
pub proof fn lemma_list_prefix_mass(bodies: Seq<Body>, list: Seq<usize>, t: int)
    requires
        all_wf(bodies),
        0 <= t <= list.len(),
        forall|u: int| 0 <= u < list.len() ==> (#[trigger] list[u]) < bodies.len(),
    ensures
        0 <= list_mass(bodies, list.take(t)) <= list_mass(bodies, list),
    decreases list.len() - t,
{
    if t < list.len() {
        lemma_list_prefix_mass(bodies, list, t + 1);
        assert(list.take(t + 1).drop_last() =~= list.take(t));
        assert(bodies[list[t] as int].wf());
    } else {
        assert(list.take(t) =~= list);
    }
    if t == 0 {
        assert(list.take(0).len() == 0);
    } else {
        lemma_list_prefix_mass_nonneg(bodies, list.take(t));
    }
}

/// A list of places of well-formed bodies has no negative mass.
pub proof fn lemma_list_prefix_mass_nonneg(bodies: Seq<Body>, list: Seq<usize>)
    requires
        all_wf(bodies),
        forall|u: int| 0 <= u < list.len() ==> (#[trigger] list[u]) < bodies.len(),
    ensures
        0 <= list_mass(bodies, list),
    decreases list.len(),
{
    if list.len() > 0 {
        assert forall|u: int| 0 <= u < list.drop_last().len() implies (#[trigger] list.drop_last()[u])
            < bodies.len() by {
            assert(list.drop_last()[u] == list[u]);
        }
        lemma_list_prefix_mass_nonneg(bodies, list.drop_last());
        assert(bodies[list.last() as int].wf());
    }
}

/// What the bodies at the places of `places`, but for the body at `i`
/// itself, impart on the body at `i` during `dt`.
pub fn cluster_pull(i: usize, places: &Vec<usize>, bodies: &BodyStore, dt: i64) -> (a: (
    i128,
    i128,
))
    requires
        bodies.wf(),
        i < bodies@.bodies.len(),
        forall|u: int| 0 <= u < places@.len() ==> (#[trigger] places@[u]) < bodies@.bodies.len(),
        list_mass(bodies@.bodies, places@) <= MASS_MAX,
        0 <= dt <= TIME_MAX,
    ensures
        a.0 == list_pull(bodies@.bodies, i as int, places@, dt as int).x,
        a.1 == list_pull(bodies@.bodies, i as int, places@, dt as int).y,
        -0x10_0000_0000_0000_0000_0000 <= a.0 <= 0x10_0000_0000_0000_0000_0000,
        -0x10_0000_0000_0000_0000_0000 <= a.1 <= 0x10_0000_0000_0000_0000_0000,
{
    let p: Body = bodies.body(i);
    let count: usize = places.len();
    let ghost all = bodies@.bodies;
    let ghost list = places@;
    let ghost kk: int = UNIT * dt;
    proof {
        lemma_product_bound(UNIT as int, 0x10_0000, dt as int, 0x1_0000_0000);
        assert(UNIT * dt >= 0) by (nonlinear_arith)
            requires
                UNIT >= 0,
                dt >= 0,
        ;
    }
    let mut ax: i128 = 0;
    let mut ay: i128 = 0;
    let mut t: usize = 0;
    while t < count
        invariant
            t <= count,
            count == list.len(),
            list == places@,
            all == bodies@.bodies,
            bodies.wf(),
            i < all.len(),
            p == all[i as int],
            forall|u: int| 0 <= u < list.len() ==> (#[trigger] list[u]) < all.len(),
            list_mass(all, list) <= MASS_MAX,
            0 <= dt <= TIME_MAX,
            kk == UNIT * dt,
            0 <= kk <= 0x10_0000_0000_0000,
            ax == list_pull(all, i as int, list.take(t as int), dt as int).x,
            ay == list_pull(all, i as int, list.take(t as int), dt as int).y,
            -(kk * list_mass(all, list.take(t as int))) <= ax <= kk * list_mass(
                all,
                list.take(t as int),
            ),
            -(kk * list_mass(all, list.take(t as int))) <= ay <= kk * list_mass(
                all,
                list.take(t as int),
            ),
        decreases count - t,
    {
        let j: usize = places[t];
        let q: Body = bodies.body(j);
        proof {
            assert(list.take(t + 1).drop_last() =~= list.take(t as int));
            assert(list.take(t + 1).last() == j);
            assert(p.wf() && q.wf());
            lemma_list_prefix_mass(all, list, t as int);
            lemma_list_prefix_mass(all, list, t + 1);
            let m0 = list_mass(all, list.take(t as int));
            let m1 = list_mass(all, list.take(t + 1));
            assert(m1 == m0 + q.mass);
            assert(kk * m1 == kk * m0 + kk * q.mass) by (nonlinear_arith)
                requires
                    m1 == m0 + q.mass,
            ;
            assert(kk * q.mass >= 0) by (nonlinear_arith)
                requires
                    kk >= 0,
                    q.mass >= 0,
            ;
            lemma_product_bound(kk, 0x10_0000_0000_0000, m1, 0x1_0000_0000);
            lemma_product_bound(kk, 0x10_0000_0000_0000, m0, 0x1_0000_0000);
        }
        if j != i {
            let a: (i128, i128) = pull_of(p.pos, q.pos, q.mass, dt);
            ax = ax + a.0;
            ay = ay + a.1;
        }
        t += 1;
    }
    proof {
        assert(list.take(count as int) =~= list);
        lemma_list_prefix_mass_nonneg(all, list);
        lemma_product_bound(kk, 0x10_0000_0000_0000, list_mass(all, list), 0x1_0000_0000);
    }
    (ax, ay)
}

} // verus!
