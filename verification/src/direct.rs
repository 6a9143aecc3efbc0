//! The direct engine: the exact sum of the pulls of all other bodies.

use vstd::prelude::*;
use crate::body::{pull, pull_of, Body};
use crate::fixed::{OutOfRange, MASS_MAX, TIME_MAX};
use crate::store::{lemma_total_mass_covers, shares, BodyStore};
use crate::vector::Vector;

verus! {

/// The velocity that the bodies before place `n`, but for the body at `i`
/// itself, impart on the body at `i` during `dt`.
pub open spec fn direct_pull(bodies: Seq<Body>, i: int, n: int, dt: int) -> Vector
    decreases n,
{
    if n <= 0 {
        Vector::zero()
    } else if n - 1 == i {
        direct_pull(bodies, i, n - 1, dt)
    } else {
        direct_pull(bodies, i, n - 1, dt).plus(
            pull(bodies[i].pos, bodies[n - 1].pos, bodies[n - 1].mass as int, dt),
        )
    }
}

/// For each body, the velocity that all the others impart on it during `dt`.
pub open spec fn direct_pulls(bodies: Seq<Body>, dt: int) -> Seq<Vector> {
    Seq::new(bodies.len(), |i: int| direct_pull(bodies, i, bodies.len() as int, dt))
}

/// Pairwise summation over all bodies.
pub struct Direct;

impl Direct {
    /// Adds to the velocity of each body what every other body imparts on it
    /// during `dt`, each pull computed from the positions and masses as they
    /// are on entry. Where a velocity would leave its range, nothing changes.
    pub fn handle(bodies: &mut BodyStore, dt: i64) -> (r: Result<(), OutOfRange>)
        requires
            old(bodies).wf(),
            0 <= dt <= TIME_MAX,
        ensures
            final(bodies).wf(),
            r is Ok <==> old(bodies)@.can_push(direct_pulls(old(bodies)@.bodies, dt as int)),
            r is Ok ==> final(bodies)@ == old(bodies)@.pushed(
                direct_pulls(old(bodies)@.bodies, dt as int),
            ),
            r is Err ==> final(bodies)@ == old(bodies)@,
    {
        let n: usize = bodies.len();
        let mut dvs: Vec<(i128, i128)> = Vec::new();
        proof {
            lemma_total_mass_covers(bodies@.bodies);
        }
        let mut i: usize = 0;
        while i < n
            invariant
                i <= n,
                n == bodies@.bodies.len(),
                n <= MASS_MAX,
                bodies.wf(),
                0 <= dt <= TIME_MAX,
                dvs.len() == i,
                forall|l: int|
                    0 <= l < i ==> (#[trigger] dvs[l]).0 == direct_pull(
                        bodies@.bodies,
                        l,
                        n as int,
                        dt as int,
                    ).x && dvs[l].1 == direct_pull(bodies@.bodies, l, n as int, dt as int).y,
                forall|l: int|
                    0 <= l < i ==> -0x100_0000_0000_0000_0000_0000_0000_0000 <= (#[trigger] dvs[l]).0
                        <= 0x100_0000_0000_0000_0000_0000_0000_0000
                        && -0x100_0000_0000_0000_0000_0000_0000_0000 <= dvs[l].1
                        <= 0x100_0000_0000_0000_0000_0000_0000_0000,
            decreases n - i,
        {
            let p: Body = bodies.body(i);
            let mut ax: i128 = 0;
            let mut ay: i128 = 0;
            let mut j: usize = 0;
            while j < n
                invariant
                    j <= n,
                    i < n,
                    n == bodies@.bodies.len(),
                    n <= MASS_MAX,
                    bodies.wf(),
                    0 <= dt <= TIME_MAX,
                    p == bodies@.bodies[i as int],
                    ax == direct_pull(bodies@.bodies, i as int, j as int, dt as int).x,
                    ay == direct_pull(bodies@.bodies, i as int, j as int, dt as int).y,
                    -(j * 0x10_0000_0000_0000_0000_0000) <= ax <= j * 0x10_0000_0000_0000_0000_0000,
                    -(j * 0x10_0000_0000_0000_0000_0000) <= ay <= j * 0x10_0000_0000_0000_0000_0000,
                decreases n - j,
            {
                if j != i {
                    let q: Body = bodies.body(j);
                    assert(p.wf() && q.wf());
                    let a: (i128, i128) = pull_of(p.pos, q.pos, q.mass, dt);
                    ax = ax + a.0;
                    ay = ay + a.1;
                }
                j += 1;
            }
            dvs.push((ax, ay));
            i += 1;
        }
        assert(shares(dvs@) =~= direct_pulls(bodies@.bodies, dt as int));
        if bodies.try_push(&dvs) {
            Ok(())
        } else {
            Err(OutOfRange)
        }
    }
}

} // verus!
