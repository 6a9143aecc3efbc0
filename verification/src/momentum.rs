//! Momentum: what a merge keeps of it, and how a store is brought to rest.

use vstd::prelude::*;
use crate::body::{lemma_merged_wf, merged, Body};
use crate::fixed::{lemma_trunc_div_error, OutOfRange, MASS_MAX};
use crate::store::{
    lemma_momentum_bound, lemma_momentum_of_shifted, lemma_total_mass_covers, momentum_shift,
    momentum_x, momentum_y, shares, total_mass, BodyStore,
};
use crate::vector::Vector;

verus! {

/// A merge conserves mass exactly, and momentum up to the rounding of the new
/// velocity: the momentum of the product differs from the joint momentum of
/// the two bodies by less than the product's mass along each axis.
pub proof fn lemma_merge_conserves_momentum(a: Body, b: Body)
    requires
        a.wf(),
        b.wf(),
        a.mass + b.mass <= MASS_MAX,
    ensures
        merged(a, b).mass == a.mass + b.mass,
        -merged(a, b).mass < merged(a, b).mass * merged(a, b).speed.x - (a.mass * a.speed.x + b.mass
            * b.speed.x) < merged(a, b).mass,
        -merged(a, b).mass < merged(a, b).mass * merged(a, b).speed.y - (a.mass * a.speed.y + b.mass
            * b.speed.y) < merged(a, b).mass,
{
    lemma_merged_wf(a, b);
    crate::body::lemma_weighted_mean_between(
        a.mass as int,
        a.speed.x as int,
        b.mass as int,
        b.speed.x as int,
    );
    crate::body::lemma_weighted_mean_between(
        a.mass as int,
        a.speed.y as int,
        b.mass as int,
        b.speed.y as int,
    );
    lemma_trunc_div_error(a.mass * a.speed.x + b.mass * b.speed.x, a.mass + b.mass);
    lemma_trunc_div_error(a.mass * a.speed.y + b.mass * b.speed.y, a.mass + b.mass);
}

/// The same velocity change for each of `n` bodies.
pub open spec fn uniform(n: nat, dv: Vector) -> Seq<Vector> {
    Seq::new(n, |k: int| dv)
}

impl Body {
    /// Brings the store to rest: each velocity changes by the same amount,
    /// which cancels the net momentum up to its rounding. Where a velocity
    /// would leave its range, nothing changes.
    pub fn adjust_momentum(bodies: &mut BodyStore) -> (r: Result<(), OutOfRange>)
        requires
            old(bodies).wf(),
        ensures
            final(bodies).wf(),
            r is Ok <==> old(bodies)@.can_push(
                uniform(old(bodies)@.bodies.len(), momentum_shift(old(bodies)@.bodies)),
            ),
            r is Ok ==> final(bodies)@ == old(bodies)@.pushed(
                uniform(old(bodies)@.bodies.len(), momentum_shift(old(bodies)@.bodies)),
            ),
            r is Err ==> final(bodies)@ == old(bodies)@,
            r is Ok && total_mass(old(bodies)@.bodies) > 0 ==> -total_mass(old(bodies)@.bodies)
                < momentum_x(final(bodies)@.bodies) < total_mass(old(bodies)@.bodies)
                && -total_mass(old(bodies)@.bodies) < momentum_y(final(bodies)@.bodies)
                < total_mass(old(bodies)@.bodies),
    {
        let n: usize = bodies.len();
        let m: i64 = bodies.total_mass();
        let p: (i128, i128) = bodies.momentum();
        let ghost shift = momentum_shift(bodies@.bodies);
        proof {
            lemma_total_mass_covers(bodies@.bodies);
            lemma_momentum_bound(bodies@.bodies);
            assert(n * 0x100_0000_0000_0000 <= 0x1_0000_0000 * 0x100_0000_0000_0000)
                by (nonlinear_arith)
                requires
                    n <= 0x1_0000_0000,
            ;
            if m > 0 {
                lemma_trunc_div_error(p.0 as int, m as int);
                lemma_trunc_div_error(p.1 as int, m as int);
                crate::fixed::lemma_trunc_div_between(
                    p.0 as int,
                    m as int,
                    -0x100_0000_0000_0000_0000_0000,
                    0x100_0000_0000_0000_0000_0000,
                );
                crate::fixed::lemma_trunc_div_between(
                    p.1 as int,
                    m as int,
                    -0x100_0000_0000_0000_0000_0000,
                    0x100_0000_0000_0000_0000_0000,
                );
            }
        }
        let dx: i128 = if m == 0 {
            0
        } else {
            -(p.0 / (m as i128))
        };
        let dy: i128 = if m == 0 {
            0
        } else {
            -(p.1 / (m as i128))
        };
        assert(shift == Vector { x: dx as int, y: dy as int });
        let mut dvs: Vec<(i128, i128)> = Vec::new();
        let mut k: usize = 0;
        while k < n
            invariant
                k <= n,
                dvs.len() == k,
                forall|l: int| 0 <= l < k ==> dvs[l] == (dx, dy),
            decreases n - k,
        {
            dvs.push((dx, dy));
            k += 1;
        }
        assert(shares(dvs@) =~= uniform(n as nat, shift));
        let ghost before = bodies@;
        if bodies.try_push(&dvs) {
            proof {
                let after = before.pushed(uniform(n as nat, shift));
                assert forall|k: int| 0 <= k < before.bodies.len() implies (
                #[trigger] after.bodies[k]).mass == before.bodies[k].mass && after.bodies[k].speed.x
                    == before.bodies[k].speed.x + shift.x && after.bodies[k].speed.y
                    == before.bodies[k].speed.y + shift.y by {
                    assert(before.bodies[k].can_push(uniform(n as nat, shift)[k]));
                }
                lemma_momentum_of_shifted(before.bodies, after.bodies, shift);
                if m > 0 {
                    let qx = crate::fixed::trunc_div(p.0 as int, m as int);
                    let qy = crate::fixed::trunc_div(p.1 as int, m as int);
                    assert(m * shift.x == -(m * qx)) by (nonlinear_arith)
                        requires
                            shift.x == -qx,
                    ;
                    assert(m * shift.y == -(m * qy)) by (nonlinear_arith)
                        requires
                            shift.y == -qy,
                    ;
                }
            }
            Ok(())
        } else {
            Err(OutOfRange)
        }
    }
}

} // verus!
