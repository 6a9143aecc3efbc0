//! The body store: the live bodies in the order of their identities.

use vstd::prelude::*;
use crate::body::{merged, Body};
use crate::fixed::{trunc_div, MASS_MAX, TIME_MAX};
use crate::vector::Vector;

verus! {

/// The identity of a body: issued once, in increasing order, never reused.
pub type BodyID = u64;

/// Sum of the masses of `bodies`.
pub open spec fn total_mass(bodies: Seq<Body>) -> int
    decreases bodies.len(),
{
    if bodies.len() == 0 {
        0
    } else {
        total_mass(bodies.drop_last()) + bodies.last().mass
    }
}

/// Sum over `bodies` of mass times velocity, along x.
pub open spec fn momentum_x(bodies: Seq<Body>) -> int
    decreases bodies.len(),
{
    if bodies.len() == 0 {
        0
    } else {
        momentum_x(bodies.drop_last()) + bodies.last().mass * bodies.last().speed.x
    }
}

/// Sum over `bodies` of mass times velocity, along y.
pub open spec fn momentum_y(bodies: Seq<Body>) -> int
    decreases bodies.len(),
{
    if bodies.len() == 0 {
        0
    } else {
        momentum_y(bodies.drop_last()) + bodies.last().mass * bodies.last().speed.y
    }
}

/// Every body of the sequence is well formed.
pub open spec fn all_wf(bodies: Seq<Body>) -> bool {
    forall|i: int| 0 <= i < bodies.len() ==> (#[trigger] bodies[i]).wf()
}

/// Identities increase strictly, lie below `next`, and `next` leaves room for
/// one fresh identity per live body.
pub open spec fn ids_wf(ids: Seq<BodyID>, next: int) -> bool {
    &&& forall|i: int, j: int| 0 <= i < j < ids.len() ==> ids[i] < ids[j]
    &&& forall|i: int| 0 <= i < ids.len() ==> ids[i] < next
    &&& next + ids.len() <= u64::MAX
}

/// A body more adds its mass and its momentum.
pub proof fn lemma_total_mass_push(s: Seq<Body>, b: Body)
    ensures
        total_mass(s.push(b)) == total_mass(s) + b.mass,
        momentum_x(s.push(b)) == momentum_x(s) + b.mass * b.speed.x,
        momentum_y(s.push(b)) == momentum_y(s) + b.mass * b.speed.y,
{
    assert(s.push(b).drop_last() =~= s);
}

/// A body less takes its mass and its momentum away.
pub proof fn lemma_total_mass_remove(s: Seq<Body>, i: int)
    requires
        0 <= i < s.len(),
    ensures
        total_mass(s.remove(i)) == total_mass(s) - s[i].mass,
        momentum_x(s.remove(i)) == momentum_x(s) - s[i].mass * s[i].speed.x,
        momentum_y(s.remove(i)) == momentum_y(s) - s[i].mass * s[i].speed.y,
    decreases s.len(),
{
    if i == s.len() - 1 {
        assert(s.remove(i) =~= s.drop_last());
    } else {
        lemma_total_mass_remove(s.drop_last(), i);
        assert(s.remove(i).drop_last() =~= s.drop_last().remove(i));
        assert(s.remove(i).last() == s.last());
    }
}

/// A store of well-formed bodies holds no more bodies than mass, and no body
/// or pair of bodies outweighs the whole.
pub proof fn lemma_total_mass_covers(s: Seq<Body>)
    requires
        all_wf(s),
    ensures
        s.len() <= total_mass(s),
        forall|i: int| 0 <= i < s.len() ==> (#[trigger] s[i]).mass <= total_mass(s),
        forall|i: int, j: int|
            0 <= i < j < s.len() ==> (#[trigger] s[i]).mass + (#[trigger] s[j]).mass
                <= total_mass(s),
    decreases s.len(),
{
    if s.len() > 0 {
        let t = s.drop_last();
        assert forall|i: int| 0 <= i < t.len() implies (#[trigger] t[i]).wf() by {
            assert(t[i] == s[i]);
        }
        lemma_total_mass_covers(t);
        assert(s.last().wf());
        assert forall|i: int| 0 <= i < s.len() implies (#[trigger] s[i]).mass <= total_mass(
            s,
        ) by {
            if i < t.len() {
                assert(t[i] == s[i]);
            }
        }
        assert forall|i: int, j: int| 0 <= i < j < s.len() implies (#[trigger] s[i]).mass + (
        #[trigger] s[j]).mass <= total_mass(s) by {
            assert(t[i] == s[i]);
            if j < t.len() {
                assert(t[j] == s[j]);
            }
        }
    }
}

/// Sequences of equal masses weigh the same.
pub proof fn lemma_total_mass_same(s: Seq<Body>, t: Seq<Body>)
    requires
        s.len() == t.len(),
        forall|i: int| 0 <= i < s.len() ==> (#[trigger] s[i]).mass == t[i].mass,
    ensures
        total_mass(s) == total_mass(t),
    decreases s.len(),
{
    if s.len() > 0 {
        assert forall|i: int| 0 <= i < s.drop_last().len() implies (#[trigger] s.drop_last()[i]).mass
            == t.drop_last()[i].mass by {
            assert(s.drop_last()[i] == s[i]);
        }
        lemma_total_mass_same(s.drop_last(), t.drop_last());
        assert(s[s.len() - 1].mass == t[s.len() - 1].mass);
    }
}

/// The state of a store: the bodies in the order of their identities, the
/// identities, and the identity that the next new body gets.
pub struct World {
    pub bodies: Seq<Body>,
    pub ids: Seq<BodyID>,
    pub next: BodyID,
}

impl World {
    /// There is one identity per body, the identities are in order and below
    /// the next one, every body is well formed, and the total mass is
    /// representable.
    pub open spec fn wf(self) -> bool {
        &&& self.ids.len() == self.bodies.len()
        &&& all_wf(self.bodies)
        &&& ids_wf(self.ids, self.next as int)
        &&& total_mass(self.bodies) <= MASS_MAX
    }

    /// What a merge of the bodies at `i < j` leaves: both are gone with their
    /// identities, and their product stands last under a fresh identity.
    pub open spec fn merged_at(self, i: int, j: int) -> World {
        World {
            bodies: self.bodies.remove(j).remove(i).push(merged(self.bodies[i], self.bodies[j])),
            ids: self.ids.remove(j).remove(i).push(self.next),
            next: (self.next + 1) as BodyID,
        }
    }

    /// Every body can move for `t` without leaving the world.
    pub open spec fn can_drift(self, t: int) -> bool {
        forall|k: int| 0 <= k < self.bodies.len() ==> (#[trigger] self.bodies[k]).can_move(t)
    }

    /// The state after every body has moved at its velocity for `t`.
    pub open spec fn drifted(self, t: int) -> World {
        World {
            bodies: Seq::new(self.bodies.len(), |k: int| self.bodies[k].moved(t)),
            ..self
        }
    }

    /// Every body can take its share of `dvs` without its velocity leaving the range.
    pub open spec fn can_push(self, dvs: Seq<Vector>) -> bool {
        forall|k: int| 0 <= k < self.bodies.len() ==> (#[trigger] self.bodies[k]).can_push(dvs[k])
    }

    /// The state after the velocity of each body has grown by its share of `dvs`.
    pub open spec fn pushed(self, dvs: Seq<Vector>) -> World {
        World {
            bodies: Seq::new(self.bodies.len(), |k: int| self.bodies[k].pushed(dvs[k])),
            ..self
        }
    }
}

/// The velocity change that cancels the net momentum: minus the momentum over
/// the total mass, rounded toward zero. An empty store needs none.
pub open spec fn momentum_shift(bodies: Seq<Body>) -> Vector {
    if total_mass(bodies) == 0 {
        Vector::zero()
    } else {
        Vector {
            x: -trunc_div(momentum_x(bodies), total_mass(bodies)),
            y: -trunc_div(momentum_y(bodies), total_mass(bodies)),
        }
    }
}

/// Pushing keeps a state well formed and keeps every mass.
pub proof fn lemma_pushed_wf(w: World, dvs: Seq<Vector>)
    requires
        w.wf(),
        w.can_push(dvs),
    ensures
        w.pushed(dvs).wf(),
        w.pushed(dvs).bodies.len() == w.bodies.len(),
        total_mass(w.pushed(dvs).bodies) == total_mass(w.bodies),
{
    let d = w.pushed(dvs);
    assert forall|k: int| 0 <= k < d.bodies.len() implies (#[trigger] d.bodies[k]).wf() by {
        assert(w.bodies[k].wf() && w.bodies[k].can_push(dvs[k]));
    }
    lemma_total_mass_same(d.bodies, w.bodies);
}

/// A common change of velocity changes the momentum by the total mass times it.
pub proof fn lemma_momentum_of_shifted(s: Seq<Body>, t: Seq<Body>, dv: Vector)
    requires
        s.len() == t.len(),
        forall|k: int|
            0 <= k < s.len() ==> (#[trigger] t[k]).mass == s[k].mass && t[k].speed.x == s[k].speed.x
                + dv.x && t[k].speed.y == s[k].speed.y + dv.y,
    ensures
        momentum_x(t) == momentum_x(s) + total_mass(s) * dv.x,
        momentum_y(t) == momentum_y(s) + total_mass(s) * dv.y,
    decreases s.len(),
{
    if s.len() > 0 {
        let s0 = s.drop_last();
        let t0 = t.drop_last();
        assert forall|k: int| 0 <= k < s0.len() implies (#[trigger] t0[k]).mass == s0[k].mass
            && t0[k].speed.x == s0[k].speed.x + dv.x && t0[k].speed.y == s0[k].speed.y + dv.y by {
            assert(t0[k] == t[k]);
        }
        lemma_momentum_of_shifted(s0, t0, dv);
        let a = s.last();
        let b = t.last();
        assert(b == t[t.len() - 1]);
        assert(b.mass * b.speed.x == a.mass * a.speed.x + a.mass * dv.x) by (nonlinear_arith)
            requires
                b.mass == a.mass,
                b.speed.x == a.speed.x + dv.x,
        ;
        assert(b.mass * b.speed.y == a.mass * a.speed.y + a.mass * dv.y) by (nonlinear_arith)
            requires
                b.mass == a.mass,
                b.speed.y == a.speed.y + dv.y,
        ;
        assert((total_mass(s0) + a.mass) * dv.x == total_mass(s0) * dv.x + a.mass * dv.x)
            by (nonlinear_arith);
        assert((total_mass(s0) + a.mass) * dv.y == total_mass(s0) * dv.y + a.mass * dv.y)
            by (nonlinear_arith);
    }
}

/// The momentum of well-formed bodies is bounded by their number.
pub proof fn lemma_momentum_bound(s: Seq<Body>)
    requires
        all_wf(s),
    ensures
        -(s.len() * 0x100_0000_0000_0000) <= momentum_x(s) <= s.len() * 0x100_0000_0000_0000,
        -(s.len() * 0x100_0000_0000_0000) <= momentum_y(s) <= s.len() * 0x100_0000_0000_0000,
    decreases s.len(),
{
    if s.len() > 0 {
        let s0 = s.drop_last();
        assert forall|k: int| 0 <= k < s0.len() implies (#[trigger] s0[k]).wf() by {
            assert(s0[k] == s[k]);
        }
        lemma_momentum_bound(s0);
        let a = s.last();
        assert(a.wf());
        crate::vector::lemma_product_bound(a.mass as int, 0x1_0000_0000, a.speed.x as int, 0x100_0000);
        crate::vector::lemma_product_bound(a.mass as int, 0x1_0000_0000, a.speed.y as int, 0x100_0000);
    }
}

/// A merge keeps a state well formed, removes one body and keeps the total mass.
pub proof fn lemma_merged_at_wf(w: World, i: int, j: int)
    requires
        w.wf(),
        0 <= i < j < w.bodies.len(),
    ensures
        w.merged_at(i, j).wf(),
        w.merged_at(i, j).bodies.len() == w.bodies.len() - 1,
        total_mass(w.merged_at(i, j).bodies) == total_mass(w.bodies),
        w.bodies[i].mass + w.bodies[j].mass <= MASS_MAX,
        merged(w.bodies[i], w.bodies[j]).wf(),
{
    let a = w.bodies[i];
    let b = w.bodies[j];
    lemma_total_mass_covers(w.bodies);
    assert(a.wf() && b.wf());
    crate::body::lemma_merged_wf(a, b);
    let c = merged(a, b);
    let r1 = w.bodies.remove(j);
    let r2 = r1.remove(i);
    lemma_total_mass_remove(w.bodies, j);
    assert(r1[i] == a);
    lemma_total_mass_remove(r1, i);
    lemma_total_mass_push(r2, c);
    let m = w.merged_at(i, j);
    assert forall|k: int| 0 <= k < m.bodies.len() implies (#[trigger] m.bodies[k]).wf() by {
        if k < r2.len() {
            let k1 = if k < i { k } else { k + 1 };
            let k0 = if k1 < j { k1 } else { k1 + 1 };
            assert(r2[k] == r1[k1]);
            assert(r1[k1] == w.bodies[k0]);
        }
    }
    let q1 = w.ids.remove(j);
    let q2 = q1.remove(i);
    assert forall|k: int| 0 <= k < m.ids.len() implies m.ids[k] < m.next by {
        if k < q2.len() {
            let k1 = if k < i { k } else { k + 1 };
            let k0 = if k1 < j { k1 } else { k1 + 1 };
            assert(q2[k] == q1[k1]);
            assert(q1[k1] == w.ids[k0]);
        }
    }
    assert forall|k: int, l: int| 0 <= k < l < m.ids.len() implies m.ids[k] < m.ids[l] by {
        let k1 = if k < i { k } else { k + 1 };
        let k0 = if k1 < j { k1 } else { k1 + 1 };
        assert(q2[k] == q1[k1]);
        assert(q1[k1] == w.ids[k0]);
        if l < q2.len() {
            let l1 = if l < i { l } else { l + 1 };
            let l0 = if l1 < j { l1 } else { l1 + 1 };
            assert(q2[l] == q1[l1]);
            assert(q1[l1] == w.ids[l0]);
        }
    }
}

/// Moving keeps a state well formed and keeps every mass.
pub proof fn lemma_drifted_wf(w: World, t: int)
    requires
        w.wf(),
        w.can_drift(t),
    ensures
        w.drifted(t).wf(),
        w.drifted(t).bodies.len() == w.bodies.len(),
        total_mass(w.drifted(t).bodies) == total_mass(w.bodies),
{
    let d = w.drifted(t);
    assert forall|k: int| 0 <= k < d.bodies.len() implies (#[trigger] d.bodies[k]).wf() by {
        assert(w.bodies[k].wf() && w.bodies[k].can_move(t));
    }
    lemma_total_mass_same(d.bodies, w.bodies);
}

/// The live bodies, keyed by identity. The bodies stand in the order of their
/// identities, which is the order of their creation.
pub struct BodyStore {
    ids: Vec<BodyID>,
    bodies: Vec<Body>,
    next_id: BodyID,
    mass: i64,
}

impl View for BodyStore {
    type V = World;

    closed spec fn view(&self) -> World {
        World { bodies: self.bodies@, ids: self.ids@, next: self.next_id }
    }
}

impl BodyStore {
    /// The cached sum of the masses.
    pub closed spec fn cached_mass(&self) -> int {
        self.mass as int
    }

    /// The state is well formed and the cached mass is the total mass.
    pub open spec fn wf(&self) -> bool {
        &&& self@.wf()
        &&& self.cached_mass() == total_mass(self@.bodies)
    }

    /// An empty store.
    pub fn new() -> (s: BodyStore)
        ensures
            s.wf(),
            s@.bodies.len() == 0,
            s@.ids.len() == 0,
            s@.next == 0,
    {
        BodyStore { ids: Vec::new(), bodies: Vec::new(), next_id: 0, mass: 0 }
    }

    /// The number of bodies.
    pub fn len(&self) -> (n: usize)
        ensures
            n == self@.bodies.len(),
    {
        self.bodies.len()
    }

    /// The body at place `i` in the order of identities.
    pub fn body(&self, i: usize) -> (b: Body)
        requires
            i < self@.bodies.len(),
        ensures
            b == self@.bodies[i as int],
    {
        self.bodies[i]
    }

    /// The identity at place `i`.
    pub fn id(&self, i: usize) -> (id: BodyID)
        requires
            i < self@.ids.len(),
        ensures
            id == self@.ids[i as int],
    {
        self.ids[i]
    }

    /// The sum of the masses.
    pub fn total_mass(&self) -> (m: i64)
        requires
            self.wf(),
        ensures
            m == total_mass(self@.bodies),
    {
        self.mass
    }

    /// The place of the body with identity `id`.
    pub fn index_of(&self, id: BodyID) -> (r: Option<usize>)
        ensures
            match r {
                Some(i) => i < self@.ids.len() && self@.ids[i as int] == id,
                None => !self@.ids.contains(id),
            },
    {
        let mut i: usize = 0;
        while i < self.ids.len()
            invariant
                i <= self.ids.len(),
                forall|k: int| 0 <= k < i ==> self.ids@[k] != id,
            decreases self.ids.len() - i,
        {
            if self.ids[i] == id {
                return Some(i);
            }
            i += 1;
        }
        None
    }

    /// The body with identity `id`.
    pub fn get(&self, id: BodyID) -> (r: Option<Body>)
        requires
            self.wf(),
        ensures
            match r {
                Some(b) => exists|i: int|
                    0 <= i < self@.bodies.len() && self@.ids[i] == id && self@.bodies[i] == b,
                None => !self@.ids.contains(id),
            },
    {
        match self.index_of(id) {
            Some(i) => Some(self.bodies[i]),
            None => None,
        }
    }

    /// Adds a body under a fresh identity and returns the identity. Refused
    /// when the body is malformed, or the store would outweigh `MASS_MAX` or
    /// run out of identities.
    pub fn insert(&mut self, body: Body) -> (r: Option<BodyID>)
        requires
            old(self).wf(),
        ensures
            final(self).wf(),
            r is Some <==> body.wf() && total_mass(old(self)@.bodies) + body.mass <= MASS_MAX
                && old(self)@.next + old(self)@.bodies.len() + 2 <= u64::MAX,
            r matches Some(id) ==> final(self)@ == (World {
                bodies: old(self)@.bodies.push(body),
                ids: old(self)@.ids.push(id),
                next: (id + 1) as BodyID,
            }) && id == old(self)@.next,
            r is None ==> final(self)@ == old(self)@,
    {
        proof {
            lemma_total_mass_covers(self@.bodies);
        }
        if !body.valid() || body.mass > MASS_MAX - self.mass {
            return None;
        }
        if (self.next_id as u128) + (self.bodies.len() as u128) + 2 > u64::MAX as u128 {
            return None;
        }
        let id: BodyID = self.next_id;
        proof {
            lemma_total_mass_push(self.bodies@, body);
        }
        self.ids.push(id);
        self.bodies.push(body);
        self.next_id = id + 1;
        self.mass = self.mass + body.mass;
        Some(id)
    }

    /// A store in the same state.
    pub fn copy(&self) -> (s: BodyStore)
        ensures
            s@ == self@,
            s.cached_mass() == self.cached_mass(),
    {
        let mut ids: Vec<BodyID> = Vec::new();
        let mut bodies: Vec<Body> = Vec::new();
        let mut k: usize = 0;
        while k < self.ids.len()
            invariant
                k <= self.ids.len(),
                ids@ == self.ids@.take(k as int),
            decreases self.ids.len() - k,
        {
            ids.push(self.ids[k]);
            k += 1;
        }
        let mut k: usize = 0;
        while k < self.bodies.len()
            invariant
                k <= self.bodies.len(),
                bodies@ == self.bodies@.take(k as int),
            decreases self.bodies.len() - k,
        {
            bodies.push(self.bodies[k]);
            k += 1;
        }
        assert(ids@ == self.ids@ && bodies@ == self.bodies@);
        BodyStore { ids, bodies, next_id: self.next_id, mass: self.mass }
    }

    /// Replaces the bodies at places `i < j` by the body they merge into,
    /// which stands last under a fresh identity.
    pub fn merge_at(&mut self, i: usize, j: usize)
        requires
            old(self).wf(),
            i < j < old(self)@.bodies.len(),
        ensures
            final(self).wf(),
            final(self)@ == old(self)@.merged_at(i as int, j as int),
    {
        proof {
            lemma_merged_at_wf(self@, i as int, j as int);
        }
        let a: Body = self.bodies[i];
        let b: Body = self.bodies[j];
        let c: Body = Body::merge(&a, &b);
        self.bodies.remove(j);
        self.bodies.remove(i);
        self.bodies.push(c);
        self.ids.remove(j);
        self.ids.remove(i);
        let id: BodyID = self.next_id;
        self.ids.push(id);
        self.next_id = id + 1;
    }

    /// Moves every body at its velocity for `t`, unless one of them would leave
    /// the world: then nothing moves.
    pub fn try_drift(&mut self, t: i64) -> (done: bool)
        requires
            old(self).wf(),
            -TIME_MAX <= t <= TIME_MAX,
        ensures
            final(self).wf(),
            done == old(self)@.can_drift(t as int),
            done ==> final(self)@ == old(self)@.drifted(t as int),
            !done ==> final(self)@ == old(self)@,
    {
        let mut moved: Vec<Body> = Vec::new();
        let n: usize = self.bodies.len();
        let mut k: usize = 0;
        while k < n
            invariant
                k <= n,
                n == self.bodies.len(),
                self.wf(),
                *self == *old(self),
                moved.len() == k,
                forall|l: int| 0 <= l < k ==> (#[trigger] self.bodies@[l]).can_move(t as int),
                forall|l: int| 0 <= l < k ==> moved@[l] == (#[trigger] self.bodies@[l]).moved(t as int),
                -TIME_MAX <= t <= TIME_MAX,
            decreases n - k,
        {
            assert(self.bodies@[k as int].wf());
            match self.bodies[k].try_move(t) {
                Some(b) => {
                    moved.push(b);
                },
                None => {
                    return false;
                },
            }
            k += 1;
        }
        proof {
            lemma_drifted_wf(self@, t as int);
            assert(moved@ =~= self@.drifted(t as int).bodies);
        }
        self.bodies = moved;
        true
    }

    /// The net momentum: the sum over the bodies of mass times velocity.
    pub fn momentum(&self) -> (p: (i128, i128))
        requires
            self.wf(),
        ensures
            p.0 == momentum_x(self@.bodies),
            p.1 == momentum_y(self@.bodies),
    {
        let n: usize = self.bodies.len();
        let mut px: i128 = 0;
        let mut py: i128 = 0;
        let mut k: usize = 0;
        proof {
            lemma_total_mass_covers(self@.bodies);
        }
        while k < n
            invariant
                k <= n,
                n == self.bodies.len(),
                n <= MASS_MAX,
                all_wf(self.bodies@),
                px == momentum_x(self.bodies@.take(k as int)),
                py == momentum_y(self.bodies@.take(k as int)),
            decreases n - k,
        {
            let b: Body = self.bodies[k];
            proof {
                let s0 = self.bodies@.take(k as int);
                let s1 = self.bodies@.take(k + 1);
                assert(s1.drop_last() =~= s0);
                assert(s1.last() == b);
                assert forall|l: int| 0 <= l < s1.len() implies (#[trigger] s1[l]).wf() by {
                    assert(s1[l] == self.bodies@[l]);
                }
                assert forall|l: int| 0 <= l < s0.len() implies (#[trigger] s0[l]).wf() by {
                    assert(s0[l] == self.bodies@[l]);
                }
                lemma_momentum_bound(s0);
                lemma_momentum_bound(s1);
                assert(b.wf());
                crate::vector::lemma_product_bound(b.mass as int, 0x1_0000_0000, b.speed.x as int, 0x100_0000);
                crate::vector::lemma_product_bound(b.mass as int, 0x1_0000_0000, b.speed.y as int, 0x100_0000);
                assert(k * 0x100_0000_0000_0000 <= 0x1_0000_0000 * 0x100_0000_0000_0000)
                    by (nonlinear_arith)
                    requires
                        k <= 0x1_0000_0000,
                ;
            }
            px = px + (b.mass as i128) * (b.speed.x as i128);
            py = py + (b.mass as i128) * (b.speed.y as i128);
            k += 1;
        }
        assert(self.bodies@.take(n as int) =~= self.bodies@);
        (px, py)
    }

    /// Adds to the velocity of each body its share of `dvs`, unless one of the
    /// sums is not representable: then nothing changes.
    pub fn try_push(&mut self, dvs: &Vec<(i128, i128)>) -> (done: bool)
        requires
            old(self).wf(),
            dvs.len() == old(self)@.bodies.len(),
            forall|k: int|
                0 <= k < dvs.len() ==> -0x100_0000_0000_0000_0000_0000_0000_0000 <= (#[trigger] dvs[k]).0
                    <= 0x100_0000_0000_0000_0000_0000_0000_0000 && -0x100_0000_0000_0000_0000_0000_0000_0000
                    <= dvs[k].1 <= 0x100_0000_0000_0000_0000_0000_0000_0000,
        ensures
            final(self).wf(),
            done == old(self)@.can_push(shares(dvs@)),
            done ==> final(self)@ == old(self)@.pushed(shares(dvs@)),
            !done ==> final(self)@ == old(self)@,
    {
        let mut pushed: Vec<Body> = Vec::new();
        let n: usize = self.bodies.len();
        let ghost sh = shares(dvs@);
        let mut k: usize = 0;
        while k < n
            invariant
                k <= n,
                n == self.bodies.len(),
                n == dvs.len(),
                self.wf(),
                *self == *old(self),
                sh == shares(dvs@),
                pushed.len() == k,
                forall|l: int| 0 <= l < k ==> (#[trigger] self.bodies@[l]).can_push(sh[l]),
                forall|l: int| 0 <= l < k ==> pushed@[l] == (#[trigger] self.bodies@[l]).pushed(sh[l]),
                forall|k: int|
                    0 <= k < dvs.len() ==> -0x100_0000_0000_0000_0000_0000_0000_0000 <= (
                    #[trigger] dvs[k]).0 <= 0x100_0000_0000_0000_0000_0000_0000_0000
                        && -0x100_0000_0000_0000_0000_0000_0000_0000 <= dvs[k].1
                        <= 0x100_0000_0000_0000_0000_0000_0000_0000,
            decreases n - k,
        {
            assert(self.bodies@[k as int].wf());
            let dv: (i128, i128) = dvs[k];
            match self.bodies[k].try_push(dv.0, dv.1) {
                Some(b) => {
                    pushed.push(b);
                },
                None => {
                    return false;
                },
            }
            k += 1;
        }
        proof {
            lemma_pushed_wf(self@, sh);
            assert(pushed@ =~= self@.pushed(sh).bodies);
        }
        self.bodies = pushed;
        true
    }
}

/// The velocity changes that a vector of integer pairs stands for.
pub open spec fn shares(dvs: Seq<(i128, i128)>) -> Seq<Vector> {
    Seq::new(dvs.len(), |k: int| Vector { x: dvs[k].0 as int, y: dvs[k].1 as int })
}

} // verus!
