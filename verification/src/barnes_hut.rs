//! The Barnes-Hut engine: a quadtree over the bodies, in which a body feels a
//! distant group of bodies as one point mass at the group's centre of mass.

use vstd::prelude::*;
use crate::body::{pull, pull_of, Body, RADIUS_MAX};
use crate::cluster::{cluster_pull, list_mass, list_moment_x, list_moment_y, list_pull, mean_point};
use crate::fixed::{OutOfRange, MASS_MAX, POS_MAX, TIME_MAX};
use crate::geometry::{bounds, get_rectangle, lemma_bounds, Rectangle};
use crate::grid::Cell;
use crate::store::{all_wf, lemma_total_mass_covers, shares, total_mass, BodyStore};
use crate::vector::{dist_sq, distance_squared, lemma_product_bound, Vec2, Vector};

verus! {

/// The place of a node in the vector of nodes.
pub type NodeID = usize;

/// The acceptance threshold is counted in steps of one `THETA_SCALE`-th.
pub const THETA_SCALE: u32 = 10;

/// By how many steps one adjustment changes the threshold.
pub const DELTA_THETA: u32 = 1;

/// The most steps the threshold can have.
pub const MAX_THETA: u32 = 40;

/// Which way the threshold is to move.
#[derive(Clone, Copy, Debug, PartialEq, Eq, Structural)]
pub enum ThetaAdjustment {
    Increase,
    Decrease,
}

/// The threshold as it is after one adjustment: one step up or down, kept
/// within `0..=MAX_THETA`.
pub open spec fn adjusted(theta: int, adjustment: ThetaAdjustment) -> int {
    match adjustment {
        ThetaAdjustment::Increase => if theta + DELTA_THETA > MAX_THETA {
            MAX_THETA as int
        } else {
            theta + DELTA_THETA
        },
        ThetaAdjustment::Decrease => if theta - DELTA_THETA < 0 {
            0
        } else {
            theta - DELTA_THETA
        },
    }
}

/// The adjustment that the costs of one tick call for: the threshold goes
/// down, for more accuracy, where the tree costs no more per body than the
/// grid, and up, for more speed, where it costs more. A cost is a span of time
/// and the number of bodies it was spent on.
pub open spec fn called_for(tree_time: int, tree_bodies: int, grid_time: int, grid_bodies: int)
    -> ThetaAdjustment {
    if tree_time * grid_bodies <= grid_time * tree_bodies {
        ThetaAdjustment::Decrease
    } else {
        ThetaAdjustment::Increase
    }
}

impl ThetaAdjustment {
    /// The adjustment that the costs of one tick call for.
    pub fn for_costs(tree_time: u64, tree_bodies: u64, grid_time: u64, grid_bodies: u64) -> (a:
        ThetaAdjustment)
        ensures
            a == called_for(
                tree_time as int,
                tree_bodies as int,
                grid_time as int,
                grid_bodies as int,
            ),
    {
        proof {
            lemma_product_bound(
                tree_time as int,
                0xffff_ffff_ffff_ffff,
                grid_bodies as int,
                0xffff_ffff_ffff_ffff,
            );
            lemma_product_bound(
                grid_time as int,
                0xffff_ffff_ffff_ffff,
                tree_bodies as int,
                0xffff_ffff_ffff_ffff,
            );
            assert(tree_time * grid_bodies >= 0 && grid_time * tree_bodies >= 0)
                by (nonlinear_arith);
        }
        if (tree_time as u128) * (grid_bodies as u128) <= (grid_time as u128) * (
        tree_bodies as u128) {
            ThetaAdjustment::Decrease
        } else {
            ThetaAdjustment::Increase
        }
    }
}

/// The Barnes-Hut engine with its acceptance threshold.
pub struct BarnesHut {
    theta: u32,
}

impl BarnesHut {
    #[verifier::type_invariant]
    spec fn inv(self) -> bool {
        self.theta <= MAX_THETA
    }

    /// The threshold, in `THETA_SCALE`-ths.
    pub closed spec fn theta(&self) -> int {
        self.theta as int
    }

    /// An engine of threshold 0, which takes no group for a point mass.
    pub fn new() -> (e: BarnesHut)
        ensures
            e.theta() == 0,
    {
        BarnesHut { theta: 0 }
    }

    /// The threshold, in `THETA_SCALE`-ths.
    pub fn get_theta(&self) -> (t: u32)
        ensures
            t == self.theta(),
            t <= MAX_THETA,
    {
        proof {
            use_type_invariant(self);
        }
        self.theta
    }

    /// One step of the controller: moves the threshold as the costs of the
    /// last tick call for.
    pub fn tune(&mut self, tree_time: u64, tree_bodies: u64, grid_time: u64, grid_bodies: u64)
        ensures
            final(self).theta() == adjusted(
                old(self).theta(),
                called_for(
                    tree_time as int,
                    tree_bodies as int,
                    grid_time as int,
                    grid_bodies as int,
                ),
            ),
            0 <= final(self).theta() <= MAX_THETA,
    {
        self.adjust_theta(
            ThetaAdjustment::for_costs(tree_time, tree_bodies, grid_time, grid_bodies),
        );
    }

    /// Moves the threshold one step up or down; it stays within `0..=MAX_THETA`.
    pub fn adjust_theta(&mut self, adjustment: ThetaAdjustment)
        ensures
            final(self).theta() == adjusted(old(self).theta(), adjustment),
            0 <= final(self).theta() <= MAX_THETA,
    {
        proof {
            use_type_invariant(&*self);
        }
        match adjustment {
            ThetaAdjustment::Increase => {
                if self.theta + DELTA_THETA > MAX_THETA {
                    self.theta = MAX_THETA;
                } else {
                    self.theta = self.theta + DELTA_THETA;
                }
            },
            ThetaAdjustment::Decrease => {
                if self.theta < DELTA_THETA {
                    self.theta = 0;
                } else {
                    self.theta = self.theta - DELTA_THETA;
                }
            },
        }
    }
}

/// A square of the quadtree. Its corner and its side are counted in
/// `scale`-ths of the unit of positions, so that halving a square is exact:
/// it holds the points `p` with `left <= p.x * scale < left + size` and
/// `top <= p.y * scale < top + size`.
#[derive(Clone, Copy, Debug, PartialEq, Eq, Structural)]
pub struct Square {
    pub left: i128,
    pub top: i128,
    pub size: i64,
    pub scale: i64,
}

impl Square {
    /// The side and the scale are in range, and the square lies within the
    /// reach of the tree's coordinates.
    pub open spec fn wf(self) -> bool {
        &&& 1 <= self.size <= 2 * (POS_MAX + RADIUS_MAX)
        &&& 1 <= self.scale <= 2 * self.size
        &&& -(0x8_0000_0000 * self.scale) <= self.left
        &&& self.left + self.size <= 0x8_0000_0000 * self.scale
        &&& -(0x8_0000_0000 * self.scale) <= self.top
        &&& self.top + self.size <= 0x8_0000_0000 * self.scale
    }

    /// The square holds `pos`.
    pub open spec fn holds(self, pos: Vec2) -> bool {
        &&& self.left <= pos.x * self.scale < self.left + self.size
        &&& self.top <= pos.y * self.scale < self.top + self.size
    }

    /// The square is wider than one unit of positions, so that its quadrants
    /// can tell two bodies apart.
    pub open spec fn can_split(self) -> bool {
        1 <= self.scale < self.size <= 2 * (POS_MAX + RADIUS_MAX)
    }

    /// A bound on how often the square can be halved.
    pub open spec fn room(self) -> nat {
        if self.can_split() {
            (self.size - self.scale) as nat
        } else {
            0
        }
    }

    /// The quadrant of row `r` and column `c`, each 0 or 1.
    pub open spec fn child(self, r: int, c: int) -> Square {
        Square {
            left: (2 * self.left + c * self.size) as i128,
            top: (2 * self.top + r * self.size) as i128,
            size: self.size,
            scale: (2 * self.scale) as i64,
        }
    }

    /// The row of the quadrant that holds a point of the square.
    pub open spec fn row_of(self, pos: Vec2) -> int {
        if 2 * (pos.y * self.scale - self.top) < self.size {
            0
        } else {
            1
        }
    }

    /// The column of the quadrant that holds a point of the square.
    pub open spec fn col_of(self, pos: Vec2) -> int {
        if 2 * (pos.x * self.scale - self.left) < self.size {
            0
        } else {
            1
        }
    }

    /// Whether the square holds `pos`.
    pub fn contains(&self, pos: Vec2) -> (r: bool)
        requires
            self.wf(),
            pos.within(POS_MAX as int),
        ensures
            r == self.holds(pos),
    {
        proof {
            lemma_product_bound(pos.x as int, 0x1_0000_0000, self.scale as int, 0x8_0000_0000);
            lemma_product_bound(pos.y as int, 0x1_0000_0000, self.scale as int, 0x8_0000_0000);
        }
        let x: i128 = (pos.x as i128) * (self.scale as i128);
        let y: i128 = (pos.y as i128) * (self.scale as i128);
        self.left <= x && x < self.left + self.size as i128 && self.top <= y && y < self.top
            + self.size as i128
    }

    /// The row and the column of the quadrant that holds a point of the square.
    pub fn quadrant(&self, pos: Vec2) -> (q: (usize, usize))
        requires
            self.wf(),
            pos.within(POS_MAX as int),
        ensures
            q.0 == self.row_of(pos),
            q.1 == self.col_of(pos),
            q.0 <= 1,
            q.1 <= 1,
    {
        proof {
            lemma_product_bound(pos.x as int, 0x1_0000_0000, self.scale as int, 0x8_0000_0000);
            lemma_product_bound(pos.y as int, 0x1_0000_0000, self.scale as int, 0x8_0000_0000);
        }
        let x: i128 = (pos.x as i128) * (self.scale as i128);
        let y: i128 = (pos.y as i128) * (self.scale as i128);
        let r: usize = if 2 * (y - self.top) < self.size as i128 {
            0
        } else {
            1
        };
        let c: usize = if 2 * (x - self.left) < self.size as i128 {
            0
        } else {
            1
        };
        (r, c)
    }

    /// The quadrant of row `r` and column `c`.
    pub fn child_of(&self, r: usize, c: usize) -> (q: Square)
        requires
            self.wf(),
            self.can_split(),
            r <= 1,
            c <= 1,
        ensures
            q == self.child(r as int, c as int),
            q.wf(),
    {
        let dx: i128 = if c == 0 {
            0
        } else {
            self.size as i128
        };
        let dy: i128 = if r == 0 {
            0
        } else {
            self.size as i128
        };
        proof {
            assert(c * self.size == dx) by (nonlinear_arith)
                requires
                    c == 0 && dx == 0 || c == 1 && dx == self.size,
            ;
            assert(r * self.size == dy) by (nonlinear_arith)
                requires
                    r == 0 && dy == 0 || r == 1 && dy == self.size,
            ;
        }
        Square {
            left: 2 * self.left + dx,
            top: 2 * self.top + dy,
            size: self.size,
            scale: 2 * self.scale,
        }
    }
}

/// A point of a square lies in exactly one quadrant: that of its row and column.
pub proof fn lemma_quadrants(sq: Square, pos: Vec2, r: int, c: int)
    requires
        sq.wf(),
        0 <= r <= 1,
        0 <= c <= 1,
    ensures
        sq.child(r, c).holds(pos) <==> sq.holds(pos) && sq.row_of(pos) == r && sq.col_of(pos) == c,
{
    let q = sq.child(r, c);
    assert(pos.x * q.scale == 2 * (pos.x * sq.scale)) by (nonlinear_arith)
        requires
            q.scale == 2 * sq.scale,
    ;
    assert(pos.y * q.scale == 2 * (pos.y * sq.scale)) by (nonlinear_arith)
        requires
            q.scale == 2 * sq.scale,
    ;
    assert(c * sq.size == if c == 0 { 0 } else { sq.size as int }) by (nonlinear_arith)
        requires
            0 <= c <= 1,
    ;
    assert(r * sq.size == if r == 0 { 0 } else { sq.size as int }) by (nonlinear_arith)
        requires
            0 <= r <= 1,
    ;
    lemma_product_bound(0x8_0000_0000, 0x8_0000_0000, sq.scale as int, 0x8_0000_0000);
}

/// The least square that holds the rectangle, with centres aligned along the
/// shorter side.
pub open spec fn root_square(rect: Rectangle) -> Square {
    let w = rect.width();
    let h = rect.height();
    if w >= h {
        Square {
            left: rect.top_left.x as i128,
            top: (rect.top_left.y - (w - h) / 2) as i128,
            size: w as i64,
            scale: 1,
        }
    } else {
        Square {
            left: (rect.top_left.x - (h - w) / 2) as i128,
            top: rect.top_left.y as i128,
            size: h as i64,
            scale: 1,
        }
    }
}

/// The root square is well formed and holds what the rectangle holds.
pub proof fn lemma_root_square(rect: Rectangle)
    requires
        rect.top_left.within(POS_MAX + RADIUS_MAX),
        rect.bottom_right.within(POS_MAX + RADIUS_MAX),
        rect.width() >= 1,
        rect.height() >= 1,
    ensures
        root_square(rect).wf(),
        forall|pos: Vec2| rect.holds(pos) ==> root_square(rect).holds(pos),
{
    let sq = root_square(rect);
    assert forall|pos: Vec2| rect.holds(pos) implies sq.holds(pos) by {
        assert(pos.x * 1 == pos.x && pos.y * 1 == pos.y);
    }
}

/// The square of the root of the tree over a rectangle.
pub fn root_square_of(rect: &Rectangle) -> (sq: Square)
    requires
        rect.top_left.within(POS_MAX + RADIUS_MAX),
        rect.bottom_right.within(POS_MAX + RADIUS_MAX),
        rect.width() >= 1,
        rect.height() >= 1,
    ensures
        sq == root_square(*rect),
        sq.wf(),
        forall|pos: Vec2| rect.holds(pos) ==> sq.holds(pos),
{
    let w: i64 = rect.bottom_right.x - rect.top_left.x;
    let h: i64 = rect.bottom_right.y - rect.top_left.y;
    let sq: Square = if w >= h {
        Square {
            left: rect.top_left.x as i128,
            top: (rect.top_left.y - (w - h) / 2) as i128,
            size: w,
            scale: 1,
        }
    } else {
        Square {
            left: (rect.top_left.x - (h - w) / 2) as i128,
            top: rect.top_left.y as i128,
            size: h,
            scale: 1,
        }
    };
    assert forall|pos: Vec2| rect.holds(pos) implies sq.holds(pos) by {
        assert(pos.x * 1 == pos.x && pos.y * 1 == pos.y);
    }
    sq
}

/// The places of a store of `n` bodies.
pub open spec fn iota(n: nat) -> Seq<usize> {
    Seq::new(n, |k: int| k as usize)
}

/// Those places of `list`, in its order, whose bodies the square holds.
pub open spec fn select(bodies: Seq<Body>, list: Seq<usize>, sq: Square) -> Seq<usize>
    decreases list.len(),
{
    if list.len() == 0 {
        Seq::empty()
    } else {
        let rest = select(bodies, list.drop_last(), sq);
        if sq.holds(bodies[list.last() as int].pos) {
            rest.push(list.last())
        } else {
            rest
        }
    }
}

/// The square, seen from `pos`, is small enough for its bodies to count as one
/// point mass at `com`: its side over the distance from `pos` to `com` is at
/// most `theta / THETA_SCALE`.
pub open spec fn accepts(sq: Square, com: Vec2, pos: Vec2, theta: int) -> bool {
    (THETA_SCALE * sq.size) * (THETA_SCALE * sq.size) <= (theta * sq.scale) * (theta * sq.scale)
        * dist_sq(com, pos)
}

/// What the bodies at the places of `list`, all inside the square `sq`,
/// impart on the body at `i` during `dt` under the threshold `theta`.
///
/// No body imparts nothing. One body, or a group that is accepted as a point
/// mass, pulls from its centre of mass with its joint mass, unless the body
/// at `i` is of the group. Any other group is the sum of its four quadrants;
/// in a square too small to split, the bodies lie at one point and pull one
/// by one.
pub open spec fn bh_pull(
    bodies: Seq<Body>,
    list: Seq<usize>,
    sq: Square,
    i: int,
    theta: int,
    dt: int,
) -> Vector
    decreases sq.room(),
{
    let mass = list_mass(bodies, list);
    let com = mean_point(mass, list_moment_x(bodies, list), list_moment_y(bodies, list));
    if list.len() == 0 {
        Vector::zero()
    } else if list.len() == 1 {
        if list.contains(i as usize) {
            Vector::zero()
        } else {
            pull(bodies[i].pos, com, mass, dt)
        }
    } else if accepts(sq, com, bodies[i].pos, theta) && !list.contains(i as usize) {
        pull(bodies[i].pos, com, mass, dt)
    } else if sq.can_split() {
        bh_pull(bodies, select(bodies, list, sq.child(0, 0)), sq.child(0, 0), i, theta, dt).plus(
            bh_pull(bodies, select(bodies, list, sq.child(0, 1)), sq.child(0, 1), i, theta, dt),
        ).plus(
            bh_pull(bodies, select(bodies, list, sq.child(1, 0)), sq.child(1, 0), i, theta, dt),
        ).plus(bh_pull(bodies, select(bodies, list, sq.child(1, 1)), sq.child(1, 1), i, theta, dt))
    } else {
        list_pull(bodies, i, list, dt)
    }
}

/// For each body, what the tree over the bounding square imparts on it.
pub open spec fn bh_pulls(bodies: Seq<Body>, theta: int, dt: int) -> Seq<Vector> {
    Seq::new(
        bodies.len(),
        |i: int| bh_pull(bodies, iota(bodies.len()), root_square(bounds(bodies)), i, theta, dt),
    )
}

/// Selecting keeps places of the list that the square holds, and only those.
pub proof fn lemma_select(bodies: Seq<Body>, list: Seq<usize>, sq: Square)
    requires
        all_wf(bodies),
        forall|t: int| 0 <= t < list.len() ==> (#[trigger] list[t]) < bodies.len(),
    ensures
        select(bodies, list, sq).len() <= list.len(),
        forall|t: int|
            0 <= t < select(bodies, list, sq).len() ==> list.contains(
                #[trigger] select(bodies, list, sq)[t],
            ) && sq.holds(bodies[select(bodies, list, sq)[t] as int].pos),
        forall|t: int|
            0 <= t < list.len() && sq.holds(bodies[list[t] as int].pos) ==> select(
                bodies,
                list,
                sq,
            ).contains(#[trigger] list[t]),
        0 <= list_mass(bodies, select(bodies, list, sq)) <= list_mass(bodies, list),
    decreases list.len(),
{
    if list.len() > 0 {
        let front = list.drop_last();
        let last = list.last();
        assert forall|t: int| 0 <= t < front.len() implies (#[trigger] front[t]) < bodies.len() by {
            assert(front[t] == list[t]);
        }
        lemma_select(bodies, front, sq);
        let rest = select(bodies, front, sq);
        let all = select(bodies, list, sq);
        assert(bodies[last as int].wf());
        assert(list[list.len() - 1] == last);
        assert forall|t: int| 0 <= t < all.len() implies list.contains(#[trigger] all[t])
            && sq.holds(bodies[all[t] as int].pos) by {
            if t < rest.len() {
                assert(all[t] == rest[t]);
                let u = choose|u: int| 0 <= u < front.len() && front[u] == rest[t];
                assert(list[u] == rest[t]);
            }
        }
        assert forall|t: int|
            0 <= t < list.len() && sq.holds(bodies[list[t] as int].pos) implies all.contains(
            #[trigger] list[t],
        ) by {
            if t < front.len() {
                assert(front[t] == list[t]);
                let u = choose|u: int| 0 <= u < rest.len() && rest[u] == front[t];
                assert(all[u] == list[t]);
            } else {
                assert(all[all.len() - 1] == last);
            }
        }
        if sq.holds(bodies[last as int].pos) {
            assert(rest.push(last).drop_last() =~= rest);
        }
    }
}

/// The bodies of all places weigh what the store weighs.
pub proof fn lemma_iota_mass(bodies: Seq<Body>, n: nat)
    requires
        n <= bodies.len() <= usize::MAX,
    ensures
        list_mass(bodies, iota(n)) == total_mass(bodies.take(n as int)),
    decreases n,
{
    if n > 0 {
        lemma_iota_mass(bodies, (n - 1) as nat);
        assert(iota(n).drop_last() =~= iota((n - 1) as nat));
        assert(bodies.take(n as int).drop_last() =~= bodies.take(n - 1));
    }
}

/// The places that a node of the tree stands for.
#[derive(Clone, Debug, PartialEq, Eq)]
pub enum QuadtreeNodeBodies {
    /// All places of the store: the root.
    All,
    /// The listed places.
    Bodies(Vec<usize>),
}

/// A node of the tree: its square, the places of the bodies inside it, their
/// joint mass and centre of mass, and the places of its four quadrants in the
/// vector of nodes, by row and column. The root carries no mass and no centre:
/// every body is inside it.
#[derive(Clone, Debug, PartialEq, Eq)]
pub struct QuadtreeNode {
    pub children: Option<[[NodeID; 2]; 2]>,
    pub bodies: QuadtreeNodeBodies,
    pub square: Square,
    pub total_mass: i64,
    pub pos: Vec2,
}

impl QuadtreeNode {
    /// The places of the bodies of the node, in a store of `n` bodies.
    pub open spec fn list(self, n: nat) -> Seq<usize> {
        match self.bodies {
            QuadtreeNodeBodies::All => iota(n),
            QuadtreeNodeBodies::Bodies(v) => v@,
        }
    }

    /// The node lists exactly the bodies that its square holds, and carries
    /// their mass and their centre of mass.
    pub open spec fn sound(self, bodies: Seq<Body>) -> bool {
        let list = self.list(bodies.len());
        &&& self.square.wf()
        &&& list.len() <= bodies.len()
        &&& forall|t: int|
            0 <= t < list.len() ==> (#[trigger] list[t]) < bodies.len() && self.square.holds(
                bodies[list[t] as int].pos,
            )
        &&& forall|j: int|
            0 <= j < bodies.len() && self.square.holds((#[trigger] bodies[j]).pos)
                ==> list.contains(j as usize)
        &&& list_mass(bodies, list) <= MASS_MAX
        &&& self.bodies is Bodies ==> self.total_mass == list_mass(bodies, list) && self.pos
            == mean_point(
            list_mass(bodies, list),
            list_moment_x(bodies, list),
            list_moment_y(bodies, list),
        ) && self.pos.within(POS_MAX as int)
    }
}

/// How many nodes a tree has below a node with the bodies at the places of
/// `list` in the square `sq`: none for a leaf, and else its four quadrants
/// and what stands below each of them.
#[verifier::opaque]
pub open spec fn nodes_below(bodies: Seq<Body>, list: Seq<usize>, sq: Square) -> nat
    decreases sq.room(),
{
    if list.len() >= 2 && sq.can_split() {
        4 + nodes_below(bodies, select(bodies, list, sq.child(0, 0)), sq.child(0, 0))
            + nodes_below(bodies, select(bodies, list, sq.child(0, 1)), sq.child(0, 1))
            + nodes_below(bodies, select(bodies, list, sq.child(1, 0)), sq.child(1, 0))
            + nodes_below(bodies, select(bodies, list, sq.child(1, 1)), sq.child(1, 1))
    } else {
        0
    }
}

/// How many nodes stand below the quadrant of row `r` and column `c` of the
/// node at `id`.
pub open spec fn below_quadrant(
    nodes: Seq<QuadtreeNode>,
    id: int,
    r: int,
    c: int,
    bodies: Seq<Body>,
) -> nat {
    nodes_below(
        bodies,
        select(bodies, nodes[id].list(bodies.len()), nodes[id].square.child(r, c)),
        nodes[id].square.child(r, c),
    )
}

/// The node at `k` is the quadrant of row `r` and column `c` of the node at `id`.
pub open spec fn linked(
    nodes: Seq<QuadtreeNode>,
    id: int,
    k: int,
    r: int,
    c: int,
    bodies: Seq<Body>,
) -> bool {
    &&& 0 <= k < nodes.len()
    &&& nodes[k].square == nodes[id].square.child(r, c)
    &&& nodes[k].bodies is Bodies
    &&& nodes[k].list(bodies.len()) == select(
        bodies,
        nodes[id].list(bodies.len()),
        nodes[id].square.child(r, c),
    )
}

/// The node at `id` and all nodes below it are sound, and they stand where
/// the growth of the tree puts them: a node has quadrants exactly where it
/// has several bodies and its square can be split; the four quadrants stand
/// at `lo`, `lo + 1`, `lo + 2` and `lo + 3`, by row and column; what stands
/// below the first quadrant follows from `lo + 4` on, then what stands below
/// the second, the third and the fourth.
#[verifier::opaque]
pub open spec fn tree_ok(nodes: Seq<QuadtreeNode>, id: int, lo: int, bodies: Seq<Body>) -> bool
    decreases nodes[id].square.room(),
{
    &&& 0 <= id < lo
    &&& id < nodes.len()
    &&& nodes[id].sound(bodies)
    &&& lo + nodes_below(bodies, nodes[id].list(bodies.len()), nodes[id].square) <= nodes.len()
    &&& match nodes[id].children {
        None => nodes[id].list(bodies.len()).len() <= 1 || !nodes[id].square.can_split(),
        Some(ch) => {
            &&& nodes[id].list(bodies.len()).len() >= 2
            &&& nodes[id].square.can_split()
            &&& ch[0][0] == lo
            &&& ch[0][1] == lo + 1
            &&& ch[1][0] == lo + 2
            &&& ch[1][1] == lo + 3
            &&& linked(nodes, id, lo, 0, 0, bodies)
            &&& linked(nodes, id, lo + 1, 0, 1, bodies)
            &&& linked(nodes, id, lo + 2, 1, 0, bodies)
            &&& linked(nodes, id, lo + 3, 1, 1, bodies)
            &&& tree_ok(nodes, lo, lo + 4, bodies)
            &&& tree_ok(nodes, lo + 1, lo + 4 + below_quadrant(nodes, id, 0, 0, bodies), bodies)
            &&& tree_ok(
                nodes,
                lo + 2,
                lo + 4 + below_quadrant(nodes, id, 0, 0, bodies) + below_quadrant(
                    nodes,
                    id,
                    0,
                    1,
                    bodies,
                ),
                bodies,
            )
            &&& tree_ok(
                nodes,
                lo + 3,
                lo + 4 + below_quadrant(nodes, id, 0, 0, bodies) + below_quadrant(
                    nodes,
                    id,
                    0,
                    1,
                    bodies,
                ) + below_quadrant(nodes, id, 1, 0, bodies),
                bodies,
            )
        },
    }
}

/// The node at `id` is the root of a sound tree in the vector of nodes.
pub open spec fn rooted(nodes: Seq<QuadtreeNode>, id: int, bodies: Seq<Body>) -> bool {
    exists|lo: int| tree_ok(nodes, id, lo, bodies)
}

/// The number of nodes below a node, from those below its quadrants.
pub proof fn lemma_nodes_below(bodies: Seq<Body>, list: Seq<usize>, sq: Square)
    ensures
        nodes_below(bodies, list, sq) == if list.len() >= 2 && sq.can_split() {
            4 + nodes_below(bodies, select(bodies, list, sq.child(0, 0)), sq.child(0, 0))
                + nodes_below(bodies, select(bodies, list, sq.child(0, 1)), sq.child(0, 1))
                + nodes_below(bodies, select(bodies, list, sq.child(1, 0)), sq.child(1, 0))
                + nodes_below(bodies, select(bodies, list, sq.child(1, 1)), sq.child(1, 1))
        } else {
            0
        },
{
    reveal(nodes_below);
}

/// A tree stays sound when the vector of nodes grows and changes only
/// outside the places of the tree.
pub proof fn lemma_tree_frame(
    old_nodes: Seq<QuadtreeNode>,
    new_nodes: Seq<QuadtreeNode>,
    id: int,
    lo: int,
    bodies: Seq<Body>,
)
    requires
        tree_ok(old_nodes, id, lo, bodies),
        old_nodes.len() <= new_nodes.len(),
        new_nodes[id] == old_nodes[id],
        forall|k: int|
            lo <= k < lo + nodes_below(
                bodies,
                old_nodes[id].list(bodies.len()),
                old_nodes[id].square,
            ) ==> new_nodes[k] == old_nodes[k],
    ensures
        tree_ok(new_nodes, id, lo, bodies),
    decreases old_nodes[id].square.room(),
{
    reveal(tree_ok);
    match old_nodes[id].children {
        None => {},
        Some(ch) => {
            let b00 = below_quadrant(old_nodes, id, 0, 0, bodies);
            let b01 = below_quadrant(old_nodes, id, 0, 1, bodies);
            let b10 = below_quadrant(old_nodes, id, 1, 0, bodies);
            let b11 = below_quadrant(old_nodes, id, 1, 1, bodies);
            lemma_nodes_below(bodies, old_nodes[id].list(bodies.len()), old_nodes[id].square);
            lemma_tree_frame(old_nodes, new_nodes, lo, lo + 4, bodies);
            lemma_tree_frame(old_nodes, new_nodes, lo + 1, lo + 4 + b00, bodies);
            lemma_tree_frame(old_nodes, new_nodes, lo + 2, lo + 4 + b00 + b01, bodies);
            lemma_tree_frame(old_nodes, new_nodes, lo + 3, lo + 4 + b00 + b01 + b10, bodies);
        },
    }
}

/// The cell lists those places of `prefix` that the square holds, with their
/// mass and moments.
pub open spec fn part_ok(cell: Cell, bodies: Seq<Body>, prefix: Seq<usize>, q: Square) -> bool {
    cell.bodies@ == select(bodies, prefix, q) && cell.tallies(bodies)
}

/// A node built from the bodies of one quadrant of a sound node is sound.
pub proof fn lemma_child_sound(
    parent: QuadtreeNode,
    child: QuadtreeNode,
    r: int,
    c: int,
    bodies: Seq<Body>,
)
    requires
        all_wf(bodies),
        bodies.len() <= usize::MAX,
        parent.sound(bodies),
        parent.square.can_split(),
        0 <= r <= 1,
        0 <= c <= 1,
        child.square == parent.square.child(r, c),
        child.square.wf(),
        child.bodies is Bodies,
        child.list(bodies.len()) == select(bodies, parent.list(bodies.len()), child.square),
        child.total_mass == list_mass(bodies, child.list(bodies.len())),
        child.pos == mean_point(
            list_mass(bodies, child.list(bodies.len())),
            list_moment_x(bodies, child.list(bodies.len())),
            list_moment_y(bodies, child.list(bodies.len())),
        ),
        child.pos.within(POS_MAX as int),
    ensures
        child.sound(bodies),
{
    let list = parent.list(bodies.len());
    let part = child.list(bodies.len());
    lemma_select(bodies, list, child.square);
    assert forall|t: int| 0 <= t < part.len() implies (#[trigger] part[t]) < bodies.len()
        && child.square.holds(bodies[part[t] as int].pos) by {
        assert(list.contains(part[t]));
        let u = choose|u: int| 0 <= u < list.len() && list[u] == part[t];
        assert(list[u] < bodies.len());
    }
    assert forall|j: int|
        0 <= j < bodies.len() && child.square.holds((#[trigger] bodies[j]).pos) implies part.contains(
        j as usize,
    ) by {
        lemma_quadrants(parent.square, bodies[j].pos, r, c);
        assert(list.contains(j as usize));
        let u = choose|u: int| 0 <= u < list.len() && list[u] == j as usize;
        assert(part.contains(list[u]));
    }
}

/// What a sound tree says of its root: the root is sound and stands before
/// `lo`; a leaf has at most one body or a square that cannot be split; any
/// other node has its quadrants at `lo` to `lo + 3`, each the root of a sound
/// tree.
pub proof fn lemma_tree_root(nodes: Seq<QuadtreeNode>, id: int, lo: int, bodies: Seq<Body>)
    requires
        tree_ok(nodes, id, lo, bodies),
    ensures
        0 <= id < lo,
        id < nodes.len(),
        nodes[id].sound(bodies),
        lo + nodes_below(bodies, nodes[id].list(bodies.len()), nodes[id].square) <= nodes.len(),
        nodes[id].children is None ==> nodes[id].list(bodies.len()).len() <= 1
            || !nodes[id].square.can_split(),
        nodes[id].children matches Some(ch) ==> {
            &&& nodes[id].list(bodies.len()).len() >= 2
            &&& nodes[id].square.can_split()
            &&& ch[0][0] == lo
            &&& ch[0][1] == lo + 1
            &&& ch[1][0] == lo + 2
            &&& ch[1][1] == lo + 3
            &&& linked(nodes, id, lo, 0, 0, bodies)
            &&& linked(nodes, id, lo + 1, 0, 1, bodies)
            &&& linked(nodes, id, lo + 2, 1, 0, bodies)
            &&& linked(nodes, id, lo + 3, 1, 1, bodies)
            &&& rooted(nodes, lo, bodies)
            &&& rooted(nodes, lo + 1, bodies)
            &&& rooted(nodes, lo + 2, bodies)
            &&& rooted(nodes, lo + 3, bodies)
        },
{
    reveal(tree_ok);
    if nodes[id].children is Some {
        let b00 = below_quadrant(nodes, id, 0, 0, bodies);
        let b01 = below_quadrant(nodes, id, 0, 1, bodies);
        let b10 = below_quadrant(nodes, id, 1, 0, bodies);
        assert(tree_ok(nodes, lo, lo + 4, bodies));
        assert(tree_ok(nodes, lo + 1, lo + 4 + b00, bodies));
        assert(tree_ok(nodes, lo + 2, lo + 4 + b00 + b01, bodies));
        assert(tree_ok(nodes, lo + 3, lo + 4 + b00 + b01 + b10, bodies));
    }
}

/// A sound node without quadrants, with at most one body or a square that
/// cannot be split, is a sound tree.
pub proof fn lemma_tree_leaf(nodes: Seq<QuadtreeNode>, id: int, lo: int, bodies: Seq<Body>)
    requires
        0 <= id < lo <= nodes.len(),
        id < nodes.len(),
        nodes[id].sound(bodies),
        nodes[id].children is None,
        nodes[id].list(bodies.len()).len() <= 1 || !nodes[id].square.can_split(),
    ensures
        tree_ok(nodes, id, lo, bodies),
        nodes_below(bodies, nodes[id].list(bodies.len()), nodes[id].square) == 0,
{
    reveal(tree_ok);
    lemma_nodes_below(bodies, nodes[id].list(bodies.len()), nodes[id].square);
}

/// A sound node whose quadrants stand at `lo` to `lo + 3`, each the root of
/// a sound tree that stands where it should, is the root of a sound tree.
pub proof fn lemma_tree_node(nodes: Seq<QuadtreeNode>, id: int, lo: int, bodies: Seq<Body>)
    requires
        0 <= id < lo,
        id < nodes.len(),
        lo + 3 <= usize::MAX,
        nodes[id].sound(bodies),
        nodes[id].list(bodies.len()).len() >= 2,
        nodes[id].square.can_split(),
        nodes[id].children == Some(
            [[lo as usize, (lo + 1) as usize], [(lo + 2) as usize, (lo + 3) as usize]],
        ),
        linked(nodes, id, lo, 0, 0, bodies),
        linked(nodes, id, lo + 1, 0, 1, bodies),
        linked(nodes, id, lo + 2, 1, 0, bodies),
        linked(nodes, id, lo + 3, 1, 1, bodies),
        tree_ok(nodes, lo, lo + 4, bodies),
        tree_ok(nodes, lo + 1, lo + 4 + below_quadrant(nodes, id, 0, 0, bodies), bodies),
        tree_ok(
            nodes,
            lo + 2,
            lo + 4 + below_quadrant(nodes, id, 0, 0, bodies) + below_quadrant(
                nodes,
                id,
                0,
                1,
                bodies,
            ),
            bodies,
        ),
        tree_ok(
            nodes,
            lo + 3,
            lo + 4 + below_quadrant(nodes, id, 0, 0, bodies) + below_quadrant(
                nodes,
                id,
                0,
                1,
                bodies,
            ) + below_quadrant(nodes, id, 1, 0, bodies),
            bodies,
        ),
        lo + nodes_below(bodies, nodes[id].list(bodies.len()), nodes[id].square) <= nodes.len(),
    ensures
        tree_ok(nodes, id, lo, bodies),
{
    reveal(tree_ok);
}

/// A tree stays sound when the vector of nodes grows and changes at one
/// place only, which is neither the root nor a place of the tree.
pub proof fn lemma_tree_carry(
    old_nodes: Seq<QuadtreeNode>,
    new_nodes: Seq<QuadtreeNode>,
    id: int,
    lo: int,
    changed: int,
    bodies: Seq<Body>,
)
    requires
        tree_ok(old_nodes, id, lo, bodies),
        old_nodes.len() <= new_nodes.len(),
        changed != id,
        changed < lo,
        forall|k: int|
            0 <= k < old_nodes.len() && k != changed ==> (#[trigger] new_nodes[k]) == old_nodes[k],
    ensures
        tree_ok(new_nodes, id, lo, bodies),
{
    lemma_tree_root(old_nodes, id, lo, bodies);
    lemma_tree_frame(old_nodes, new_nodes, id, lo, bodies);
}

/// The number of bodies of a node.
pub fn count_of(node: &QuadtreeNode, n: usize) -> (k: usize)
    requires
        node.list(n as nat).len() <= usize::MAX,
    ensures
        k == node.list(n as nat).len(),
{
    match &node.bodies {
        QuadtreeNodeBodies::All => n,
        QuadtreeNodeBodies::Bodies(v) => v.len(),
    }
}

/// The place of the `t`-th body of a node.
pub fn member_of(node: &QuadtreeNode, t: usize, n: usize) -> (j: usize)
    requires
        t < node.list(n as nat).len(),
    ensures
        j == node.list(n as nat)[t as int],
{
    match &node.bodies {
        QuadtreeNodeBodies::All => t,
        QuadtreeNodeBodies::Bodies(v) => v[t],
    }
}

impl QuadtreeNode {
    /// Grows the tree below the node at `id`: where the node has several
    /// bodies and its square can be split, it gets four quadrants, each with
    /// the bodies that lie in it, and the quadrants grow in the same way. The
    /// quadrants are appended to the vector of nodes, each followed, once all
    /// four stand there, by what grows below it; nothing else is appended.
    pub fn split(id: NodeID, bodies: &BodyStore, nodes: &mut Vec<QuadtreeNode>)
        requires
            bodies.wf(),
            id < old(nodes).len(),
            old(nodes)[id as int].sound(bodies@.bodies),
            old(nodes)[id as int].children is None,
        ensures
            final(nodes).len() == old(nodes).len() + nodes_below(
                bodies@.bodies,
                old(nodes)[id as int].list(bodies@.bodies.len()),
                old(nodes)[id as int].square,
            ),
            forall|k: int|
                0 <= k < old(nodes).len() && k != id ==> (#[trigger] final(nodes)[k]) == old(
                    nodes,
                )[k],
            final(nodes)[id as int].bodies == old(nodes)[id as int].bodies,
            final(nodes)[id as int].square == old(nodes)[id as int].square,
            final(nodes)[id as int].total_mass == old(nodes)[id as int].total_mass,
            final(nodes)[id as int].pos == old(nodes)[id as int].pos,
            tree_ok(final(nodes)@, id as int, old(nodes).len() as int, bodies@.bodies),
        decreases old(nodes)[id as int].square.room(),
    {
        let n: usize = bodies.len();
        let ghost all = bodies@.bodies;
        let ghost list = nodes@[id as int].list(n as nat);
        let sq: Square = nodes[id].square;
        let count: usize = count_of(&nodes[id], n);
        if count <= 1 || sq.scale >= sq.size {
            proof {
                lemma_tree_leaf(nodes@, id as int, nodes.len() as int, all);
            }
            return;
        }
        let ghost parent = nodes@[id as int];
        let mut c00: Cell = Cell::new();
        let mut c01: Cell = Cell::new();
        let mut c10: Cell = Cell::new();
        let mut c11: Cell = Cell::new();
        let q00: Square = sq.child_of(0, 0);
        let q01: Square = sq.child_of(0, 1);
        let q10: Square = sq.child_of(1, 0);
        let q11: Square = sq.child_of(1, 1);
        proof {
            assert(list.take(0) =~= Seq::<usize>::empty());
            assert(c00.bodies@ =~= select(all, list.take(0), q00));
            assert(c01.bodies@ =~= select(all, list.take(0), q01));
            assert(c10.bodies@ =~= select(all, list.take(0), q10));
            assert(c11.bodies@ =~= select(all, list.take(0), q11));
        }
        let mut t: usize = 0;
        while t < count
            invariant
                t <= count,
                count == list.len(),
                n == all.len(),
                all == bodies@.bodies,
                bodies.wf(),
                id < nodes.len(),
                *nodes == *old(nodes),
                parent == nodes@[id as int],
                parent.sound(all),
                list == parent.list(n as nat),
                sq == parent.square,
                sq.can_split(),
                q00 == sq.child(0, 0),
                q01 == sq.child(0, 1),
                q10 == sq.child(1, 0),
                q11 == sq.child(1, 1),
                part_ok(c00, all, list.take(t as int), q00),
                part_ok(c01, all, list.take(t as int), q01),
                part_ok(c10, all, list.take(t as int), q10),
                part_ok(c11, all, list.take(t as int), q11),
            decreases count - t,
        {
            let j: usize = member_of(&nodes[id], t, n);
            let body: Body = bodies.body(j);
            assert(body.wf());
            let place: (usize, usize) = sq.quadrant(body.pos);
            proof {
                let front = list.take(t as int);
                let upto = list.take(t + 1);
                assert(upto.drop_last() =~= front);
                assert(upto.last() == j);
                assert forall|u: int| 0 <= u < upto.len() implies (#[trigger] upto[u]) < all.len() by {
                    assert(upto[u] == list[u]);
                }
                lemma_quadrants(sq, body.pos, 0, 0);
                lemma_quadrants(sq, body.pos, 0, 1);
                lemma_quadrants(sq, body.pos, 1, 0);
                lemma_quadrants(sq, body.pos, 1, 1);
                lemma_select(all, upto, q00);
                lemma_select(all, upto, q01);
                lemma_select(all, upto, q10);
                lemma_select(all, upto, q11);
                crate::cluster::lemma_list_prefix_mass(all, list, t + 1);
                assert(select(all, front, q00).push(j).drop_last() =~= select(all, front, q00));
                assert(select(all, front, q01).push(j).drop_last() =~= select(all, front, q01));
                assert(select(all, front, q10).push(j).drop_last() =~= select(all, front, q10));
                assert(select(all, front, q11).push(j).drop_last() =~= select(all, front, q11));
            }
            if place.0 == 0 {
                if place.1 == 0 {
                    c00.add_body(j, bodies);
                } else {
                    c01.add_body(j, bodies);
                }
            } else {
                if place.1 == 0 {
                    c10.add_body(j, bodies);
                } else {
                    c11.add_body(j, bodies);
                }
            }
            t += 1;
        }
        assert(list.take(count as int) =~= list);
        c00.set_pos();
        c01.set_pos();
        c10.set_pos();
        c11.set_pos();
        let n00: QuadtreeNode = QuadtreeNode {
            children: None,
            bodies: QuadtreeNodeBodies::Bodies(c00.bodies),
            square: q00,
            total_mass: c00.total_mass,
            pos: c00.pos,
        };
        let n01: QuadtreeNode = QuadtreeNode {
            children: None,
            bodies: QuadtreeNodeBodies::Bodies(c01.bodies),
            square: q01,
            total_mass: c01.total_mass,
            pos: c01.pos,
        };
        let n10: QuadtreeNode = QuadtreeNode {
            children: None,
            bodies: QuadtreeNodeBodies::Bodies(c10.bodies),
            square: q10,
            total_mass: c10.total_mass,
            pos: c10.pos,
        };
        let n11: QuadtreeNode = QuadtreeNode {
            children: None,
            bodies: QuadtreeNodeBodies::Bodies(c11.bodies),
            square: q11,
            total_mass: c11.total_mass,
            pos: c11.pos,
        };
        proof {
            lemma_child_sound(parent, n00, 0, 0, all);
            lemma_child_sound(parent, n01, 0, 1, all);
            lemma_child_sound(parent, n10, 1, 0, all);
            lemma_child_sound(parent, n11, 1, 1, all);
        }
        nodes.push(n00);
        nodes.push(n01);
        nodes.push(n10);
        nodes.push(n11);
        let base: usize = nodes.len() - 4;
        let ghost b = base as int;
        let ghost n0 = nodes_below(all, select(all, list, q00), q00);
        let ghost n1 = nodes_below(all, select(all, list, q01), q01);
        let ghost n2 = nodes_below(all, select(all, list, q10), q10);
        let ghost n3 = nodes_below(all, select(all, list, q11), q11);
        QuadtreeNode::split(base, bodies, nodes);
        let ghost after0 = nodes@;
        QuadtreeNode::split(base + 1, bodies, nodes);
        let ghost after1 = nodes@;
        proof {
            lemma_tree_carry(after0, after1, b, b + 4, b + 1, all);
        }
        QuadtreeNode::split(base + 2, bodies, nodes);
        let ghost after2 = nodes@;
        proof {
            lemma_tree_carry(after1, after2, b, b + 4, b + 2, all);
            lemma_tree_carry(after1, after2, b + 1, b + 4 + n0, b + 2, all);
        }
        QuadtreeNode::split(base + 3, bodies, nodes);
        let ghost after3 = nodes@;
        proof {
            lemma_tree_carry(after2, after3, b, b + 4, b + 3, all);
            lemma_tree_carry(after2, after3, b + 1, b + 4 + n0, b + 3, all);
            lemma_tree_carry(after2, after3, b + 2, b + 4 + n0 + n1, b + 3, all);
        }
        nodes[id].children = Some([[base, base + 1], [base + 2, base + 3]]);
        proof {
            let done = nodes@;
            lemma_tree_carry(after3, done, b, b + 4, id as int, all);
            lemma_tree_carry(after3, done, b + 1, b + 4 + n0, id as int, all);
            lemma_tree_carry(after3, done, b + 2, b + 4 + n0 + n1, id as int, all);
            lemma_tree_carry(after3, done, b + 3, b + 4 + n0 + n1 + n2, id as int, all);
            assert(done[id as int].list(n as nat) == list);
            lemma_nodes_below(all, list, sq);
            lemma_tree_node(done, id as int, b, all);
        }
    }
}

/// `l <= k * d` exactly where `l / k`, rounded up, is at most `d`.
pub proof fn lemma_ceil_div(l: int, k: int, d: int)
    requires
        l >= 0,
        k > 0,
        d >= 0,
    ensures
        l <= k * d <==> (l + k - 1) / k <= d,
{
    let q = (l + k - 1) / k;
    let m = (l + k - 1) % k;
    vstd::arithmetic::div_mod::lemma_fundamental_div_mod(l + k - 1, k);
    vstd::arithmetic::div_mod::lemma_mod_bound(l + k - 1, k);
    assert(l + k - 1 == k * q + m);
    if q <= d {
        assert(k * q <= k * d) by (nonlinear_arith)
            requires
                q <= d,
                k > 0,
        ;
    } else {
        assert(k * q >= k * d + k) by (nonlinear_arith)
            requires
                q >= d + 1,
                k > 0,
        ;
    }
}

/// Whether the square, seen from `pos`, counts as a point mass at `com`.
pub fn accepts_of(sq: &Square, com: Vec2, pos: Vec2, theta: u32) -> (r: bool)
    requires
        sq.wf(),
        com.within(POS_MAX as int),
        pos.within(POS_MAX as int),
        theta <= MAX_THETA,
    ensures
        r == accepts(*sq, com, pos, theta as int),
{
    proof {
        lemma_product_bound(THETA_SCALE as int, 10, sq.size as int, 0x2_0200_0000);
        lemma_product_bound(theta as int, 40, sq.scale as int, 0x4_0400_0000);
        lemma_product_bound(THETA_SCALE * sq.size, 0x14_1400_0000, THETA_SCALE * sq.size, 0x14_1400_0000);
        lemma_product_bound(theta * sq.scale, 0xa0_a000_0000, theta * sq.scale, 0xa0_a000_0000);
        assert((THETA_SCALE * sq.size) * (THETA_SCALE * sq.size) > 0) by (nonlinear_arith)
            requires
                THETA_SCALE * sq.size >= sq.size,
                sq.size >= 1,
        ;
        assert((theta * sq.scale) * (theta * sq.scale) >= 0) by (nonlinear_arith);
    }
    let a: i128 = (THETA_SCALE as i128) * (sq.size as i128);
    let b: i128 = (theta as i128) * (sq.scale as i128);
    let lhs: i128 = a * a;
    let k: i128 = b * b;
    let d2: i128 = distance_squared(com, pos);
    if k == 0 {
        assert(k * d2 == 0) by (nonlinear_arith)
            requires
                k == 0,
        ;
        return false;
    }
    proof {
        lemma_ceil_div(lhs as int, k as int, d2 as int);
    }
    (lhs + k - 1) / k <= d2
}

/// The quadrants of a square share out the bodies inside it: their numbers
/// add up, and so do their pulls body by body.
pub proof fn lemma_partition(bodies: Seq<Body>, list: Seq<usize>, sq: Square, i: int, dt: int)
    requires
        sq.wf(),
        sq.can_split(),
        forall|t: int|
            0 <= t < list.len() ==> (#[trigger] list[t]) < bodies.len() && sq.holds(
                bodies[list[t] as int].pos,
            ),
    ensures
        select(bodies, list, sq.child(0, 0)).len() + select(bodies, list, sq.child(0, 1)).len()
            + select(bodies, list, sq.child(1, 0)).len() + select(bodies, list, sq.child(1, 1)).len()
            == list.len(),
        list_pull(bodies, i, select(bodies, list, sq.child(0, 0)), dt).plus(
            list_pull(bodies, i, select(bodies, list, sq.child(0, 1)), dt),
        ).plus(list_pull(bodies, i, select(bodies, list, sq.child(1, 0)), dt)).plus(
            list_pull(bodies, i, select(bodies, list, sq.child(1, 1)), dt),
        ) == list_pull(bodies, i, list, dt),
    decreases list.len(),
{
    if list.len() > 0 {
        let front = list.drop_last();
        let last = list.last();
        assert forall|t: int| 0 <= t < front.len() implies (#[trigger] front[t]) < bodies.len()
            && sq.holds(bodies[front[t] as int].pos) by {
            assert(front[t] == list[t]);
        }
        lemma_partition(bodies, front, sq, i, dt);
        let pos = bodies[last as int].pos;
        assert(list[list.len() - 1] == last);
        lemma_quadrants(sq, pos, 0, 0);
        lemma_quadrants(sq, pos, 0, 1);
        lemma_quadrants(sq, pos, 1, 0);
        lemma_quadrants(sq, pos, 1, 1);
        let s00 = select(bodies, front, sq.child(0, 0));
        let s01 = select(bodies, front, sq.child(0, 1));
        let s10 = select(bodies, front, sq.child(1, 0));
        let s11 = select(bodies, front, sq.child(1, 1));
        assert(s00.push(last).drop_last() =~= s00);
        assert(s01.push(last).drop_last() =~= s01);
        assert(s10.push(last).drop_last() =~= s10);
        assert(s11.push(last).drop_last() =~= s11);
    }
}

/// The places of a store of `n` bodies.
pub fn iota_of(n: usize) -> (v: Vec<usize>)
    ensures
        v@ == iota(n as nat),
{
    let mut v: Vec<usize> = Vec::new();
    let mut k: usize = 0;
    while k < n
        invariant
            k <= n,
            v@ == iota(k as nat),
        decreases n - k,
    {
        v.push(k);
        proof {
            assert(v@ =~= iota((k + 1) as nat));
        }
        k += 1;
    }
    v
}

impl QuadtreeNode {
    /// What the bodies of the node at `id` impart on the body at `place`
    /// during `dt` under the threshold `theta`.
    pub fn adjust_speed(
        id: NodeID,
        place: usize,
        bodies: &BodyStore,
        nodes: &Vec<QuadtreeNode>,
        theta: u32,
        dt: i64,
    ) -> (a: (i128, i128))
        requires
            bodies.wf(),
            rooted(nodes@, id as int, bodies@.bodies),
            place < bodies@.bodies.len(),
            theta <= MAX_THETA,
            0 <= dt <= TIME_MAX,
        ensures
            a.0 == bh_pull(
                bodies@.bodies,
                nodes[id as int].list(bodies@.bodies.len()),
                nodes[id as int].square,
                place as int,
                theta as int,
                dt as int,
            ).x,
            a.1 == bh_pull(
                bodies@.bodies,
                nodes[id as int].list(bodies@.bodies.len()),
                nodes[id as int].square,
                place as int,
                theta as int,
                dt as int,
            ).y,
            -(nodes[id as int].list(bodies@.bodies.len()).len() * 0x10_0000_0000_0000_0000_0000)
                <= a.0 <= nodes[id as int].list(bodies@.bodies.len()).len()
                * 0x10_0000_0000_0000_0000_0000,
            -(nodes[id as int].list(bodies@.bodies.len()).len() * 0x10_0000_0000_0000_0000_0000)
                <= a.1 <= nodes[id as int].list(bodies@.bodies.len()).len()
                * 0x10_0000_0000_0000_0000_0000,
        decreases nodes[id as int].square.room(),
    {
        proof {
            let lo = choose|lo: int| tree_ok(nodes@, id as int, lo, bodies@.bodies);
            lemma_tree_root(nodes@, id as int, lo, bodies@.bodies);
        }
        let node: &QuadtreeNode = &nodes[id];
        let n: usize = bodies.len();
        let ghost all = bodies@.bodies;
        let ghost list = node.list(n as nat);
        let count: usize = count_of(node, n);
        if count == 0 {
            return (0, 0);
        }
        let p: Body = bodies.body(place);
        assert(p.wf());
        let inside: bool = node.square.contains(p.pos);
        proof {
            if list.contains(place) {
                let u = choose|u: int| 0 <= u < list.len() && list[u] == place;
                assert(node.square.holds(all[list[u] as int].pos));
            }
            if inside {
                assert(node.square.holds(all[place as int].pos));
            }
            if node.bodies is All {
                assert(list[place as int] == place);
            }
            crate::cluster::lemma_list_prefix_mass_nonneg(all, list);
        }
        if count == 1 {
            return if inside {
                (0, 0)
            } else {
                pull_of(p.pos, node.pos, node.total_mass, dt)
            };
        }
        if !inside && accepts_of(&node.square, node.pos, p.pos, theta) {
            return pull_of(p.pos, node.pos, node.total_mass, dt);
        }
        match node.children {
            Some(ch) => {
                proof {
                    lemma_partition(all, list, node.square, place as int, dt as int);
                }
                let a: (i128, i128) = QuadtreeNode::adjust_speed(
                    ch[0][0],
                    place,
                    bodies,
                    nodes,
                    theta,
                    dt,
                );
                let b: (i128, i128) = QuadtreeNode::adjust_speed(
                    ch[0][1],
                    place,
                    bodies,
                    nodes,
                    theta,
                    dt,
                );
                let c: (i128, i128) = QuadtreeNode::adjust_speed(
                    ch[1][0],
                    place,
                    bodies,
                    nodes,
                    theta,
                    dt,
                );
                let d: (i128, i128) = QuadtreeNode::adjust_speed(
                    ch[1][1],
                    place,
                    bodies,
                    nodes,
                    theta,
                    dt,
                );
                proof {
                    lemma_total_mass_covers(all);
                }
                (a.0 + b.0 + c.0 + d.0, a.1 + b.1 + c.1 + d.1)
            },
            None => {
                match &node.bodies {
                    QuadtreeNodeBodies::All => {
                        let v: Vec<usize> = iota_of(n);
                        cluster_pull(place, &v, bodies, dt)
                    },
                    QuadtreeNodeBodies::Bodies(v) => cluster_pull(place, v, bodies, dt),
                }
            },
        }
    }
}

impl BarnesHut {
    /// The tree over the bodies of a store, with the root at place 0: the
    /// root stands for all bodies in the bounding square, and every node with
    /// several bodies in a square that can be split has its four quadrants.
    /// An empty store has no tree.
    pub fn tree(bodies: &BodyStore) -> (nodes: Vec<QuadtreeNode>)
        requires
            bodies.wf(),
        ensures
            bodies@.bodies.len() == 0 ==> nodes.len() == 0,
            bodies@.bodies.len() > 0 ==> nodes.len() == 1 + nodes_below(
                bodies@.bodies,
                iota(bodies@.bodies.len()),
                root_square(bounds(bodies@.bodies)),
            ) && tree_ok(nodes@, 0, 1, bodies@.bodies) && nodes@[0].list(
                bodies@.bodies.len(),
            ) == iota(bodies@.bodies.len()) && nodes@[0].square == root_square(
                bounds(bodies@.bodies),
            ),
    {
        let n: usize = bodies.len();
        let ghost all = bodies@.bodies;
        let mut nodes: Vec<QuadtreeNode> = Vec::new();
        let rect: Rectangle = match get_rectangle(bodies) {
            Some(rect) => rect,
            None => {
                return nodes;
            },
        };
        proof {
            lemma_bounds(all, n as int);
        }
        let square: Square = root_square_of(&rect);
        nodes.push(
            QuadtreeNode {
                children: None,
                bodies: QuadtreeNodeBodies::All,
                square,
                total_mass: 0,
                pos: Vec2 { x: 0, y: 0 },
            },
        );
        proof {
            let root = nodes@[0];
            let list = root.list(n as nat);
            assert(list == iota(n as nat));
            lemma_iota_mass(all, n as nat);
            assert(all.take(n as int) =~= all);
            assert forall|t: int| 0 <= t < list.len() implies (#[trigger] list[t]) < all.len()
                && square.holds(all[list[t] as int].pos) by {
                assert(rect.holds(all[t].pos));
            }
            assert forall|j: int|
                0 <= j < all.len() && square.holds((#[trigger] all[j]).pos) implies list.contains(
                j as usize,
            ) by {
                assert(list[j] == j as usize);
            }
        }
        QuadtreeNode::split(0, bodies, &mut nodes);
        nodes
    }

    /// Adds to the velocity of each body what the tree over the bounding
    /// square imparts on it during `dt` under the engine's threshold. All
    /// pulls are computed from the positions and masses as they are on entry.
    /// Where a velocity would leave its range, nothing changes.
    pub fn handle(&self, bodies: &mut BodyStore, dt: i64) -> (r: Result<(), OutOfRange>)
        requires
            old(bodies).wf(),
            0 <= dt <= TIME_MAX,
        ensures
            final(bodies).wf(),
            r is Ok <==> old(bodies)@.can_push(
                bh_pulls(old(bodies)@.bodies, self.theta(), dt as int),
            ),
            r is Ok ==> final(bodies)@ == old(bodies)@.pushed(
                bh_pulls(old(bodies)@.bodies, self.theta(), dt as int),
            ),
            r is Err ==> final(bodies)@ == old(bodies)@,
    {
        let theta: u32 = self.get_theta();
        let n: usize = bodies.len();
        let ghost all = bodies@.bodies;
        if n == 0 {
            assert(bodies@.pushed(bh_pulls(all, theta as int, dt as int)).bodies =~= all);
            return Ok(());
        }
        let nodes: Vec<QuadtreeNode> = BarnesHut::tree(bodies);
        proof {
            lemma_total_mass_covers(all);
        }
        let mut dvs: Vec<(i128, i128)> = Vec::new();
        let mut i: usize = 0;
        while i < n
            invariant
                i <= n,
                n == all.len(),
                n <= MASS_MAX,
                all == bodies@.bodies,
                bodies.wf(),
                tree_ok(nodes@, 0, 1, all),
                nodes@[0].list(n as nat) == iota(n as nat),
                nodes@[0].square == root_square(bounds(all)),
                theta <= MAX_THETA,
                0 <= dt <= TIME_MAX,
                dvs.len() == i,
                forall|l: int|
                    0 <= l < i ==> (#[trigger] dvs[l]).0 == bh_pull(
                        all,
                        iota(n as nat),
                        root_square(bounds(all)),
                        l,
                        theta as int,
                        dt as int,
                    ).x && dvs[l].1 == bh_pull(
                        all,
                        iota(n as nat),
                        root_square(bounds(all)),
                        l,
                        theta as int,
                        dt as int,
                    ).y,
                forall|l: int|
                    0 <= l < i ==> -0x100_0000_0000_0000_0000_0000_0000_0000 <= (
                    #[trigger] dvs[l]).0 <= 0x100_0000_0000_0000_0000_0000_0000_0000
                        && -0x100_0000_0000_0000_0000_0000_0000_0000 <= dvs[l].1
                        <= 0x100_0000_0000_0000_0000_0000_0000_0000,
            decreases n - i,
        {
            let a: (i128, i128) = QuadtreeNode::adjust_speed(0, i, bodies, &nodes, theta, dt);
            dvs.push(a);
            i += 1;
        }
        assert(shares(dvs@) =~= bh_pulls(all, theta as int, dt as int));
        if bodies.try_push(&dvs) {
            Ok(())
        } else {
            Err(OutOfRange)
        }
    }
}

/// The centre of mass of one body is its position.
pub proof fn lemma_mean_of_one(mass: int, x: int)
    requires
        mass >= 1,
    ensures
        crate::fixed::trunc_div(mass * x, mass) == x,
{
    if x >= 0 {
        assert(mass * x >= 0) by (nonlinear_arith)
            requires
                mass >= 1,
                x >= 0,
        ;
        vstd::arithmetic::div_mod::lemma_div_multiples_vanish(x, mass);
    } else {
        assert(mass * x < 0 && -(mass * x) == mass * (-x)) by (nonlinear_arith)
            requires
                mass >= 1,
                x < 0,
        ;
        vstd::arithmetic::div_mod::lemma_div_multiples_vanish(-x, mass);
    }
}

/// Under the threshold 0 no group counts as a point mass: a node pulls as
/// its bodies do one by one.
pub proof fn lemma_zero_threshold(bodies: Seq<Body>, list: Seq<usize>, sq: Square, i: int, dt: int)
    requires
        all_wf(bodies),
        bodies.len() <= usize::MAX,
        0 <= i < bodies.len(),
        sq.wf(),
        forall|t: int|
            0 <= t < list.len() ==> (#[trigger] list[t]) < bodies.len() && sq.holds(
                bodies[list[t] as int].pos,
            ),
    ensures
        bh_pull(bodies, list, sq, i, 0, dt) == list_pull(bodies, i, list, dt),
    decreases sq.room(),
{
    let mass = list_mass(bodies, list);
    let com = mean_point(mass, list_moment_x(bodies, list), list_moment_y(bodies, list));
    if list.len() == 0 {
    } else if list.len() == 1 {
        let j = list[0];
        let b = bodies[j as int];
        assert(b.wf());
        assert(list.drop_last() =~= Seq::<usize>::empty());
        assert(list.last() == j);
        assert(list_mass(bodies, list.drop_last()) == 0);
        assert(list_moment_x(bodies, list.drop_last()) == 0);
        assert(list_moment_y(bodies, list.drop_last()) == 0);
        assert(list_pull(bodies, i, list.drop_last(), dt) == Vector::zero());
        lemma_mean_of_one(b.mass as int, b.pos.x as int);
        lemma_mean_of_one(b.mass as int, b.pos.y as int);
        assert(com == b.pos);
        if list.contains(i as usize) {
            let u = choose|u: int| 0 <= u < list.len() && list[u] == i as usize;
            assert(j == i);
        } else {
            assert(j != i) by {
                if j == i {
                    assert(list[0] == i as usize);
                }
            }
        }
    } else {
        assert(!accepts(sq, com, bodies[i].pos, 0)) by {
            let d = dist_sq(com, bodies[i].pos);
            let a = THETA_SCALE * sq.size;
            assert((0 * sq.scale) * (0 * sq.scale) * d == 0) by (nonlinear_arith);
            assert(a * a > 0) by (nonlinear_arith)
                requires
                    a == 10 * sq.size,
                    sq.size >= 1,
            ;
        }
        if sq.can_split() {
            lemma_select(bodies, list, sq.child(0, 0));
            lemma_select(bodies, list, sq.child(0, 1));
            lemma_select(bodies, list, sq.child(1, 0));
            lemma_select(bodies, list, sq.child(1, 1));
            lemma_child_lists(bodies, list, sq, 0, 0);
            lemma_child_lists(bodies, list, sq, 0, 1);
            lemma_child_lists(bodies, list, sq, 1, 0);
            lemma_child_lists(bodies, list, sq, 1, 1);
            lemma_zero_threshold(bodies, select(bodies, list, sq.child(0, 0)), sq.child(0, 0), i, dt);
            lemma_zero_threshold(bodies, select(bodies, list, sq.child(0, 1)), sq.child(0, 1), i, dt);
            lemma_zero_threshold(bodies, select(bodies, list, sq.child(1, 0)), sq.child(1, 0), i, dt);
            lemma_zero_threshold(bodies, select(bodies, list, sq.child(1, 1)), sq.child(1, 1), i, dt);
            lemma_partition(bodies, list, sq, i, dt);
        }
    }
}

/// The bodies selected for a quadrant are bodies of the store inside the
/// quadrant, and the quadrant is well formed.
pub proof fn lemma_child_lists(bodies: Seq<Body>, list: Seq<usize>, sq: Square, r: int, c: int)
    requires
        all_wf(bodies),
        sq.wf(),
        sq.can_split(),
        0 <= r <= 1,
        0 <= c <= 1,
        forall|t: int| 0 <= t < list.len() ==> (#[trigger] list[t]) < bodies.len(),
    ensures
        sq.child(r, c).wf(),
        forall|t: int|
            0 <= t < select(bodies, list, sq.child(r, c)).len() ==> (#[trigger] select(
                bodies,
                list,
                sq.child(r, c),
            )[t]) < bodies.len() && sq.child(r, c).holds(
                bodies[select(bodies, list, sq.child(r, c))[t] as int].pos,
            ),
{
    let q = sq.child(r, c);
    let part = select(bodies, list, q);
    lemma_select(bodies, list, q);
    assert forall|t: int| 0 <= t < part.len() implies (#[trigger] part[t]) < bodies.len() && q.holds(
        bodies[part[t] as int].pos,
    ) by {
        assert(list.contains(part[t]));
        let u = choose|u: int| 0 <= u < list.len() && list[u] == part[t];
        assert(list[u] < bodies.len());
    }
    assert(c * sq.size == if c == 0 { 0 } else { sq.size as int }) by (nonlinear_arith)
        requires
            0 <= c <= 1,
    ;
    assert(r * sq.size == if r == 0 { 0 } else { sq.size as int }) by (nonlinear_arith)
        requires
            0 <= r <= 1,
    ;
}

/// The bodies at all places pull as the direct sum does.
pub proof fn lemma_iota_pull(bodies: Seq<Body>, i: int, n: nat, dt: int)
    requires
        n <= bodies.len() <= usize::MAX,
    ensures
        list_pull(bodies, i, iota(n), dt) == crate::direct::direct_pull(bodies, i, n as int, dt),
    decreases n,
{
    if n > 0 {
        lemma_iota_pull(bodies, i, (n - 1) as nat, dt);
        assert(iota(n).drop_last() =~= iota((n - 1) as nat));
        assert(iota(n).last() == (n - 1) as usize);
    }
}

/// Under the threshold 0 the tree imparts on every body exactly what the
/// direct sum over all other bodies imparts on it.
pub proof fn lemma_tree_of_zero_threshold_is_direct(bodies: Seq<Body>, dt: int)
    requires
        all_wf(bodies),
        1 <= bodies.len() <= usize::MAX,
    ensures
        bh_pulls(bodies, 0, dt) == crate::direct::direct_pulls(bodies, dt),
{
    let n = bodies.len();
    let rect = bounds(bodies);
    let sq = root_square(rect);
    lemma_bounds(bodies, n as int);
    lemma_root_square(rect);
    assert forall|i: int| 0 <= i < n implies bh_pull(bodies, iota(n), sq, i, 0, dt)
        == crate::direct::direct_pull(bodies, i, n as int, dt) by {
        assert forall|t: int| 0 <= t < iota(n).len() implies (#[trigger] iota(n)[t]) < bodies.len()
            && sq.holds(bodies[iota(n)[t] as int].pos) by {
            assert(rect.holds(bodies[t].pos));
        }
        lemma_zero_threshold(bodies, iota(n), sq, i, dt);
        lemma_iota_pull(bodies, i, n, dt);
    }
    assert(bh_pulls(bodies, 0, dt) =~= crate::direct::direct_pulls(bodies, dt));
}

} // verus!
