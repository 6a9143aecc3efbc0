//! The grid engine: the bodies are sorted into the cells of a uniform grid;
//! a body feels each body of its own and the adjacent cells, and every other
//! cell as one point mass at the cell's centre of mass.

use vstd::prelude::*;
use crate::body::{pull, pull_of, Body, RADIUS_MAX};
use crate::cluster::{cluster_pull, list_mass, list_moment_x, list_moment_y, list_pull, mean_point};
use crate::fixed::{
    isqrt, lemma_square_monotonic, lemma_trunc_div_between, sqrt_floor, OutOfRange, MASS_MAX,
    POS_MAX, TIME_MAX, UNIT,
};
use crate::geometry::{bounds, get_rectangle, lemma_bounds, Rectangle};
use crate::store::{all_wf, shares, total_mass, BodyStore};
use crate::vector::{lemma_product_bound, Vec2, Vector};

verus! {

/// The area of a cell is to be `TAU_NUM / TAU_DEN` of the area of the grid
/// over the square root of the number of bodies.
pub const TAU_NUM: i64 = 3;

/// See `TAU_NUM`.
pub const TAU_DEN: i64 = 10;

/// The most rows, and the most columns, of a grid.
pub const GRID_SIDE_MAX: usize = 32_768;

/// A grid of `rows` times `cols` equal cells over the rectangle of the given
/// corner, width and height.
#[derive(Clone, Copy, Debug, PartialEq, Eq, Structural)]
pub struct Layout {
    pub left: i64,
    pub top: i64,
    pub width: i64,
    pub height: i64,
    pub rows: usize,
    pub cols: usize,
}

/// `a / b` rounded to the nearest integer, halves upward, for positive `b`.
pub open spec fn round_div(a: int, b: int) -> int {
    (2 * a + b) / (2 * b)
}

/// `x` brought into the range of a grid's side.
pub open spec fn clamp_side(x: int) -> int {
    if x < 1 {
        1
    } else if x > GRID_SIDE_MAX {
        GRID_SIDE_MAX as int
    } else {
        x
    }
}

/// The side that a cell should have in a grid over `w` times `h` with `n`
/// bodies: the square root of `TAU * w * h / sqrt(n)`, at least 1. The root
/// of `n` is taken in fixed point.
pub open spec fn target_side(w: int, h: int, n: int) -> int {
    let t = sqrt_floor((TAU_NUM * w * h * UNIT) / (TAU_DEN * sqrt_floor(n * UNIT * UNIT)));
    if t < 1 {
        1
    } else {
        t
    }
}

/// The grid over `rect` for `n` bodies: as many rows as cells of the target
/// side fit into the height, and as many columns as cells of the resulting
/// height fit into the width, both rounded and at least 1.
pub open spec fn grid_layout(rect: Rectangle, n: int) -> Layout {
    let w = rect.width();
    let h = rect.height();
    let rows = clamp_side(round_div(h, target_side(w, h, n)));
    let cols = clamp_side(round_div(w * rows, h));
    Layout {
        left: rect.top_left.x,
        top: rect.top_left.y,
        width: w as i64,
        height: h as i64,
        rows: rows as usize,
        cols: cols as usize,
    }
}

impl Layout {
    /// The corner lies in the world grown by one radius, the extents are
    /// positive and no larger than that world, and there are
    /// between 1 and `GRID_SIDE_MAX` rows and columns.
    pub open spec fn wf(self) -> bool {
        &&& -(POS_MAX + RADIUS_MAX) <= self.left <= POS_MAX + RADIUS_MAX
        &&& -(POS_MAX + RADIUS_MAX) <= self.top <= POS_MAX + RADIUS_MAX
        &&& 1 <= self.width <= 2 * (POS_MAX + RADIUS_MAX)
        &&& 1 <= self.height <= 2 * (POS_MAX + RADIUS_MAX)
        &&& 1 <= self.rows <= GRID_SIDE_MAX
        &&& 1 <= self.cols <= GRID_SIDE_MAX
    }

    /// The grid covers `pos`.
    pub open spec fn covers(self, pos: Vec2) -> bool {
        &&& self.left <= pos.x < self.left + self.width
        &&& self.top <= pos.y < self.top + self.height
    }

    /// The row of the cell that holds a point of ordinate `y`.
    pub open spec fn row_of(self, y: int) -> int {
        ((y - self.top) * self.rows) / (self.height as int)
    }

    /// The column of the cell that holds a point of abscissa `x`.
    pub open spec fn col_of(self, x: int) -> int {
        ((x - self.left) * self.cols) / (self.width as int)
    }

    /// The cell in row `m` and column `n` holds `pos`.
    pub open spec fn in_cell(self, pos: Vec2, m: int, n: int) -> bool {
        self.row_of(pos.y as int) == m && self.col_of(pos.x as int) == n
    }

    /// The row and the column of the cell that holds `pos`.
    pub fn cell_of(&self, pos: Vec2) -> (c: (usize, usize))
        requires
            self.wf(),
            self.covers(pos),
        ensures
            c.0 == self.row_of(pos.y as int),
            c.1 == self.col_of(pos.x as int),
            c.0 < self.rows,
            c.1 < self.cols,
    {
        let dy: i128 = pos.y as i128 - self.top as i128;
        let dx: i128 = pos.x as i128 - self.left as i128;
        proof {
            lemma_scaled_index(dy as int, self.rows as int, self.height as int);
            lemma_scaled_index(dx as int, self.cols as int, self.width as int);
        }
        let row: i128 = dy * (self.rows as i128) / (self.height as i128);
        let col: i128 = dx * (self.cols as i128) / (self.width as i128);
        (row as usize, col as usize)
    }
}

/// An offset below the extent, scaled to `count` cells, gives a cell index
/// below `count`.
pub proof fn lemma_scaled_index(d: int, count: int, extent: int)
    requires
        0 <= d < extent,
        1 <= count <= GRID_SIDE_MAX,
    ensures
        0 <= (d * count) / extent < count,
        0 <= d * count < extent * count,
        d * count <= extent * 32_768,
{
    assert(0 <= d * count < extent * count && extent * count <= extent * 32_768)
        by (nonlinear_arith)
        requires
            0 <= d < extent,
            1 <= count <= 32_768,
    ;
    vstd::arithmetic::div_mod::lemma_div_pos_is_pos(d * count, extent);
    vstd::arithmetic::div_mod::lemma_multiply_divide_lt(d * count, extent, count);
}

/// The grid for the bodies of a rectangle.
pub fn layout_of(rect: &Rectangle, count: usize) -> (g: Layout)
    requires
        rect.top_left.within(POS_MAX + RADIUS_MAX),
        rect.bottom_right.within(POS_MAX + RADIUS_MAX),
        rect.width() >= 1,
        rect.height() >= 1,
        count >= 1,
    ensures
        g == grid_layout(*rect, count as int),
        g.wf(),
{
    let w: i128 = rect.bottom_right.x as i128 - rect.top_left.x as i128;
    let h: i128 = rect.bottom_right.y as i128 - rect.top_left.y as i128;
    proof {
        lemma_product_bound(count as int, 0xffff_ffff_ffff_ffff, UNIT as int, 0x10_0000);
        lemma_product_bound(count * UNIT, 0xf_ffff_ffff_ffff_fff0_0000, UNIT as int, 0x10_0000);
        assert(count * UNIT >= 0x10_0000 && count * UNIT * UNIT >= 0x100_0000_0000)
            by (nonlinear_arith)
            requires
                count >= 1,
                UNIT == 0x10_0000,
        ;
    }
    let root: u128 = isqrt((count as u128) * (UNIT as u128) * (UNIT as u128));
    proof {
        assert(root >= 1) by {
            if root == 0 {
                assert((root + 1) * (root + 1) == 1) by (nonlinear_arith)
                    requires
                        root == 0,
                ;
            }
        }
        if root >= 0x10_0000_0000_0000 {
            lemma_square_monotonic(0x10_0000_0000_0000, root as int);
        }
        lemma_product_bound(TAU_NUM as int, 3, w as int, 0x2_0200_0000);
        lemma_product_bound(TAU_NUM * w, 0x6_0600_0000, h as int, 0x2_0200_0000);
        lemma_product_bound(TAU_NUM * w * h, 0xc_180c_0000_0000_0000, UNIT as int, 0x10_0000);
        lemma_product_bound(TAU_DEN as int, 10, root as int, 0x10_0000_0000_0000);
        assert(TAU_NUM * w * h * UNIT >= 0) by (nonlinear_arith)
            requires
                TAU_NUM >= 0,
                w >= 0,
                h >= 0,
                UNIT >= 0,
        ;
        assert(TAU_DEN * root >= 1) by (nonlinear_arith)
            requires
                TAU_DEN >= 1,
                root >= 1,
        ;
        vstd::arithmetic::div_mod::lemma_div_pos_is_pos(TAU_NUM * w * h * UNIT, TAU_DEN * root);
        crate::collision::lemma_quotient_shrinks(TAU_NUM * w * h * UNIT, TAU_DEN * root);
    }
    let area: i128 = (TAU_NUM as i128) * w * h * (UNIT as i128) / ((TAU_DEN as i128) * (
    root as i128));
    let side: u128 = isqrt(area as u128);
    proof {
        if side >= 0x1_0000_0000_0000_0000 {
            lemma_square_monotonic(0x1_0000_0000_0000_0000, side as int);
        }
    }
    let target: i128 = if side < 1 {
        1
    } else {
        side as i128
    };
    assert(target == target_side(w as int, h as int, count as int));
    proof {
        vstd::arithmetic::div_mod::lemma_div_pos_is_pos(2 * h + target, 2 * target);
        crate::collision::lemma_quotient_shrinks(2 * h + target, 2 * target);
    }
    let rows_raw: i128 = (2 * h + target) / (2 * target);
    let rows: i128 = if rows_raw < 1 {
        1
    } else if rows_raw > GRID_SIDE_MAX as i128 {
        GRID_SIDE_MAX as i128
    } else {
        rows_raw
    };
    proof {
        lemma_product_bound(w as int, 0x2_0200_0000, rows as int, 32_768);
        assert(w * rows >= 0) by (nonlinear_arith)
            requires
                w >= 0,
                rows >= 0,
        ;
        vstd::arithmetic::div_mod::lemma_div_pos_is_pos(2 * (w * rows) + h, 2 * h);
        crate::collision::lemma_quotient_shrinks(2 * (w * rows) + h, 2 * h);
    }
    let cols_raw: i128 = (2 * (w * rows) + h) / (2 * h);
    let cols: i128 = if cols_raw < 1 {
        1
    } else if cols_raw > GRID_SIDE_MAX as i128 {
        GRID_SIDE_MAX as i128
    } else {
        cols_raw
    };
    Layout {
        left: rect.top_left.x,
        top: rect.top_left.y,
        width: w as i64,
        height: h as i64,
        rows: rows as usize,
        cols: cols as usize,
    }
}

/// The places, in increasing order, of those among the first `k` bodies that
/// lie in the cell of row `m` and column `n`.
pub open spec fn members(bodies: Seq<Body>, g: Layout, m: int, n: int, k: int) -> Seq<usize>
    decreases k,
{
    if k <= 0 {
        Seq::empty()
    } else {
        let rest = members(bodies, g, m, n, k - 1);
        if g.in_cell(bodies[k - 1].pos, m, n) {
            rest.push((k - 1) as usize)
        } else {
            rest
        }
    }
}

/// One cell of a grid: the places of its bodies, their joint mass, their
/// moments, and once `set_pos` has run their centre of mass.
#[derive(Clone, Debug, PartialEq, Eq)]
pub struct Cell {
    pub bodies: Vec<usize>,
    pub total_mass: i64,
    pub sum_x: i128,
    pub sum_y: i128,
    pub pos: Vec2,
}

impl Cell {
    /// The mass and the moments are in range.
    pub open spec fn bounded(self) -> bool {
        &&& 0 <= self.total_mass <= MASS_MAX
        &&& -(self.total_mass * 0x1_0000_0000) <= self.sum_x <= self.total_mass * 0x1_0000_0000
        &&& -(self.total_mass * 0x1_0000_0000) <= self.sum_y <= self.total_mass * 0x1_0000_0000
    }

    /// The mass and the moments are those of the listed bodies.
    pub open spec fn tallies(self, bodies: Seq<Body>) -> bool {
        &&& forall|t: int| 0 <= t < self.bodies@.len() ==> (#[trigger] self.bodies@[t]) < bodies.len()
        &&& self.total_mass == list_mass(bodies, self.bodies@)
        &&& self.sum_x == list_moment_x(bodies, self.bodies@)
        &&& self.sum_y == list_moment_y(bodies, self.bodies@)
        &&& self.bounded()
    }

    /// A cell without bodies.
    pub fn new() -> (c: Cell)
        ensures
            c.bodies@.len() == 0,
            c.total_mass == 0,
            c.sum_x == 0,
            c.sum_y == 0,
            c.pos == (Vec2 { x: 0, y: 0 }),
    {
        Cell { bodies: Vec::new(), total_mass: 0, sum_x: 0, sum_y: 0, pos: Vec2 { x: 0, y: 0 } }
    }

    /// Takes the body at `place` into the cell.
    pub fn add_body(&mut self, place: usize, bodies: &BodyStore)
        requires
            bodies.wf(),
            place < bodies@.bodies.len(),
            old(self).tallies(bodies@.bodies),
            old(self).total_mass + bodies@.bodies[place as int].mass <= MASS_MAX,
        ensures
            final(self).tallies(bodies@.bodies),
            final(self).bodies@ == old(self).bodies@.push(place),
            final(self).pos == old(self).pos,
    {
        let body: Body = bodies.body(place);
        proof {
            assert(body.wf());
            lemma_product_bound(body.mass as int, 0x1_0000_0000, body.pos.x as int, 0x1_0000_0000);
            lemma_product_bound(body.mass as int, 0x1_0000_0000, body.pos.y as int, 0x1_0000_0000);
            lemma_product_bound(body.pos.x as int, 0x1_0000_0000, body.mass as int, body.mass as int);
            lemma_product_bound(body.pos.y as int, 0x1_0000_0000, body.mass as int, body.mass as int);
            assert(body.pos.x * body.mass == body.mass * body.pos.x) by (nonlinear_arith);
            assert(body.pos.y * body.mass == body.mass * body.pos.y) by (nonlinear_arith);
            assert(self.bodies@.push(place).drop_last() =~= self.bodies@);
        }
        self.bodies.push(place);
        self.total_mass = self.total_mass + body.mass;
        self.sum_x = self.sum_x + (body.mass as i128) * (body.pos.x as i128);
        self.sum_y = self.sum_y + (body.mass as i128) * (body.pos.y as i128);
    }

    /// Sets the position to the centre of mass of the bodies taken in so far.
    pub fn set_pos(&mut self)
        requires
            old(self).bounded(),
        ensures
            final(self).pos == mean_point(
                old(self).total_mass as int,
                old(self).sum_x as int,
                old(self).sum_y as int,
            ),
            final(self).pos.within(POS_MAX as int),
            final(self).bodies == old(self).bodies,
            final(self).total_mass == old(self).total_mass,
            final(self).sum_x == old(self).sum_x,
            final(self).sum_y == old(self).sum_y,
    {
        if self.total_mass != 0 {
            proof {
                let m = self.total_mass as int;
                assert(m * (-0x1_0000_0000) == -(m * 0x1_0000_0000)) by (nonlinear_arith);
                lemma_trunc_div_between(self.sum_x as int, m, -0x1_0000_0000, 0x1_0000_0000);
                lemma_trunc_div_between(self.sum_y as int, m, -0x1_0000_0000, 0x1_0000_0000);
            }
            self.pos = Vec2 {
                x: (self.sum_x / (self.total_mass as i128)) as i64,
                y: (self.sum_y / (self.total_mass as i128)) as i64,
            };
        } else {
            self.pos = Vec2 { x: 0, y: 0 };
        }
    }
}

/// `b` is `a` or next to it.
pub open spec fn near(a: int, b: int) -> bool {
    a - 1 <= b <= a + 1
}

/// What the cell of row `m` and column `n` imparts on the body at `i`: the
/// pull of each of its bodies where the cell is the body's own or adjacent to
/// it, and else the pull of its joint mass at its centre of mass.
pub open spec fn cell_pull(bodies: Seq<Body>, g: Layout, i: int, m: int, n: int, dt: int)
    -> Vector {
    let list = members(bodies, g, m, n, bodies.len() as int);
    if near(g.row_of(bodies[i].pos.y as int), m) && near(g.col_of(bodies[i].pos.x as int), n) {
        list_pull(bodies, i, list, dt)
    } else {
        pull(
            bodies[i].pos,
            mean_point(
                list_mass(bodies, list),
                list_moment_x(bodies, list),
                list_moment_y(bodies, list),
            ),
            list_mass(bodies, list),
            dt,
        )
    }
}

/// What the first `n` cells of row `m` impart on the body at `i`.
pub open spec fn row_pull(bodies: Seq<Body>, g: Layout, i: int, m: int, n: int, dt: int) -> Vector
    decreases n,
{
    if n <= 0 {
        Vector::zero()
    } else {
        row_pull(bodies, g, i, m, n - 1, dt).plus(cell_pull(bodies, g, i, m, n - 1, dt))
    }
}

/// What the first `m` rows of the grid impart on the body at `i`.
pub open spec fn rows_pull(bodies: Seq<Body>, g: Layout, i: int, m: int, dt: int) -> Vector
    decreases m,
{
    if m <= 0 {
        Vector::zero()
    } else {
        rows_pull(bodies, g, i, m - 1, dt).plus(row_pull(bodies, g, i, m - 1, g.cols as int, dt))
    }
}

/// What the whole grid imparts on the body at `i` during `dt`.
pub open spec fn grid_pull(bodies: Seq<Body>, g: Layout, i: int, dt: int) -> Vector {
    rows_pull(bodies, g, i, g.rows as int, dt)
}

/// For each body, what the grid over the bounding rectangle imparts on it.
pub open spec fn grid_pulls(bodies: Seq<Body>, dt: int) -> Seq<Vector> {
    Seq::new(
        bodies.len(),
        |i: int| grid_pull(bodies, grid_layout(bounds(bodies), bodies.len() as int), i, dt),
    )
}

/// The cell of row `m` and column `n` in a row-major vector of cells.
pub open spec fn cell_at(cells: Seq<Cell>, g: Layout, m: int, n: int) -> Cell {
    cells[m * g.cols + n]
}

/// The cell lists those of the first `k` bodies that lie in row `m` and
/// column `n`, with their mass and moments.
pub open spec fn cell_holds(c: Cell, bodies: Seq<Body>, g: Layout, m: int, n: int, k: int) -> bool {
    c.bodies@ == members(bodies, g, m, n, k) && c.tallies(bodies)
}

/// Every cell lists its bodies, with their mass, moments and centre of mass.
pub open spec fn filled(cells: Seq<Cell>, bodies: Seq<Body>, g: Layout) -> bool {
    &&& cells.len() == g.rows * g.cols
    &&& forall|m: int, n: int|
        0 <= m < g.rows && 0 <= n < g.cols ==> cell_holds(
            #[trigger] cell_at(cells, g, m, n),
            bodies,
            g,
            m,
            n,
            bodies.len() as int,
        ) && cell_at(cells, g, m, n).pos == mean_point(
            cell_at(cells, g, m, n).total_mass as int,
            cell_at(cells, g, m, n).sum_x as int,
            cell_at(cells, g, m, n).sum_y as int,
        )
}

/// Row-major places are within the vector and differ for different cells.
pub proof fn lemma_slots(g: Layout, m: int, n: int, r: int, c: int)
    requires
        g.wf(),
        0 <= m < g.rows,
        0 <= n < g.cols,
        0 <= r < g.rows,
        0 <= c < g.cols,
    ensures
        0 <= m * g.cols + n < g.rows * g.cols,
        g.rows * g.cols <= 0x4000_0000,
        m * g.cols + n == r * g.cols + c ==> m == r && n == c,
{
    let w = g.cols as int;
    let h = g.rows as int;
    assert(0 <= m * w && m * w + w <= h * w && h * w <= 32_768 * 32_768) by (nonlinear_arith)
        requires
            0 <= m < h,
            1 <= w <= 32_768,
            h <= 32_768,
    ;
    if m < r {
        assert(m * w + w <= r * w) by (nonlinear_arith)
            requires
                m < r,
                w >= 1,
        ;
    } else if r < m {
        assert(r * w + w <= m * w) by (nonlinear_arith)
            requires
                r < m,
                w >= 1,
        ;
    }
}

/// The first `k` bodies weigh no more than all.
pub proof fn lemma_prefix_mass(bodies: Seq<Body>, k: int)
    requires
        all_wf(bodies),
        0 <= k <= bodies.len(),
    ensures
        total_mass(bodies.take(k)) <= total_mass(bodies),
    decreases bodies.len() - k,
{
    if k < bodies.len() {
        lemma_prefix_mass(bodies, k + 1);
        assert(bodies.take(k + 1).drop_last() =~= bodies.take(k));
        assert(bodies[k].wf());
    } else {
        assert(bodies.take(k) =~= bodies);
    }
}

/// The listed bodies of a cell are among the first `k` bodies and weigh no
/// more than they.
pub proof fn lemma_members_mass(bodies: Seq<Body>, g: Layout, m: int, n: int, k: int)
    requires
        all_wf(bodies),
        0 <= k <= bodies.len() <= usize::MAX,
    ensures
        0 <= list_mass(bodies, members(bodies, g, m, n, k)) <= total_mass(bodies.take(k)),
        total_mass(bodies.take(k)) <= total_mass(bodies),
        members(bodies, g, m, n, k).len() <= k,
        forall|t: int|
            0 <= t < members(bodies, g, m, n, k).len() ==> (#[trigger] members(
                bodies,
                g,
                m,
                n,
                k,
            )[t]) < k,
    decreases k,
{
    lemma_prefix_mass(bodies, k);
    if k > 0 {
        lemma_members_mass(bodies, g, m, n, k - 1);
        assert(bodies.take(k).drop_last() =~= bodies.take(k - 1));
        assert(bodies[k - 1].wf());
        let rest = members(bodies, g, m, n, k - 1);
        assert(rest.push((k - 1) as usize).drop_last() =~= rest);
    }
}

/// The cells of the grid `g`, filled with the bodies.
pub fn fill(g: &Layout, bodies: &BodyStore) -> (cells: Vec<Cell>)
    requires
        bodies.wf(),
        g.wf(),
        forall|k: int|
            0 <= k < bodies@.bodies.len() ==> g.covers((#[trigger] bodies@.bodies[k]).pos),
    ensures
        filled(cells@, bodies@.bodies, *g),
{
    let rows: usize = g.rows;
    let cols: usize = g.cols;
    proof {
        lemma_slots(*g, 0, 0, 0, 0);
    }
    let count: usize = rows * cols;
    let mut cells: Vec<Cell> = Vec::new();
    let mut t: usize = 0;
    while t < count
        invariant
            t <= count,
            cells.len() == t,
            forall|u: int|
                0 <= u < t ==> (#[trigger] cells[u]).bodies@.len() == 0 && cells[u].total_mass == 0
                    && cells[u].sum_x == 0 && cells[u].sum_y == 0,
        decreases count - t,
    {
        cells.push(Cell::new());
        t += 1;
    }
    let n: usize = bodies.len();
    let ghost all = bodies@.bodies;
    proof {
        assert forall|m: int, c: int| 0 <= m < rows && 0 <= c < cols implies cell_holds(
            #[trigger] cell_at(cells@, *g, m, c),
            all,
            *g,
            m,
            c,
            0,
        ) by {
            lemma_slots(*g, m, c, 0, 0);
            let cell = cells@[m * g.cols + c];
            assert(cell.bodies@ =~= members(all, *g, m, c, 0));
        }
    }
    let mut k: usize = 0;
    while k < n
        invariant
            k <= n,
            n == all.len(),
            all == bodies@.bodies,
            bodies.wf(),
            g.wf(),
            rows == g.rows,
            cols == g.cols,
            cells.len() == rows * cols,
            forall|u: int| 0 <= u < cells.len() ==> (#[trigger] cells[u]).bounded(),
            forall|k: int| 0 <= k < all.len() ==> g.covers((#[trigger] all[k]).pos),
            forall|m: int, c: int|
                0 <= m < rows && 0 <= c < cols ==> cell_holds(
                    #[trigger] cell_at(cells@, *g, m, c),
                    all,
                    *g,
                    m,
                    c,
                    k as int,
                ),
        decreases n - k,
    {
        let body: Body = bodies.body(k);
        let place: (usize, usize) = g.cell_of(body.pos);
        proof {
            lemma_slots(*g, place.0 as int, place.1 as int, 0, 0);
            lemma_members_mass(all, *g, place.0 as int, place.1 as int, k as int);
            lemma_members_mass(all, *g, place.0 as int, place.1 as int, k + 1);
            assert(all.take(k + 1).drop_last() =~= all.take(k as int));
            assert(cell_holds(
                cell_at(cells@, *g, place.0 as int, place.1 as int),
                all,
                *g,
                place.0 as int,
                place.1 as int,
                k as int,
            ));
        }
        let slot: usize = place.0 * cols + place.1;
        let ghost before = cells@;
        cells[slot].add_body(k, bodies);
        proof {
            assert forall|m: int, c: int| 0 <= m < rows && 0 <= c < cols implies cell_holds(
                #[trigger] cell_at(cells@, *g, m, c),
                all,
                *g,
                m,
                c,
                k + 1,
            ) by {
                lemma_slots(*g, m, c, place.0 as int, place.1 as int);
                assert(cell_holds(cell_at(before, *g, m, c), all, *g, m, c, k as int));
            }
        }
        k += 1;
    }
    let ghost tallied = cells@;
    let mut t: usize = 0;
    while t < count
        invariant
            t <= count,
            count == rows * cols,
            cells.len() == count,
            tallied.len() == count,
            forall|u: int| 0 <= u < count ==> (#[trigger] tallied[u]).bounded(),
            forall|u: int|
                0 <= u < count ==> (#[trigger] cells[u]).bodies == tallied[u].bodies
                    && cells[u].total_mass == tallied[u].total_mass && cells[u].sum_x
                    == tallied[u].sum_x && cells[u].sum_y == tallied[u].sum_y,
            forall|u: int|
                0 <= u < t ==> (#[trigger] cells[u]).pos == mean_point(
                    cells[u].total_mass as int,
                    cells[u].sum_x as int,
                    cells[u].sum_y as int,
                ),
        decreases count - t,
    {
        cells[t].set_pos();
        t += 1;
    }
    proof {
        assert forall|m: int, c: int| 0 <= m < g.rows && 0 <= c < g.cols implies cell_holds(
            #[trigger] cell_at(cells@, *g, m, c),
            all,
            *g,
            m,
            c,
            all.len() as int,
        ) && cell_at(cells@, *g, m, c).pos == mean_point(
            cell_at(cells@, *g, m, c).total_mass as int,
            cell_at(cells@, *g, m, c).sum_x as int,
            cell_at(cells@, *g, m, c).sum_y as int,
        ) by {
            lemma_slots(*g, m, c, 0, 0);
            assert(cell_holds(cell_at(tallied, *g, m, c), all, *g, m, c, all.len() as int));
        }
    }
    cells
}

/// What the whole grid imparts on the body at `i` during `dt`.
pub fn pull_on(i: usize, g: &Layout, cells: &Vec<Cell>, bodies: &BodyStore, dt: i64) -> (a: (
    i128,
    i128,
))
    requires
        bodies.wf(),
        g.wf(),
        filled(cells@, bodies@.bodies, *g),
        i < bodies@.bodies.len(),
        g.covers(bodies@.bodies[i as int].pos),
        0 <= dt <= TIME_MAX,
    ensures
        a.0 == grid_pull(bodies@.bodies, *g, i as int, dt as int).x,
        a.1 == grid_pull(bodies@.bodies, *g, i as int, dt as int).y,
        -0x100_0000_0000_0000_0000_0000_0000_0000 <= a.0 <= 0x100_0000_0000_0000_0000_0000_0000_0000,
        -0x100_0000_0000_0000_0000_0000_0000_0000 <= a.1 <= 0x100_0000_0000_0000_0000_0000_0000_0000,
{
    let p: Body = bodies.body(i);
    let own: (usize, usize) = g.cell_of(p.pos);
    let rows: usize = g.rows;
    let cols: usize = g.cols;
    let ghost all = bodies@.bodies;
    let mut ax: i128 = 0;
    let mut ay: i128 = 0;
    let mut m: usize = 0;
    while m < rows
        invariant
            m <= rows,
            rows == g.rows,
            cols == g.cols,
            g.wf(),
            bodies.wf(),
            all == bodies@.bodies,
            filled(cells@, all, *g),
            i < all.len(),
            p == all[i as int],
            own.0 == g.row_of(p.pos.y as int),
            own.1 == g.col_of(p.pos.x as int),
            0 <= dt <= TIME_MAX,
            ax == rows_pull(all, *g, i as int, m as int, dt as int).x,
            ay == rows_pull(all, *g, i as int, m as int, dt as int).y,
            -(m * 0x10_0000_0000_0000_0000_0000_0000) <= ax <= m
                * 0x10_0000_0000_0000_0000_0000_0000,
            -(m * 0x10_0000_0000_0000_0000_0000_0000) <= ay <= m
                * 0x10_0000_0000_0000_0000_0000_0000,
        decreases rows - m,
    {
        let mut rx: i128 = 0;
        let mut ry: i128 = 0;
        let mut n: usize = 0;
        while n < cols
            invariant
                n <= cols,
                m < rows,
                rows == g.rows,
                cols == g.cols,
                g.wf(),
                bodies.wf(),
                all == bodies@.bodies,
                filled(cells@, all, *g),
                i < all.len(),
                p == all[i as int],
                own.0 == g.row_of(p.pos.y as int),
                own.1 == g.col_of(p.pos.x as int),
                0 <= dt <= TIME_MAX,
                rx == row_pull(all, *g, i as int, m as int, n as int, dt as int).x,
                ry == row_pull(all, *g, i as int, m as int, n as int, dt as int).y,
                -(n * 0x10_0000_0000_0000_0000_0000) <= rx <= n * 0x10_0000_0000_0000_0000_0000,
                -(n * 0x10_0000_0000_0000_0000_0000) <= ry <= n * 0x10_0000_0000_0000_0000_0000,
            decreases cols - n,
        {
            proof {
                lemma_slots(*g, m as int, n as int, 0, 0);
                assert(cell_holds(
                    cell_at(cells@, *g, m as int, n as int),
                    all,
                    *g,
                    m as int,
                    n as int,
                    all.len() as int,
                ));
            }
            let cell: &Cell = &cells[m * cols + n];
            let a: (i128, i128) = if m + 1 >= own.0 && m <= own.0 + 1 && n + 1 >= own.1 && n
                <= own.1 + 1 {
                cluster_pull(i, &cell.bodies, bodies, dt)
            } else {
                proof {
                    assert(p.wf());
                    if cell.total_mass != 0 {
                        let w = cell.total_mass as int;
                        assert(w * (-0x1_0000_0000) == -(w * 0x1_0000_0000)) by (nonlinear_arith);
                        lemma_trunc_div_between(cell.sum_x as int, w, -0x1_0000_0000, 0x1_0000_0000);
                        lemma_trunc_div_between(cell.sum_y as int, w, -0x1_0000_0000, 0x1_0000_0000);
                    }
                }
                pull_of(p.pos, cell.pos, cell.total_mass, dt)
            };
            rx = rx + a.0;
            ry = ry + a.1;
            n += 1;
        }
        ax = ax + rx;
        ay = ay + ry;
        m += 1;
    }
    (ax, ay)
}

/// The uniform-grid engine.
pub struct Grid;

impl Grid {
    /// The grid over the bounding rectangle of the bodies; none for an empty
    /// store.
    pub fn layout(bodies: &BodyStore) -> (r: Option<Layout>)
        requires
            bodies.wf(),
        ensures
            r is None <==> bodies@.bodies.len() == 0,
            r matches Some(g) ==> g == grid_layout(
                bounds(bodies@.bodies),
                bodies@.bodies.len() as int,
            ) && g.wf() && forall|k: int|
                0 <= k < bodies@.bodies.len() ==> g.covers((#[trigger] bodies@.bodies[k]).pos),
    {
        let n: usize = bodies.len();
        let ghost all = bodies@.bodies;
        let rect: Rectangle = match get_rectangle(bodies) {
            Some(rect) => rect,
            None => {
                return None;
            },
        };
        proof {
            lemma_bounds(all, n as int);
        }
        let g: Layout = layout_of(&rect, n);
        assert forall|k: int| 0 <= k < all.len() implies g.covers((#[trigger] all[k]).pos) by {
            assert(rect.holds(all[k].pos));
        }
        Some(g)
    }

    /// Adds to the velocity of each body what the grid over the bounding
    /// rectangle imparts on it during `dt`: the bodies of its own and the
    /// adjacent cells one by one, every other cell as a point mass. All pulls
    /// are computed from the positions and masses as they are on entry.
    /// Where a velocity would leave its range, nothing changes.
    pub fn handle(bodies: &mut BodyStore, dt: i64) -> (r: Result<(), OutOfRange>)
        requires
            old(bodies).wf(),
            0 <= dt <= TIME_MAX,
        ensures
            final(bodies).wf(),
            r is Ok <==> old(bodies)@.can_push(grid_pulls(old(bodies)@.bodies, dt as int)),
            r is Ok ==> final(bodies)@ == old(bodies)@.pushed(
                grid_pulls(old(bodies)@.bodies, dt as int),
            ),
            r is Err ==> final(bodies)@ == old(bodies)@,
    {
        let n: usize = bodies.len();
        let ghost all = bodies@.bodies;
        let g: Layout = match Grid::layout(bodies) {
            Some(g) => g,
            None => {
                assert(bodies@.pushed(grid_pulls(all, dt as int)).bodies =~= all);
                return Ok(());
            },
        };
        let cells: Vec<Cell> = fill(&g, bodies);
        let mut dvs: Vec<(i128, i128)> = Vec::new();
        let mut i: usize = 0;
        while i < n
            invariant
                i <= n,
                n == all.len(),
                all == bodies@.bodies,
                bodies.wf(),
                g.wf(),
                g == grid_layout(bounds(all), n as int),
                filled(cells@, all, g),
                forall|k: int| 0 <= k < all.len() ==> g.covers((#[trigger] all[k]).pos),
                0 <= dt <= TIME_MAX,
                dvs.len() == i,
                forall|l: int|
                    0 <= l < i ==> (#[trigger] dvs[l]).0 == grid_pull(all, g, l, dt as int).x
                        && dvs[l].1 == grid_pull(all, g, l, dt as int).y,
                forall|l: int|
                    0 <= l < i ==> -0x100_0000_0000_0000_0000_0000_0000_0000 <= (
                    #[trigger] dvs[l]).0 <= 0x100_0000_0000_0000_0000_0000_0000_0000
                        && -0x100_0000_0000_0000_0000_0000_0000_0000 <= dvs[l].1
                        <= 0x100_0000_0000_0000_0000_0000_0000_0000,
            decreases n - i,
        {
            let a: (i128, i128) = pull_on(i, &g, &cells, bodies, dt);
            dvs.push(a);
            i += 1;
        }
        assert(shares(dvs@) =~= grid_pulls(all, dt as int));
        if bodies.try_push(&dvs) {
            Ok(())
        } else {
            Err(OutOfRange)
        }
    }
}

/// The grid over the bounding rectangle of a store is well formed and covers
/// every body.
pub proof fn lemma_grid_layout(bodies: Seq<Body>)
    requires
        all_wf(bodies),
        1 <= bodies.len(),
    ensures
        grid_layout(bounds(bodies), bodies.len() as int).wf(),
        forall|k: int|
            0 <= k < bodies.len() ==> grid_layout(bounds(bodies), bodies.len() as int).covers(
                (#[trigger] bodies[k]).pos,
            ),
{
    let rect = bounds(bodies);
    lemma_bounds(bodies, bodies.len() as int);
    let g = grid_layout(rect, bodies.len() as int);
    assert forall|k: int| 0 <= k < bodies.len() implies g.covers((#[trigger] bodies[k]).pos) by {
        assert(rect.holds(bodies[k].pos));
    }
}

/// What the cell of row `m` and column `n` of a grid of at most two rows and
/// columns imparts body by body, counting the first `k` bodies only.
pub open spec fn corner_pull(bodies: Seq<Body>, g: Layout, i: int, m: int, n: int, k: int, dt: int)
    -> Vector {
    if m < g.rows && n < g.cols {
        list_pull(bodies, i, members(bodies, g, m, n, k), dt)
    } else {
        Vector::zero()
    }
}

/// In a grid of at most two rows and two columns, the cells share out the
/// bodies: body by body, their pulls add up to the direct sum.
pub proof fn lemma_corners_are_direct(bodies: Seq<Body>, g: Layout, i: int, k: int, dt: int)
    requires
        g.wf(),
        g.rows <= 2,
        g.cols <= 2,
        0 <= k <= bodies.len() <= usize::MAX,
        forall|j: int| 0 <= j < bodies.len() ==> g.covers((#[trigger] bodies[j]).pos),
    ensures
        corner_pull(bodies, g, i, 0, 0, k, dt).plus(corner_pull(bodies, g, i, 0, 1, k, dt)).plus(
            corner_pull(bodies, g, i, 1, 0, k, dt),
        ).plus(corner_pull(bodies, g, i, 1, 1, k, dt)) == crate::direct::direct_pull(
            bodies,
            i,
            k,
            dt,
        ),
    decreases k,
{
    if k > 0 {
        lemma_corners_are_direct(bodies, g, i, k - 1, dt);
        let pos = bodies[k - 1].pos;
        assert(g.covers(pos));
        lemma_scaled_index(pos.y - g.top, g.rows as int, g.height as int);
        lemma_scaled_index(pos.x - g.left, g.cols as int, g.width as int);
        let m00 = members(bodies, g, 0, 0, k - 1);
        let m01 = members(bodies, g, 0, 1, k - 1);
        let m10 = members(bodies, g, 1, 0, k - 1);
        let m11 = members(bodies, g, 1, 1, k - 1);
        let last = (k - 1) as usize;
        assert(m00.push(last).drop_last() =~= m00);
        assert(m01.push(last).drop_last() =~= m01);
        assert(m10.push(last).drop_last() =~= m10);
        assert(m11.push(last).drop_last() =~= m11);
    }
}

/// Where the grid has at most two rows and two columns, every cell is next to
/// every other, and the grid imparts on every body exactly what the direct
/// sum over all other bodies imparts on it.
pub proof fn lemma_small_grid_is_direct(bodies: Seq<Body>, dt: int)
    requires
        all_wf(bodies),
        1 <= bodies.len() <= usize::MAX,
        grid_layout(bounds(bodies), bodies.len() as int).rows <= 2,
        grid_layout(bounds(bodies), bodies.len() as int).cols <= 2,
    ensures
        grid_pulls(bodies, dt) == crate::direct::direct_pulls(bodies, dt),
{
    let n = bodies.len() as int;
    let g = grid_layout(bounds(bodies), n);
    lemma_grid_layout(bodies);
    assert forall|i: int| 0 <= i < n implies grid_pull(bodies, g, i, dt)
        == crate::direct::direct_pull(bodies, i, n, dt) by {
        let pos = bodies[i].pos;
        assert(g.covers(pos));
        lemma_scaled_index(pos.y - g.top, g.rows as int, g.height as int);
        lemma_scaled_index(pos.x - g.left, g.cols as int, g.width as int);
        lemma_corners_are_direct(bodies, g, i, n, dt);
        reveal_with_fuel(rows_pull, 3);
        reveal_with_fuel(row_pull, 3);
        assert(cell_pull(bodies, g, i, 0, 0, dt) == list_pull(
            bodies,
            i,
            members(bodies, g, 0, 0, n),
            dt,
        ));
        assert(cell_pull(bodies, g, i, 0, 1, dt) == list_pull(
            bodies,
            i,
            members(bodies, g, 0, 1, n),
            dt,
        ));
        assert(cell_pull(bodies, g, i, 1, 0, dt) == list_pull(
            bodies,
            i,
            members(bodies, g, 1, 0, n),
            dt,
        ));
        assert(cell_pull(bodies, g, i, 1, 1, dt) == list_pull(
            bodies,
            i,
            members(bodies, g, 1, 1, n),
            dt,
        ));
    }
    assert(grid_pulls(bodies, dt) =~= crate::direct::direct_pulls(bodies, dt));
}

} // verus!
