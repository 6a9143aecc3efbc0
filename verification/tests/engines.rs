use gravity::barnes_hut::{
    accepts_of, BarnesHut, QuadtreeNode, QuadtreeNodeBodies, Square, ThetaAdjustment, MAX_THETA,
};
use gravity::body::Body;
use gravity::direct::Direct;
use gravity::fixed::{OutOfRange, SPEED_MAX, UNIT};
use gravity::grid::Grid;
use gravity::store::BodyStore;
use gravity::vector::Vec2;

fn body(x: i64, y: i64, vx: i64, vy: i64, mass: i64) -> Body {
    Body::new(Vec2::new(x, y), Vec2::new(vx, vy), mass).unwrap()
}

fn four_bodies() -> BodyStore {
    let mut store = BodyStore::new();
    store.insert(body(0, 0, 0, 0, UNIT)).unwrap();
    store.insert(body(10 * UNIT, 0, 0, 0, 2 * UNIT)).unwrap();
    store.insert(body(3 * UNIT, 7 * UNIT, 0, 0, 3 * UNIT)).unwrap();
    store.insert(body(-6 * UNIT, 4 * UNIT, 0, 0, UNIT / 2)).unwrap();
    store
}

fn speeds(store: &BodyStore) -> Vec<Vec2> {
    (0..store.len()).map(|i| store.body(i).speed).collect()
}

#[test]
fn direct_pull_of_two_bodies_is_exact() {
    let mut store = BodyStore::new();
    store.insert(body(0, 0, 0, 0, UNIT)).unwrap();
    store.insert(body(10 * UNIT, 0, 0, 0, UNIT)).unwrap();
    assert_eq!(Direct::handle(&mut store, UNIT), Ok(()));
    // dt * G * m / r^2 = 1 * 0.05 * 1 / 100 = 0.0005, which is 524 units of 2^-20
    assert_eq!(store.body(0).speed, Vec2::new(524, 0));
    assert_eq!(store.body(1).speed, Vec2::new(-524, 0));
    assert_eq!(store.body(0).pos, Vec2::new(0, 0));
}

#[test]
fn single_body_feels_no_force() {
    for engine in 0..3 {
        let mut store = BodyStore::new();
        store.insert(body(5 * UNIT, 6 * UNIT, 123, -456, 7 * UNIT)).unwrap();
        let done = match engine {
            0 => Direct::handle(&mut store, UNIT),
            1 => Grid::handle(&mut store, UNIT),
            _ => BarnesHut::new().handle(&mut store, UNIT),
        };
        assert_eq!(done, Ok(()));
        assert_eq!(store.body(0).speed, Vec2::new(123, -456));
        assert_eq!(store.body(0).pos, Vec2::new(5 * UNIT, 6 * UNIT));
    }
}

#[test]
fn empty_store_is_left_alone() {
    let mut store = BodyStore::new();
    assert_eq!(Direct::handle(&mut store, UNIT), Ok(()));
    assert_eq!(Grid::handle(&mut store, UNIT), Ok(()));
    assert_eq!(BarnesHut::new().handle(&mut store, UNIT), Ok(()));
    assert_eq!(Body::update_bodies(UNIT, &mut store), Ok(()));
    assert_eq!(Body::adjust_momentum(&mut store), Ok(()));
    assert_eq!(store.len(), 0);
}

#[test]
fn tree_of_threshold_zero_agrees_with_direct() {
    let mut direct = four_bodies();
    let mut tree = four_bodies();
    assert_eq!(Direct::handle(&mut direct, UNIT), Ok(()));
    let engine = BarnesHut::new();
    assert_eq!(engine.get_theta(), 0);
    assert_eq!(engine.handle(&mut tree, UNIT), Ok(()));
    assert_eq!(speeds(&direct), speeds(&tree));
    assert_ne!(speeds(&direct)[0], Vec2::new(0, 0));
}

#[test]
fn small_grid_agrees_with_direct() {
    let mut direct = four_bodies();
    let mut grid = four_bodies();
    assert_eq!(Direct::handle(&mut direct, UNIT), Ok(()));
    assert_eq!(Grid::handle(&mut grid, UNIT), Ok(()));
    assert_eq!(speeds(&direct), speeds(&grid));
}

#[test]
fn tree_of_large_threshold_takes_far_group_as_point_mass() {
    // two close bodies far from a third: with a large threshold the third
    // feels their joint mass at their centre of mass
    let mut store = BodyStore::new();
    store.insert(body(0, 0, 0, 0, UNIT)).unwrap();
    store.insert(body(2 * UNIT, 0, 0, 0, UNIT)).unwrap();
    store.insert(body(100 * UNIT, 100 * UNIT, 0, 0, UNIT)).unwrap();
    let mut engine = BarnesHut::new();
    for _ in 0..40 {
        engine.adjust_theta(ThetaAdjustment::Increase);
    }
    assert_eq!(engine.handle(&mut store, 16 * UNIT), Ok(()));
    let mut lone = BodyStore::new();
    lone.insert(body(UNIT, 0, 0, 0, 2 * UNIT)).unwrap();
    lone.insert(body(100 * UNIT, 100 * UNIT, 0, 0, UNIT)).unwrap();
    assert_eq!(Direct::handle(&mut lone, 16 * UNIT), Ok(()));
    assert_eq!(store.body(2).speed, lone.body(1).speed);
    assert_ne!(store.body(2).speed, Vec2::new(0, 0));
}

#[test]
fn threshold_stays_within_its_range() {
    let mut engine = BarnesHut::new();
    engine.adjust_theta(ThetaAdjustment::Decrease);
    assert_eq!(engine.get_theta(), 0);
    engine.adjust_theta(ThetaAdjustment::Increase);
    assert_eq!(engine.get_theta(), 1);
    for _ in 0..100 {
        engine.adjust_theta(ThetaAdjustment::Increase);
    }
    assert_eq!(engine.get_theta(), MAX_THETA);
    for _ in 0..100 {
        engine.adjust_theta(ThetaAdjustment::Decrease);
    }
    assert_eq!(engine.get_theta(), 0);
}

#[test]
fn threshold_follows_the_cheaper_engine() {
    // 100 ns on 10 bodies against 90 ns on 10 bodies: the tree costs more
    assert_eq!(ThetaAdjustment::for_costs(100, 10, 90, 10), ThetaAdjustment::Increase);
    assert_eq!(ThetaAdjustment::for_costs(90, 10, 100, 10), ThetaAdjustment::Decrease);
    assert_eq!(ThetaAdjustment::for_costs(100, 10, 100, 10), ThetaAdjustment::Decrease);
    // 100 ns on 20 bodies is cheaper per body than 90 ns on 10
    assert_eq!(ThetaAdjustment::for_costs(100, 20, 90, 10), ThetaAdjustment::Decrease);
    let mut engine = BarnesHut::new();
    engine.tune(100, 10, 90, 10);
    engine.tune(100, 10, 90, 10);
    assert_eq!(engine.get_theta(), 2);
    engine.tune(100, 20, 90, 10);
    assert_eq!(engine.get_theta(), 1);
}

#[test]
fn velocity_out_of_range_is_refused() {
    let mut store = BodyStore::new();
    store.insert(body(0, 0, SPEED_MAX, 0, UNIT)).unwrap();
    store.insert(body(10 * UNIT, 0, 0, 0, UNIT)).unwrap();
    let before = speeds(&store);
    assert_eq!(Direct::handle(&mut store, UNIT), Err(OutOfRange));
    assert_eq!(speeds(&store), before);
}

#[test]
fn two_bodies_fall_into_each_other() {
    let mut store = BodyStore::new();
    store.insert(body(0, 0, 0, 0, UNIT)).unwrap();
    store.insert(body(10 * UNIT, 0, 0, 0, UNIT)).unwrap();
    assert_eq!(store.body(0).radius, UNIT);
    assert_eq!(Body::update_bodies(UNIT, &mut store), Ok(()));
    let mut ticks = 0;
    while store.len() > 1 {
        assert_eq!(Direct::handle(&mut store, UNIT), Ok(()));
        assert_eq!(Body::update_bodies(UNIT, &mut store), Ok(()));
        ticks += 1;
        assert!(ticks < 1000);
    }
    assert!(ticks > 10);
    assert_eq!(store.len(), 1);
    let b = store.body(0);
    assert_eq!(b.mass, 2 * UNIT);
    assert_eq!(b.pos, Vec2::new(5 * UNIT, 0));
    assert_eq!(b.speed, Vec2::new(0, 0));
    assert_eq!(store.momentum(), (0, 0));
    assert_eq!(store.id(0), 2);
}

fn thin_rectangle(w: i64, h: i64) -> gravity::geometry::Rectangle {
    gravity::geometry::Rectangle { top_left: Vec2::new(0, 0), bottom_right: Vec2::new(w, h) }
}

#[test]
fn bounding_rectangle_spans_the_discs() {
    let mut store = BodyStore::new();
    assert_eq!(gravity::geometry::get_rectangle(&store), None);
    store.insert(body(3 * UNIT, -2 * UNIT, 0, 0, UNIT)).unwrap();
    store.insert(body(-4 * UNIT, 5 * UNIT, 0, 0, 8 * UNIT)).unwrap();
    store.insert(body(UNIT, UNIT, 0, 0, UNIT)).unwrap();
    // radii 1, 2 and 1
    let rect = gravity::geometry::get_rectangle(&store).unwrap();
    assert_eq!(rect.top_left, Vec2::new(-6 * UNIT, -3 * UNIT));
    assert_eq!(rect.bottom_right, Vec2::new(4 * UNIT, 7 * UNIT));
    assert!(rect.contains(Vec2::new(-6 * UNIT, -3 * UNIT)));
    assert!(rect.contains(Vec2::new(4 * UNIT - 1, 7 * UNIT - 1)));
    assert!(!rect.contains(Vec2::new(4 * UNIT, 0)));
    assert!(!rect.contains(Vec2::new(0, 7 * UNIT)));
    assert!(!rect.contains(Vec2::new(-6 * UNIT - 1, 0)));
    assert!(!rect.contains(Vec2::new(0, -3 * UNIT - 1)));
}

#[test]
fn bounding_rectangle_of_two_unit_discs() {
    let mut store = BodyStore::new();
    store.insert(body(0, 0, 0, 0, UNIT)).unwrap();
    store.insert(body(10 * UNIT, 0, 0, 0, UNIT)).unwrap();
    let rect = gravity::geometry::get_rectangle(&store).unwrap();
    assert_eq!(rect.top_left, Vec2::new(-UNIT, -UNIT));
    assert_eq!(rect.bottom_right, Vec2::new(11 * UNIT, UNIT));
    assert_eq!(store.body(0), body(0, 0, 0, 0, UNIT));
    assert_eq!(store.body(1), body(10 * UNIT, 0, 0, 0, UNIT));
}

#[test]
fn grid_has_cells_of_the_target_area() {
    // 100 bodies on 100 x 100: cells of side sqrt(0.3 * 10000 / 10) = 17.3,
    // so 5.77 rows, rounded to 6, and 100 * 6 / 100 columns
    let g = gravity::grid::layout_of(&thin_rectangle(100 * UNIT, 100 * UNIT), 100);
    assert_eq!((g.rows, g.cols), (6, 6));
    assert_eq!((g.left, g.top, g.width, g.height), (0, 0, 100 * UNIT, 100 * UNIT));
    // 4 bodies on 96 x 101: side sqrt(0.3 * 9696 / 2) = 38.1
    let g = gravity::grid::layout_of(&thin_rectangle(96 * UNIT, 101 * UNIT), 4);
    assert_eq!((g.rows, g.cols), (3, 3));
    // a flat rectangle has one row
    let g = gravity::grid::layout_of(&thin_rectangle(102 * UNIT, UNIT), 3);
    assert_eq!((g.rows, g.cols), (1, 102));
    // and no side has more than 32768 cells
    let g = gravity::grid::layout_of(&thin_rectangle(4096 * UNIT, 10321), 3);
    assert_eq!((g.rows, g.cols), (1, 32768));
}

#[test]
fn grid_sorts_bodies_into_cells() {
    let g = gravity::grid::layout_of(&thin_rectangle(96 * UNIT, 101 * UNIT), 4);
    assert_eq!(g.cell_of(Vec2::new(0, 0)), (0, 0));
    assert_eq!(g.cell_of(Vec2::new(32 * UNIT - 1, 0)), (0, 0));
    assert_eq!(g.cell_of(Vec2::new(32 * UNIT, 0)), (0, 1));
    assert_eq!(g.cell_of(Vec2::new(95 * UNIT, 12 * UNIT)), (0, 2));
    assert_eq!(g.cell_of(Vec2::new(50 * UNIT, 100 * UNIT)), (2, 1));
    assert_eq!(g.cell_of(Vec2::new(96 * UNIT - 1, 101 * UNIT - 1)), (2, 2));
}

#[test]
fn grid_cells_hold_mass_and_centre_of_mass() {
    let mut store = BodyStore::new();
    store.insert(body(0, 0, 0, 0, UNIT)).unwrap();
    store.insert(body(90 * UNIT, 10 * UNIT, 0, 0, UNIT)).unwrap();
    store.insert(body(95 * UNIT, 12 * UNIT, 0, 0, 3 * UNIT)).unwrap();
    store.insert(body(50 * UNIT, 100 * UNIT, 0, 0, UNIT)).unwrap();
    let g = Grid::layout(&store).unwrap();
    assert_eq!((g.rows, g.cols), (3, 3));
    let cells = gravity::grid::fill(&g, &store);
    assert_eq!(cells.len(), 9);
    assert_eq!(cells[0].bodies, vec![0]);
    assert_eq!(cells[2].bodies, vec![1, 2]);
    assert_eq!(cells[2].total_mass, 4 * UNIT);
    assert_eq!(cells[2].pos, Vec2::new(93 * UNIT + 3 * UNIT / 4, 11 * UNIT + UNIT / 2));
    assert_eq!(cells[7].bodies, vec![3]);
    assert_eq!(cells[7].pos, Vec2::new(50 * UNIT, 100 * UNIT));
    assert_eq!(cells[4].bodies, Vec::<usize>::new());
    assert_eq!(cells[4].total_mass, 0);
    assert_eq!(cells[4].pos, Vec2::new(0, 0));
}

#[test]
fn cell_takes_bodies_in() {
    let mut store = BodyStore::new();
    store.insert(body(2 * UNIT, 4 * UNIT, 0, 0, UNIT)).unwrap();
    store.insert(body(6 * UNIT, -4 * UNIT, 0, 0, 3 * UNIT)).unwrap();
    let mut cell = gravity::grid::Cell::new();
    cell.set_pos();
    assert_eq!(cell.pos, Vec2::new(0, 0));
    cell.add_body(0, &store);
    cell.add_body(1, &store);
    assert_eq!(cell.bodies, vec![0, 1]);
    assert_eq!(cell.total_mass, 4 * UNIT);
    cell.set_pos();
    assert_eq!(cell.pos, Vec2::new(5 * UNIT, -2 * UNIT));
}

#[test]
fn grid_takes_far_cell_as_point_mass() {
    let mut grid = BodyStore::new();
    grid.insert(body(0, 0, 0, 0, UNIT)).unwrap();
    grid.insert(body(90 * UNIT, 10 * UNIT, 0, 0, 100 * UNIT)).unwrap();
    grid.insert(body(95 * UNIT, 12 * UNIT, 0, 0, 300 * UNIT)).unwrap();
    grid.insert(body(50 * UNIT, 100 * UNIT, 0, 0, UNIT)).unwrap();
    assert_eq!(Grid::layout(&grid).map(|g| (g.rows, g.cols)), Some((3, 3)));
    let mut exact = grid.copy();
    assert_eq!(Grid::handle(&mut grid, 16 * UNIT), Ok(()));
    assert_eq!(Direct::handle(&mut exact, 16 * UNIT), Ok(()));
    // the first body is far from the cell of the second and third
    let mut lumped = BodyStore::new();
    lumped.insert(body(0, 0, 0, 0, UNIT)).unwrap();
    lumped.insert(body(93 * UNIT + 3 * UNIT / 4, 11 * UNIT + UNIT / 2, 0, 0, 400 * UNIT)).unwrap();
    lumped.insert(body(50 * UNIT, 100 * UNIT, 0, 0, UNIT)).unwrap();
    assert_eq!(Direct::handle(&mut lumped, 16 * UNIT), Ok(()));
    assert_eq!(grid.body(0).speed, lumped.body(0).speed);
    assert_ne!(grid.body(0).speed, exact.body(0).speed);
    // the third body shares its cell with the second and is far from cells
    // of one body each
    assert_eq!(grid.body(2).speed, exact.body(2).speed);
    assert_ne!(grid.body(2).speed, Vec2::new(0, 0));
    assert_eq!(grid.body(0).pos, Vec2::new(0, 0));
}

#[test]
fn coincident_bodies_do_not_pull_each_other() {
    for engine in 0..3 {
        let mut store = BodyStore::new();
        store.insert(body(5 * UNIT, 5 * UNIT, 1, 2, UNIT)).unwrap();
        store.insert(body(5 * UNIT, 5 * UNIT, 3, 4, UNIT)).unwrap();
        let done = match engine {
            0 => Direct::handle(&mut store, UNIT),
            1 => Grid::handle(&mut store, UNIT),
            _ => BarnesHut::new().handle(&mut store, UNIT),
        };
        assert_eq!(done, Ok(()));
        assert_eq!(store.body(0).speed, Vec2::new(1, 2));
        assert_eq!(store.body(1).speed, Vec2::new(3, 4));
    }
}

#[test]
fn adjust_speed_adds_one_pull() {
    let mut b = body(0, 0, 100, -100, UNIT);
    // dt * G * m / r^2 = 2 * 0.05 * 4 / 25 = 0.016 along (3, 4) / 5
    assert_eq!(b.adjust_speed(Vec2::new(3 * UNIT, 4 * UNIT), 4 * UNIT, 2 * UNIT), Ok(()));
    assert_eq!(b.speed, Vec2::new(100 + 10066, -100 + 13421));
    assert_eq!(b.adjust_speed(Vec2::new(0, 0), 4 * UNIT, 2 * UNIT), Ok(()));
    assert_eq!(b.speed, Vec2::new(100 + 10066, -100 + 13421));
    let mut fast = body(0, 0, SPEED_MAX, 0, UNIT);
    assert_eq!(fast.adjust_speed(Vec2::new(3 * UNIT, 4 * UNIT), 4 * UNIT, 2 * UNIT), Err(OutOfRange));
    assert_eq!(fast.speed, Vec2::new(SPEED_MAX, 0));
}

#[test]
fn pull_is_rounded_toward_zero_on_both_sides() {
    let origin = Vec2::new(0, 0);
    let a = gravity::body::pull_of(origin, Vec2::new(3 * UNIT, -4 * UNIT), 4 * UNIT, 2 * UNIT);
    let b = gravity::body::pull_of(origin, Vec2::new(-3 * UNIT, 4 * UNIT), 4 * UNIT, 2 * UNIT);
    assert_eq!(a, (10066, -13421));
    assert_eq!(b, (-10066, 13421));
    assert_eq!(gravity::body::pull_of(origin, origin, 4 * UNIT, 2 * UNIT), (0, 0));
    assert_eq!(gravity::body::pull_of(origin, Vec2::new(UNIT, 0), 0, 2 * UNIT), (0, 0));
}

#[test]
fn squares_halve_exactly() {
    let rect = gravity::geometry::Rectangle {
        top_left: Vec2::new(0, 0),
        bottom_right: Vec2::new(11 * UNIT, UNIT),
    };
    let root = gravity::barnes_hut::root_square_of(&rect);
    assert_eq!((root.left, root.top), (0, -5 * UNIT as i128));
    assert_eq!((root.size, root.scale), (11 * UNIT, 1));
    assert!(root.contains(Vec2::new(0, 0)));
    assert!(root.contains(Vec2::new(11 * UNIT - 1, 6 * UNIT - 1)));
    assert!(!root.contains(Vec2::new(11 * UNIT, 0)));
    assert!(!root.contains(Vec2::new(0, 6 * UNIT)));
    assert_eq!(root.quadrant(Vec2::new(0, 0)), (0, 0));
    assert_eq!(root.quadrant(Vec2::new(10 * UNIT, 0)), (0, 1));
    assert_eq!(root.quadrant(Vec2::new(5 * UNIT + UNIT / 2, UNIT / 2)), (1, 1));
    assert_eq!(root.quadrant(Vec2::new(5 * UNIT + UNIT / 2 - 1, UNIT / 2 - 1)), (0, 0));
    let q = root.child_of(1, 1);
    assert_eq!((q.left, q.top), (11 * UNIT as i128, UNIT as i128));
    assert_eq!((q.size, q.scale), (11 * UNIT, 2));
    assert!(q.contains(Vec2::new(5 * UNIT + UNIT / 2, UNIT / 2)));
    assert!(!q.contains(Vec2::new(5 * UNIT + UNIT / 2 - 1, UNIT / 2)));
    assert!(q.contains(Vec2::new(11 * UNIT - 1, 6 * UNIT - 1)));
    // a tall rectangle is widened instead
    let tall = gravity::geometry::Rectangle {
        top_left: Vec2::new(0, 0),
        bottom_right: Vec2::new(UNIT, 4 * UNIT),
    };
    let root = gravity::barnes_hut::root_square_of(&tall);
    assert_eq!((root.left, root.top, root.size), (-3 * (UNIT as i128) / 2, 0, 4 * UNIT));
}

#[test]
fn split_grows_the_tree_in_place() {
    let mut store = BodyStore::new();
    store.insert(body(UNIT / 2, UNIT / 2, 0, 0, UNIT)).unwrap();
    store.insert(body(UNIT + UNIT / 2, UNIT + UNIT / 2, 0, 0, UNIT)).unwrap();
    store.insert(body(3 * UNIT, UNIT, 0, 0, 2 * UNIT)).unwrap();
    let square = Square { left: 0, top: 0, size: 4 * UNIT, scale: 1 };
    let mut nodes = vec![QuadtreeNode {
        children: None,
        bodies: QuadtreeNodeBodies::All,
        square,
        total_mass: 0,
        pos: Vec2::new(0, 0),
    }];
    QuadtreeNode::split(0, &store, &mut nodes);
    let empty = QuadtreeNodeBodies::Bodies(vec![]);
    assert_eq!(nodes.len(), 9);
    assert_eq!(nodes[0].bodies, QuadtreeNodeBodies::All);
    assert_eq!(nodes[0].children, Some([[1, 2], [3, 4]]));
    // the quadrant of the first two bodies: from (0, 0), of side 2
    assert_eq!(nodes[1].square, Square { left: 0, top: 0, size: 4 * UNIT, scale: 2 });
    assert_eq!(nodes[1].bodies, QuadtreeNodeBodies::Bodies(vec![0, 1]));
    assert_eq!((nodes[1].total_mass, nodes[1].pos), (2 * UNIT, Vec2::new(UNIT, UNIT)));
    assert_eq!(nodes[1].children, Some([[5, 6], [7, 8]]));
    // the quadrant of the third body: from (2, 0)
    assert_eq!(
        nodes[2].square,
        Square { left: 4 * UNIT as i128, top: 0, size: 4 * UNIT, scale: 2 }
    );
    assert_eq!(nodes[2].bodies, QuadtreeNodeBodies::Bodies(vec![2]));
    assert_eq!((nodes[2].total_mass, nodes[2].pos), (2 * UNIT, Vec2::new(3 * UNIT, UNIT)));
    assert_eq!(nodes[2].children, None);
    for k in [3, 4, 6, 7] {
        assert_eq!(nodes[k].bodies, empty);
        assert_eq!((nodes[k].total_mass, nodes[k].pos), (0, Vec2::new(0, 0)));
        assert_eq!(nodes[k].children, None);
    }
    // the quadrants of side 1 of the first quadrant
    assert_eq!(nodes[5].square, Square { left: 0, top: 0, size: 4 * UNIT, scale: 4 });
    assert_eq!(nodes[5].bodies, QuadtreeNodeBodies::Bodies(vec![0]));
    assert_eq!((nodes[5].total_mass, nodes[5].pos), (UNIT, Vec2::new(UNIT / 2, UNIT / 2)));
    assert_eq!(
        nodes[8].square,
        Square { left: 4 * UNIT as i128, top: 4 * UNIT as i128, size: 4 * UNIT, scale: 4 }
    );
    assert_eq!(nodes[8].bodies, QuadtreeNodeBodies::Bodies(vec![1]));
    assert_eq!(nodes[5].children, None);
    assert_eq!(nodes[8].children, None);
    // a leaf stays as it is
    QuadtreeNode::split(2, &store, &mut nodes);
    assert_eq!(nodes.len(), 9);
}

#[test]
fn tree_splits_until_bodies_are_alone() {
    let mut store = BodyStore::new();
    assert_eq!(BarnesHut::tree(&store).len(), 0);
    store.insert(body(0, 0, 0, 0, UNIT)).unwrap();
    let nodes = BarnesHut::tree(&store);
    assert_eq!(nodes.len(), 1);
    assert_eq!(nodes[0].children, None);
    store.insert(body(10 * UNIT, 3 * UNIT, 0, 0, 3 * UNIT)).unwrap();
    store.insert(body(9 * UNIT, -2 * UNIT, 0, 0, UNIT)).unwrap();
    let nodes = BarnesHut::tree(&store);
    let rect = gravity::geometry::get_rectangle(&store).unwrap();
    assert_eq!(nodes[0].bodies, QuadtreeNodeBodies::All);
    assert_eq!(nodes[0].square, gravity::barnes_hut::root_square_of(&rect));
    assert_eq!(nodes[0].children, Some([[1, 2], [3, 4]]));
    // the body at the origin is alone in the left half, above the middle
    assert_eq!(nodes[1].bodies, QuadtreeNodeBodies::Bodies(vec![0]));
    assert_eq!(nodes[1].children, None);
    assert_eq!((nodes[1].total_mass, nodes[1].pos), (UNIT, Vec2::new(0, 0)));
    assert_eq!(nodes[1].square, nodes[0].square.child_of(0, 0));
    assert_eq!(nodes[3].bodies, QuadtreeNodeBodies::Bodies(vec![]));
    // every node but the root is one of four quadrants
    assert_eq!((nodes.len() - 1) % 4, 0);
    let mut alone: Vec<usize> = Vec::new();
    for node in &nodes {
        if node.children.is_none() {
            if let QuadtreeNodeBodies::Bodies(places) = &node.bodies {
                assert!(places.len() <= 1);
                alone.extend(places);
            }
        }
    }
    alone.sort();
    assert_eq!(alone, vec![0, 1, 2]);
}

#[test]
fn acceptance_compares_side_over_distance_with_threshold() {
    let sq = Square { left: 0, top: 0, size: 10 * UNIT, scale: 1 };
    let com = Vec2::new(5 * UNIT, 5 * UNIT);
    // side 10 at distance 100: ratio 0.1
    let at_100 = Vec2::new(105 * UNIT, 5 * UNIT);
    assert!(!accepts_of(&sq, com, at_100, 0));
    assert!(accepts_of(&sq, com, at_100, 1));
    assert!(!accepts_of(&sq, com, Vec2::new(105 * UNIT - 1, 5 * UNIT), 1));
    assert!(accepts_of(&sq, com, Vec2::new(105 * UNIT - 1, 5 * UNIT), 2));
    // nothing is accepted at no distance
    assert!(!accepts_of(&sq, com, com, 40));
    // a quadrant is half as wide
    let half = sq.child_of(0, 0);
    assert!(accepts_of(&half, com, Vec2::new(55 * UNIT, 5 * UNIT), 1));
    assert!(!accepts_of(&half, com, Vec2::new(55 * UNIT - 1, 5 * UNIT), 1));
}

#[test]
fn tree_node_pull_matches_engine() {
    let mut store = four_bodies();
    let nodes = BarnesHut::tree(&store);
    let mut engine = BarnesHut::new();
    for _ in 0..7 {
        engine.adjust_theta(ThetaAdjustment::Increase);
    }
    let pulls: Vec<(i128, i128)> = (0..store.len())
        .map(|i| gravity::barnes_hut::QuadtreeNode::adjust_speed(0, i, &store, &nodes, 7, UNIT))
        .collect();
    assert_eq!(engine.handle(&mut store, UNIT), Ok(()));
    for i in 0..store.len() {
        assert_eq!(store.body(i).speed.x as i128, pulls[i].0);
        assert_eq!(store.body(i).speed.y as i128, pulls[i].1);
    }
}

fn lattice() -> BodyStore {
    let mut store = BodyStore::new();
    for i in 0..8 {
        for j in 0..8 {
            let (x, y) = ((5 * i + (j % 2)) * UNIT, (5 * j + (i % 3)) * UNIT);
            let (vx, vy) = ((3 - i) * UNIT / 50, (4 - j) * UNIT / 50);
            store.insert(body(x, y, vx, vy, UNIT + ((i + j) % 3) * UNIT)).unwrap();
        }
    }
    store
}

#[test]
fn swarm_collapses_under_each_engine() {
    for engine in 0..3 {
        let mut store = lattice();
        let mass = store.total_mass();
        let mut tree = BarnesHut::new();
        for _ in 0..5 {
            tree.adjust_theta(ThetaAdjustment::Increase);
        }
        for _ in 0..60 {
            assert_eq!(Body::update_bodies(UNIT, &mut store), Ok(()));
            assert_eq!(Body::adjust_momentum(&mut store), Ok(()));
            let done = match engine {
                0 => Direct::handle(&mut store, UNIT),
                1 => Grid::handle(&mut store, UNIT),
                _ => tree.handle(&mut store, UNIT),
            };
            assert_eq!(done, Ok(()));
            assert_eq!(store.total_mass(), mass);
            let (px, py) = store.momentum();
            assert!(px.abs() < 64 * mass as i128 * UNIT as i128 / 1000);
            assert!(py.abs() < 64 * mass as i128 * UNIT as i128 / 1000);
        }
        assert!(store.len() < 64);
        assert!(store.len() >= 1);
    }
}

#[test]
fn engines_stay_close_to_each_other() {
    let mut direct = lattice();
    let mut grid = lattice();
    let mut tree = lattice();
    let mut engine = BarnesHut::new();
    for _ in 0..5 {
        engine.adjust_theta(ThetaAdjustment::Increase);
    }
    assert_eq!(Direct::handle(&mut direct, UNIT), Ok(()));
    assert_eq!(Grid::handle(&mut grid, UNIT), Ok(()));
    assert_eq!(engine.handle(&mut tree, UNIT), Ok(()));
    let mut differs = false;
    for i in 0..direct.len() {
        let (d, g, t) = (direct.body(i).speed, grid.body(i).speed, tree.body(i).speed);
        // the pull on a body of this lattice is about 0.05; the approximations
        // are off by far less
        assert!((d.x - g.x).abs() < UNIT / 200 && (d.y - g.y).abs() < UNIT / 200);
        assert!((d.x - t.x).abs() < UNIT / 200 && (d.y - t.y).abs() < UNIT / 200);
        differs = differs || d != g || d != t;
    }
    assert!(differs);
}
