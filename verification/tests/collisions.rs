use gravity::body::{Body, RADIUS_MIN};
use gravity::collision::{contact_time_of, deepest_pair, depth_of, earliest_pair, CONTACT_SLACK};
use gravity::fixed::{
    floor_div, icbrt, isqrt, isqrt_ceil, OutOfRange, MASS_MAX, POS_MAX, SPEED_MAX, TIME_MAX, UNIT,
};
use gravity::store::BodyStore;
use gravity::vector::{distance_squared, Vec2};

fn body(x: i64, y: i64, vx: i64, vy: i64, mass: i64) -> Body {
    Body::new(Vec2::new(x, y), Vec2::new(vx, vy), mass).unwrap()
}

fn store_of(bodies: &[Body]) -> BodyStore {
    let mut store = BodyStore::new();
    for b in bodies {
        store.insert(*b).unwrap();
    }
    store
}

fn all_apart(store: &BodyStore) -> bool {
    for i in 0..store.len() {
        for j in i + 1..store.len() {
            let (p, q) = (store.body(i), store.body(j));
            let r = (p.radius + q.radius - CONTACT_SLACK) as i128;
            if distance_squared(p.pos, q.pos) < r * r {
                return false;
            }
        }
    }
    true
}

#[test]
fn integer_roots_are_exact() {
    assert_eq!(isqrt(0), 0);
    assert_eq!(isqrt(15), 3);
    assert_eq!(isqrt(16), 4);
    assert_eq!(isqrt(17), 4);
    assert_eq!(isqrt_ceil(0), 0);
    assert_eq!(isqrt_ceil(16), 4);
    assert_eq!(isqrt_ceil(17), 5);
    assert_eq!(icbrt(0), 0);
    assert_eq!(icbrt(26), 2);
    assert_eq!(icbrt(27), 3);
    assert_eq!(isqrt(u64::MAX as u128), u32::MAX as u128);
    assert_eq!(isqrt(u64::MAX as u128 + 1), 1 << 32);
    assert_eq!(isqrt((1 << 100) - 1), (1 << 50) - 1);
    assert_eq!(isqrt(u128::MAX), u64::MAX as u128);
}

#[test]
fn floor_division_rounds_down() {
    assert_eq!(floor_div(7, 2), 3);
    assert_eq!(floor_div(-7, 2), -4);
    assert_eq!(floor_div(-8, 2), -4);
    assert_eq!(floor_div(0, 5), 0);
}

#[test]
fn radius_is_cube_root_of_mass() {
    assert_eq!(Body::get_radius(UNIT), UNIT);
    assert_eq!(Body::get_radius(8 * UNIT), 2 * UNIT);
    assert_eq!(Body::get_radius(1), RADIUS_MIN);
    assert_eq!(Body::get_radius(0), 0);
}

#[test]
fn bodies_out_of_range_are_refused() {
    assert!(Body::new(Vec2::new(POS_MAX + 1, 0), Vec2::new(0, 0), UNIT).is_none());
    assert!(Body::new(Vec2::new(0, -POS_MAX - 1), Vec2::new(0, 0), UNIT).is_none());
    assert!(Body::new(Vec2::new(0, 0), Vec2::new(SPEED_MAX + 1, 0), UNIT).is_none());
    assert!(Body::new(Vec2::new(0, 0), Vec2::new(0, 0), 0).is_none());
    assert!(Body::new(Vec2::new(0, 0), Vec2::new(0, 0), MASS_MAX + 1).is_none());
    assert!(Body::new(Vec2::new(POS_MAX, -POS_MAX), Vec2::new(SPEED_MAX, 0), MASS_MAX).is_some());
}

#[test]
fn store_issues_identities_in_order() {
    let mut store = BodyStore::new();
    assert_eq!(store.insert(body(0, 0, 0, 0, UNIT)), Some(0));
    assert_eq!(store.insert(body(5 * UNIT, 0, 0, 0, UNIT)), Some(1));
    assert_eq!(store.len(), 2);
    assert_eq!(store.id(1), 1);
    assert_eq!(store.index_of(1), Some(1));
    assert_eq!(store.index_of(7), None);
    assert_eq!(store.get(0), Some(body(0, 0, 0, 0, UNIT)));
    assert_eq!(store.get(2), None);
    assert_eq!(store.total_mass(), 2 * UNIT);
}

#[test]
fn store_refuses_malformed_and_overweight_bodies() {
    let mut store = BodyStore::new();
    let mut bad = body(0, 0, 0, 0, UNIT);
    bad.radius += 1;
    assert_eq!(store.insert(bad), None);
    assert_eq!(store.insert(body(0, 0, 0, 0, MASS_MAX)), Some(0));
    assert_eq!(store.insert(body(UNIT, 0, 0, 0, 1)), None);
    assert_eq!(store.len(), 1);
}

#[test]
fn contact_time_of_head_on_pair() {
    // 10 apart, radii 1 and 1, closing at 2 per unit of time: contact after 4
    let p = body(0, 0, UNIT, 0, UNIT);
    let q = body(10 * UNIT, 0, -UNIT, 0, UNIT);
    assert_eq!(contact_time_of(&p, &q), Some(4 * UNIT as i128));
    assert_eq!(contact_time_of(&q, &p), Some(4 * UNIT as i128));
}

#[test]
fn contact_time_is_rounded_down() {
    // gap 8, closing speed 3: contact after 8/3
    let p = body(0, 0, 3 * UNIT, 0, UNIT);
    let q = body(10 * UNIT, 0, 0, 0, UNIT);
    assert_eq!(contact_time_of(&p, &q), Some((8 * UNIT as i128) / 3));
}

#[test]
fn bodies_that_miss_or_recede_do_not_collide() {
    // passing at distance 5 with radii 1 and 1: negative discriminant
    let p = body(0, 0, UNIT, 0, UNIT);
    let q = body(10 * UNIT, 5 * UNIT, -UNIT, 0, UNIT);
    assert_eq!(contact_time_of(&p, &q), None);
    // moving apart
    let p = body(0, 0, -UNIT, 0, UNIT);
    let q = body(10 * UNIT, 0, UNIT, 0, UNIT);
    assert_eq!(contact_time_of(&p, &q), None);
}

#[test]
fn bodies_at_relative_rest_collide_only_if_they_touch() {
    let p = body(0, 0, 7, 7, UNIT);
    assert_eq!(contact_time_of(&p, &body(10 * UNIT, 0, 7, 7, UNIT)), None);
    assert_eq!(contact_time_of(&p, &body(2 * UNIT, 0, 7, 7, UNIT)), Some(0));
    assert_eq!(contact_time_of(&p, &body(UNIT, 0, 7, 7, UNIT)), Some(0));
}

#[test]
fn overlapping_bodies_in_motion_collided_in_the_past() {
    // centres 1 apart, radii 1 and 1, closing at 1: they touched when 2 apart
    let p = body(0, 0, UNIT, 0, UNIT);
    let q = body(UNIT, 0, 0, 0, UNIT);
    assert_eq!(contact_time_of(&p, &q), Some(-(UNIT as i128)));
}

#[test]
fn earliest_collision_is_the_first_of_the_least_time() {
    // pairs (0, 1) and (2, 3) both collide after 4; pair (4, 5) after 2
    let mut store = store_of(&[
        body(0, 0, UNIT, 0, UNIT),
        body(10 * UNIT, 0, -UNIT, 0, UNIT),
        body(0, 100 * UNIT, UNIT, 0, UNIT),
        body(10 * UNIT, 100 * UNIT, -UNIT, 0, UNIT),
    ]);
    assert_eq!(earliest_pair(10 * UNIT, &store), Some((4 * UNIT as i128, 0, 1)));
    assert_eq!(Body::get_earliest_collision(10 * UNIT, &store), Some((4 * UNIT as i128, [0, 1])));
    assert_eq!(earliest_pair(4 * UNIT, &store), Some((4 * UNIT as i128, 0, 1)));
    assert_eq!(earliest_pair(4 * UNIT - 1, &store), None);
    assert_eq!(Body::get_earliest_collision(4 * UNIT - 1, &store), None);
    store.insert(body(0, 200 * UNIT, 2 * UNIT, 0, UNIT)).unwrap();
    store.insert(body(10 * UNIT, 200 * UNIT, -2 * UNIT, 0, UNIT)).unwrap();
    assert_eq!(earliest_pair(10 * UNIT, &store), Some((2 * UNIT as i128, 4, 5)));
    assert_eq!(Body::get_earliest_collision(10 * UNIT, &store), Some((2 * UNIT as i128, [4, 5])));
}

#[test]
fn depth_is_radii_less_distance() {
    let p = body(0, 0, 0, 0, UNIT);
    assert_eq!(depth_of(&p, &body(UNIT / 2, 0, 0, 0, UNIT)), 2 * UNIT - UNIT / 2);
    assert_eq!(depth_of(&p, &body(2 * UNIT, 0, 0, 0, UNIT)), 0);
    assert_eq!(depth_of(&p, &body(3 * UNIT, 4 * UNIT, 0, 0, UNIT)), -3 * UNIT);
}

#[test]
fn deepest_overlap_wins() {
    let store = store_of(&[
        body(0, 0, 0, 0, UNIT),
        body(UNIT, 0, 0, 0, UNIT),
        body(UNIT + UNIT / 2, 0, 0, 0, UNIT),
        body(50 * UNIT, 0, 0, 0, UNIT),
    ]);
    // depths: (0,1) = 1, (0,2) = 0.5, (1,2) = 1.5
    assert_eq!(deepest_pair(&store), Some((-(UNIT as i128) - (UNIT as i128) / 2, 1, 2)));
    let clear = store_of(&[body(0, 0, 0, 0, UNIT), body(2 * UNIT, 0, 0, 0, UNIT)]);
    assert_eq!(deepest_pair(&clear), None);
}

#[test]
fn merge_keeps_mass_and_momentum() {
    let a = body(0, 0, 3 * UNIT, -UNIT, UNIT);
    let b = body(4 * UNIT, 8 * UNIT, -UNIT, UNIT, 3 * UNIT);
    let c = Body::merge(&a, &b);
    assert_eq!(c.mass, 4 * UNIT);
    assert_eq!(c.pos, Vec2::new(3 * UNIT, 6 * UNIT));
    assert_eq!(c.speed, Vec2::new(0, UNIT / 2));
    assert_eq!(c.radius, Body::get_radius(4 * UNIT));
    assert_eq!(c.mass * c.speed.x, a.mass * a.speed.x + b.mass * b.speed.x);
    assert_eq!(c.mass * c.speed.y, a.mass * a.speed.y + b.mass * b.speed.y);
}

#[test]
fn merge_rounds_toward_zero() {
    let a = body(0, 0, 1, -1, 1);
    let b = body(1, -1, 0, 0, 2);
    let c = Body::merge(&a, &b);
    // (1 * 0 + 2 * 1) / 3 and (1 * 1 + 2 * 0) / 3
    assert_eq!(c.pos, Vec2::new(0, 0));
    assert_eq!(c.speed, Vec2::new(0, 0));
    assert_eq!(c.mass, 3);
    let momentum_lost = (a.mass * a.speed.x + b.mass * b.speed.x) - c.mass * c.speed.x;
    assert!(momentum_lost.abs() < c.mass);
}

#[test]
fn connect_replaces_the_pair_by_its_product() {
    let mut store = store_of(&[
        body(0, 0, 0, 0, UNIT),
        body(50 * UNIT, 0, 0, 0, UNIT),
        body(2 * UNIT, 0, 0, 0, UNIT),
    ]);
    Body::connect([2, 0], &mut store);
    assert_eq!(store.len(), 2);
    assert_eq!(store.id(0), 1);
    assert_eq!(store.id(1), 3);
    assert_eq!(store.body(0), body(50 * UNIT, 0, 0, 0, UNIT));
    assert_eq!(store.body(1), body(UNIT, 0, 0, 0, 2 * UNIT));
    assert_eq!(store.total_mass(), 3 * UNIT);
    assert_eq!(store.insert(body(0, 90 * UNIT, 0, 0, UNIT)), Some(4));
}

#[test]
fn connect_all_merges_chains_of_overlaps() {
    // 0 overlaps 1, and their product, which is larger, then reaches 2
    let mut store = store_of(&[
        body(0, 0, 0, 0, UNIT),
        body(UNIT, 0, 0, 0, UNIT),
        body(2 * UNIT + UNIT / 2 + UNIT / 8, 0, 0, 0, UNIT),
        body(90 * UNIT, 0, 0, 0, UNIT),
    ]);
    Body::connect_all(&mut store);
    assert_eq!(store.len(), 2);
    assert_eq!(store.body(0), body(90 * UNIT, 0, 0, 0, UNIT));
    assert_eq!(store.body(1).mass, 3 * UNIT);
    assert_eq!(store.total_mass(), 4 * UNIT);
    assert!(all_apart(&store));
}

#[test]
fn single_body_moves_by_velocity_times_dt() {
    let mut store = store_of(&[body(5 * UNIT, -3 * UNIT, UNIT / 2, -UNIT / 4, UNIT)]);
    assert_eq!(Body::update_bodies(2 * UNIT, &mut store), Ok(()));
    assert_eq!(store.len(), 1);
    let b = store.body(0);
    assert_eq!(b.pos, Vec2::new(6 * UNIT, -3 * UNIT - UNIT / 2));
    assert_eq!(b.speed, Vec2::new(UNIT / 2, -UNIT / 4));
    assert_eq!(store.id(0), 0);
}

#[test]
fn tick_moves_merges_and_goes_on() {
    // contact after 4 at x = 4 and x = 6; the product rests at 5 while the
    // third body moves on for the whole tick
    let mut store = store_of(&[
        body(0, 0, UNIT, 0, UNIT),
        body(10 * UNIT, 0, -UNIT, 0, UNIT),
        body(0, 50 * UNIT, 0, UNIT, UNIT),
    ]);
    assert_eq!(Body::update_bodies(6 * UNIT, &mut store), Ok(()));
    assert_eq!(store.len(), 2);
    assert_eq!(store.body(0), body(0, 56 * UNIT, 0, UNIT, UNIT));
    assert_eq!(store.body(1), body(5 * UNIT, 0, 0, 0, 2 * UNIT));
    assert_eq!(store.id(0), 2);
    assert_eq!(store.id(1), 3);
    assert_eq!(store.total_mass(), 3 * UNIT);
    assert_eq!(store.momentum(), (0, (UNIT as i128) * (UNIT as i128)));
    assert!(all_apart(&store));
}

#[test]
fn tick_without_collision_only_moves() {
    let mut store = store_of(&[
        body(0, 0, UNIT, 0, UNIT),
        body(10 * UNIT, 0, -UNIT, 0, UNIT),
    ]);
    assert_eq!(Body::update_bodies(3 * UNIT, &mut store), Ok(()));
    assert_eq!(store.len(), 2);
    assert_eq!(store.body(0).pos, Vec2::new(3 * UNIT, 0));
    assert_eq!(store.body(1).pos, Vec2::new(7 * UNIT, 0));
}

#[test]
fn three_overlapping_bodies_become_one() {
    let mut store = store_of(&[
        body(0, 0, UNIT / 4, 0, UNIT),
        body(UNIT, 0, 0, UNIT / 4, UNIT),
        body(0, UNIT, 0, 0, 2 * UNIT),
    ]);
    let before = store.momentum();
    assert_eq!(Body::update_bodies(UNIT, &mut store), Ok(()));
    assert_eq!(store.len(), 1);
    let b = store.body(0);
    assert_eq!(b.mass, 4 * UNIT);
    assert_eq!(b.radius, Body::get_radius(4 * UNIT));
    assert_eq!(store.total_mass(), 4 * UNIT);
    let after = store.momentum();
    assert!((after.0 - before.0).abs() < 2 * b.mass as i128);
    assert!((after.1 - before.1).abs() < 2 * b.mass as i128);
    // the first and the third body merge first, at a third of a quarter along
    // x, rounded to 87381; the second merge rounds 3 * 87381 / 4
    assert_eq!(b.speed, Vec2::new(65535, UNIT / 16));
}

#[test]
fn pair_in_contact_becomes_one() {
    // contact after 4 at x = 4 and x = 6; the product rests at 5
    let mut store = store_of(&[
        body(0, 0, UNIT, 0, UNIT),
        body(10 * UNIT, 0, -UNIT, 0, UNIT),
    ]);
    assert_eq!(Body::update_bodies(6 * UNIT, &mut store), Ok(()));
    assert_eq!(store.len(), 1);
    assert_eq!(store.body(0), body(5 * UNIT, 0, 0, 0, 2 * UNIT));
    assert_eq!(store.body(0).radius, Body::get_radius(2 * UNIT));
    assert_eq!(store.id(0), 2);
    assert_eq!(store.index_of(0), None);
    assert_eq!(store.index_of(1), None);
}

#[test]
fn cluster_moving_as_one_becomes_one() {
    let mut store = store_of(&[
        body(0, 0, UNIT / 4, -UNIT / 8, UNIT),
        body(UNIT, 0, UNIT / 4, -UNIT / 8, UNIT),
        body(0, UNIT, UNIT / 4, -UNIT / 8, 2 * UNIT),
    ]);
    assert_eq!(Body::update_bodies(4 * UNIT, &mut store), Ok(()));
    assert_eq!(store.len(), 1);
    assert_eq!(store.id(0), 4);
    let b = store.body(0);
    assert_eq!(b.mass, 4 * UNIT);
    assert_eq!(b.speed, Vec2::new(UNIT / 4, -UNIT / 8));
    // the centre of mass (1/4, 1/2), moved by (1, -1/2)
    assert_eq!(b.pos, Vec2::new(UNIT + UNIT / 4, 0));
}

#[test]
fn three_resting_overlapping_bodies_become_one() {
    let mut store = store_of(&[
        body(0, 0, 0, 0, UNIT),
        body(UNIT, 0, 0, 0, UNIT),
        body(0, UNIT, 0, 0, 2 * UNIT),
    ]);
    assert_eq!(Body::update_bodies(UNIT, &mut store), Ok(()));
    assert_eq!(store.len(), 1);
    assert_eq!(store.body(0).mass, 4 * UNIT);
    assert_eq!(store.body(0).speed, Vec2::new(0, 0));
    assert_eq!(store.body(0).pos, Vec2::new(UNIT / 4, UNIT / 2));
    assert_eq!(store.id(0), 4);
}

#[test]
fn tick_that_leaves_the_world_is_refused() {
    let mut store = store_of(&[body(POS_MAX - UNIT, 0, 2 * UNIT, 0, UNIT)]);
    assert_eq!(Body::update_bodies(UNIT, &mut store), Err(OutOfRange));
    assert_eq!(store.body(0).pos, Vec2::new(POS_MAX - UNIT, 0));
    assert_eq!(Body::update_bodies(UNIT / 2, &mut store), Ok(()));
    assert_eq!(store.body(0).pos, Vec2::new(POS_MAX, 0));
}

#[test]
fn tick_that_rewinds_too_far_is_refused() {
    // an overlap of bodies that close in by one unit of 2^-20 per unit of
    // time began longer ago than a time can be
    let mut store = store_of(&[body(0, 0, 1, 0, UNIT), body(UNIT, 0, 0, 0, UNIT)]);
    let before: Vec<Body> = (0..store.len()).map(|i| store.body(i)).collect();
    assert_eq!(Body::update_bodies(TIME_MAX, &mut store), Err(OutOfRange));
    assert_eq!((0..store.len()).map(|i| store.body(i)).collect::<Vec<Body>>(), before);
}

#[test]
fn adjust_momentum_brings_the_store_to_rest() {
    let mut store = store_of(&[
        body(0, 0, 4 * UNIT, 0, UNIT),
        body(10 * UNIT, 0, 0, 8 * UNIT, 3 * UNIT),
    ]);
    assert_eq!(Body::adjust_momentum(&mut store), Ok(()));
    // the net velocity was (1, 6)
    assert_eq!(store.body(0).speed, Vec2::new(3 * UNIT, -6 * UNIT));
    assert_eq!(store.body(1).speed, Vec2::new(-UNIT, 2 * UNIT));
    assert_eq!(store.momentum(), (0, 0));
}

#[test]
fn adjust_momentum_out_of_range_is_refused() {
    let mut store = store_of(&[
        body(0, 0, SPEED_MAX, 0, UNIT),
        body(10 * UNIT, 0, -SPEED_MAX, 0, 3 * UNIT),
    ]);
    assert_eq!(Body::adjust_momentum(&mut store), Err(OutOfRange));
    assert_eq!(store.body(0).speed, Vec2::new(SPEED_MAX, 0));
}

#[test]
fn mass_is_conserved_and_bodies_stay_apart_over_many_ticks() {
    let mut store = BodyStore::new();
    for i in 0..6 {
        for j in 0..6 {
            let (x, y) = (i * 3 * UNIT, j * 3 * UNIT);
            let (vx, vy) = ((17 * i - 40) * UNIT / 64, (23 * j - 50) * UNIT / 64);
            store.insert(body(x, y, vx - vy / 3, vy + vx / 5, UNIT + i * j * UNIT / 8)).unwrap();
        }
    }
    let mass = store.total_mass();
    let mut merges = 0;
    for _ in 0..20 {
        let before = store.len();
        assert_eq!(Body::update_bodies(UNIT, &mut store), Ok(()));
        merges += before - store.len();
        assert_eq!(store.total_mass(), mass);
        assert!(all_apart(&store));
    }
    assert!(merges > 0);
}
