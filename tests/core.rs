use barnes_hut::force::PointMass;
use barnes_hut::quadtree::{NodeKind, QuadTreeResource};
use barnes_hut::region::{Point, Rect, REGION_SCALE};
use barnes_hut::step::{compute_root_bounds, reset_and_build_tree, Body, SimulationBounds};

const SOFTENING: f64 = 5.0;
const DEFAULT_G: f64 = 100.0;
const DEFAULT_THETA_MILLI: u64 = 500;

fn p(x: i64, y: i64) -> Point {
    Point::new(x, y)
}

fn body(entity: u64, x: i64, y: i64, mass: u64) -> Body {
    Body { entity, position: p(x, y), mass }
}

/// Pull of the given point masses on a body at `at`, in world units
/// (coordinates and masses are stored in hundredths).
fn pull(sources: &[PointMass], at: Point, g: f64) -> (f64, f64) {
    let (qx, qy) = (at.x as f64 / 100.0, at.y as f64 / 100.0);
    let mut total = (0.0, 0.0);
    for s in sources {
        let m = s.mass as f64;
        let (cx, cy) = (s.moment.x as f64 / m / 100.0, s.moment.y as f64 / m / 100.0);
        let (dx, dy) = (cx - qx, cy - qy);
        let dist_sq = dx * dx + dy * dy + SOFTENING * SOFTENING;
        let dist = dist_sq.sqrt();
        let mag = g * (m / 100.0) / dist_sq;
        total.0 += dx / dist * mag;
        total.1 += dy / dist * mag;
    }
    total
}

#[test]
fn reset_and_build_tree_updates_bounds_and_root() {
    let mut quadtree = QuadTreeResource::new();
    let mut bounds = SimulationBounds::default();
    let bodies = vec![body(1, -1000, -500, 200), body(2, 2000, 1500, 300)];
    reset_and_build_tree(&mut quadtree, &mut bounds, &bodies);

    assert!(quadtree.root.is_some());
    assert!(quadtree.nodes.len() >= 3);
    let root_node = &quadtree.nodes[quadtree.root.unwrap()];
    assert_eq!(root_node.bounds.center, p(500 * REGION_SCALE, 500 * REGION_SCALE));
    assert_eq!(bounds.root.size.x, 3300 * REGION_SCALE, "root size should expand to cover all bodies");
    assert_eq!(root_node.mass, 500);
    assert_eq!(root_node.moment, p(200 * -1000 + 300 * 2000, 200 * -500 + 300 * 1500));
}

#[test]
fn calculate_forces_sets_acceleration_from_quadtree() {
    let mut quadtree = QuadTreeResource::new();
    quadtree.reset(Rect::around(p(0, 0), 1000));
    quadtree.insert(1, p(0, 0), 100);
    quadtree.insert(2, p(300, 0), 200);

    let force_a = pull(&quadtree.force_sources(1, p(0, 0), DEFAULT_THETA_MILLI), p(0, 0), DEFAULT_G);
    let force_b = pull(&quadtree.force_sources(2, p(300, 0), DEFAULT_THETA_MILLI), p(300, 0), DEFAULT_G);
    let acc_a = (force_a.0 / 1.0, force_a.1 / 1.0);
    let acc_b = (force_b.0 / 2.0, force_b.1 / 2.0);

    let expected_a_x = {
        let dist_sq = 9.0 + SOFTENING * SOFTENING;
        let dist = f64::sqrt(dist_sq);
        let force_mag = (DEFAULT_G * 2.0) / dist_sq;
        3.0 / dist * force_mag
    };
    let expected_b_x = {
        let dist_sq = 9.0 + SOFTENING * SOFTENING;
        let dist = f64::sqrt(dist_sq);
        let force_mag = (DEFAULT_G * 1.0) / dist_sq;
        -3.0 / dist * force_mag / 2.0
    };
    assert!((acc_a.0 - expected_a_x).abs() < 0.0001);
    assert!((acc_b.0 - expected_b_x).abs() < 0.0001);
}

#[test]
fn two_bodies_pull_each_other() {
    let mut quadtree = QuadTreeResource::new();
    let mut bounds = SimulationBounds::default();
    let bodies = vec![body(1, 0, 0, 100), body(2, 300, 0, 200)];
    reset_and_build_tree(&mut quadtree, &mut bounds, &bodies);

    let on_a = quadtree.force_sources(1, p(0, 0), DEFAULT_THETA_MILLI);
    assert_eq!(on_a, vec![PointMass { mass: 200, moment: p(60_000, 0), aggregate: false }]);
    let on_b = quadtree.force_sources(2, p(300, 0), DEFAULT_THETA_MILLI);
    assert_eq!(on_b, vec![PointMass { mass: 100, moment: p(0, 0), aggregate: false }]);

    // Inverse-square magnitudes with softening: 100 * 2 / 34 and 100 / 34.
    assert!((DEFAULT_G * 2.0 / 34.0 - 5.882).abs() < 0.001);
    assert!((DEFAULT_G * 1.0 / 34.0 - 2.941).abs() < 0.001);
    let acc_a = pull(&on_a, p(0, 0), DEFAULT_G);
    let acc_b = pull(&on_b, p(300, 0), DEFAULT_G);
    assert!((acc_a.0 - 3.0265).abs() < 0.001);
    assert!(acc_a.1.abs() < 1e-9);
    assert!((acc_b.0 / 2.0 + 0.7566).abs() < 0.001);
}

#[test]
fn empty_body_set_gives_an_empty_root() {
    let mut quadtree = QuadTreeResource::new();
    let mut bounds = SimulationBounds::default();
    let before = bounds;
    reset_and_build_tree(&mut quadtree, &mut bounds, &Vec::new());
    assert_eq!(bounds, before);
    assert_eq!(quadtree.nodes.len(), 1);
    assert_eq!(quadtree.root, Some(0));
    assert!(matches!(quadtree.nodes[0].kind, NodeKind::Empty));
    assert_eq!(quadtree.nodes[0].bounds, before.root);
    let sources = quadtree.force_sources(7, p(1234, -50), DEFAULT_THETA_MILLI);
    assert!(sources.is_empty());
    assert_eq!(pull(&sources, p(1234, -50), DEFAULT_G), (0.0, 0.0));
}

#[test]
fn insertion_order_does_not_change_root_aggregates() {
    let bodies = vec![
        body(1, -1000, 200, 7),
        body(2, 350, 350, 3),
        body(3, 351, 350, 11),
        body(4, 5000, -4200, 2),
        body(5, -20, -7000, 9),
    ];
    let mut reversed = bodies.clone();
    reversed.reverse();

    let mut first = QuadTreeResource::new();
    let mut second = QuadTreeResource::new();
    let mut bounds_a = SimulationBounds::default();
    let mut bounds_b = SimulationBounds::default();
    reset_and_build_tree(&mut first, &mut bounds_a, &bodies);
    reset_and_build_tree(&mut second, &mut bounds_b, &reversed);

    assert_eq!(bounds_a, bounds_b);
    assert_eq!(first.nodes[0].mass, 32);
    assert_eq!(first.nodes[0].mass, second.nodes[0].mass);
    assert_eq!(first.nodes[0].moment, second.nodes[0].moment);
    assert_eq!(
        first.nodes[0].moment,
        p(-7000 + 1050 + 3861 + 10000 - 180, 1400 + 1050 + 3850 - 8400 - 63000)
    );
}

#[test]
fn one_body_gets_the_smallest_root() {
    let bodies = vec![body(1, 250, -40, 3)];
    let r = compute_root_bounds(&bodies).unwrap();
    assert_eq!(r.center, p(250 * REGION_SCALE, -40 * REGION_SCALE));
    assert_eq!(r.size, p(110 * REGION_SCALE, 110 * REGION_SCALE));
    assert!(compute_root_bounds(&Vec::new()).is_none());
}

#[test]
fn the_root_square_follows_the_longer_side() {
    let bodies = vec![body(1, 0, 0, 1), body(2, 100, 1001, 1), body(3, -3, 7, 1)];
    let r = compute_root_bounds(&bodies).unwrap();
    assert_eq!(r.center, p(-3 * REGION_SCALE + 103 * (REGION_SCALE / 2), 1001 * (REGION_SCALE / 2)));
    assert_eq!(r.size, p(1101 * REGION_SCALE, 1101 * REGION_SCALE));
}

#[test]
fn the_lone_body_feels_nothing() {
    let mut quadtree = QuadTreeResource::new();
    let mut bounds = SimulationBounds::default();
    reset_and_build_tree(&mut quadtree, &mut bounds, &vec![body(4, 10, 10, 5)]);
    assert!(quadtree.force_sources(4, p(10, 10), 1000).is_empty());
    assert!(quadtree.force_sources(4, p(-999, 10), 0).is_empty());
}
