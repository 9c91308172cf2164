use barnes_hut::force::PointMass;
use barnes_hut::quadtree::{Node, NodeKind, QuadTreeResource};
use barnes_hut::region::{Point, Rect, REGION_SCALE};

const SOFTENING: f64 = 5.0;
const G: f64 = 100.0;

fn p(x: i64, y: i64) -> Point {
    Point::new(x, y)
}

fn square(cx: i64, cy: i64, size: i64) -> Rect {
    Rect::around(p(cx, cy), size)
}

/// A point in region units.
fn rp(x: i64, y: i64) -> Point {
    p(x * REGION_SCALE, y * REGION_SCALE)
}

/// Pull of the given point masses on a body at `at`, in world units
/// (coordinates and masses are stored in hundredths).
fn pull(sources: &[PointMass], at: Point, g: f64) -> (f64, f64) {
    let (qx, qy) = (at.x as f64 / 100.0, at.y as f64 / 100.0);
    let mut total = (0.0, 0.0);
    for s in sources {
        let m = s.mass as f64;
        let (cx, cy) = (s.moment.x as f64 / m / 100.0, s.moment.y as f64 / m / 100.0);
        let (dx, dy) = (cx - qx, cy - qy);
        let dist_sq = dx * dx + dy * dy + SOFTENING * SOFTENING;
        let dist = dist_sq.sqrt();
        let mag = g * (m / 100.0) / dist_sq;
        total.0 += dx / dist * mag;
        total.1 += dy / dist * mag;
    }
    total
}

fn direct(mass: f64, x: f64, y: f64, qx: f64, qy: f64) -> (f64, f64) {
    let (dx, dy) = (x - qx, y - qy);
    let dist_sq = dx * dx + dy * dy + SOFTENING * SOFTENING;
    let dist = dist_sq.sqrt();
    let mag = G * mass / dist_sq;
    (dx / dist * mag, dy / dist * mag)
}

fn close(a: (f64, f64), b: (f64, f64), tolerance: f64) -> bool {
    ((a.0 - b.0).powi(2) + (a.1 - b.1).powi(2)).sqrt() <= tolerance
}

#[test]
fn quadrants_and_subdivision_are_consistent() {
    let rect = square(0, 0, 400);
    assert_eq!(rect.get_quadrant_index(p(-100, 100)), 0);
    assert_eq!(rect.get_quadrant_index(p(100, 100)), 1);
    assert_eq!(rect.get_quadrant_index(p(-100, -100)), 2);
    assert_eq!(rect.get_quadrant_index(p(100, -100)), 3);

    let centers = [rp(-100, 100), rp(100, 100), rp(-100, -100), rp(100, -100)];
    for (i, expected_center) in centers.iter().enumerate() {
        let quad = rect.sub_quadrant(i);
        assert_eq!(quad.center, *expected_center);
        assert_eq!(quad.size, rp(200, 200));
    }
}

#[test]
fn points_on_center_lines_go_left_and_down() {
    let rect = square(10, 20, 400);
    assert_eq!(rect.get_quadrant_index(p(10, 20)), 2);
    assert_eq!(rect.get_quadrant_index(p(10, 21)), 0);
    assert_eq!(rect.get_quadrant_index(p(11, 20)), 3);
}

#[test]
fn insert_combines_overlapping_positions() {
    let mut quadtree = QuadTreeResource::new();
    quadtree.reset(square(0, 0, 1000));
    let position = p(100, 100);
    quadtree.insert(1, position, 200);
    quadtree.insert(2, position, 300);

    let root = quadtree.root.unwrap();
    assert_eq!(quadtree.nodes.len(), 1);
    let node = &quadtree.nodes[root];
    assert!(matches!(node.kind, NodeKind::Leaf { entity: 1, .. }));
    assert_eq!(node.mass, 500);
    assert_eq!(node.moment, p(100 * 500, 100 * 500));
    assert_eq!(quadtree.total_mass, 500);
}

#[test]
fn distinct_positions_split_the_leaf() {
    let mut quadtree = QuadTreeResource::new();
    quadtree.reset(square(0, 0, 1000));
    quadtree.insert(1, p(100, 100), 2);
    quadtree.insert(2, p(101, 100), 3);
    let root = &quadtree.nodes[0];
    assert!(matches!(root.kind, NodeKind::Internal { .. }));
    assert_eq!(root.mass, 5);
    assert_eq!(root.moment, p(2 * 100 + 3 * 101, 500));
    for node in &quadtree.nodes {
        if let NodeKind::Internal { children } = node.kind {
            for (k, child) in children.iter().enumerate() {
                let c = child.unwrap();
                assert_eq!(quadtree.nodes[c].bounds, node.bounds.sub_quadrant(k));
            }
        }
    }
    let leaves = quadtree
        .nodes
        .iter()
        .filter(|n| matches!(n.kind, NodeKind::Leaf { .. }))
        .count();
    assert_eq!(leaves, 2);
}

#[test]
fn a_region_too_small_to_split_keeps_one_leaf() {
    let mut quadtree = QuadTreeResource::new();
    quadtree.reset(square(0, 0, 0));
    quadtree.insert(1, p(0, 0), 2);
    quadtree.insert(2, p(50, 0), 3);
    assert_eq!(quadtree.nodes.len(), 1);
    assert_eq!(quadtree.nodes[0].mass, 5);
    assert_eq!(quadtree.nodes[0].moment, p(150, 0));
}

#[test]
fn insert_without_root_does_nothing() {
    let mut quadtree = QuadTreeResource::new();
    quadtree.insert(1, p(0, 0), 5);
    assert!(quadtree.root.is_none());
    assert!(quadtree.nodes.is_empty());
    assert_eq!(quadtree.total_mass, 0);
}

#[test]
fn reset_leaves_one_empty_root() {
    let mut quadtree = QuadTreeResource::new();
    quadtree.reset(square(0, 0, 1000));
    quadtree.insert(1, p(100, 100), 2);
    quadtree.insert(2, p(-100, 100), 2);
    quadtree.reset(square(5, 5, 300));
    assert_eq!(quadtree.nodes.len(), 1);
    assert_eq!(quadtree.root, Some(0));
    assert!(matches!(quadtree.nodes[0].kind, NodeKind::Empty));
    assert_eq!(quadtree.nodes[0].bounds, square(5, 5, 300));
    assert_eq!(quadtree.total_mass, 0);
}

#[test]
fn calculate_force_ignores_target_entity() {
    let mut quadtree = QuadTreeResource::new();
    quadtree.reset(square(0, 0, 1000));
    quadtree.insert(1, p(0, 0), 500);
    let sources = quadtree.force_sources(1, p(0, 0), 500);
    assert!(sources.is_empty());
    assert!(close(pull(&sources, p(0, 0), G), (0.0, 0.0), 0.0001));
}

#[test]
fn calculate_force_uses_approximation_for_distant_nodes() {
    let mut quadtree = QuadTreeResource::new();
    quadtree.nodes.push(Node {
        bounds: square(0, 0, 1000),
        mass: 800,
        moment: p(800 * 5000, 0),
        kind: NodeKind::Internal { children: [None, None, None, None] },
    });
    quadtree.root = Some(0);
    quadtree.total_mass = 800;

    let target = 99;
    let position = p(0, 0);
    let sources = quadtree.force_sources(target, position, 500);
    assert_eq!(sources, vec![PointMass { mass: 800, moment: p(800 * 5000, 0), aggregate: true }]);

    let force = pull(&sources, position, G);
    let expected = {
        let dist_sq = 50.0 * 50.0 + SOFTENING * SOFTENING;
        let dist = f64::sqrt(dist_sq);
        let mag = (G * 8.0) / dist_sq;
        (50.0 / dist * mag, 0.0)
    };
    assert!(close(force, expected, 0.0001));
}

#[test]
fn calculate_force_recurses_into_children() {
    let bounds = square(0, 0, 2000);
    let child_a = Node {
        bounds: bounds.sub_quadrant(1),
        mass: 200,
        moment: p(200 * 500, 0),
        kind: NodeKind::Leaf { entity: 1, position: p(500, 0) },
    };
    let child_b = Node {
        bounds: bounds.sub_quadrant(0),
        mass: 300,
        moment: p(300 * -500, 0),
        kind: NodeKind::Leaf { entity: 2, position: p(-500, 0) },
    };
    let mut quadtree = QuadTreeResource::new();
    quadtree.nodes.push(Node {
        bounds,
        mass: 500,
        moment: p(0, 0),
        kind: NodeKind::Internal { children: [Some(2), Some(1), None, None] },
    });
    quadtree.nodes.push(child_a);
    quadtree.nodes.push(child_b);
    quadtree.root = Some(0);
    quadtree.total_mass = 500;

    let position = p(0, 0);
    let sources = quadtree.force_sources(99, position, 0);
    assert_eq!(
        sources,
        vec![
            PointMass { mass: 300, moment: p(300 * -500, 0), aggregate: false },
            PointMass { mass: 200, moment: p(200 * 500, 0), aggregate: false },
        ]
    );
    let force = pull(&sources, position, G);
    let a = direct(2.0, 5.0, 0.0, 0.0, 0.0);
    let b = direct(3.0, -5.0, 0.0, 0.0, 0.0);
    assert!(close(force, (a.0 + b.0, a.1 + b.1), 0.0001));
}

#[test]
fn empty_tree_exerts_nothing() {
    let quadtree = QuadTreeResource::new();
    assert!(quadtree.force_sources(1, p(0, 0), 500).is_empty());
    let mut quadtree = QuadTreeResource::new();
    quadtree.reset(square(0, 0, 1000));
    assert!(quadtree.force_sources(1, p(300, 0), 500).is_empty());
}

#[test]
fn zero_theta_reaches_every_leaf() {
    let mut quadtree = QuadTreeResource::new();
    quadtree.reset(square(0, 0, 1000));
    let bodies = [(1, p(100, 100), 2), (2, p(-300, 200), 3), (3, p(250, -400), 4), (4, p(-10, -10), 5)];
    for (e, pos, m) in bodies {
        quadtree.insert(e, pos, m);
    }
    let mut sources = quadtree.force_sources(1, p(100, 100), 0);
    sources.sort_by_key(|s| s.mass);
    assert_eq!(
        sources,
        vec![
            PointMass { mass: 3, moment: p(-900, 600), aggregate: false },
            PointMass { mass: 4, moment: p(1000, -1600), aggregate: false },
            PointMass { mass: 5, moment: p(-50, -50), aggregate: false },
        ]
    );
}

#[test]
fn far_cluster_is_taken_as_one_mass() {
    let mut quadtree = QuadTreeResource::new();
    quadtree.reset(square(0, 0, 100_000));
    quadtree.insert(1, p(-40_000, -40_000), 10);
    quadtree.insert(2, p(40_000, 40_000), 1);
    quadtree.insert(3, p(41_000, 41_000), 1);
    // Seen from the far corner, the upper-right quadrant (width 50000 at a
    // distance of about 114000) passes at theta 0.5.
    let sources = quadtree.force_sources(1, p(-40_000, -40_000), 500);
    assert_eq!(sources, vec![PointMass { mass: 2, moment: p(81_000, 81_000), aggregate: true }]);
    // At theta 0.05 no cluster passes, and both bodies act on their own.
    let sources = quadtree.force_sources(1, p(-40_000, -40_000), 50);
    assert_eq!(sources.len(), 2);
}

#[test]
fn every_internal_node_sums_its_children() {
    let mut quadtree = QuadTreeResource::new();
    quadtree.reset(square(0, 0, 20_000));
    let mut expected_mass = 0;
    let mut expected_moment = (0, 0);
    for i in 0..60i64 {
        let x = (i * 7919) % 19_000 - 9_500;
        let y = (i * 104_729) % 19_000 - 9_500;
        let m = (i % 5 + 1) as u64;
        quadtree.insert(i as u64, p(x, y), m);
        expected_mass += m;
        expected_moment.0 += m as i64 * x;
        expected_moment.1 += m as i64 * y;
    }
    // One more body on an occupied spot merges into its leaf.
    quadtree.insert(100, p(-9_500, -9_500), 4);
    expected_mass += 4;
    expected_moment.0 += 4 * -9_500;
    expected_moment.1 += 4 * -9_500;

    assert_eq!(quadtree.nodes[0].mass, expected_mass);
    assert_eq!(quadtree.nodes[0].moment, p(expected_moment.0, expected_moment.1));
    for node in &quadtree.nodes {
        match node.kind {
            NodeKind::Internal { children } => {
                let kids: Vec<&Node> = children.iter().map(|c| &quadtree.nodes[c.unwrap()]).collect();
                assert_eq!(node.mass, kids.iter().map(|k| k.mass).sum::<u64>());
                assert_eq!(node.moment.x, kids.iter().map(|k| k.moment.x).sum::<i64>());
                assert_eq!(node.moment.y, kids.iter().map(|k| k.moment.y).sum::<i64>());
            }
            NodeKind::Empty => assert_eq!(node.mass, 0),
            NodeKind::Leaf { position, .. } => {
                assert_eq!(node.moment, p(node.mass as i64 * position.x, node.mass as i64 * position.y));
            }
        }
    }
}

#[test]
fn error_shrinks_as_theta_falls() {
    let mut quadtree = QuadTreeResource::new();
    quadtree.reset(square(0, 0, 100_000));
    let bodies = [(1, p(-40_000, -40_000), 1000), (2, p(40_000, 40_000), 100), (3, p(41_000, 41_000), 100)];
    for (e, pos, m) in bodies {
        quadtree.insert(e, pos, m);
    }
    let at = p(-40_000, -40_000);
    let exact = {
        let a = direct(1.0, 400.0, 400.0, -400.0, -400.0);
        let b = direct(1.0, 410.0, 410.0, -400.0, -400.0);
        (a.0 + b.0, a.1 + b.1)
    };
    let error = |theta_milli: u64| {
        let f = pull(&quadtree.force_sources(1, at, theta_milli), at, G);
        ((f.0 - exact.0).powi(2) + (f.1 - exact.1).powi(2)).sqrt()
    };
    let errors: Vec<f64> = [1000, 500, 50, 0].iter().map(|&t| error(t)).collect();
    assert!(errors[0] > 0.0);
    for w in errors.windows(2) {
        assert!(w[1] <= w[0]);
    }
    assert!(errors[3] < 1e-12);
}

#[test]
fn small_squares_still_split_exactly() {
    // Two hundredths wide: the quadrants are a hundredth wide and cover it.
    let rect = square(0, 0, 2);
    assert_eq!(rect.get_quadrant_index(p(1, 0)), 3);
    let quad = rect.sub_quadrant(3);
    assert_eq!(quad.size.x * 2, rect.size.x);
    assert_eq!(quad.center, p(REGION_SCALE / 2, -REGION_SCALE / 2));
    assert!(quad.center.x - quad.size.x / 2 <= REGION_SCALE && REGION_SCALE <= quad.center.x + quad.size.x / 2);
    assert_eq!(rect.get_quadrant_index(p(0, 0)), 2);

    // Neighbouring points in a narrow root end in leaves of their own.
    let mut quadtree = QuadTreeResource::new();
    quadtree.reset(square(0, 0, 2));
    quadtree.insert(1, p(1, 0), 2);
    quadtree.insert(2, p(0, 0), 3);
    quadtree.insert(3, p(-1, 1), 4);
    let leaves = quadtree.nodes.iter().filter(|n| matches!(n.kind, NodeKind::Leaf { .. })).count();
    assert_eq!(leaves, 3);
}

#[test]
fn a_merge_below_the_root_keeps_the_first_body() {
    let mut quadtree = QuadTreeResource::new();
    quadtree.reset(square(0, 0, 1000));
    quadtree.insert(1, p(100, 100), 2);
    quadtree.insert(2, p(-100, -100), 3);
    let len = quadtree.nodes.len();
    quadtree.insert(3, p(100, 100), 5);
    assert_eq!(quadtree.nodes.len(), len);
    let leaf = quadtree
        .nodes
        .iter()
        .find(|n| matches!(n.kind, NodeKind::Leaf { position, .. } if position == p(100, 100)))
        .unwrap();
    assert!(matches!(leaf.kind, NodeKind::Leaf { entity: 1, .. }));
    assert_eq!(leaf.mass, 7);
    assert_eq!(leaf.moment, p(700, 700));
    assert_eq!(quadtree.nodes[0].mass, 10);
}

#[test]
fn a_body_descends_into_its_own_quadrant() {
    let mut quadtree = QuadTreeResource::new();
    quadtree.reset(square(0, 0, 1000));
    quadtree.insert(1, p(100, 100), 2);
    quadtree.insert(2, p(-100, -100), 3);
    quadtree.insert(3, p(300, -300), 4);
    let NodeKind::Internal { children } = quadtree.nodes[0].kind else { panic!("root should be internal") };
    let lower_right = &quadtree.nodes[children[3].unwrap()];
    assert!(matches!(lower_right.kind, NodeKind::Leaf { entity: 3, .. }));
    assert_eq!(lower_right.mass, 4);
    let upper_left = &quadtree.nodes[children[0].unwrap()];
    assert!(matches!(upper_left.kind, NodeKind::Empty));
    assert_eq!((quadtree.nodes.len() - 1) % 4, 0);
}
