//! One rebuild of the index from a snapshot of the bodies.
use vstd::prelude::*;
use crate::region::{Point, Rect, POS_LIMIT, REGION_SCALE, odd_part};
use crate::quadtree::{MASS_LIMIT, QuadTreeResource, Node, NodeKind, node_ok, lemma_moment_step, merges};
use crate::aggregate::child_at;

verus! {

broadcast use vstd::seq_lib::group_to_multiset_ensures;

/// Smallest width of a rebuilt root square: one whole unit.
pub const MIN_ROOT_SIZE: i64 = 100;

/// A body as the index sees it: an identifier, a position and a mass.
#[derive(Clone, Copy, Debug, PartialEq, Eq, Structural)]
pub struct Body {
    pub entity: u64,
    pub position: Point,
    pub mass: u64,
}

/// The square that the index covers when there are no bodies to fit.
#[derive(Clone, Copy, Debug, PartialEq, Eq, Structural)]
pub struct SimulationBounds {
    pub root: Rect,
}

impl Default for SimulationBounds {
    /// A square 2000 units wide around the origin.
    fn default() -> (r: SimulationBounds)
        ensures
            r.root.center == (Point { x: 0, y: 0 }),
            r.root.size.x == 200_000 * REGION_SCALE,
            r.root.size.y == 200_000 * REGION_SCALE,
            r.root.valid(),
    {
        proof {
            lemma_odd_part_scaled(200_000);
        }
        SimulationBounds {
            root: Rect {
                center: Point { x: 0, y: 0 },
                size: Point { x: 200_000 * REGION_SCALE, y: 200_000 * REGION_SCALE },
            },
        }
    }
}

/// `2^k`.
pub open spec fn pow2(k: nat) -> int
    decreases k,
{
    if k == 0 { 1 } else { 2 * pow2((k - 1) as nat) }
}

proof fn lemma_odd_part_doubled(a: int, k: nat)
    requires
        a > 0,
    ensures
        a * pow2(k) > 0,
        odd_part(a * pow2(k)) == odd_part(a),
    decreases k,
{
    if k > 0 {
        lemma_odd_part_doubled(a, (k - 1) as nat);
        let b = a * pow2((k - 1) as nat);
        assert(a * pow2(k) == 2 * b) by (nonlinear_arith)
            requires pow2(k) == 2 * pow2((k - 1) as nat), b == a * pow2((k - 1) as nat);
        assert((2 * b) / 2 == b);
    }
}

proof fn lemma_odd_part_at_most(a: int)
    requires
        a > 0,
    ensures
        0 < odd_part(a) <= a,
    decreases a,
{
    if a % 2 == 0 {
        lemma_odd_part_at_most(a / 2);
    }
}

/// A whole number of coordinate units, in region units, has the odd part
/// of that number.
proof fn lemma_odd_part_scaled(a: int)
    requires
        a > 0,
    ensures
        odd_part(a * REGION_SCALE) == odd_part(a),
        odd_part(a) <= a,
{
    assert(pow2(29) == REGION_SCALE) by {
        reveal_with_fuel(pow2, 30);
    }
    lemma_odd_part_doubled(a, 29);
    lemma_odd_part_at_most(a);
}

pub open spec fn bodies_in_range(s: Seq<Body>) -> bool {
    forall|i: int| 0 <= i < s.len() ==> (#[trigger] s[i]).position.in_range()
}

/// Sum of `f` over the bodies.
pub open spec fn body_sum(s: Seq<Body>, f: spec_fn(Body) -> int) -> int
    decreases s.len(),
{
    if s.len() == 0 {
        0
    } else {
        body_sum(s.drop_last(), f) + f(s.last())
    }
}

pub open spec fn mass_of(b: Body) -> int {
    b.mass as int
}

pub open spec fn moment_x_of(b: Body) -> int {
    b.mass * b.position.x
}

pub open spec fn moment_y_of(b: Body) -> int {
    b.mass * b.position.y
}

/// Total mass of the bodies.
pub open spec fn mass_sum(s: Seq<Body>) -> int {
    body_sum(s, |b: Body| mass_of(b))
}

/// Sum of mass times x over the bodies.
pub open spec fn moment_x_sum(s: Seq<Body>) -> int {
    body_sum(s, |b: Body| moment_x_of(b))
}

/// Sum of mass times y over the bodies.
pub open spec fn moment_y_sum(s: Seq<Body>) -> int {
    body_sum(s, |b: Body| moment_y_of(b))
}

/// Least value of `f` over the bodies (of a nonempty sequence).
pub open spec fn seq_min(s: Seq<Body>, f: spec_fn(Body) -> int) -> int
    decreases s.len(),
{
    if s.len() <= 1 {
        f(s[0])
    } else {
        let r = seq_min(s.drop_last(), f);
        if f(s.last()) < r { f(s.last()) } else { r }
    }
}

pub open spec fn min_x(s: Seq<Body>) -> int {
    seq_min(s, |b: Body| b.position.x as int)
}

pub open spec fn max_x(s: Seq<Body>) -> int {
    -seq_min(s, |b: Body| -b.position.x)
}

pub open spec fn min_y(s: Seq<Body>) -> int {
    seq_min(s, |b: Body| b.position.y as int)
}

pub open spec fn max_y(s: Seq<Body>) -> int {
    -seq_min(s, |b: Body| -b.position.y)
}

/// The least value is a value of some body and bounds them all.
proof fn lemma_seq_min(s: Seq<Body>, f: spec_fn(Body) -> int)
    requires
        s.len() >= 1,
    ensures
        forall|i: int| 0 <= i < s.len() ==> seq_min(s, f) <= f(#[trigger] s[i]),
        exists|j: int| 0 <= j < s.len() && seq_min(s, f) == f(#[trigger] s[j]),
    decreases s.len(),
{
    if s.len() > 1 {
        lemma_seq_min(s.drop_last(), f);
        let j = choose|j: int| 0 <= j < s.len() - 1 && seq_min(s.drop_last(), f) == f(#[trigger] s.drop_last()[j]);
        assert(s.drop_last()[j] == s[j]);
        assert forall|i: int| 0 <= i < s.len() implies seq_min(s, f) <= f(#[trigger] s[i]) by {
            if i < s.len() - 1 {
                assert(s.drop_last()[i] == s[i]);
            }
        }
        if f(s.last()) < seq_min(s.drop_last(), f) {
            assert(s[s.len() - 1] == s.last());
        }
    } else {
        assert(seq_min(s, f) == f(s[0]));
    }
}

/// Two orderings of the same bodies have the same least value.
proof fn lemma_seq_min_permutation(a: Seq<Body>, b: Seq<Body>, f: spec_fn(Body) -> int)
    requires
        a.len() >= 1,
        a.to_multiset() == b.to_multiset(),
    ensures
        seq_min(a, f) == seq_min(b, f),
{
    a.to_multiset_ensures();
    b.to_multiset_ensures();
    lemma_seq_min(a, f);
    lemma_seq_min(b, f);
    let ja = choose|j: int| 0 <= j < a.len() && seq_min(a, f) == f(#[trigger] a[j]);
    let jb = choose|j: int| 0 <= j < b.len() && seq_min(b, f) == f(#[trigger] b[j]);
    assert(a.contains(a[ja]));
    assert(b.to_multiset().count(a[ja]) > 0);
    assert(b.contains(a[ja]));
    let kb = choose|k: int| 0 <= k < b.len() && b[k] == a[ja];
    assert(seq_min(b, f) <= f(b[kb]));
    assert(b.contains(b[jb]));
    assert(a.to_multiset().count(b[jb]) > 0);
    assert(a.contains(b[jb]));
    let ka = choose|k: int| 0 <= k < a.len() && a[k] == b[jb];
    assert(seq_min(a, f) <= f(a[ka]));
}

/// The square around the bodies: centered on their bounding box, as wide as
/// its longer side (at least `MIN_ROOT_SIZE`) plus a tenth.
pub open spec fn bounding_square(s: Seq<Body>) -> Rect {
    let w = max_x(s) - min_x(s);
    let h = max_y(s) - min_y(s);
    let longer = if w > h { w } else { h };
    let ext = if longer > MIN_ROOT_SIZE { longer } else { MIN_ROOT_SIZE as int };
    let size = (ext * 11 / 10 * REGION_SCALE) as i64;
    Rect {
        center: Point {
            x: (min_x(s) * REGION_SCALE + w * (REGION_SCALE / 2)) as i64,
            y: (min_y(s) * REGION_SCALE + h * (REGION_SCALE / 2)) as i64,
        },
        size: Point { x: size, y: size },
    }
}

/// Removing one body takes exactly its share out of a sum.
proof fn lemma_sum_remove(s: Seq<Body>, k: int, f: spec_fn(Body) -> int)
    requires
        0 <= k < s.len(),
    ensures
        body_sum(s, f) == body_sum(s.remove(k), f) + f(s[k]),
    decreases s.len(),
{
    if k == s.len() - 1 {
        assert(s.remove(k) =~= s.drop_last());
    } else {
        let r = s.remove(k);
        assert(r.drop_last() =~= s.drop_last().remove(k));
        assert(r.last() == s.last());
        lemma_sum_remove(s.drop_last(), k, f);
    }
}

/// Sums over two orderings of the same bodies agree.
proof fn lemma_sum_permutation(a: Seq<Body>, b: Seq<Body>, f: spec_fn(Body) -> int)
    requires
        a.to_multiset() == b.to_multiset(),
    ensures
        body_sum(a, f) == body_sum(b, f),
    decreases a.len(),
{
    if a.len() == 0 {
        assert(b.to_multiset().len() == 0);
        assert(b.len() == 0);
    } else {
        let x = a.last();
        assert(a.drop_last().push(x) =~= a);
        assert(a.to_multiset().count(x) > 0);
        assert(b.contains(x));
        let k = choose|k: int| 0 <= k < b.len() && b[k] == x;
        assert(b.remove(k).to_multiset() == b.to_multiset().remove(x));
        assert(a.drop_last().to_multiset() =~= a.to_multiset().remove(x));
        lemma_sum_permutation(a.drop_last(), b.remove(k), f);
        lemma_sum_remove(b, k, f);
    }
}

/// Rebuilding from the same bodies in any order gives the same root square,
/// and the root the same mass and the same moment, hence the same center of
/// mass.
pub proof fn lemma_rebuild_order_independent(a: Seq<Body>, b: Seq<Body>)
    requires
        a.to_multiset() == b.to_multiset(),
    ensures
        mass_sum(a) == mass_sum(b),
        moment_x_sum(a) == moment_x_sum(b),
        moment_y_sum(a) == moment_y_sum(b),
        a.len() == b.len(),
        a.len() > 0 ==> bounding_square(a) == bounding_square(b),
{
    a.to_multiset_ensures();
    b.to_multiset_ensures();
    if a.len() > 0 {
        lemma_seq_min_permutation(a, b, |x: Body| x.position.x as int);
        lemma_seq_min_permutation(a, b, |x: Body| -x.position.x);
        lemma_seq_min_permutation(a, b, |x: Body| x.position.y as int);
        lemma_seq_min_permutation(a, b, |x: Body| -x.position.y);
    }
    lemma_sum_permutation(a, b, |x: Body| mass_of(x));
    lemma_sum_permutation(a, b, |x: Body| moment_x_of(x));
    lemma_sum_permutation(a, b, |x: Body| moment_y_of(x));
}

/// A prefix holds no more mass than the whole.
proof fn lemma_mass_prefix(s: Seq<Body>, i: int)
    requires
        0 <= i <= s.len(),
    ensures
        mass_sum(s.subrange(0, i)) <= mass_sum(s),
    decreases s.len() - i,
{
    if i < s.len() {
        lemma_mass_prefix(s, i + 1);
        assert(s.subrange(0, i + 1).drop_last() =~= s.subrange(0, i));
    } else {
        assert(s.subrange(0, i) =~= s);
    }
}


/// The square around the bodies, or `None` when there are none.
pub fn compute_root_bounds(bodies: &Vec<Body>) -> (r: Option<Rect>)
    requires
        bodies_in_range(bodies@),
    ensures
        bodies@.len() == 0 ==> r is None,
        bodies@.len() > 0 ==> r == Some(bounding_square(bodies@)) && r.unwrap().valid() && r.unwrap().splittable(),
{
    if bodies.len() == 0 {
        return None;
    }
    let first = bodies[0].position;
    proof {
        assert(bodies@[0].position.in_range());
        assert(bodies@.subrange(0, 1).len() == 1);
    }
    let mut lo_x = first.x;
    let mut hi_x = first.x;
    let mut lo_y = first.y;
    let mut hi_y = first.y;
    let mut i: usize = 1;
    while i < bodies.len()
        invariant
            1 <= i <= bodies@.len(),
            bodies_in_range(bodies@),
            lo_x == min_x(bodies@.subrange(0, i as int)),
            hi_x == max_x(bodies@.subrange(0, i as int)),
            lo_y == min_y(bodies@.subrange(0, i as int)),
            hi_y == max_y(bodies@.subrange(0, i as int)),
            -POS_LIMIT <= lo_x <= hi_x <= POS_LIMIT,
            -POS_LIMIT <= lo_y <= hi_y <= POS_LIMIT,
        decreases bodies@.len() - i,
    {
        let p = bodies[i].position;
        proof {
            assert(bodies@[i as int].position.in_range());
            assert(bodies@.subrange(0, i + 1).drop_last() =~= bodies@.subrange(0, i as int));
        }
        if p.x < lo_x {
            lo_x = p.x;
        }
        if p.x > hi_x {
            hi_x = p.x;
        }
        if p.y < lo_y {
            lo_y = p.y;
        }
        if p.y > hi_y {
            hi_y = p.y;
        }
        i += 1;
    }
    proof {
        assert(bodies@.subrange(0, bodies@.len() as int) =~= bodies@);
    }
    let w = hi_x - lo_x;
    let h = hi_y - lo_y;
    let longer = if w > h { w } else { h };
    let ext = if longer > MIN_ROOT_SIZE { longer } else { MIN_ROOT_SIZE };
    let size = ext * 11 / 10;
    let half_scale: i64 = REGION_SCALE / 2;
    let r = Rect {
        center: Point { x: lo_x * REGION_SCALE + w * half_scale, y: lo_y * REGION_SCALE + h * half_scale },
        size: Point { x: size * REGION_SCALE, y: size * REGION_SCALE },
    };
    proof {
        lemma_odd_part_scaled(size as int);
        assert(size * REGION_SCALE == (size * 67_108_864) * 8);
    }
    Some(r)
}


/// Rebuilds the index from the bodies: a root square fitted around them
/// (kept from `bounds` when there are none), then every body inserted in
/// order. The root then holds the total mass and moment of the bodies.
pub fn reset_and_build_tree(
    quadtree: &mut QuadTreeResource,
    bounds: &mut SimulationBounds,
    bodies: &Vec<Body>,
)
    requires
        old(bounds).root.valid(),
        bodies_in_range(bodies@),
        mass_sum(bodies@) <= MASS_LIMIT,
    ensures
        final(quadtree).well_formed(),
        final(quadtree).consistent(),
        final(quadtree).root == Some(0usize),
        final(bounds).root.valid(),
        final(quadtree).nodes@[0].bounds == final(bounds).root,
        bodies@.len() == 0 ==> *final(bounds) == *old(bounds),
        bodies@.len() == 0 ==> final(quadtree).nodes@.len() == 1 && final(quadtree).nodes@[0].kind is Empty,
        bodies@.len() > 0 ==> final(bounds).root == bounding_square(bodies@),
        final(quadtree).nodes@[0].mass == mass_sum(bodies@),
        final(quadtree).nodes@[0].moment.x == moment_x_sum(bodies@),
        final(quadtree).nodes@[0].moment.y == moment_y_sum(bodies@),
        final(quadtree).total_mass == mass_sum(bodies@),
        bodies@.len() == 1 ==> final(quadtree).nodes@.len() == 1 && final(quadtree).nodes@[0].kind == (NodeKind::Leaf {
            entity: bodies@[0].entity,
            position: bodies@[0].position,
        }),
        bodies@.len() >= 2 && bodies@[0].position != bodies@[1].position ==> final(quadtree).nodes@[0].kind is Internal
            && final(quadtree).nodes@.len() >= 5,
{
    let root_bounds = match compute_root_bounds(bodies) {
        Some(r) => r,
        None => {
            quadtree.reset(bounds.root);
            return ;
        },
    };
    bounds.root = root_bounds;
    quadtree.reset(root_bounds);
    let mut i: usize = 0;
    while i < bodies.len()
        invariant
            0 <= i <= bodies@.len(),
            bodies_in_range(bodies@),
            mass_sum(bodies@) <= MASS_LIMIT,
            quadtree.well_formed(),
            quadtree.consistent(),
            quadtree.root == Some(0usize),
            quadtree.nodes@.len() >= 1,
            quadtree.nodes@[0].bounds == root_bounds,
            quadtree.nodes@[0].mass == mass_sum(bodies@.subrange(0, i as int)),
            quadtree.nodes@[0].moment.x == moment_x_sum(bodies@.subrange(0, i as int)),
            quadtree.nodes@[0].moment.y == moment_y_sum(bodies@.subrange(0, i as int)),
            quadtree.total_mass == mass_sum(bodies@.subrange(0, i as int)),
            root_bounds.splittable(),
            i == 0 ==> quadtree.nodes@.len() == 1 && quadtree.nodes@[0].kind is Empty,
            i == 1 ==> quadtree.nodes@.len() == 1 && quadtree.nodes@[0].kind == (NodeKind::Leaf {
                entity: bodies@[0].entity,
                position: bodies@[0].position,
            }),
            i >= 2 && bodies@[0].position != bodies@[1].position ==> quadtree.nodes@[0].kind is Internal
                && quadtree.nodes@.len() >= 5,
        decreases bodies@.len() - i,
    {
        let body = bodies[i];
        let ghost before = quadtree.nodes@;
        proof {
            assert(bodies@[i as int].position.in_range());
            assert(bodies@.subrange(0, i + 1).drop_last() =~= bodies@.subrange(0, i as int));
            lemma_mass_prefix(bodies@, i + 1);
            assert(node_ok(before, 0));
            lemma_moment_step(before[0].mass, before[0].moment, body.mass, body.position);
        }
        quadtree.insert(body.entity, body.position, body.mass);
        proof {
            if i == 1 && bodies@[0].position != bodies@[1].position {
                let q = bodies@[0].position;
                let d = (q.x - body.position.x) * (q.x - body.position.x) + (q.y - body.position.y) * (q.y - body.position.y);
                assert(d >= 1) by (nonlinear_arith)
                    requires q != body.position, d == (q.x - body.position.x) * (q.x - body.position.x) + (q.y - body.position.y) * (q.y - body.position.y);
                assert(!merges(before[0], body.position));
                assert(child_at(quadtree.nodes@, 0, 3) == Some((before.len() + 3) as usize));
                assert(node_ok(quadtree.nodes@, 0));
            }
        }
        i += 1;
    }
    proof {
        assert(bodies@.subrange(0, bodies@.len() as int) =~= bodies@);
    }
}

} // verus!
