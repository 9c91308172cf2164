//! The Barnes-Hut walk: which masses act on a query point.
use vstd::prelude::*;
use crate::region::{Point, POS_LIMIT, REGION_SCALE};
use crate::quadtree::{MASS_LIMIT, Node, NodeKind, QuadTreeResource, moment_bounded, nodes_ok, node_ok};

verus! {

/// Largest accepted opening threshold, in thousandths.
pub const THETA_MILLI_MAX: u64 = 2000;

/// A point mass that acts on the query point: `mass` at `moment / mass`.
/// `aggregate` tells an internal node standing in for its bodies from a leaf.
#[derive(Clone, Copy, Debug, PartialEq, Eq, Structural)]
pub struct PointMass {
    pub mass: u64,
    pub moment: Point,
    pub aggregate: bool,
}

/// The whole of node `n` as one point mass.
pub open spec fn point_mass_of(n: Node) -> PointMass {
    PointMass { mass: n.mass, moment: n.moment, aggregate: n.kind is Internal }
}

/// Whether `s` is the whole square root of `n`.
pub open spec fn is_isqrt(n: int, s: int) -> bool {
    0 <= s && s * s <= n < (s + 1) * (s + 1)
}

/// The whole square root of `n`.
pub open spec fn isqrt(n: int) -> int {
    choose|s: int| is_isqrt(n, s)
}

/// Whether node `n` is far enough from `p` to stand in as one point mass:
/// width / max(distance to its center of mass, 1e-4 units) < theta_milli / 1000.
/// With `far` the square of 100 * mass * that distance in coordinate units,
/// the test reads 100000 * width * mass < theta_milli * REGION_SCALE * sqrt(far),
/// with the root taken to the whole number below.
pub open spec fn accepts(n: Node, p: Point, theta_milli: u64) -> bool {
    let dx = n.moment.x - n.mass * p.x;
    let dy = n.moment.y - n.mass * p.y;
    let d2 = dx * dx + dy * dy;
    let m2 = n.mass * n.mass;
    let far = if 10_000 * d2 > m2 { 10_000 * d2 } else { m2 };
    100_000 * n.bounds.size.x * n.mass < theta_milli * REGION_SCALE * isqrt(far)
}

/// The point masses that act on `p` from below node `i`, in the order the
/// walk meets them: nothing from an empty node or from the leaf of `target`,
/// a leaf as it is, an internal node as one mass where it `accepts`, else
/// what its children give, in quadrant order.
pub open spec fn sources(nodes: Seq<Node>, i: int, target: u64, p: Point, theta_milli: u64) -> Seq<PointMass>
    decreases nodes.len() - i,
{
    if !(0 <= i < nodes.len()) {
        seq![]
    } else {
        let n = nodes[i];
        match n.kind {
            NodeKind::Empty => seq![],
            NodeKind::Leaf { entity, position } => if entity == target {
                seq![]
            } else {
                seq![point_mass_of(n)]
            },
            NodeKind::Internal { children } => if accepts(n, p, theta_milli) {
                seq![point_mass_of(n)]
            } else {
                let s0 = match children[0] {
                    Some(c) => if i < c < nodes.len() { sources(nodes, c as int, target, p, theta_milli) } else { seq![] },
                    None => seq![],
                };
                let s1 = match children[1] {
                    Some(c) => if i < c < nodes.len() { sources(nodes, c as int, target, p, theta_milli) } else { seq![] },
                    None => seq![],
                };
                let s2 = match children[2] {
                    Some(c) => if i < c < nodes.len() { sources(nodes, c as int, target, p, theta_milli) } else { seq![] },
                    None => seq![],
                };
                let s3 = match children[3] {
                    Some(c) => if i < c < nodes.len() { sources(nodes, c as int, target, p, theta_milli) } else { seq![] },
                    None => seq![],
                };
                s0 + s1 + s2 + s3
            },
        }
    }
}

/// Every leaf below node `i` except `target`'s, each as one point mass,
/// with no internal node standing in for its children.
pub open spec fn leaf_sources(nodes: Seq<Node>, i: int, target: u64) -> Seq<PointMass>
    decreases nodes.len() - i,
{
    if !(0 <= i < nodes.len()) {
        seq![]
    } else {
        let n = nodes[i];
        match n.kind {
            NodeKind::Empty => seq![],
            NodeKind::Leaf { entity, position } => if entity == target {
                seq![]
            } else {
                seq![point_mass_of(n)]
            },
            NodeKind::Internal { children } => {
                let s0 = match children[0] {
                    Some(c) => if i < c < nodes.len() { leaf_sources(nodes, c as int, target) } else { seq![] },
                    None => seq![],
                };
                let s1 = match children[1] {
                    Some(c) => if i < c < nodes.len() { leaf_sources(nodes, c as int, target) } else { seq![] },
                    None => seq![],
                };
                let s2 = match children[2] {
                    Some(c) => if i < c < nodes.len() { leaf_sources(nodes, c as int, target) } else { seq![] },
                    None => seq![],
                };
                let s3 = match children[3] {
                    Some(c) => if i < c < nodes.len() { leaf_sources(nodes, c as int, target) } else { seq![] },
                    None => seq![],
                };
                s0 + s1 + s2 + s3
            },
        }
    }
}

/// With a threshold of zero no internal node is ever taken as one mass:
/// the walk yields every leaf but the target's, which is the direct sum
/// over the bodies.
pub proof fn lemma_zero_theta_visits_every_leaf(nodes: Seq<Node>, i: int, target: u64, p: Point)
    requires
        nodes_ok(nodes),
    ensures
        sources(nodes, i, target, p, 0) == leaf_sources(nodes, i, target),
    decreases nodes.len() - i,
{
    if 0 <= i < nodes.len() {
        match nodes[i].kind {
            NodeKind::Internal { children } => {
                let n = nodes[i];
                assert(node_ok(nodes, i));
                let w = n.bounds.size.x;
                assert(0 <= 100_000 * w * n.mass) by (nonlinear_arith)
                    requires 0 <= w, 0 <= n.mass;
                assert(!accepts(n, p, 0));
                match children[0] {
                    Some(c) => if i < c < nodes.len() { lemma_zero_theta_visits_every_leaf(nodes, c as int, target, p); },
                    None => {},
                }
                match children[1] {
                    Some(c) => if i < c < nodes.len() { lemma_zero_theta_visits_every_leaf(nodes, c as int, target, p); },
                    None => {},
                }
                match children[2] {
                    Some(c) => if i < c < nodes.len() { lemma_zero_theta_visits_every_leaf(nodes, c as int, target, p); },
                    None => {},
                }
                match children[3] {
                    Some(c) => if i < c < nodes.len() { lemma_zero_theta_visits_every_leaf(nodes, c as int, target, p); },
                    None => {},
                }
            },
            _ => {},
        }
    }
}

/// A tree that holds nothing but `target` exerts no force on it, wherever
/// it is queried and whatever the threshold.
pub proof fn lemma_lone_target_exerts_nothing(
    nodes: Seq<Node>,
    i: int,
    target: u64,
    p: Point,
    theta_milli: u64,
)
    requires
        forall|j: int|
            0 <= j < nodes.len() ==> match (#[trigger] nodes[j]).kind {
                NodeKind::Empty => true,
                NodeKind::Leaf { entity, position } => entity == target,
                NodeKind::Internal { children } => false,
            },
    ensures
        sources(nodes, i, target, p, theta_milli) == Seq::<PointMass>::empty(),
{
    if 0 <= i < nodes.len() {
        let n = nodes[i];
        assert(match n.kind {
            NodeKind::Empty => true,
            NodeKind::Leaf { entity, position } => entity == target,
            NodeKind::Internal { children } => false,
        });
    }
}

proof fn lemma_isqrt_unique(n: int, a: int, b: int)
    requires
        is_isqrt(n, a),
        is_isqrt(n, b),
    ensures
        a == b,
{
    if a < b {
        assert((a + 1) * (a + 1) <= b * b) by (nonlinear_arith)
            requires 0 <= a, a + 1 <= b;
    } else if b < a {
        assert((b + 1) * (b + 1) <= a * a) by (nonlinear_arith)
            requires 0 <= b, b + 1 <= a;
    }
}

/// The whole square root of `n`, by bisection.
fn whole_sqrt(n: u128) -> (s: u128)
    requires
        n < 0x4_0000_0000_0000_0000_0000_0000_0000,
    ensures
        s == isqrt(n as int),
        s <= 0x200_0000_0000_0000,
{
    let mut lo: u128 = 0;
    let mut hi: u128 = 0x200_0000_0000_0000;
    assert(hi * hi == 0x4_0000_0000_0000_0000_0000_0000_0000);
    while hi - lo > 1
        invariant
            lo < hi <= 0x200_0000_0000_0000,
            lo * lo <= n < hi * hi,
        decreases hi - lo,
    {
        let mid = lo + (hi - lo) / 2;
        assert(mid * mid <= 0x4_0000_0000_0000_0000_0000_0000_0000) by (nonlinear_arith)
            requires 0 <= mid <= hi, hi <= 0x200_0000_0000_0000;
        if mid * mid <= n {
            lo = mid;
        } else {
            hi = mid;
        }
    }
    proof {
        assert(hi == lo + 1);
        assert(is_isqrt(n as int, lo as int));
        let c = choose|s: int| is_isqrt(n as int, s);
        lemma_isqrt_unique(n as int, lo as int, c);
    }
    lo
}

/// Exact form of `accepts` on a node of a sound arena.
fn accepts_node(n: &Node, p: Point, theta_milli: u64) -> (r: bool)
    requires
        n.bounds.valid(),
        n.mass <= MASS_LIMIT,
        moment_bounded(n.mass, n.moment),
        p.in_range(),
        theta_milli <= THETA_MILLI_MAX,
    ensures
        r == accepts(*n, p, theta_milli),
{
    let m = n.mass as i128;
    proof {
        assert(-(n.mass * POS_LIMIT) <= n.mass * p.x <= n.mass * POS_LIMIT) by (nonlinear_arith)
            requires -POS_LIMIT <= p.x <= POS_LIMIT, 0 <= n.mass;
        assert(-(n.mass * POS_LIMIT) <= n.mass * p.y <= n.mass * POS_LIMIT) by (nonlinear_arith)
            requires -POS_LIMIT <= p.y <= POS_LIMIT, 0 <= n.mass;
        assert(n.mass * POS_LIMIT <= MASS_LIMIT * POS_LIMIT) by (nonlinear_arith)
            requires n.mass <= MASS_LIMIT;
    }
    let dx = n.moment.x as i128 - m * (p.x as i128);
    let dy = n.moment.y as i128 - m * (p.y as i128);
    let bound: i128 = 0x2_0000_0000_0000;
    proof {
        assert(0 <= dx * dx <= bound * bound) by (nonlinear_arith)
            requires -bound <= dx <= bound;
        assert(0 <= dy * dy <= bound * bound) by (nonlinear_arith)
            requires -bound <= dy <= bound;
        assert(0 <= m * m <= MASS_LIMIT * MASS_LIMIT) by (nonlinear_arith)
            requires 0 <= m <= MASS_LIMIT;
    }
    let d2 = (dx * dx + dy * dy) as u128;
    let m2 = (m * m) as u128;
    let far = if 10_000 * d2 > m2 { 10_000 * d2 } else { m2 };
    let root = whole_sqrt(far);
    let w = n.bounds.size.x as u128;
    let t = theta_milli as u128;
    let mu = n.mass as u128;
    proof {
        assert(w <= 0x100_0000_0000_0000);
        assert(0 <= 100_000 * w <= 100_000 * 0x100_0000_0000_0000);
        assert(0 <= (100_000 * w) * mu <= (100_000 * 0x100_0000_0000_0000) * 0x100_0000) by (nonlinear_arith)
            requires 0 <= 100_000 * w <= 100_000 * 0x100_0000_0000_0000, 0 <= mu <= 0x100_0000;
        assert(0 <= t * 536_870_912 <= 2000 * 536_870_912);
        assert(0 <= (t * 536_870_912) * root <= (2000 * 536_870_912) * 0x200_0000_0000_0000) by (nonlinear_arith)
            requires 0 <= t * 536_870_912 <= 2000 * 536_870_912, 0 <= root <= 0x200_0000_0000_0000;
        assert(100_000 * n.bounds.size.x * n.mass == (100_000 * w) * mu);
        assert(theta_milli * REGION_SCALE * isqrt(far as int) == (t * 536_870_912) * root);
    }
    (100_000 * w) * mu < (t * 536_870_912) * root
}

impl QuadTreeResource {
    /// Appends to `out` the point masses that act on `position` from below
    /// node `index`.
    fn collect_sources(
        &self,
        index: usize,
        target: u64,
        position: Point,
        theta_milli: u64,
        out: &mut Vec<PointMass>,
    )
        requires
            nodes_ok(self.nodes@),
            index < self.nodes@.len(),
            position.in_range(),
            theta_milli <= THETA_MILLI_MAX,
        ensures
            final(out)@ == old(out)@ + sources(self.nodes@, index as int, target, position, theta_milli),
        decreases self.nodes@.len() - index,
    {
        let node = &self.nodes[index];
        proof {
            assert(node_ok(self.nodes@, index as int));
        }
        match node.kind {
            NodeKind::Empty => {
                assert(out@ =~= old(out)@ + seq![]);
            },
            NodeKind::Leaf { entity, position: _ } => {
                if entity != target {
                    out.push(PointMass { mass: node.mass, moment: node.moment, aggregate: false });
                } else {
                    assert(out@ =~= old(out)@ + seq![]);
                }
            },
            NodeKind::Internal { children } => {
                if accepts_node(node, position, theta_milli) {
                    out.push(PointMass { mass: node.mass, moment: node.moment, aggregate: true });
                } else {
                    let ghost start = out@;
                    let ghost nodes = self.nodes@;
                    let ghost i = index as int;
                    if let Some(c) = children[0] {
                        self.collect_sources(c, target, position, theta_milli, out);
                    }
                    let ghost a0 = out@;
                    if let Some(c) = children[1] {
                        self.collect_sources(c, target, position, theta_milli, out);
                    }
                    let ghost a1 = out@;
                    if let Some(c) = children[2] {
                        self.collect_sources(c, target, position, theta_milli, out);
                    }
                    let ghost a2 = out@;
                    if let Some(c) = children[3] {
                        self.collect_sources(c, target, position, theta_milli, out);
                    }
                    proof {
                        let s = sources(nodes, i, target, position, theta_milli);
                        assert(out@ =~= start + s);
                    }
                }
            },
        }
    }

    /// The point masses that act on `position`, leaving out `target`'s own
    /// leaf. Summing the softened pull of each gives the force on `target`.
    pub fn force_sources(&self, target: u64, position: Point, theta_milli: u64) -> (r: Vec<PointMass>)
        requires
            self.well_formed(),
            position.in_range(),
            theta_milli <= THETA_MILLI_MAX,
        ensures
            r@ == match self.root {
                Some(i) => sources(self.nodes@, i as int, target, position, theta_milli),
                None => seq![],
            },
    {
        let mut out: Vec<PointMass> = Vec::new();
        match self.root {
            Some(index) => {
                self.collect_sources(index, target, position, theta_milli, &mut out);
                assert(out@ =~= sources(self.nodes@, index as int, target, position, theta_milli));
            },
            None => {},
        }
        out
    }
}

} // verus!
