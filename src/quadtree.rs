//! The spatial index: an arena of quadtree nodes that aggregate mass.
use vstd::prelude::*;
use crate::region::{Point, Rect, POS_LIMIT, sub_rect, quadrant_of};
use crate::aggregate::{
    aggregated, aggregated_at, child_at, insert_keeps_sums, is_parent, pointers_kept, settled, slot_is,
    lemma_not_own_parent, lemma_sums_internal_update, lemma_sums_leaf_update, lemma_sums_split,
    lemma_split_children_aggregated,
};

verus! {

/// Largest mass that the index holds in total: a machine limit, for the
/// same reason as `POS_LIMIT`.
pub const MASS_LIMIT: u64 = 16_777_216;

/// Two bodies whose squared distance, in coordinate units, is below this
/// share one leaf: below 1e-4 square world units, that is, the same point.
pub const MERGE_DIST_SQ: i64 = 1;

/// Shape of a node of the index.
#[derive(Clone, Copy, Debug)]
pub enum NodeKind {
    Empty,
    Leaf { entity: u64, position: Point },
    Internal { children: [Option<usize>; 4] },
}

/// A node of the index. `moment` is the sum of mass times position over the
/// bodies below the node, so its center of mass is `moment / mass`.
#[derive(Clone, Copy, Debug)]
pub struct Node {
    pub bounds: Rect,
    pub mass: u64,
    pub moment: Point,
    pub kind: NodeKind,
}

/// Squared distance between two points.
pub open spec fn dist_sq(a: Point, b: Point) -> int {
    (a.x - b.x) * (a.x - b.x) + (a.y - b.y) * (a.y - b.y)
}

/// `m * p` added to the moment `w`.
pub open spec fn add_moment(w: Point, m: u64, p: Point) -> Point {
    Point { x: (w.x + m * p.x) as i64, y: (w.y + m * p.y) as i64 }
}

/// The moment stays within what the mass allows at coordinates of
/// magnitude `POS_LIMIT`.
pub open spec fn moment_bounded(m: u64, w: Point) -> bool {
    &&& -(m * POS_LIMIT) <= w.x <= m * POS_LIMIT
    &&& -(m * POS_LIMIT) <= w.y <= m * POS_LIMIT
}

/// Child slot `k` of node `i` is absent, or a later node covering quadrant `k`.
pub open spec fn child_ok(nodes: Seq<Node>, i: int, c: Option<usize>, k: int) -> bool {
    match c {
        Some(c) => i < c < nodes.len() && nodes[c as int].bounds == sub_rect(nodes[i].bounds, k),
        None => true,
    }
}

/// Node `i` is sound on its own and its children come after it.
pub open spec fn node_ok(nodes: Seq<Node>, i: int) -> bool {
    let n = nodes[i];
    &&& n.bounds.valid()
    &&& n.mass <= MASS_LIMIT
    &&& moment_bounded(n.mass, n.moment)
    &&& match n.kind {
        NodeKind::Empty => true,
        NodeKind::Leaf { entity, position } => position.in_range(),
        NodeKind::Internal { children } => {
            &&& n.bounds.splittable()
            &&& child_ok(nodes, i, children[0], 0)
            &&& child_ok(nodes, i, children[1], 1)
            &&& child_ok(nodes, i, children[2], 2)
            &&& child_ok(nodes, i, children[3], 3)
        },
    }
}

pub open spec fn nodes_ok(nodes: Seq<Node>) -> bool {
    forall|i: int| 0 <= i < nodes.len() ==> #[trigger] node_ok(nodes, i)
}

pub open spec fn masses_within(nodes: Seq<Node>, bound: int) -> bool {
    forall|i: int| 0 <= i < nodes.len() ==> #[trigger] nodes[i].mass <= bound
}

/// A node kind that still accepts a different body without a split.
pub open spec fn merges(n: Node, p: Point) -> bool {
    match n.kind {
        NodeKind::Leaf { entity, position } => dist_sq(position, p) < MERGE_DIST_SQ
            || !n.bounds.splittable(),
        _ => false,
    }
}

/// What inserting a body of `m` at `p` below node `i` did to the arena.
pub open spec fn insert_effect(
    before: Seq<Node>,
    after: Seq<Node>,
    i: int,
    e: u64,
    p: Point,
    m: u64,
) -> bool {
    &&& after.len() >= before.len()
    &&& forall|j: int| 0 <= j < before.len() ==> (#[trigger] after[j]).bounds == before[j].bounds
    &&& after[i].mass == before[i].mass + m
    &&& after[i].moment == add_moment(before[i].moment, m, p)
    &&& before[i].kind is Empty ==> after.len() == before.len() && after[i].kind == (NodeKind::Leaf { entity: e, position: p })
    &&& merges(before[i], p) ==> after.len() == before.len() && after[i].kind == before[i].kind
    &&& (before[i].kind is Leaf && !merges(before[i], p)) ==> after[i].kind is Internal
    &&& before[i].kind is Internal ==> after[i].kind == before[i].kind
}

/// The node where a body at `p` comes to rest when inserted below node `i`:
/// descend by `quadrant_of` through internal nodes to the first empty node
/// or leaf (or to an internal node whose quadrant slot is absent).
pub open spec fn landing(nodes: Seq<Node>, i: int, p: Point) -> int
    decreases nodes.len() - i,
{
    if !(0 <= i < nodes.len()) {
        i
    } else {
        match nodes[i].kind {
            NodeKind::Internal { children } => match children[quadrant_of(nodes[i].bounds, p)] {
                Some(c) => if i < c < nodes.len() { landing(nodes, c as int, p) } else { i },
                None => i,
            },
            _ => i,
        }
    }
}

/// How many times a square of size `s` can still be split.
pub open spec fn split_depth(s: int) -> nat
    decreases s,
{
    if s >= 8 && s % 8 == 0 {
        1 + split_depth(s / 2)
    } else {
        0
    }
}

/// What inserting a body `e` of `m` at `p` below node `i` did where it came
/// to rest: an empty node becomes the body's leaf; a leaf it merges with
/// keeps its identity and gains the mass and moment; any other leaf turns
/// into an internal node over four fresh children. Each split appends four
/// nodes, and there are no more splits than the landing square allows.
pub open spec fn landing_effect(before: Seq<Node>, after: Seq<Node>, i: int, e: u64, p: Point, m: u64) -> bool {
    let k = landing(before, i, p);
    let len = before.len() as int;
    let n = before[k];
    &&& i <= k < len
    &&& after.len() >= len
    &&& (after.len() - len) % 4 == 0
    &&& after.len() - len <= 4 * split_depth(n.bounds.size.x as int)
    &&& n.kind is Empty ==> after.len() == len && after[k] == (Node {
        bounds: n.bounds,
        mass: (n.mass + m) as u64,
        moment: add_moment(n.moment, m, p),
        kind: NodeKind::Leaf { entity: e, position: p },
    })
    &&& merges(n, p) ==> after.len() == len && after[k] == (Node {
        bounds: n.bounds,
        mass: (n.mass + m) as u64,
        moment: add_moment(n.moment, m, p),
        kind: n.kind,
    })
    &&& (n.kind is Leaf && !merges(n, p)) ==> {
        &&& after[k].kind is Internal
        &&& after[k].mass == n.mass + m
        &&& after[k].moment == add_moment(n.moment, m, p)
        &&& forall|q: int| 0 <= q < 4 ==> #[trigger] child_at(after, k, q) == Some((len + q) as usize)
    }
}

/// Whether node `j` is on the way down from node `i` for a body at `p`.
pub open spec fn on_path(nodes: Seq<Node>, i: int, j: int, p: Point) -> bool
    decreases nodes.len() - i,
{
    &&& 0 <= i < nodes.len()
    &&& (j == i || match nodes[i].kind {
        NodeKind::Internal { children } => match children[quadrant_of(nodes[i].bounds, p)] {
            Some(c) => i < c < nodes.len() && on_path(nodes, c as int, j, p),
            None => false,
        },
        _ => false,
    })
}

/// Along the way down every node above the landing one gains the body's mass
/// and moment and keeps the rest; no other node of the arena changes.
pub open spec fn path_effect(before: Seq<Node>, after: Seq<Node>, i: int, p: Point, m: u64) -> bool {
    &&& forall|j: int| 0 <= j < before.len() && !#[trigger] on_path(before, i, j, p) ==> after[j] == before[j]
    &&& forall|j: int| 0 <= j < before.len() && #[trigger] on_path(before, i, j, p) && j != landing(before, i, p)
        ==> after[j] == (Node {
            bounds: before[j].bounds,
            mass: (before[j].mass + m) as u64,
            moment: add_moment(before[j].moment, m, p),
            kind: before[j].kind,
        })
}

/// The way down from `i` stops at `i` when there is no child to descend to.
proof fn lemma_path_stops(before: Seq<Node>, after: Seq<Node>, i: int, p: Point, m: u64)
    requires
        0 <= i < before.len(),
        match before[i].kind {
            NodeKind::Internal { children } => children[quadrant_of(before[i].bounds, p)] is None,
            _ => true,
        },
        forall|j: int| 0 <= j < before.len() && j != i ==> after[j] == before[j],
    ensures
        path_effect(before, after, i, p, m),
        landing(before, i, p) == i,
{
    assert forall|j: int| 0 <= j < before.len() && #[trigger] on_path(before, i, j, p) implies j == i by {}
}

/// The way down from internal node `i` is `i` followed by the way down from
/// its child `c` in the body's quadrant.
proof fn lemma_path_descends(
    before: Seq<Node>,
    grown: Seq<Node>,
    after: Seq<Node>,
    i: int,
    c: usize,
    n: Node,
    p: Point,
    m: u64,
)
    requires
        0 <= i < c < before.len(),
        match before[i].kind {
            NodeKind::Internal { children } => children[quadrant_of(before[i].bounds, p)] == Some(c),
            _ => false,
        },
        path_effect(before, grown, c as int, p, m),
        landing(before, c as int, p) >= c,
        grown.len() >= before.len(),
        after == grown.update(i, n),
        n == (Node {
            bounds: before[i].bounds,
            mass: (before[i].mass + m) as u64,
            moment: add_moment(before[i].moment, m, p),
            kind: before[i].kind,
        }),
        grown[i] == before[i],
    ensures
        path_effect(before, after, i, p, m),
        landing(before, i, p) == landing(before, c as int, p),
{
    let q = quadrant_of(before[i].bounds, p);
    match before[i].kind {
        NodeKind::Internal { children } => {
            assert(children[q] == Some(c));
            assert(landing(before, i, p) == landing(before, c as int, p));
            assert forall|j: int| 0 <= j < before.len() implies (#[trigger] on_path(before, i, j, p)
                <==> (j == i || on_path(before, c as int, j, p))) by {}
        },
        _ => {},
    }
    assert forall|j: int| 0 <= j < before.len() && !#[trigger] on_path(before, i, j, p) implies after[j] == before[j] by {
        assert(!on_path(before, c as int, j, p));
    }
    assert forall|j: int| 0 <= j < before.len() && #[trigger] on_path(before, i, j, p) && j != landing(before, i, p)
        implies after[j] == (Node {
            bounds: before[j].bounds,
            mass: (before[j].mass + m) as u64,
            moment: add_moment(before[j].moment, m, p),
            kind: before[j].kind,
        }) by {
        if j != i {
            assert(on_path(before, c as int, j, p));
        }
    }
}

/// Replacing one node by a sound node over the same bounds keeps the arena sound.
proof fn lemma_update_keeps_ok(nodes: Seq<Node>, i: int, n: Node)
    requires
        nodes_ok(nodes),
        0 <= i < nodes.len(),
        n.bounds == nodes[i].bounds,
        node_ok(nodes.update(i, n), i),
    ensures
        nodes_ok(nodes.update(i, n)),
{
    let after = nodes.update(i, n);
    assert forall|j: int| 0 <= j < after.len() implies #[trigger] node_ok(after, j) by {
        if j != i {
            assert(node_ok(nodes, j));
            assert(forall|c: int| 0 <= c < nodes.len() ==> #[trigger] after[c].bounds == nodes[c].bounds);
            match nodes[j].kind {
                NodeKind::Internal { children: ch } => {
                    assert(child_ok(nodes, j, ch[0], 0));
                    assert(child_ok(nodes, j, ch[1], 1));
                    assert(child_ok(nodes, j, ch[2], 2));
                    assert(child_ok(nodes, j, ch[3], 3));
                },
                _ => {},
            }
        }
    }
}

pub(crate) proof fn lemma_moment_step(m: u64, w: Point, add: u64, p: Point)
    requires
        moment_bounded(m, w),
        p.in_range(),
        m + add <= MASS_LIMIT,
    ensures
        moment_bounded((m + add) as u64, add_moment(w, add, p)),
        -(add * POS_LIMIT) <= add * p.x <= add * POS_LIMIT,
        -(add * POS_LIMIT) <= add * p.y <= add * POS_LIMIT,
{
    assert(-(add * POS_LIMIT) <= add * p.x <= add * POS_LIMIT) by (nonlinear_arith)
        requires -POS_LIMIT <= p.x <= POS_LIMIT, 0 <= add;
    assert(-(add * POS_LIMIT) <= add * p.y <= add * POS_LIMIT) by (nonlinear_arith)
        requires -POS_LIMIT <= p.y <= POS_LIMIT, 0 <= add;
    assert((m + add) * POS_LIMIT == m * POS_LIMIT + add * POS_LIMIT) by (nonlinear_arith);
    assert(m * POS_LIMIT + add * POS_LIMIT <= MASS_LIMIT * POS_LIMIT) by (nonlinear_arith)
        requires m + add <= MASS_LIMIT;
}

impl Node {
    /// Creates an empty node covering `bounds`.
    pub fn empty(bounds: Rect) -> (r: Node)
        ensures
            r.bounds == bounds,
            r.mass == 0,
            r.moment == (Point { x: 0, y: 0 }),
            r.kind is Empty,
    {
        Node { bounds, mass: 0, moment: Point { x: 0, y: 0 }, kind: NodeKind::Empty }
    }
}

/// The index: a growable arena of nodes and the index of its root.
pub struct QuadTreeResource {
    pub nodes: Vec<Node>,
    pub root: Option<usize>,
    /// Sum of the masses inserted since the last reset.
    pub total_mass: u64,
}

impl QuadTreeResource {
    /// The arena is sound, no node holds more than the mass inserted, and
    /// the root, if any, is a node of the arena.
    pub open spec fn well_formed(&self) -> bool {
        &&& nodes_ok(self.nodes@)
        &&& masses_within(self.nodes@, self.total_mass as int)
        &&& self.total_mass <= MASS_LIMIT
        &&& match self.root {
            Some(r) => r < self.nodes@.len(),
            None => true,
        }
    }

    /// Every node aggregates the bodies below it, and the root is the first
    /// node, which no slot holds.
    pub open spec fn consistent(&self) -> bool {
        &&& aggregated(self.nodes@)
        &&& match self.root {
            Some(r) => r == 0,
            None => true,
        }
    }

    /// An index with no root, in which insertion does nothing.
    pub fn new() -> (r: QuadTreeResource)
        ensures
            r.well_formed(),
            r.consistent(),
            r.nodes@.len() == 0,
            r.root is None,
            r.total_mass == 0,
    {
        QuadTreeResource { nodes: Vec::new(), root: None, total_mass: 0 }
    }

    /// Clears the tree and inserts a new root covering `bounds`.
    pub fn reset(&mut self, bounds: Rect)
        requires
            bounds.valid(),
        ensures
            final(self).well_formed(),
            final(self).consistent(),
            final(self).nodes@.len() == 1,
            final(self).nodes@[0].bounds == bounds,
            final(self).nodes@[0].mass == 0,
            final(self).nodes@[0].moment == (Point { x: 0, y: 0 }),
            final(self).nodes@[0].kind is Empty,
            final(self).root == Some(0usize),
            final(self).total_mass == 0,
    {
        self.nodes.clear();
        self.root = Some(self.nodes.len());
        self.nodes.push(Node::empty(bounds));
        self.total_mass = 0;
        assert(node_ok(self.nodes@, 0));
        assert(aggregated_at(self.nodes@, 0));
    }

    /// Appends an empty child for each quadrant of node `index` and returns
    /// their indices.
    fn subdivide(&mut self, index: usize) -> (children: [Option<usize>; 4])
        requires
            nodes_ok(old(self).nodes@),
            index < old(self).nodes@.len(),
            old(self).nodes@[index as int].bounds.splittable(),
        ensures
            final(self).nodes@.len() == old(self).nodes@.len() + 4,
            final(self).nodes@.subrange(0, old(self).nodes@.len() as int) == old(self).nodes@,
            forall|k: int| 0 <= k < 4 ==> {
                let c = old(self).nodes@.len() + k;
                &&& (#[trigger] children[k]) is Some
                &&& children[k].unwrap() == c
                &&& final(self).nodes@[c].bounds == sub_rect(old(self).nodes@[index as int].bounds, k)
                &&& final(self).nodes@[c].mass == 0
                &&& final(self).nodes@[c].moment == (Point { x: 0, y: 0 })
                &&& final(self).nodes@[c].kind is Empty
            },
            nodes_ok(final(self).nodes@),
            final(self).root == old(self).root,
            final(self).total_mass == old(self).total_mass,
    {
        let bounds = self.nodes[index].bounds;
        assert(node_ok(self.nodes@, index as int));
        let mut children: [Option<usize>; 4] = [None, None, None, None];
        let mut quadrant: usize = 0;
        while quadrant < 4
            invariant
                0 <= quadrant <= 4,
                bounds == old(self).nodes@[index as int].bounds,
                bounds.valid(),
                bounds.splittable(),
                self.nodes@.len() == old(self).nodes@.len() + quadrant,
                self.nodes@.subrange(0, old(self).nodes@.len() as int) == old(self).nodes@,
                forall|k: int| 0 <= k < quadrant ==> {
                    let c = old(self).nodes@.len() + k;
                    &&& (#[trigger] children[k]) is Some
                &&& children[k].unwrap() == c
                    &&& self.nodes@[c].bounds == sub_rect(bounds, k)
                    &&& self.nodes@[c].mass == 0
                    &&& self.nodes@[c].moment == (Point { x: 0, y: 0 })
                    &&& self.nodes@[c].kind is Empty
                },
                nodes_ok(self.nodes@),
                self.root == old(self).root,
                self.total_mass == old(self).total_mass,
            decreases 4 - quadrant,
        {
            let child_bounds = bounds.sub_quadrant(quadrant);
            let child_index = self.nodes.len();
            let ghost before = self.nodes@;
            let ghost prev = children;
            self.nodes.push(Node::empty(child_bounds));
            children[quadrant] = Some(child_index);
            assert(forall|k: int| 0 <= k < quadrant ==> children[k] == prev[k]);
            assert(forall|j: int| 0 <= j < before.len() ==> #[trigger] self.nodes@[j] == before[j]);
            assert(self.nodes@.subrange(0, old(self).nodes@.len() as int)
                =~= before.subrange(0, old(self).nodes@.len() as int));
            assert forall|i: int| 0 <= i < self.nodes@.len() implies #[trigger] node_ok(self.nodes@, i) by {
                if i < before.len() {
                    assert(node_ok(before, i));
                    assert(self.nodes@[i] == before[i]);
                    match self.nodes@[i].kind {
                        NodeKind::Internal { children: ch } => {
                            assert(child_ok(before, i, ch[0], 0));
                            assert(child_ok(before, i, ch[1], 1));
                            assert(child_ok(before, i, ch[2], 2));
                            assert(child_ok(before, i, ch[3], 3));
                        },
                        _ => {},
                    }
                }
            }
            quadrant += 1;
        }
        children
    }

    /// Inserts a body below node `index`, splitting a leaf where the body
    /// does not merge with it, and adds the body's mass and moment to every
    /// node on the way down.
    #[verifier::rlimit(60)]
    fn insert_recursive(&mut self, index: usize, entity: u64, position: Point, mass: u64)
        requires
            nodes_ok(old(self).nodes@),
            masses_within(old(self).nodes@, old(self).total_mass as int),
            old(self).total_mass + mass <= MASS_LIMIT,
            index < old(self).nodes@.len(),
            position.in_range(),
        ensures
            insert_effect(old(self).nodes@, final(self).nodes@, index as int, entity, position, mass),
            landing_effect(old(self).nodes@, final(self).nodes@, index as int, entity, position, mass),
            path_effect(old(self).nodes@, final(self).nodes@, index as int, position, mass),
            nodes_ok(final(self).nodes@),
            masses_within(final(self).nodes@, old(self).total_mass + mass),
            forall|j: int| 0 <= j < index ==> final(self).nodes@[j] == old(self).nodes@[j],
            !(old(self).nodes@[index as int].kind is Internal) ==> forall|j: int|
                0 <= j < old(self).nodes@.len() && j != index ==> final(self).nodes@[j] == old(self).nodes@[j],
            aggregated(old(self).nodes@) ==> insert_keeps_sums(old(self).nodes@, final(self).nodes@, index as int, mass, position)
                && pointers_kept(old(self).nodes@, final(self).nodes@),
            final(self).root == old(self).root,
            final(self).total_mass == old(self).total_mass,
        decreases old(self).nodes@[index as int].bounds.size.x,
    {
        let node = self.nodes[index];
        let ghost before = self.nodes@;
        let ghost total = self.total_mass as int;
        proof {
            assert(node_ok(before, index as int));
            assert(node.mass <= total);
            lemma_moment_step(node.mass, node.moment, mass, position);
        }
        let new_mass = node.mass + mass;
        let new_moment = Point {
            x: node.moment.x + (mass as i64) * position.x,
            y: node.moment.y + (mass as i64) * position.y,
        };
        match node.kind {
            NodeKind::Empty => {
                let leaf = Node {
                    bounds: node.bounds,
                    mass: new_mass,
                    moment: new_moment,
                    kind: NodeKind::Leaf { entity, position },
                };
                self.nodes[index] = leaf;
                proof {
                    assert(self.nodes@ == before.update(index as int, leaf));
                    lemma_update_keeps_ok(before, index as int, leaf);
                    lemma_path_stops(before, self.nodes@, index as int, position, mass);
                    if aggregated(before) {
                        lemma_sums_leaf_update(before, index as int, leaf, mass, position);
                    }
                }
            },
            NodeKind::Leaf { entity: existing_entity, position: existing_position } => {
                let dx = existing_position.x - position.x;
                let dy = existing_position.y - position.y;
                proof {
                    assert(existing_position.in_range());
                    assert(0 <= dx * dx <= 0x4_0000_0000_0000) by (nonlinear_arith)
                        requires -0x200_0000 <= dx <= 0x200_0000;
                    assert(0 <= dy * dy <= 0x4_0000_0000_0000) by (nonlinear_arith)
                        requires -0x200_0000 <= dy <= 0x200_0000;
                }
                if dx * dx + dy * dy < MERGE_DIST_SQ || !(node.bounds.size.x >= 8 && node.bounds.size.x % 8 == 0) {
                    // One point, or a square too small to halve (which, for bodies
                    // inside the root square, holds one point only): fold the mass in.
                    let merged = Node {
                        bounds: node.bounds,
                        mass: new_mass,
                        moment: new_moment,
                        kind: node.kind,
                    };
                    self.nodes[index] = merged;
                    proof {
                        assert(self.nodes@ == before.update(index as int, merged));
                        lemma_update_keeps_ok(before, index as int, merged);
                        lemma_path_stops(before, self.nodes@, index as int, position, mass);
                        if aggregated(before) {
                            lemma_sums_leaf_update(before, index as int, merged, mass, position);
                        }
                    }
                    return;
                }
                // Split: move the resident leaf into its quadrant, then
                // insert the new body into its own.
                let children = self.subdivide(index);
                let ghost split = self.nodes@;
                let existing_quadrant = node.bounds.get_quadrant_index(existing_position);
                let new_quadrant = node.bounds.get_quadrant_index(position);
                assert(children[existing_quadrant as int] is Some);
                assert(children[new_quadrant as int] is Some);
                let existing_child = children[existing_quadrant].unwrap();
                let moved = Node {
                    bounds: self.nodes[existing_child].bounds,
                    mass: node.mass,
                    moment: node.moment,
                    kind: node.kind,
                };
                self.nodes[existing_child] = moved;
                proof {
                    assert(self.nodes@ == split.update(existing_child as int, moved));
                    assert(node_ok(self.nodes@, existing_child as int));
                    lemma_update_keeps_ok(split, existing_child as int, moved);
                    assert forall|j: int| 0 <= j < self.nodes@.len() implies #[trigger] self.nodes@[j].mass <= total by {
                        if j < before.len() {
                            assert(split[j] == before[j]);
                        } else if j != existing_child {
                            assert(children[j - before.len()] is Some);
                        }
                    }
                    assert(masses_within(self.nodes@, total));
                }
                let ghost moved_nodes = self.nodes@;
                let ghost len = before.len() as int;
                let moved_len = self.nodes.len();
                proof {
                    assert forall|j: int| 0 <= j < len implies #[trigger] moved_nodes[j] == before[j] by {
                        assert(split[j] == before[j]);
                    }
                    assert forall|k: int| 0 <= k < 4 && k != existing_quadrant implies {
                        &&& (#[trigger] moved_nodes[len + k]).kind is Empty
                        &&& moved_nodes[len + k].mass == 0
                        &&& moved_nodes[len + k].moment == (Point { x: 0, y: 0 })
                    } by {
                        assert(children[k] is Some);
                    }
                    if aggregated(before) {
                        lemma_split_children_aggregated(before, moved_nodes, index as int, existing_quadrant as int);
                    }
                }
                let new_child = children[new_quadrant].unwrap();
                self.insert_recursive(new_child, entity, position, mass);
                let ghost grown = self.nodes@;
                let internal = Node {
                    bounds: node.bounds,
                    mass: new_mass,
                    moment: new_moment,
                    kind: NodeKind::Internal { children },
                };
                proof {
                    assert(grown[index as int] == before[index as int]);
                    let after = grown.update(index as int, internal);
                    assert forall|k: int| 0 <= k < 4 implies child_ok(after, index as int, children[k], k) by {
                        let c = before.len() + k;
                        assert(moved_nodes[c].bounds == split[c].bounds);
                        assert(grown[c].bounds == moved_nodes[c].bounds);
                    }
                    assert(node_ok(after, index as int));
                    lemma_update_keeps_ok(grown, index as int, internal);
                }
                proof {
                    let sb = moved_nodes;
                    let cn = new_child as int;
                    assert(moved_len == sb.len());
                    assert(masses_within(sb, total));
                    assert(sb[cn].mass <= total);
                    assert(node_ok(sb, cn));
                    lemma_moment_step(sb[cn].mass, sb[cn].moment, mass, position);
                    if aggregated(before) {
                        lemma_sums_split(
                            before,
                            sb,
                            grown,
                            index as int,
                            existing_quadrant as int,
                            new_quadrant as int,
                            internal,
                            mass,
                            position,
                        );
                    }
                }
                self.nodes[index] = internal;
                proof {
                    assert forall|j: int| 0 <= j < before.len() implies (#[trigger] self.nodes@[j]).bounds == before[j].bounds by {
                        assert(split[j] == before[j]);
                        assert(moved_nodes[j] == split[j]);
                    }
                    assert forall|j: int| 0 <= j < before.len() && j != index implies self.nodes@[j] == before[j] by {
                        assert(split[j] == before[j]);
                        assert(moved_nodes[j] == split[j]);
                        assert(grown[j] == moved_nodes[j]);
                    }
                    lemma_path_stops(before, self.nodes@, index as int, position, mass);
                }
            },
            NodeKind::Internal { children } => {
                let quadrant = node.bounds.get_quadrant_index(position);
                match children[quadrant] {
                    Some(child) => {
                        assert(child_ok(before, index as int, children[quadrant as int], quadrant as int));
                        self.insert_recursive(child, entity, position, mass);
                        proof {
                            assert(slot_is(child_at(before, index as int, quadrant as int), child as int));
                            assert(is_parent(before, index as int, child as int));
                        }
                    },
                    None => {
                        proof {
                            if aggregated(before) {
                                assert(aggregated_at(before, index as int));
                                assert(child_at(before, index as int, quadrant as int) is Some);
                            }
                        }
                    },
                }
                let ghost grown = self.nodes@;
                let updated = Node {
                    bounds: node.bounds,
                    mass: new_mass,
                    moment: new_moment,
                    kind: node.kind,
                };
                proof {
                    assert(grown[index as int] == before[index as int]);
                    let after = grown.update(index as int, updated);
                    assert forall|k: int| 0 <= k < 4 implies child_ok(after, index as int, children[k], k) by {
                        assert(child_ok(before, index as int, children[k], k));
                        match children[k] {
                            Some(c) => { assert(grown[c as int].bounds == before[c as int].bounds); },
                            None => {},
                        }
                    }
                    assert(node_ok(after, index as int));
                    lemma_update_keeps_ok(grown, index as int, updated);
                }
                proof {
                    if aggregated(before) {
                        match children[quadrant as int] {
                            Some(child) => {
                                lemma_sums_internal_update(
                                    before,
                                    grown,
                                    index as int,
                                    child as int,
                                    updated,
                                    mass,
                                    position,
                                );
                            },
                            None => {},
                        }
                    }
                }
                self.nodes[index] = updated;
                proof {
                    match children[quadrant as int] {
                        Some(child) => {
                            lemma_path_descends(
                                before,
                                grown,
                                self.nodes@,
                                index as int,
                                child,
                                updated,
                                position,
                                mass,
                            );
                        },
                        None => {
                            assert(grown == before);
                            lemma_path_stops(before, self.nodes@, index as int, position, mass);
                        },
                    }
                }
            },
        }
    }
    /// Inserts a body into the index; does nothing while there is no root.
    pub fn insert(&mut self, entity: u64, position: Point, mass: u64)
        requires
            old(self).well_formed(),
            position.in_range(),
            old(self).total_mass + mass <= MASS_LIMIT,
        ensures
            final(self).well_formed(),
            old(self).consistent() ==> final(self).consistent(),
            final(self).root == old(self).root,
            match old(self).root {
                None => final(self).nodes@ == old(self).nodes@ && final(self).total_mass
                    == old(self).total_mass,
                Some(r) => final(self).total_mass == old(self).total_mass + mass && insert_effect(
                    old(self).nodes@,
                    final(self).nodes@,
                    r as int,
                    entity,
                    position,
                    mass,
                ) && landing_effect(old(self).nodes@, final(self).nodes@, r as int, entity, position, mass)
                    && path_effect(old(self).nodes@, final(self).nodes@, r as int, position, mass),
            },
    {
        let root_index = match self.root {
            Some(index) => index,
            None => return ,
        };
        let ghost before = self.nodes@;
        self.insert_recursive(root_index, entity, position, mass);
        self.total_mass = self.total_mass + mass;
        proof {
            if aggregated(before) && root_index == 0 {
                let after = self.nodes@;
                assert forall|j: int| 0 <= j < after.len() implies #[trigger] aggregated_at(after, j) by {
                    assert(settled(before, after, 0, mass, position, j));
                    if j < before.len() {
                        lemma_not_own_parent(before, j, 0);
                    }
                }
            }
        }
    }
}

} // verus!
