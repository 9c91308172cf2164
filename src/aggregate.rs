//! Aggregation: the arena is a forest whose every node holds the sums of
//! the bodies below it, and why insertion keeps it so.
use vstd::prelude::*;
use crate::region::Point;
use crate::quadtree::{Node, NodeKind, child_ok, node_ok, nodes_ok};

verus! {

/// Child slot `k` of node `j`; `None` unless `j` is internal.
pub open spec fn child_at(nodes: Seq<Node>, j: int, k: int) -> Option<usize> {
    match nodes[j].kind {
        NodeKind::Internal { children } => children[k],
        _ => None,
    }
}

pub open spec fn slot_is(s: Option<usize>, c: int) -> bool {
    match s {
        Some(x) => x == c,
        None => false,
    }
}

/// Whether a child slot of node `j` holds node `c`.
pub open spec fn is_parent(nodes: Seq<Node>, j: int, c: int) -> bool {
    ||| slot_is(child_at(nodes, j, 0), c)
    ||| slot_is(child_at(nodes, j, 1), c)
    ||| slot_is(child_at(nodes, j, 2), c)
    ||| slot_is(child_at(nodes, j, 3), c)
}

/// No node sits in two child slots: the arena is a forest.
pub open spec fn unique_parents(nodes: Seq<Node>) -> bool {
    forall|j1: int, k1: int, j2: int, k2: int|
        0 <= j1 < nodes.len() && 0 <= j2 < nodes.len() && 0 <= k1 < 4 && 0 <= k2 < 4
            && (#[trigger] child_at(nodes, j1, k1)) is Some
            && #[trigger] child_at(nodes, j2, k2) == child_at(nodes, j1, k1)
            ==> j1 == j2 && k1 == k2
}

pub open spec fn slot_mass(nodes: Seq<Node>, s: Option<usize>) -> int {
    match s {
        Some(c) => nodes[c as int].mass as int,
        None => 0,
    }
}

pub open spec fn slot_mx(nodes: Seq<Node>, s: Option<usize>) -> int {
    match s {
        Some(c) => nodes[c as int].moment.x as int,
        None => 0,
    }
}

pub open spec fn slot_my(nodes: Seq<Node>, s: Option<usize>) -> int {
    match s {
        Some(c) => nodes[c as int].moment.y as int,
        None => 0,
    }
}

/// Total mass of the children of node `j`.
pub open spec fn children_mass(nodes: Seq<Node>, j: int) -> int {
    slot_mass(nodes, child_at(nodes, j, 0)) + slot_mass(nodes, child_at(nodes, j, 1))
        + slot_mass(nodes, child_at(nodes, j, 2)) + slot_mass(nodes, child_at(nodes, j, 3))
}

/// Total x moment of the children of node `j`.
pub open spec fn children_mx(nodes: Seq<Node>, j: int) -> int {
    slot_mx(nodes, child_at(nodes, j, 0)) + slot_mx(nodes, child_at(nodes, j, 1))
        + slot_mx(nodes, child_at(nodes, j, 2)) + slot_mx(nodes, child_at(nodes, j, 3))
}

/// Total y moment of the children of node `j`.
pub open spec fn children_my(nodes: Seq<Node>, j: int) -> int {
    slot_my(nodes, child_at(nodes, j, 0)) + slot_my(nodes, child_at(nodes, j, 1))
        + slot_my(nodes, child_at(nodes, j, 2)) + slot_my(nodes, child_at(nodes, j, 3))
}

pub open spec fn all_children(nodes: Seq<Node>, j: int) -> bool {
    &&& child_at(nodes, j, 0) is Some
    &&& child_at(nodes, j, 1) is Some
    &&& child_at(nodes, j, 2) is Some
    &&& child_at(nodes, j, 3) is Some
}

/// An internal node that lacks exactly `m` at `p` from its children's sums.
pub open spec fn short_by(nodes: Seq<Node>, j: int, m: u64, p: Point) -> bool {
    &&& nodes[j].kind is Internal
    &&& all_children(nodes, j)
    &&& nodes[j].mass + m == children_mass(nodes, j)
    &&& nodes[j].moment.x + m * p.x == children_mx(nodes, j)
    &&& nodes[j].moment.y + m * p.y == children_my(nodes, j)
}

/// Node `j` holds what its bodies hold: nothing when empty, the sums of its
/// four children when internal.
pub open spec fn aggregated_at(nodes: Seq<Node>, j: int) -> bool {
    match nodes[j].kind {
        NodeKind::Empty => nodes[j].mass == 0 && nodes[j].moment == (Point { x: 0, y: 0 }),
        NodeKind::Leaf { .. } => true,
        NodeKind::Internal { .. } => short_by(nodes, j, 0, Point { x: 0, y: 0 }),
    }
}

/// The arena is a forest in which every node aggregates its children.
pub open spec fn aggregated(nodes: Seq<Node>) -> bool {
    &&& unique_parents(nodes)
    &&& forall|j: int| 0 <= j < nodes.len() ==> #[trigger] aggregated_at(nodes, j)
}

/// Replacing node `i` without touching child slots keeps the forest, and
/// moves the sums of `i`'s parent, and only its, by the change at `i`.
pub(crate) proof fn lemma_update_sums(nodes: Seq<Node>, i: int, n: Node)
    requires
        nodes_ok(nodes),
        unique_parents(nodes),
        0 <= i < nodes.len(),
        forall|k: int| 0 <= k < 4 ==> #[trigger] child_at(nodes.update(i, n), i, k) == child_at(nodes, i, k),
    ensures
        unique_parents(nodes.update(i, n)),
        forall|j: int, k: int| 0 <= j < nodes.len() && 0 <= k < 4 ==> #[trigger] child_at(nodes.update(i, n), j, k) == child_at(nodes, j, k),
        forall|j: int| 0 <= j < nodes.len() ==> #[trigger] children_mass(nodes.update(i, n), j)
            == children_mass(nodes, j) + (if is_parent(nodes, j, i) { n.mass - nodes[i].mass } else { 0 }),
        forall|j: int| 0 <= j < nodes.len() ==> #[trigger] children_mx(nodes.update(i, n), j)
            == children_mx(nodes, j) + (if is_parent(nodes, j, i) { n.moment.x - nodes[i].moment.x } else { 0 }),
        forall|j: int| 0 <= j < nodes.len() ==> #[trigger] children_my(nodes.update(i, n), j)
            == children_my(nodes, j) + (if is_parent(nodes, j, i) { n.moment.y - nodes[i].moment.y } else { 0 }),
{
    let after = nodes.update(i, n);
    assert forall|j: int, k: int| 0 <= j < nodes.len() && 0 <= k < 4 implies #[trigger] child_at(after, j, k) == child_at(nodes, j, k) by {
        if j != i {
            assert(after[j] == nodes[j]);
        }
    }
    assert forall|j: int| 0 <= j < nodes.len() implies {
        &&& #[trigger] children_mass(after, j) == children_mass(nodes, j) + (if is_parent(nodes, j, i) { n.mass - nodes[i].mass } else { 0 })
        &&& children_mx(after, j) == children_mx(nodes, j) + (if is_parent(nodes, j, i) { n.moment.x - nodes[i].moment.x } else { 0 })
        &&& children_my(after, j) == children_my(nodes, j) + (if is_parent(nodes, j, i) { n.moment.y - nodes[i].moment.y } else { 0 })
    } by {
        assert(node_ok(nodes, j));
        let c0 = child_at(nodes, j, 0);
        let c1 = child_at(nodes, j, 1);
        let c2 = child_at(nodes, j, 2);
        let c3 = child_at(nodes, j, 3);
        assert(child_at(after, j, 0) == c0);
        assert(child_at(after, j, 1) == c1);
        assert(child_at(after, j, 2) == c2);
        assert(child_at(after, j, 3) == c3);
        match nodes[j].kind {
            NodeKind::Internal { children } => {
                assert(child_ok(nodes, j, children[0], 0));
                assert(child_ok(nodes, j, children[1], 1));
                assert(child_ok(nodes, j, children[2], 2));
                assert(child_ok(nodes, j, children[3], 3));
            },
            _ => {},
        }
        if slot_is(c0, i) {
            assert(!slot_is(c1, i) && !slot_is(c2, i) && !slot_is(c3, i)) by {
                if slot_is(c1, i) { assert(child_at(nodes, j, 1) == child_at(nodes, j, 0)); }
                if slot_is(c2, i) { assert(child_at(nodes, j, 2) == child_at(nodes, j, 0)); }
                if slot_is(c3, i) { assert(child_at(nodes, j, 3) == child_at(nodes, j, 0)); }
            }
        }
        if slot_is(c1, i) {
            assert(!slot_is(c2, i) && !slot_is(c3, i)) by {
                if slot_is(c2, i) { assert(child_at(nodes, j, 2) == child_at(nodes, j, 1)); }
                if slot_is(c3, i) { assert(child_at(nodes, j, 3) == child_at(nodes, j, 1)); }
            }
        }
        if slot_is(c2, i) {
            assert(!slot_is(c3, i)) by {
                if slot_is(c3, i) { assert(child_at(nodes, j, 3) == child_at(nodes, j, 2)); }
            }
        }
    }
    assert forall|j: int| 0 <= j < nodes.len() implies #[trigger] children_mx(after, j)
        == children_mx(nodes, j) + (if is_parent(nodes, j, i) { n.moment.x - nodes[i].moment.x } else { 0 }) by {
        assert(children_mass(after, j) == children_mass(nodes, j) + (if is_parent(nodes, j, i) { n.mass - nodes[i].mass } else { 0 }));
    }
    assert forall|j: int| 0 <= j < nodes.len() implies #[trigger] children_my(after, j)
        == children_my(nodes, j) + (if is_parent(nodes, j, i) { n.moment.y - nodes[i].moment.y } else { 0 }) by {
        assert(children_mass(after, j) == children_mass(nodes, j) + (if is_parent(nodes, j, i) { n.mass - nodes[i].mass } else { 0 }));
    }
    assert forall|j1: int, k1: int, j2: int, k2: int|
        0 <= j1 < after.len() && 0 <= j2 < after.len() && 0 <= k1 < 4 && 0 <= k2 < 4
            && (#[trigger] child_at(after, j1, k1)) is Some
            && #[trigger] child_at(after, j2, k2) == child_at(after, j1, k1)
        implies j1 == j2 && k1 == k2 by {
        assert(child_at(after, j1, k1) == child_at(nodes, j1, k1));
        assert(child_at(after, j2, k2) == child_at(nodes, j2, k2));
    }
}

/// Child slots that point into the first `before.len()` nodes were there
/// before: no new node and no new slot points to an old node.
pub open spec fn pointers_kept(before: Seq<Node>, after: Seq<Node>) -> bool {
    &&& forall|j: int, k: int|
        0 <= j < after.len() && 0 <= k < 4 && (#[trigger] child_at(after, j, k)) is Some
            && child_at(after, j, k).unwrap() < before.len()
            ==> j < before.len() && child_at(before, j, k) == child_at(after, j, k)
    &&& forall|j: int, k: int|
        0 <= j < before.len() && 0 <= k < 4 && (#[trigger] child_at(before, j, k)) is Some
            ==> child_at(after, j, k) == child_at(before, j, k)
}

/// Node `j` after an insertion of `m` at `p` below node `i`: the old parent
/// of `i` lacks the new body, as its caller has yet to add it; every other
/// node aggregates.
pub open spec fn settled(before: Seq<Node>, after: Seq<Node>, i: int, m: u64, p: Point, j: int) -> bool {
    if j < before.len() && is_parent(before, j, i) {
        short_by(after, j, m, p)
    } else {
        aggregated_at(after, j)
    }
}

pub open spec fn insert_keeps_sums(before: Seq<Node>, after: Seq<Node>, i: int, m: u64, p: Point) -> bool {
    &&& unique_parents(after)
    &&& forall|j: int| 0 <= j < after.len() ==> #[trigger] settled(before, after, i, m, p, j)
}

/// In a forest a node has one parent at most.
pub(crate) proof fn lemma_one_parent(nodes: Seq<Node>, j1: int, j2: int, c: int)
    requires
        unique_parents(nodes),
        0 <= j1 < nodes.len(),
        0 <= j2 < nodes.len(),
        is_parent(nodes, j1, c),
        is_parent(nodes, j2, c),
    ensures
        j1 == j2,
{
    let k1 = if slot_is(child_at(nodes, j1, 0), c) { 0int } else if slot_is(child_at(nodes, j1, 1), c) { 1int }
        else if slot_is(child_at(nodes, j1, 2), c) { 2int } else { 3int };
    let k2 = if slot_is(child_at(nodes, j2, 0), c) { 0int } else if slot_is(child_at(nodes, j2, 1), c) { 1int }
        else if slot_is(child_at(nodes, j2, 2), c) { 2int } else { 3int };
    assert(slot_is(child_at(nodes, j1, k1), c));
    assert(slot_is(child_at(nodes, j2, k2), c));
    assert(child_at(nodes, j1, k1) == child_at(nodes, j2, k2));
}

/// A node that is not its own parent, by the order of the arena.
pub(crate) proof fn lemma_not_own_parent(nodes: Seq<Node>, j: int, c: int)
    requires
        nodes_ok(nodes),
        0 <= j < nodes.len(),
        c <= j,
    ensures
        !is_parent(nodes, j, c),
{
    assert(node_ok(nodes, j));
    match nodes[j].kind {
        NodeKind::Internal { children } => {
            assert(child_ok(nodes, j, children[0], 0));
            assert(child_ok(nodes, j, children[1], 1));
            assert(child_ok(nodes, j, children[2], 2));
            assert(child_ok(nodes, j, children[3], 3));
        },
        _ => {},
    }
}

/// A leaf-level change at `i` that adds `m` at `p` leaves only `i`'s parent
/// short.
pub(crate) proof fn lemma_sums_leaf_update(before: Seq<Node>, i: int, n: Node, m: u64, p: Point)
    requires
        nodes_ok(before),
        aggregated(before),
        0 <= i < before.len(),
        !(before[i].kind is Internal),
        n.kind is Leaf,
        n.mass == before[i].mass + m,
        n.moment.x == before[i].moment.x + m * p.x,
        n.moment.y == before[i].moment.y + m * p.y,
    ensures
        insert_keeps_sums(before, before.update(i, n), i, m, p),
        pointers_kept(before, before.update(i, n)),
{
    let after = before.update(i, n);
    lemma_update_sums(before, i, n);
    assert forall|j: int| 0 <= j < after.len() implies #[trigger] settled(before, after, i, m, p, j) by {
        assert(aggregated_at(before, j));
        if j == i {
            lemma_not_own_parent(before, i, i);
        } else {
            assert(after[j] == before[j]);
            assert(children_mass(after, j) == children_mass(before, j) + (if is_parent(before, j, i) { n.mass - before[i].mass } else { 0 }));
            assert(children_mx(after, j) == children_mx(before, j) + (if is_parent(before, j, i) { n.moment.x - before[i].moment.x } else { 0 }));
            assert(children_my(after, j) == children_my(before, j) + (if is_parent(before, j, i) { n.moment.y - before[i].moment.y } else { 0 }));
            assert(child_at(after, j, 0) == child_at(before, j, 0));
            assert(child_at(after, j, 1) == child_at(before, j, 1));
            assert(child_at(after, j, 2) == child_at(before, j, 2));
            assert(child_at(after, j, 3) == child_at(before, j, 3));
        }
    }
}

/// Adding `m` at `p` to internal node `i` once its child `c` took the body
/// leaves only `i`'s own parent short.
pub(crate) proof fn lemma_sums_internal_update(before: Seq<Node>, s1: Seq<Node>, i: int, c: int, n: Node, m: u64, p: Point)
    requires
        nodes_ok(before),
        nodes_ok(s1),
        aggregated(before),
        0 <= i < before.len(),
        s1.len() >= before.len(),
        s1[i] == before[i],
        is_parent(before, i, c),
        insert_keeps_sums(before, s1, c, m, p),
        pointers_kept(before, s1),
        n.kind == before[i].kind,
        n.mass == before[i].mass + m,
        n.moment.x == before[i].moment.x + m * p.x,
        n.moment.y == before[i].moment.y + m * p.y,
    ensures
        insert_keeps_sums(before, s1.update(i, n), i, m, p),
        pointers_kept(before, s1.update(i, n)),
{
    let after = s1.update(i, n);
    assert forall|k: int| 0 <= k < 4 implies #[trigger] child_at(s1.update(i, n), i, k) == child_at(s1, i, k) by {}
    lemma_update_sums(s1, i, n);
    assert forall|j: int| 0 <= j < after.len() implies #[trigger] settled(before, after, i, m, p, j) by {
        assert(settled(before, s1, c, m, p, j));
        assert(child_at(after, j, 0) == child_at(s1, j, 0));
        assert(child_at(after, j, 1) == child_at(s1, j, 1));
        assert(child_at(after, j, 2) == child_at(s1, j, 2));
        assert(child_at(after, j, 3) == child_at(s1, j, 3));
        if j == i {
            lemma_not_own_parent(s1, i, i);
            assert(short_by(s1, i, m, p));
        } else {
            assert(after[j] == s1[j]);
            if j < before.len() && is_parent(before, j, c) {
                lemma_one_parent(before, i, j, c);
            }
            // Slots that hold `i` are the same before and after.
            assert(is_parent(s1, j, i) == (j < before.len() && is_parent(before, j, i))) by {
                assert forall|k: int| 0 <= k < 4 implies slot_is(#[trigger] child_at(s1, j, k), i) == (j < before.len() && slot_is(child_at(before, j, k), i)) by {
                    if j < before.len() && slot_is(child_at(before, j, k), i) {
                        assert(child_at(before, j, k) is Some);
                    }
                    if slot_is(child_at(s1, j, k), i) {
                        assert(child_at(s1, j, k) is Some);
                    }
                }
                assert(slot_is(child_at(s1, j, 0), i) == (j < before.len() && slot_is(child_at(before, j, 0), i)));
                assert(slot_is(child_at(s1, j, 1), i) == (j < before.len() && slot_is(child_at(before, j, 1), i)));
                assert(slot_is(child_at(s1, j, 2), i) == (j < before.len() && slot_is(child_at(before, j, 2), i)));
                assert(slot_is(child_at(s1, j, 3), i) == (j < before.len() && slot_is(child_at(before, j, 3), i)));
            }
            assert(children_mass(after, j) == children_mass(s1, j) + (if is_parent(s1, j, i) { n.mass - s1[i].mass } else { 0 }));
            assert(children_mx(after, j) == children_mx(s1, j) + (if is_parent(s1, j, i) { n.moment.x - s1[i].moment.x } else { 0 }));
            assert(children_my(after, j) == children_my(s1, j) + (if is_parent(s1, j, i) { n.moment.y - s1[i].moment.y } else { 0 }));
        }
    }
    assert forall|j: int, k: int|
        0 <= j < after.len() && 0 <= k < 4 && (#[trigger] child_at(after, j, k)) is Some
            && child_at(after, j, k).unwrap() < before.len()
        implies j < before.len() && child_at(before, j, k) == child_at(after, j, k) by {
        assert(child_at(after, j, k) == child_at(s1, j, k));
    }
}

/// Replacing node `i` moves the sums of `i`'s parent, and of no other node
/// but `i`, by the change at `i`.
pub(crate) proof fn lemma_update_sums_others(nodes: Seq<Node>, i: int, n: Node, j: int)
    requires
        nodes_ok(nodes),
        unique_parents(nodes),
        0 <= i < nodes.len(),
        0 <= j < nodes.len(),
        j != i,
    ensures
        child_at(nodes.update(i, n), j, 0) == child_at(nodes, j, 0),
        child_at(nodes.update(i, n), j, 1) == child_at(nodes, j, 1),
        child_at(nodes.update(i, n), j, 2) == child_at(nodes, j, 2),
        child_at(nodes.update(i, n), j, 3) == child_at(nodes, j, 3),
        children_mass(nodes.update(i, n), j)
            == children_mass(nodes, j) + (if is_parent(nodes, j, i) { n.mass - nodes[i].mass } else { 0 }),
        children_mx(nodes.update(i, n), j)
            == children_mx(nodes, j) + (if is_parent(nodes, j, i) { n.moment.x - nodes[i].moment.x } else { 0 }),
        children_my(nodes.update(i, n), j)
            == children_my(nodes, j) + (if is_parent(nodes, j, i) { n.moment.y - nodes[i].moment.y } else { 0 }),
{
    let after = nodes.update(i, n);
    assert(after[j] == nodes[j]);
    assert(node_ok(nodes, j));
    let c0 = child_at(nodes, j, 0);
    let c1 = child_at(nodes, j, 1);
    let c2 = child_at(nodes, j, 2);
    let c3 = child_at(nodes, j, 3);
    match nodes[j].kind {
        NodeKind::Internal { children } => {
            assert(child_ok(nodes, j, children[0], 0));
            assert(child_ok(nodes, j, children[1], 1));
            assert(child_ok(nodes, j, children[2], 2));
            assert(child_ok(nodes, j, children[3], 3));
        },
        _ => {},
    }
    if slot_is(c0, i) {
        assert(!slot_is(c1, i) && !slot_is(c2, i) && !slot_is(c3, i)) by {
            if slot_is(c1, i) { assert(child_at(nodes, j, 1) == child_at(nodes, j, 0)); }
            if slot_is(c2, i) { assert(child_at(nodes, j, 2) == child_at(nodes, j, 0)); }
            if slot_is(c3, i) { assert(child_at(nodes, j, 3) == child_at(nodes, j, 0)); }
        }
    }
    if slot_is(c1, i) {
        assert(!slot_is(c2, i) && !slot_is(c3, i)) by {
            if slot_is(c2, i) { assert(child_at(nodes, j, 2) == child_at(nodes, j, 1)); }
            if slot_is(c3, i) { assert(child_at(nodes, j, 3) == child_at(nodes, j, 1)); }
        }
    }
    if slot_is(c2, i) {
        assert(!slot_is(c3, i)) by {
            if slot_is(c3, i) { assert(child_at(nodes, j, 3) == child_at(nodes, j, 2)); }
        }
    }
}

/// Four fresh children appended to a forest, one of them holding the
/// split leaf, leave it a forest that aggregates.
pub(crate) proof fn lemma_split_children_aggregated(before: Seq<Node>, sb: Seq<Node>, i: int, qe: int)
    requires
        nodes_ok(before),
        aggregated(before),
        0 <= i < before.len(),
        0 <= qe < 4,
        before[i].kind is Leaf,
        sb.len() == before.len() + 4,
        forall|j: int| 0 <= j < before.len() ==> #[trigger] sb[j] == before[j],
        forall|k: int| 0 <= k < 4 && k != qe ==> {
            &&& (#[trigger] sb[before.len() + k]).kind is Empty
            &&& sb[before.len() + k].mass == 0
            &&& sb[before.len() + k].moment == (Point { x: 0, y: 0 })
        },
        sb[before.len() + qe].kind is Leaf,
    ensures
        aggregated(sb),
        forall|j: int, k: int| 0 <= j < sb.len() && 0 <= k < 4 ==> #[trigger] child_at(sb, j, k)
            == if j < before.len() { child_at(before, j, k) } else { None },
{
    let len = before.len() as int;
    assert forall|j: int, k: int| 0 <= j < sb.len() && 0 <= k < 4 implies #[trigger] child_at(sb, j, k)
        == if j < len { child_at(before, j, k) } else { None } by {
        if j >= len {
            let q = j - len;
            assert(sb[len + q].kind is Empty || sb[len + q].kind is Leaf);
        }
    }
    assert forall|j: int| 0 <= j < sb.len() implies #[trigger] aggregated_at(sb, j) by {
        if j < len {
            assert(aggregated_at(before, j));
            assert(node_ok(before, j));
            match before[j].kind {
                NodeKind::Internal { children } => {
                    assert(child_ok(before, j, children[0], 0));
                    assert(child_ok(before, j, children[1], 1));
                    assert(child_ok(before, j, children[2], 2));
                    assert(child_ok(before, j, children[3], 3));
                    assert(child_at(sb, j, 0) == child_at(before, j, 0));
                    assert(child_at(sb, j, 1) == child_at(before, j, 1));
                    assert(child_at(sb, j, 2) == child_at(before, j, 2));
                    assert(child_at(sb, j, 3) == child_at(before, j, 3));
                },
                _ => {},
            }
        } else {
            let q = j - len;
            if q != qe {
                assert(sb[len + q].kind is Empty);
            }
        }
    }
    assert forall|j1: int, k1: int, j2: int, k2: int|
        0 <= j1 < sb.len() && 0 <= j2 < sb.len() && 0 <= k1 < 4 && 0 <= k2 < 4
            && (#[trigger] child_at(sb, j1, k1)) is Some
            && #[trigger] child_at(sb, j2, k2) == child_at(sb, j1, k1)
        implies j1 == j2 && k1 == k2 by {
        assert(child_at(before, j1, k1) == child_at(sb, j1, k1));
        assert(child_at(before, j2, k2) == child_at(sb, j2, k2));
    }
}

/// Turning the split leaf `i` into an internal node over its four fresh
/// children, after one of them took the new body, leaves only `i`'s
/// parent short.
pub(crate) proof fn lemma_sums_split(
    before: Seq<Node>,
    sb: Seq<Node>,
    sc: Seq<Node>,
    i: int,
    qe: int,
    qn: int,
    n: Node,
    m: u64,
    p: Point,
)
    requires
        nodes_ok(before),
        aggregated(before),
        nodes_ok(sb),
        aggregated(sb),
        nodes_ok(sc),
        0 <= i < before.len(),
        0 <= qe < 4,
        0 <= qn < 4,
        before[i].kind is Leaf,
        sb.len() == before.len() + 4,
        sb.len() <= usize::MAX,
        forall|j: int| 0 <= j < before.len() ==> #[trigger] sb[j] == before[j],
        forall|j: int, k: int| 0 <= j < sb.len() && 0 <= k < 4 ==> #[trigger] child_at(sb, j, k)
            == if j < before.len() { child_at(before, j, k) } else { None },
        forall|k: int| 0 <= k < 4 && k != qe ==> {
            &&& (#[trigger] sb[before.len() + k]).mass == 0
            &&& sb[before.len() + k].moment == (Point { x: 0, y: 0 })
        },
        sb[before.len() + qe].mass == before[i].mass,
        sb[before.len() + qe].moment == before[i].moment,
        sc.len() >= sb.len(),
        insert_keeps_sums(sb, sc, before.len() + qn, m, p),
        pointers_kept(sb, sc),
        forall|j: int| 0 <= j < sb.len() && j != before.len() + qn ==> #[trigger] sc[j] == sb[j],
        sc[before.len() + qn].mass == sb[before.len() + qn].mass + m,
        sc[before.len() + qn].moment.x == sb[before.len() + qn].moment.x + m * p.x,
        sc[before.len() + qn].moment.y == sb[before.len() + qn].moment.y + m * p.y,
        match n.kind {
            NodeKind::Internal { children } => forall|k: int| 0 <= k < 4 ==> (#[trigger] children[k]) is Some
                && children[k].unwrap() == before.len() + k,
            _ => false,
        },
        n.mass == before[i].mass + m,
        n.moment.x == before[i].moment.x + m * p.x,
        n.moment.y == before[i].moment.y + m * p.y,
    ensures
        insert_keeps_sums(before, sc.update(i, n), i, m, p),
        pointers_kept(before, sc.update(i, n)),
{
    let len = before.len() as int;
    let after = sc.update(i, n);
    let cn = len + qn;
    assert(sc[i] == before[i]);
    // Slots of the updated arena.
    assert forall|j: int, k: int| 0 <= j < after.len() && 0 <= k < 4 implies #[trigger] child_at(after, j, k)
        == if j == i { Some((len + k) as usize) } else { child_at(sc, j, k) } by {
        if j != i {
            assert(after[j] == sc[j]);
        }
    }
    // No slot of `sc` points to the fresh children or to `i`, but the old ones.
    assert forall|j: int, k: int| 0 <= j < sc.len() && 0 <= k < 4 && (#[trigger] child_at(sc, j, k)) is Some
        && child_at(sc, j, k).unwrap() < sb.len() implies j < len && child_at(before, j, k) == child_at(sc, j, k)
        && child_at(sc, j, k).unwrap() < len by {
        assert(child_at(sb, j, k) == child_at(sc, j, k));
        assert(node_ok(before, j));
        match before[j].kind {
            NodeKind::Internal { children } => {
                assert(child_ok(before, j, children[0], 0));
                assert(child_ok(before, j, children[1], 1));
                assert(child_ok(before, j, children[2], 2));
                assert(child_ok(before, j, children[3], 3));
            },
            _ => {},
        }
    }
    assert forall|j1: int, k1: int, j2: int, k2: int|
        0 <= j1 < after.len() && 0 <= j2 < after.len() && 0 <= k1 < 4 && 0 <= k2 < 4
            && (#[trigger] child_at(after, j1, k1)) is Some
            && #[trigger] child_at(after, j2, k2) == child_at(after, j1, k1)
        implies j1 == j2 && k1 == k2 by {
        if j1 == i && j2 != i {
            assert(child_at(sc, j2, k2) is Some);
        } else if j2 == i && j1 != i {
            assert(child_at(sc, j1, k1) is Some);
        } else if j1 != i && j2 != i {
            assert(child_at(sc, j1, k1) == child_at(after, j1, k1));
            assert(child_at(sc, j2, k2) == child_at(after, j2, k2));
        }
    }
    assert forall|j: int| 0 <= j < after.len() implies #[trigger] settled(before, after, i, m, p, j) by {
        assert(settled(sb, sc, cn, m, p, j));
        assert(!(j < sb.len() && is_parent(sb, j, cn))) by {
            if j < sb.len() {
                assert(!slot_is(child_at(sb, j, 0), cn));
                assert(!slot_is(child_at(sb, j, 1), cn));
                assert(!slot_is(child_at(sb, j, 2), cn));
                assert(!slot_is(child_at(sb, j, 3), cn));
            }
        }
        assert(aggregated_at(sc, j));
        if j == i {
            lemma_not_own_parent(before, i, i);
            assert(child_at(after, i, 0) == Some(len as usize));
            assert(child_at(after, i, 1) == Some((len + 1) as usize));
            assert(child_at(after, i, 2) == Some((len + 2) as usize));
            assert(child_at(after, i, 3) == Some((len + 3) as usize));
            assert(after[len] == sc[len]);
            assert(after[len + 1] == sc[len + 1]);
            assert(after[len + 2] == sc[len + 2]);
            assert(after[len + 3] == sc[len + 3]);
            assert(sb[len + 0] == sb[len]);
            if qn != 0 { assert(sc[len + 0] == sb[len + 0]); }
            if qn != 1 { assert(sc[len + 1] == sb[len + 1]); }
            if qn != 2 { assert(sc[len + 2] == sb[len + 2]); }
            if qn != 3 { assert(sc[len + 3] == sb[len + 3]); }
            if qe != 0 { assert(sb[len + 0].mass == 0); }
            if qe != 1 { assert(sb[len + 1].mass == 0); }
            if qe != 2 { assert(sb[len + 2].mass == 0); }
            if qe != 3 { assert(sb[len + 3].mass == 0); }
        } else {
            lemma_update_sums_others(sc, i, n, j);
            assert(after[j] == sc[j]);
            assert(is_parent(sc, j, i) == (j < len && is_parent(before, j, i))) by {
                assert forall|k: int| 0 <= k < 4 implies slot_is(#[trigger] child_at(sc, j, k), i)
                    == (j < len && slot_is(child_at(before, j, k), i)) by {
                    if j < len && slot_is(child_at(before, j, k), i) {
                        assert(child_at(sb, j, k) == child_at(before, j, k));
                        assert(child_at(sb, j, k) is Some);
                    }
                    if slot_is(child_at(sc, j, k), i) {
                        assert(child_at(sc, j, k) is Some);
                    }
                }
                assert(slot_is(child_at(sc, j, 0), i) == (j < len && slot_is(child_at(before, j, 0), i)));
                assert(slot_is(child_at(sc, j, 1), i) == (j < len && slot_is(child_at(before, j, 1), i)));
                assert(slot_is(child_at(sc, j, 2), i) == (j < len && slot_is(child_at(before, j, 2), i)));
                assert(slot_is(child_at(sc, j, 3), i) == (j < len && slot_is(child_at(before, j, 3), i)));
            }
        }
    }
    assert forall|j: int, k: int|
        0 <= j < after.len() && 0 <= k < 4 && (#[trigger] child_at(after, j, k)) is Some
            && child_at(after, j, k).unwrap() < len
        implies j < len && child_at(before, j, k) == child_at(after, j, k) by {
        if j != i {
            assert(child_at(sc, j, k) == child_at(after, j, k));
        }
    }
    assert forall|j: int, k: int|
        0 <= j < len && 0 <= k < 4 && (#[trigger] child_at(before, j, k)) is Some
        implies child_at(after, j, k) == child_at(before, j, k) by {
        assert(child_at(sb, j, k) == child_at(before, j, k));
        assert(j != i);
        assert(child_at(after, j, k) == child_at(sc, j, k));
    }
}

/// Sum of `f` over the leaves below node `i`.
pub open spec fn leaf_sum(nodes: Seq<Node>, i: int, f: spec_fn(Node) -> int) -> int
    decreases nodes.len() - i,
{
    if !(0 <= i < nodes.len()) {
        0
    } else {
        match nodes[i].kind {
            NodeKind::Empty => 0,
            NodeKind::Leaf { .. } => f(nodes[i]),
            NodeKind::Internal { children } => {
                let s0 = match children[0] {
                    Some(c) => if i < c < nodes.len() { leaf_sum(nodes, c as int, f) } else { 0 },
                    None => 0,
                };
                let s1 = match children[1] {
                    Some(c) => if i < c < nodes.len() { leaf_sum(nodes, c as int, f) } else { 0 },
                    None => 0,
                };
                let s2 = match children[2] {
                    Some(c) => if i < c < nodes.len() { leaf_sum(nodes, c as int, f) } else { 0 },
                    None => 0,
                };
                let s3 = match children[3] {
                    Some(c) => if i < c < nodes.len() { leaf_sum(nodes, c as int, f) } else { 0 },
                    None => 0,
                };
                s0 + s1 + s2 + s3
            },
        }
    }
}

pub open spec fn slot_value(nodes: Seq<Node>, s: Option<usize>, f: spec_fn(Node) -> int) -> int {
    match s {
        Some(c) => f(nodes[c as int]),
        None => 0,
    }
}

/// Node `j` holds the sum of `f` over its children, and nothing when empty.
pub open spec fn sums_at(nodes: Seq<Node>, j: int, f: spec_fn(Node) -> int) -> bool {
    match nodes[j].kind {
        NodeKind::Empty => f(nodes[j]) == 0,
        NodeKind::Leaf { .. } => true,
        NodeKind::Internal { children } => f(nodes[j]) == slot_value(nodes, children[0], f)
            + slot_value(nodes, children[1], f) + slot_value(nodes, children[2], f)
            + slot_value(nodes, children[3], f),
    }
}

pub(crate) proof fn lemma_sums_reach_leaves(nodes: Seq<Node>, i: int, f: spec_fn(Node) -> int)
    requires
        nodes_ok(nodes),
        forall|j: int| 0 <= j < nodes.len() ==> #[trigger] sums_at(nodes, j, f),
        0 <= i < nodes.len(),
    ensures
        f(nodes[i]) == leaf_sum(nodes, i, f),
    decreases nodes.len() - i,
{
    assert(node_ok(nodes, i));
    assert(sums_at(nodes, i, f));
    match nodes[i].kind {
        NodeKind::Internal { children } => {
            assert(child_ok(nodes, i, children[0], 0));
            assert(child_ok(nodes, i, children[1], 1));
            assert(child_ok(nodes, i, children[2], 2));
            assert(child_ok(nodes, i, children[3], 3));
            match children[0] {
                Some(c) => { lemma_sums_reach_leaves(nodes, c as int, f); },
                None => {},
            }
            match children[1] {
                Some(c) => { lemma_sums_reach_leaves(nodes, c as int, f); },
                None => {},
            }
            match children[2] {
                Some(c) => { lemma_sums_reach_leaves(nodes, c as int, f); },
                None => {},
            }
            match children[3] {
                Some(c) => { lemma_sums_reach_leaves(nodes, c as int, f); },
                None => {},
            }
        },
        _ => {},
    }
}

/// In an arena that aggregates, every node holds the total mass of the
/// leaves below it, and their total moment, so its center of mass is
/// their mass-weighted average position.
pub proof fn lemma_node_holds_its_leaves(nodes: Seq<Node>, i: int)
    requires
        nodes_ok(nodes),
        aggregated(nodes),
        0 <= i < nodes.len(),
    ensures
        nodes[i].mass == leaf_sum(nodes, i, |n: Node| n.mass as int),
        nodes[i].moment.x == leaf_sum(nodes, i, |n: Node| n.moment.x as int),
        nodes[i].moment.y == leaf_sum(nodes, i, |n: Node| n.moment.y as int),
{
    let fm = |n: Node| n.mass as int;
    let fx = |n: Node| n.moment.x as int;
    let fy = |n: Node| n.moment.y as int;
    assert forall|j: int| 0 <= j < nodes.len() implies #[trigger] sums_at(nodes, j, fm) && sums_at(nodes, j, fx)
        && sums_at(nodes, j, fy) by {
        assert(aggregated_at(nodes, j));
    }
    assert forall|j: int| 0 <= j < nodes.len() implies #[trigger] sums_at(nodes, j, fx) by {
        assert(sums_at(nodes, j, fm));
    }
    assert forall|j: int| 0 <= j < nodes.len() implies #[trigger] sums_at(nodes, j, fy) by {
        assert(sums_at(nodes, j, fm));
    }
    lemma_sums_reach_leaves(nodes, i, fm);
    lemma_sums_reach_leaves(nodes, i, fx);
    lemma_sums_reach_leaves(nodes, i, fy);
}

} // verus!
