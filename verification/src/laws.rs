use crate::node::{
    lemma_with_slot, slot_leaf_count, slot_lookup, slot_node_count, slot_wf, slot_without, Node,
    Spatial, TreeNode,
};
use crate::quadtree::{positions, refilled};
use crate::point::Point;
use crate::rectangle::{
    lemma_quadrants_tile, lemma_shared_quadrant_is_smaller, Quadrant, Rectangle,
};
use crate::walk::{
    slot_boxes, slot_child, slot_descendants, slot_drained, slot_leaves, slot_own, slot_shrunk,
};
use vstd::prelude::*;

verus! {

/// The payload that a sequence of leaves holds under `p`: that of the last
/// leaf with this position.
pub open spec fn fetch<T>(s: Seq<Spatial<T>>, p: Point) -> Option<T>
    decreases s.len(),
{
    if s.len() == 0 {
        None
    } else if s.last().position == p {
        Some(s.last().data)
    } else {
        fetch(s.drop_last(), p)
    }
}

/// No two leaves of the sequence share a position.
pub open spec fn distinct_positions<T>(s: Seq<Spatial<T>>) -> bool {
    forall|i: int, j: int| 0 <= i < j < s.len() ==> (#[trigger] s[i]).position != (#[trigger] s[j]).position
}

/// Every leaf of the sequence lies in quadrant `q` of `bounds`.
pub open spec fn all_in_quadrant<T>(s: Seq<Spatial<T>>, bounds: Rectangle, q: Quadrant) -> bool {
    forall|i: int| 0 <= i < s.len() ==> bounds.quadrant_of((#[trigger] s[i]).position) == Some(q)
}

/// What two sequences hold together under `p` is what the second holds, or
/// else what the first holds.
pub proof fn lemma_fetch_add<T>(a: Seq<Spatial<T>>, b: Seq<Spatial<T>>, p: Point)
    ensures
        fetch(a + b, p) == if fetch(b, p) is Some {
            fetch(b, p)
        } else {
            fetch(a, p)
        },
    decreases b.len(),
{
    if b.len() == 0 {
        assert(a + b =~= a);
    } else {
        assert((a + b).drop_last() =~= a + b.drop_last());
        assert((a + b).last() == b.last());
        lemma_fetch_add(a, b.drop_last(), p);
    }
}

/// A sequence holds nothing under a position that none of its leaves has.
pub proof fn lemma_fetch_absent<T>(s: Seq<Spatial<T>>, p: Point)
    requires
        forall|j: int| 0 <= j < s.len() ==> (#[trigger] s[j]).position != p,
    ensures
        fetch(s, p) is None,
    decreases s.len(),
{
    if s.len() > 0 {
        assert(s.last() == s[s.len() - 1]);
        assert forall|j: int| 0 <= j < s.drop_last().len() implies (#[trigger] s.drop_last()[j]).position
            != p by {
            assert(s.drop_last()[j] == s[j]);
        }
        lemma_fetch_absent(s.drop_last(), p);
    }
}

/// A sequence holds something under the position of each of its leaves;
/// where no two leaves share a position, it is the payload of that leaf.
pub proof fn lemma_fetch_present<T>(s: Seq<Spatial<T>>, i: int)
    requires
        0 <= i < s.len(),
    ensures
        fetch(s, s[i].position) is Some,
        distinct_positions(s) ==> fetch(s, s[i].position) == Some(s[i].data),
    decreases s.len(),
{
    assert(s.last() == s[s.len() - 1]);
    if s.last().position != s[i].position {
        assert(s.drop_last()[i] == s[i]);
        if distinct_positions(s) {
            assert forall|a: int, b: int| 0 <= a < b < s.drop_last().len() implies (
            #[trigger] s.drop_last()[a]).position != (#[trigger] s.drop_last()[b]).position by {
                assert(s.drop_last()[a] == s[a]);
                assert(s.drop_last()[b] == s[b]);
            }
        }
        lemma_fetch_present(s.drop_last(), i);
    } else {
        if distinct_positions(s) && i < s.len() - 1 {
            assert(s[i].position != s[s.len() - 1].position);
        }
    }
}

/// Two sequences without a shared position, each without a position taken
/// twice, make a sequence without a position taken twice.
pub proof fn lemma_distinct_add<T>(a: Seq<Spatial<T>>, b: Seq<Spatial<T>>)
    requires
        distinct_positions(a),
        distinct_positions(b),
        forall|i: int, j: int|
            0 <= i < a.len() && 0 <= j < b.len() ==> (#[trigger] a[i]).position != (
            #[trigger] b[j]).position,
    ensures
        distinct_positions(a + b),
{
    assert forall|i: int, j: int| 0 <= i < j < (a + b).len() implies (#[trigger] (a + b)[i]).position
        != (#[trigger] (a + b)[j]).position by {
        if j < a.len() {
            assert((a + b)[i] == a[i] && (a + b)[j] == a[j]);
        } else if i < a.len() {
            assert((a + b)[i] == a[i] && (a + b)[j] == b[j - a.len()]);
        } else {
            assert((a + b)[i] == b[i - a.len()] && (a + b)[j] == b[j - a.len()]);
        }
    }
}

/// Sequences of leaves of two different quadrants share no position, and
/// what the one holds lies in no other quadrant.
pub proof fn lemma_quadrants_apart<T>(
    a: Seq<Spatial<T>>,
    b: Seq<Spatial<T>>,
    bounds: Rectangle,
    qa: Quadrant,
    qb: Quadrant,
)
    requires
        all_in_quadrant(a, bounds, qa),
        all_in_quadrant(b, bounds, qb),
        qa != qb,
    ensures
        forall|i: int, j: int|
            0 <= i < a.len() && 0 <= j < b.len() ==> (#[trigger] a[i]).position != (
            #[trigger] b[j]).position,
        forall|p: Point| bounds.quadrant_of(p) == Some(qb) ==> #[trigger] fetch(a, p) is None,
{
    assert forall|p: Point| bounds.quadrant_of(p) == Some(qb) implies #[trigger] fetch(a, p) is None by {
        lemma_fetch_absent(a, p);
    }
}

/// What was taken out of a well-formed slot, in the order of a walk through
/// the slots, is what the slot held: no position comes twice, every leaf
/// lies in the quadrant of the slot, the leaves hold under each position
/// what the slot held under it, and they are as many as the slot counted.
pub proof fn lemma_slot_drained<T>(slot: Option<TreeNode<T>>, bounds: Rectangle, q: Quadrant)
    requires
        slot_wf(slot, bounds, q),
    ensures
        distinct_positions(slot_drained(slot)),
        all_in_quadrant(slot_drained(slot), bounds, q),
        forall|p: Point| #[trigger] fetch(slot_drained(slot), p) == slot_lookup(slot, p),
        slot_drained(slot).len() == slot_leaf_count(slot),
    decreases slot,
{
    let d = slot_drained(slot);
    match slot {
        None => {},
        Some(TreeNode::Point(s)) => {
            assert(d.drop_last() =~= Seq::<Spatial<T>>::empty());
            assert(d.last() == s);
            assert forall|p: Point| #[trigger] fetch(d, p) == slot_lookup(slot, p) by {
                assert(fetch(d.drop_last(), p) is None);
            }
        },
        Some(TreeNode::Node(n)) => {
            lemma_drained(*n);
            assert forall|i: int| 0 <= i < d.len() implies bounds.quadrant_of((#[trigger] d[i]).position)
                == Some(q) by {
                lemma_fetch_present(d, i);
                assert(n.lookup(d[i].position) is Some);
            }
        },
    }
}

/// What was taken out of a well-formed subtree, in the order of a walk
/// through the slots, is what the subtree held: no position comes twice,
/// every leaf lies in the bounds, the leaves hold under each position what
/// was found under it in the subtree, and they are as many as the subtree
/// counted leaves.
pub proof fn lemma_drained<T>(node: Node<T>)
    requires
        node.wf(),
    ensures
        distinct_positions(node.drained()),
        forall|i: int|
            0 <= i < node.drained().len() ==> node.bounds.contains(
                (#[trigger] node.drained()[i]).position,
            ),
        forall|p: Point| #[trigger] fetch(node.drained(), p) == node.lookup(p),
        node.drained().len() == node.leaf_count(),
    decreases node,
{
    let b = node.bounds;
    let d0 = slot_drained(node.bottom_left);
    let d1 = slot_drained(node.bottom_right);
    let d2 = slot_drained(node.top_right);
    let d3 = slot_drained(node.top_left);
    lemma_slot_drained(node.bottom_left, b, Quadrant::BottomLeft);
    lemma_slot_drained(node.bottom_right, b, Quadrant::BottomRight);
    lemma_slot_drained(node.top_right, b, Quadrant::TopRight);
    lemma_slot_drained(node.top_left, b, Quadrant::TopLeft);
    let d01 = d0 + d1;
    let d012 = d01 + d2;
    let d = d012 + d3;
    assert(d == node.drained());
    lemma_quadrants_apart(d0, d1, b, Quadrant::BottomLeft, Quadrant::BottomRight);
    lemma_quadrants_apart(d0, d2, b, Quadrant::BottomLeft, Quadrant::TopRight);
    lemma_quadrants_apart(d0, d3, b, Quadrant::BottomLeft, Quadrant::TopLeft);
    lemma_quadrants_apart(d1, d2, b, Quadrant::BottomRight, Quadrant::TopRight);
    lemma_quadrants_apart(d1, d3, b, Quadrant::BottomRight, Quadrant::TopLeft);
    lemma_quadrants_apart(d2, d3, b, Quadrant::TopRight, Quadrant::TopLeft);
    lemma_distinct_add(d0, d1);
    assert forall|i: int, j: int| 0 <= i < d01.len() && 0 <= j < d2.len() implies (
    #[trigger] d01[i]).position != (#[trigger] d2[j]).position by {
        if i < d0.len() {
            assert(d01[i] == d0[i]);
        } else {
            assert(d01[i] == d1[i - d0.len()]);
        }
    }
    lemma_distinct_add(d01, d2);
    assert forall|i: int, j: int| 0 <= i < d012.len() && 0 <= j < d3.len() implies (
    #[trigger] d012[i]).position != (#[trigger] d3[j]).position by {
        if i < d0.len() {
            assert(d012[i] == d0[i]);
        } else if i < d01.len() {
            assert(d012[i] == d1[i - d0.len()]);
        } else {
            assert(d012[i] == d2[i - d01.len()]);
        }
    }
    lemma_distinct_add(d012, d3);
    assert forall|i: int| 0 <= i < d.len() implies b.contains((#[trigger] d[i]).position) by {
        if i < d0.len() {
            assert(d[i] == d0[i]);
        } else if i < d01.len() {
            assert(d[i] == d1[i - d0.len()]);
        } else if i < d012.len() {
            assert(d[i] == d2[i - d01.len()]);
        } else {
            assert(d[i] == d3[i - d012.len()]);
        }
    }
    assert forall|p: Point| #[trigger] fetch(d, p) == node.lookup(p) by {
        lemma_fetch_add(d0, d1, p);
        lemma_fetch_add(d01, d2, p);
        lemma_fetch_add(d012, d3, p);
        if b.quadrant_of(p) != Some(Quadrant::BottomLeft) {
            lemma_fetch_outside(d0, b, Quadrant::BottomLeft, p);
        }
        if b.quadrant_of(p) != Some(Quadrant::BottomRight) {
            lemma_fetch_outside(d1, b, Quadrant::BottomRight, p);
        }
        if b.quadrant_of(p) != Some(Quadrant::TopRight) {
            lemma_fetch_outside(d2, b, Quadrant::TopRight, p);
        }
        if b.quadrant_of(p) != Some(Quadrant::TopLeft) {
            lemma_fetch_outside(d3, b, Quadrant::TopLeft, p);
        }
    }
}

/// Leaves of one quadrant hold nothing under a position that lies
/// elsewhere.
pub proof fn lemma_fetch_outside<T>(s: Seq<Spatial<T>>, bounds: Rectangle, q: Quadrant, p: Point)
    requires
        all_in_quadrant(s, bounds, q),
        bounds.quadrant_of(p) != Some(q),
    ensures
        fetch(s, p) is None,
{
    lemma_fetch_absent(s, p);
}

/// A well-formed subtree holds finitely many positions, as many as it
/// counts leaves.
pub proof fn lemma_size<T>(node: Node<T>)
    requires
        node.wf(),
    ensures
        node@.dom().finite(),
        node@.dom().len() == node.leaf_count(),
{
    let d = node.drained();
    let ps = positions(d);
    lemma_drained(node);
    assert forall|i: int, j: int| 0 <= i < ps.len() && 0 <= j < ps.len() && i != j implies ps[i]
        != ps[j] by {
        if i < j {
            assert(d[i].position != d[j].position);
        } else {
            assert(d[j].position != d[i].position);
        }
    }
    ps.unique_seq_to_set();
    vstd::seq_lib::seq_to_set_is_finite(ps);
    assert forall|p: Point| node@.dom().contains(p) == ps.to_set().contains(p) by {
        if ps.contains(p) {
            let i = choose|i: int| 0 <= i < ps.len() && ps[i] == p;
            lemma_fetch_present(d, i);
            assert(fetch(d, p) == node.lookup(p));
        } else {
            assert forall|j: int| 0 <= j < d.len() implies (#[trigger] d[j]).position != p by {
                assert(ps[j] == d[j].position);
            }
            lemma_fetch_absent(d, p);
            assert(fetch(d, p) == node.lookup(p));
        }
    }
    assert(node@.dom() =~= ps.to_set());
}

/// Whether a slot holds a child node that has no filled slot, or one with
/// such a child node anywhere below it.
pub open spec fn slot_dangles<T>(slot: Option<TreeNode<T>>) -> bool
    decreases slot,
{
    match slot {
        Some(TreeNode::Node(n)) => n.is_vacant() || n.has_dangling(),
        _ => false,
    }
}

impl<T> Node<T> {
    /// Whether a child node without any filled slot stands anywhere below
    /// this node.
    pub open spec fn has_dangling(self) -> bool
        decreases self,
    {
        ||| slot_dangles(self.bottom_left)
        ||| slot_dangles(self.bottom_right)
        ||| slot_dangles(self.top_right)
        ||| slot_dangles(self.top_left)
    }
}

/// The sequences that list a subtree are as long as its counts say: the
/// leaves, the bounds of the nodes, and the nodes below the first.
pub proof fn lemma_counts<T>(node: Node<T>)
    ensures
        node.leaves().len() == node.leaf_count(),
        node.drained().len() == node.leaf_count(),
        node.boxes().len() == node.node_count(),
        node.descendants().len() + 1 == node.node_count(),
    decreases node,
{
    lemma_slot_counts(node.bottom_left);
    lemma_slot_counts(node.bottom_right);
    lemma_slot_counts(node.top_right);
    lemma_slot_counts(node.top_left);
}

/// The part of a slot in the sequences that list a subtree is as long as the
/// counts of the slot say.
pub proof fn lemma_slot_counts<T>(slot: Option<TreeNode<T>>)
    ensures
        slot_own(slot).len() + slot_leaves(slot).len() == slot_leaf_count(slot),
        slot_drained(slot).len() == slot_leaf_count(slot),
        slot_boxes(slot).len() == slot_node_count(slot),
        slot_child(slot).len() + slot_descendants(slot).len() == slot_node_count(slot),
    decreases slot,
{
    match slot {
        Some(TreeNode::Node(n)) => {
            lemma_counts(*n);
        },
        _ => {},
    }
}

/// One pass of shrinking keeps a slot fit for its quadrant and keeps what it
/// holds; it drops no leaf and adds no node. A slot without a dangling
/// child node stays as it is; any other loses a node.
pub proof fn lemma_slot_shrunk<T>(slot: Option<TreeNode<T>>, bounds: Rectangle, q: Quadrant)
    requires
        slot_wf(slot, bounds, q),
    ensures
        slot_wf(slot_shrunk(slot), bounds, q),
        forall|p: Point| #[trigger] slot_lookup(slot_shrunk(slot), p) == slot_lookup(slot, p),
        slot_leaf_count(slot_shrunk(slot)) == slot_leaf_count(slot),
        slot_node_count(slot_shrunk(slot)) <= slot_node_count(slot),
        !slot_dangles(slot) ==> slot_shrunk(slot) == slot,
        slot_dangles(slot) ==> slot_node_count(slot_shrunk(slot)) < slot_node_count(slot),
    decreases slot,
{
    match slot {
        Some(TreeNode::Node(n)) => {
            lemma_shrunk(*n);
            if n.is_vacant() {
                assert forall|p: Point| #[trigger] slot_lookup(slot_shrunk(slot), p) == slot_lookup(
                    slot,
                    p,
                ) by {
                    assert(n.lookup(p) is None);
                }
            } else {
                let m = n.shrunk();
                assert forall|p: Point| #[trigger] m.lookup(p) is Some implies bounds.quadrant_of(p)
                    == Some(q) by {
                    assert(n.lookup(p) is Some);
                }
                assert forall|p: Point| #[trigger] slot_lookup(slot_shrunk(slot), p) == slot_lookup(
                    slot,
                    p,
                ) by {
                    assert(m.lookup(p) == n.lookup(p));
                }
            }
        },
        _ => {},
    }
}

/// One pass of shrinking keeps a subtree well formed and keeps what it
/// holds; it drops no leaf and adds no node. A subtree without a dangling
/// child node stays as it is; any other loses a node.
pub proof fn lemma_shrunk<T>(node: Node<T>)
    requires
        node.wf(),
    ensures
        node.shrunk().wf(),
        node.shrunk().bounds == node.bounds,
        forall|p: Point| #[trigger] node.shrunk().lookup(p) == node.lookup(p),
        node.shrunk()@ == node@,
        node.shrunk().leaf_count() == node.leaf_count(),
        node.shrunk().node_count() <= node.node_count(),
        !node.has_dangling() ==> node.shrunk() == node,
        node.has_dangling() ==> node.shrunk().node_count() < node.node_count(),
    decreases node,
{
    lemma_slot_shrunk(node.bottom_left, node.bounds, Quadrant::BottomLeft);
    lemma_slot_shrunk(node.bottom_right, node.bounds, Quadrant::BottomRight);
    lemma_slot_shrunk(node.top_right, node.bounds, Quadrant::TopRight);
    lemma_slot_shrunk(node.top_left, node.bounds, Quadrant::TopLeft);
    let m = node.shrunk();
    assert forall|p: Point| #[trigger] m.lookup(p) == node.lookup(p) by {
        assert(slot_lookup(slot_shrunk(node.bottom_left), p) == slot_lookup(node.bottom_left, p));
        assert(slot_lookup(slot_shrunk(node.bottom_right), p) == slot_lookup(node.bottom_right, p));
        assert(slot_lookup(slot_shrunk(node.top_right), p) == slot_lookup(node.top_right, p));
        assert(slot_lookup(slot_shrunk(node.top_left), p) == slot_lookup(node.top_left, p));
    }
    assert(m@ =~= node@);
}

/// A second pass of shrinking right after a first changes nothing, and so
/// counts as many nodes, where the first pass has left no child node
/// without a filled slot. (Where it has left one, the second pass drops it.)
pub proof fn lemma_shrink_twice<T>(node: Node<T>)
    requires
        node.wf(),
        !node.shrunk().has_dangling(),
    ensures
        node.shrunk().shrunk() == node.shrunk(),
        node.shrunk().shrunk().node_count() == node.shrunk().node_count(),
{
    lemma_shrunk(node);
    lemma_shrunk(node.shrunk());
}

/// A node whose slot of quadrant `q` holds a leaf, with that slot split: a
/// child node over the part of the bounds takes the slot and holds the leaf.
pub open spec fn parted<T>(node: Node<T>, q: Quadrant, other: Spatial<T>) -> Node<T> {
    let part = node.bounds.quadrant_rect(q);
    node.with_slot(
        q,
        Some(
            TreeNode::Node(
                Box::new(
                    Node::<T>::vacant(part).with_slot(
                        part.quadrant_of(other.position)->0,
                        Some(TreeNode::Point(other)),
                    ),
                ),
            ),
        ),
    )
}

/// A split keeps a subtree well formed and keeps what it holds, where the
/// bounds can hold two positions in one quadrant.
pub proof fn lemma_parted<T>(node: Node<T>, q: Quadrant, other: Spatial<T>)
    requires
        node.wf(),
        node.slot(q) == Some(TreeNode::Point(other)),
        node.bounds.width >= 2 || node.bounds.height >= 2,
    ensures
        parted(node, q, other).wf(),
        parted(node, q, other).bounds == node.bounds,
        forall|p: Point| #[trigger] parted(node, q, other).lookup(p) == node.lookup(p),
        parted(node, q, other).leaf_count() == node.leaf_count(),
        parted(node, q, other).node_count() == node.node_count() + 1,
{
    lemma_with_slot(node, q, None);
    lemma_quadrants_tile(node.bounds, other.position, q);
    let part = node.bounds.quadrant_rect(q);
    let empty = Node::<T>::vacant(part);
    let inner = part.quadrant_of(other.position)->0;
    let only = Some(TreeNode::Point(other));
    let child = empty.with_slot(inner, only);
    lemma_with_slot(empty, inner, only);
    Node::lemma_inserted(empty, child, inner, only, other);
    let split = Some(TreeNode::Node(Box::new(child)));
    let after = node.with_slot(q, split);
    assert(slot_wf(split, node.bounds, q));
    lemma_with_slot(node, q, split);
    assert forall|p: Point| #[trigger] after.lookup(p) == node.lookup(p) by {
        if node.bounds.quadrant_of(p) == Some(q) {
            assert(node.lookup(p) == slot_lookup(node.slot(q), p));
            assert(after.lookup(p) == slot_lookup(split, p));
            assert(slot_lookup(split, p) == child.lookup(p));
        }
    }
}

/// A subtree whose child node in the quadrant of a new leaf has taken the
/// leaf is well formed over the same bounds, holds the new payload under
/// the new position and under every other position what it held, and
/// counts one leaf more.
pub proof fn lemma_insert_below<T>(node: Node<T>, q: Quadrant, child: Node<T>, leaf: Spatial<T>)
    requires
        node.wf(),
        node.slot(q) == Some(TreeNode::Node(Box::new(child))),
        node.bounds.quadrant_of(leaf.position) == Some(q),
        node.lookup(leaf.position) is None,
    ensures
        node.with_slot(q, Some(TreeNode::Node(Box::new(child.inserted(leaf))))).wf(),
        forall|p: Point| #[trigger]
            node.with_slot(q, Some(TreeNode::Node(Box::new(child.inserted(leaf))))).lookup(p) == if p
                == leaf.position {
                Some(leaf.data)
            } else {
                node.lookup(p)
            },
        node.with_slot(q, Some(TreeNode::Node(Box::new(child.inserted(leaf))))).leaf_count()
            == node.leaf_count() + 1,
        node.with_slot(q, Some(TreeNode::Node(Box::new(child.inserted(leaf))))).node_count()
            >= node.node_count(),
    decreases node.extent(), 0nat,
{
    lemma_quadrants_tile(node.bounds, leaf.position, q);
    lemma_with_slot(node, q, None);
    assert(child.lookup(leaf.position) == node.lookup(leaf.position));
    lemma_insert_holds(child, leaf);
    let grown = child.inserted(leaf);
    let v = Some(TreeNode::Node(Box::new(grown)));
    Node::lemma_descended(node, q, child, grown, leaf);
    lemma_with_slot(node, q, v);
    Node::lemma_inserted(node, node.with_slot(q, v), q, v, leaf);
}

/// A subtree with one more leaf is well formed over the same bounds, holds
/// the new payload under the new position and under every other position
/// what it held, and counts one leaf more.
pub proof fn lemma_insert_holds<T>(node: Node<T>, leaf: Spatial<T>)
    requires
        node.wf(),
        node.bounds.contains(leaf.position),
        node.lookup(leaf.position) is None,
    ensures
        node.inserted(leaf).wf(),
        node.inserted(leaf).bounds == node.bounds,
        forall|p: Point| #[trigger]
            node.inserted(leaf).lookup(p) == if p == leaf.position {
                Some(leaf.data)
            } else {
                node.lookup(p)
            },
        node.inserted(leaf)@ == node@.insert(leaf.position, leaf.data),
        node.inserted(leaf).leaf_count() == node.leaf_count() + 1,
        node.inserted(leaf).node_count() >= node.node_count(),
    decreases node.extent(), 1nat,
{
    let q = node.bounds.quadrant_of(leaf.position)->0;
    let after = node.inserted(leaf);
    lemma_with_slot(node, q, None);
    match node.slot(q) {
        None => {
            let v = Some(TreeNode::Point(leaf));
            lemma_with_slot(node, q, v);
            Node::lemma_inserted(node, after, q, v, leaf);
        },
        Some(TreeNode::Node(n)) => {
            lemma_insert_below(node, q, *n, leaf);
        },
        Some(TreeNode::Point(other)) => {
            lemma_shared_quadrant_is_smaller(node.bounds, other.position, leaf.position);
            lemma_parted(node, q, other);
            let split = parted(node, q, other);
            let child = split.slot(q)->0->Node_0;
            lemma_with_slot(node, q, split.slot(q));
            lemma_insert_below(split, q, *child, leaf);
            assert(after == split.with_slot(
                q,
                Some(TreeNode::Node(Box::new(child.inserted(leaf)))),
            ));
        },
    }
    assert(after@ =~= node@.insert(leaf.position, leaf.data));
}

/// A subtree without what it held under `p` is well formed over the same
/// bounds, holds nothing under `p` and under every other position what it
/// held, and has all its nodes.
pub proof fn lemma_remove_holds<T>(node: Node<T>, p: Point)
    requires
        node.wf(),
    ensures
        node.without(p).wf(),
        node.without(p).bounds == node.bounds,
        forall|x: Point| #[trigger]
            node.without(p).lookup(x) == if x == p {
                None
            } else {
                node.lookup(x)
            },
        node.without(p)@ == node@.remove(p),
        node.without(p).leaf_count() + (if node.lookup(p) is Some { 1nat } else { 0nat })
            == node.leaf_count(),
        node.without(p).node_count() == node.node_count(),
    decreases node,
{
    let after = node.without(p);
    Node::lemma_without_slot(node, p);
    match node.bounds.quadrant_of(p) {
        None => {},
        Some(q) => {
            lemma_with_slot(node, q, None);
            let v = slot_without(node.slot(q), p);
            match node.slot(q) {
                Some(TreeNode::Node(n)) => {
                    lemma_remove_holds(*n, p);
                    let rest = n.without(p);
                    assert forall|x: Point| #[trigger] rest.lookup(x) is Some implies node.bounds.quadrant_of(
                        x,
                    ) == Some(q) by {
                        assert(n.lookup(x) is Some);
                    }
                    assert forall|x: Point|
                        slot_lookup(v, x) == if x == p {
                            None
                        } else {
                            slot_lookup(node.slot(q), x)
                        } by {
                        assert(slot_lookup(v, x) == rest.lookup(x));
                        assert(slot_lookup(node.slot(q), x) == n.lookup(x));
                    }
                },
                _ => {},
            }
            lemma_with_slot(node, q, v);
            Node::lemma_removed(node, after, q, v, p);
        },
    }
    assert(after@ =~= node@.remove(p));
}

/// What is stored under a free position inside the bounds is found there;
/// taking it out leaves nothing there, and the subtree holds again what it
/// held before.
pub proof fn lemma_insert_find_remove<T>(node: Node<T>, leaf: Spatial<T>)
    requires
        node.wf(),
        node.bounds.contains(leaf.position),
        node.lookup(leaf.position) is None,
    ensures
        node.inserted(leaf).lookup(leaf.position) == Some(leaf.data),
        node.inserted(leaf).without(leaf.position).lookup(leaf.position) is None,
        node.inserted(leaf).without(leaf.position)@ == node@,
{
    lemma_insert_holds(node, leaf);
    lemma_remove_holds(node.inserted(leaf), leaf.position);
    assert(node.inserted(leaf).without(leaf.position)@ =~= node@);
}

/// Taking every leaf out of a subtree and storing each again in an empty
/// node over the same bounds gives a subtree that holds what the first
/// held, under every position, and counts as many leaves.
pub proof fn lemma_refilled<T>(node: Node<T>, k: nat)
    requires
        node.wf(),
        k <= node.drained().len(),
    ensures
        refilled(Node::<T>::vacant(node.bounds), node.drained(), k).wf(),
        refilled(Node::<T>::vacant(node.bounds), node.drained(), k).bounds == node.bounds,
        forall|p: Point| #[trigger]
            refilled(Node::<T>::vacant(node.bounds), node.drained(), k).lookup(p) == fetch(
                node.drained().take(k as int),
                p,
            ),
        refilled(Node::<T>::vacant(node.bounds), node.drained(), k).leaf_count() == k,
        k == node.drained().len() ==> refilled(Node::<T>::vacant(node.bounds), node.drained(), k)@
            == node@,
    decreases k,
{
    let all = node.drained();
    let empty = Node::<T>::vacant(node.bounds);
    let now = refilled(empty, all, k);
    lemma_drained(node);
    if k == 0 {
        assert(all.take(0) =~= Seq::<Spatial<T>>::empty());
        assert forall|p: Point| #[trigger] now.lookup(p) == fetch(all.take(0), p) by {}
    } else {
        let before = refilled(empty, all, (k - 1) as nat);
        let leaf = all[k - 1];
        lemma_refilled(node, (k - 1) as nat);
        assert forall|j: int| 0 <= j < all.take(k - 1).len() implies (#[trigger] all.take(k - 1)[j]).position
            != leaf.position by {
            assert(all.take(k - 1)[j] == all[j]);
        }
        lemma_fetch_absent(all.take(k - 1), leaf.position);
        lemma_insert_holds(before, leaf);
        assert(all.take(k as int).drop_last() =~= all.take(k - 1));
        assert(all.take(k as int).last() == leaf);
        assert forall|p: Point| #[trigger] now.lookup(p) == fetch(all.take(k as int), p) by {
            assert(before.lookup(p) == fetch(all.take(k - 1), p));
        }
    }
    if k == all.len() {
        assert(all.take(k as int) =~= all);
        assert forall|p: Point| now.lookup(p) == node.lookup(p) by {
            assert(now.lookup(p) == fetch(all.take(k as int), p));
        }
        assert(now@ =~= node@);
    }
}

} // verus!
