use crate::point::Point;
use crate::rectangle::{lemma_quadrants_tile, lemma_shared_quadrant_is_smaller, Quadrant, Rectangle};
use vstd::prelude::*;

verus! {

/// A payload together with the position under which it is stored.
#[derive(Debug)]
pub struct Spatial<T> {
    pub data: T,
    pub position: Point,
}

impl<T> Spatial<T> {
    /// Pairs a payload with its position.
    pub fn new(data: T, position: Point) -> (s: Spatial<T>)
        ensures
            s.data == data,
            s.position == position,
    {
        Spatial { data, position }
    }

    /// The position of the payload.
    pub fn position(&self) -> (p: &Point)
        ensures
            *p == self.position,
    {
        &self.position
    }

    /// The payload.
    pub fn data(&self) -> (d: &T)
        ensures
            *d == self.data,
    {
        &self.data
    }

    /// Gives up the position and hands out the payload.
    pub fn consume(self) -> (d: T)
        ensures
            d == self.data,
    {
        self.data
    }
}

impl<T> From<(T, Point)> for Spatial<T> {
    /// Makes a leaf of a payload and its position.
    fn from(args: (T, Point)) -> (s: Spatial<T>) {
        Spatial::new(args.0, args.1)
    }
}

impl<T> vstd::std_specs::convert::FromSpecImpl<(T, Point)> for Spatial<T> {
    open spec fn obeys_from_spec() -> bool {
        true
    }

    open spec fn from_spec(v: (T, Point)) -> Spatial<T> {
        Spatial { data: v.0, position: v.1 }
    }
}

/// What a slot of a node holds: one leaf, or a child node.
pub enum TreeNode<T> {
    Point(Spatial<T>),
    Node(Box<Node<T>>),
}

/// A node of the tree: a rectangle and one slot for each of its quadrants.
pub struct Node<T> {
    pub bottom_left: Option<TreeNode<T>>,
    pub bottom_right: Option<TreeNode<T>>,
    pub top_right: Option<TreeNode<T>>,
    pub top_left: Option<TreeNode<T>>,
    pub bounds: Rectangle,
}

/// The payload that a slot holds under `p`.
pub open spec fn slot_lookup<T>(slot: Option<TreeNode<T>>, p: Point) -> Option<T>
    decreases slot,
{
    match slot {
        None => None,
        Some(TreeNode::Point(s)) => if s.position == p {
            Some(s.data)
        } else {
            None
        },
        Some(TreeNode::Node(n)) => n.lookup(p),
    }
}

/// The number of leaves in and below a slot.
pub open spec fn slot_leaf_count<T>(slot: Option<TreeNode<T>>) -> nat
    decreases slot,
{
    match slot {
        None => 0,
        Some(TreeNode::Point(_)) => 1,
        Some(TreeNode::Node(n)) => n.leaf_count(),
    }
}

/// The number of nodes in and below a slot.
pub open spec fn slot_node_count<T>(slot: Option<TreeNode<T>>) -> nat
    decreases slot,
{
    match slot {
        Some(TreeNode::Node(n)) => n.node_count(),
        _ => 0,
    }
}

/// A slot without what it held under `p`: a leaf with this position is
/// gone, a child node stays and loses the leaf further down.
pub open spec fn slot_without<T>(slot: Option<TreeNode<T>>, p: Point) -> Option<TreeNode<T>>
    decreases slot,
{
    match slot {
        None => None,
        Some(TreeNode::Point(s)) => if s.position == p {
            None
        } else {
            slot
        },
        Some(TreeNode::Node(n)) => Some(TreeNode::Node(Box::new(n.without(p)))),
    }
}

/// A slot fits into quadrant `q` of a node with the given bounds: a leaf
/// lies in that quadrant; a child node covers the part of the bounds that
/// stands for the quadrant, is well formed, holds only positions of that
/// quadrant, and stands only where the bounds can hold two positions in one
/// quadrant.
pub open spec fn slot_wf<T>(slot: Option<TreeNode<T>>, bounds: Rectangle, q: Quadrant) -> bool
    decreases slot,
{
    match slot {
        None => true,
        Some(TreeNode::Point(s)) => bounds.quadrant_of(s.position) == Some(q),
        Some(TreeNode::Node(n)) => {
            &&& n.bounds == bounds.quadrant_rect(q)
            &&& n.wf()
            &&& forall|p: Point| #[trigger] n.lookup(p) is Some ==> bounds.quadrant_of(p) == Some(q)
            &&& (bounds.width >= 2 || bounds.height >= 2)
        },
    }
}

/// What replacing the slot of one quadrant does to a node: the other slots,
/// the bounds and what is found in other quadrants stay; what is found in
/// quadrant `q` is what the new slot holds; the counts change by what the
/// slot held and holds; and the node stays well formed where the new slot
/// fits.
pub proof fn lemma_with_slot<T>(node: Node<T>, q: Quadrant, v: Option<TreeNode<T>>)
    ensures
        node.with_slot(q, v).bounds == node.bounds,
        node.with_slot(q, v).slot(q) == v,
        forall|o: Quadrant| o != q ==> #[trigger] node.with_slot(q, v).slot(o) == node.slot(o),
        forall|w: Option<TreeNode<T>>| #[trigger]
            node.with_slot(q, v).with_slot(q, w) == node.with_slot(q, w),
        node.with_slot(q, node.slot(q)) == node,
        forall|p: Point| #[trigger]
            node.with_slot(q, v).lookup(p) == if node.bounds.quadrant_of(p) == Some(q) {
                slot_lookup(v, p)
            } else {
                node.lookup(p)
            },
        forall|p: Point|
            node.bounds.quadrant_of(p) == Some(q) ==> #[trigger] node.lookup(p) == slot_lookup(
                node.slot(q),
                p,
            ),
        node.with_slot(q, v).leaf_count() + slot_leaf_count(node.slot(q)) == node.leaf_count()
            + slot_leaf_count(v),
        node.with_slot(q, v).node_count() + slot_node_count(node.slot(q)) == node.node_count()
            + slot_node_count(v),
        node.wf() ==> slot_wf(node.slot(q), node.bounds, q),
        node.wf() && slot_wf(v, node.bounds, q) ==> node.with_slot(q, v).wf(),
{
    match q {
        Quadrant::BottomLeft => {},
        Quadrant::BottomRight => {},
        Quadrant::TopRight => {},
        Quadrant::TopLeft => {},
    }
}

impl<T> Node<T> {
    /// What the slot of quadrant `q` holds.
    pub open spec fn slot(self, q: Quadrant) -> Option<TreeNode<T>> {
        match q {
            Quadrant::BottomLeft => self.bottom_left,
            Quadrant::BottomRight => self.bottom_right,
            Quadrant::TopRight => self.top_right,
            Quadrant::TopLeft => self.top_left,
        }
    }

    /// The node with the slot of quadrant `q` replaced by `v`.
    pub open spec fn with_slot(self, q: Quadrant, v: Option<TreeNode<T>>) -> Node<T> {
        match q {
            Quadrant::BottomLeft => Node { bottom_left: v, ..self },
            Quadrant::BottomRight => Node { bottom_right: v, ..self },
            Quadrant::TopRight => Node { top_right: v, ..self },
            Quadrant::TopLeft => Node { top_left: v, ..self },
        }
    }

    /// The node over `bounds` with four empty slots.
    pub open spec fn vacant(bounds: Rectangle) -> Node<T> {
        Node { bottom_left: None, bottom_right: None, top_right: None, top_left: None, bounds }
    }

    /// The subtree without what it held under `p`. No node goes with the
    /// leaf.
    pub open spec fn without(self, p: Point) -> Node<T>
        decreases self,
    {
        match self.bounds.quadrant_of(p) {
            None => self,
            Some(Quadrant::BottomLeft) => Node {
                bottom_left: slot_without(self.bottom_left, p),
                ..self
            },
            Some(Quadrant::BottomRight) => Node {
                bottom_right: slot_without(self.bottom_right, p),
                ..self
            },
            Some(Quadrant::TopRight) => Node { top_right: slot_without(self.top_right, p), ..self },
            Some(Quadrant::TopLeft) => Node { top_left: slot_without(self.top_left, p), ..self },
        }
    }

    /// The subtree with one more leaf, whose position lies in the bounds
    /// and is free. An empty slot takes the leaf; a child node takes it
    /// further down; a slot that holds a leaf gets a new child node over
    /// its part of the bounds, which takes first the old leaf and then the
    /// new one.
    pub open spec fn inserted(self, leaf: Spatial<T>) -> Node<T>
        decreases self.extent(),
        when self.wf() && self.bounds.contains(leaf.position) && self.lookup(leaf.position) is None
    {
        let q = self.bounds.quadrant_of(leaf.position)->0;
        match self.slot(q) {
            None => self.with_slot(q, Some(TreeNode::Point(leaf))),
            Some(TreeNode::Node(n)) => {
                proof {
                    lemma_with_slot(self, q, None);
                }
                self.with_slot(q, Some(TreeNode::Node(Box::new(n.inserted(leaf)))))
            },
            Some(TreeNode::Point(other)) => {
                proof {
                    lemma_with_slot(self, q, None);
                    lemma_shared_quadrant_is_smaller(self.bounds, other.position, leaf.position);
                }
                let part = self.bounds.quadrant_rect(q);
                let child = Self::vacant(part).with_slot(
                    part.quadrant_of(other.position)->0,
                    Some(TreeNode::Point(other)),
                );
                self.with_slot(q, Some(TreeNode::Node(Box::new(child.inserted(leaf)))))
            },
        }
    }

    /// The payload stored under `p` in this subtree, found by following the
    /// quadrants of `p` downwards.
    pub open spec fn lookup(self, p: Point) -> Option<T>
        decreases self,
    {
        match self.bounds.quadrant_of(p) {
            None => None,
            Some(Quadrant::BottomLeft) => slot_lookup(self.bottom_left, p),
            Some(Quadrant::BottomRight) => slot_lookup(self.bottom_right, p),
            Some(Quadrant::TopRight) => slot_lookup(self.top_right, p),
            Some(Quadrant::TopLeft) => slot_lookup(self.top_left, p),
        }
    }

    /// The subtree as a map from positions to payloads.
    pub open spec fn view(self) -> Map<Point, T> {
        Map::new(|p: Point| self.lookup(p) is Some, |p: Point| self.lookup(p).unwrap())
    }

    /// The number of leaves in this subtree.
    pub open spec fn leaf_count(self) -> nat
        decreases self,
    {
        slot_leaf_count(self.bottom_left) + slot_leaf_count(self.bottom_right) + slot_leaf_count(
            self.top_right,
        ) + slot_leaf_count(self.top_left)
    }

    /// The number of nodes in this subtree, this node included.
    pub open spec fn node_count(self) -> nat
        decreases self,
    {
        1 + slot_node_count(self.bottom_left) + slot_node_count(self.bottom_right)
            + slot_node_count(self.top_right) + slot_node_count(self.top_left)
    }

    /// All four slots are empty.
    pub open spec fn is_vacant(self) -> bool {
        &&& self.bottom_left is None
        &&& self.bottom_right is None
        &&& self.top_right is None
        &&& self.top_left is None
    }

    /// The subtree is well formed: the bounds are valid and every slot fits
    /// into its quadrant.
    pub open spec fn wf(self) -> bool
        decreases self,
    {
        &&& self.bounds.valid()
        &&& slot_wf(self.bottom_left, self.bounds, Quadrant::BottomLeft)
        &&& slot_wf(self.bottom_right, self.bounds, Quadrant::BottomRight)
        &&& slot_wf(self.top_right, self.bounds, Quadrant::TopRight)
        &&& slot_wf(self.top_left, self.bounds, Quadrant::TopLeft)
    }

    /// The size by which a node is larger than its children.
    pub open spec fn extent(self) -> nat {
        (self.bounds.width + self.bounds.height) as nat
    }

    /// Creates an empty node over `bounds`.
    pub fn new_bounded(bounds: &Rectangle) -> (node: Node<T>)
        requires
            bounds.valid(),
        ensures
            node == Self::vacant(*bounds),
            node.bounds == *bounds,
            node.is_vacant(),
            node.wf(),
            node.leaf_count() == 0,
            node.node_count() == 1,
            forall|p: Point| node.lookup(p) is None,
    {
        Node { bottom_left: None, bottom_right: None, top_right: None, top_left: None, bounds: *bounds }
    }

    /// The bounds of the node.
    pub fn bounds(&self) -> (b: &Rectangle)
        ensures
            *b == self.bounds,
    {
        &self.bounds
    }

    /// What the slot of `quadrant` holds.
    pub fn quadrant(&self, quadrant: &Quadrant) -> (slot: &Option<TreeNode<T>>)
        ensures
            *slot == self.slot(*quadrant),
    {
        match quadrant {
            Quadrant::BottomLeft => &self.bottom_left,
            Quadrant::BottomRight => &self.bottom_right,
            Quadrant::TopRight => &self.top_right,
            Quadrant::TopLeft => &self.top_left,
        }
    }

    /// The slot of `quadrant`, to be changed in place.
    pub fn quadrant_mut(&mut self, quadrant: &Quadrant) -> (slot: &mut Option<TreeNode<T>>)
        ensures
            *slot == old(self).slot(*quadrant),
            *final(self) == old(self).with_slot(*quadrant, *final(slot)),
    {
        match quadrant {
            Quadrant::BottomLeft => &mut self.bottom_left,
            Quadrant::BottomRight => &mut self.bottom_right,
            Quadrant::TopRight => &mut self.top_right,
            Quadrant::TopLeft => &mut self.top_left,
        }
    }

    /// Whether the filled slot of `quadrant` holds a child node, into which
    /// an insertion can descend, and not a leaf.
    pub(crate) fn can_insert_unchecked(&self, quadrant: &Quadrant) -> (r: bool)
        requires
            self.slot(*quadrant) is Some,
        ensures
            r == (self.slot(*quadrant) matches Some(TreeNode::Node(_))),
    {
        match self.quadrant(quadrant) {
            Some(TreeNode::Node(_)) => true,
            _ => false,
        }
    }

    /// Tries to find the payload stored under `pt`.
    pub fn find(&self, pt: &Point) -> (r: Option<&T>)
        requires
            self.wf(),
        ensures
            match r {
                Some(t) => self.lookup(*pt) == Some(*t),
                None => self.lookup(*pt) is None,
            },
        decreases self.extent(),
    {
        match self.bounds.find_quadrant(pt) {
            None => None,
            Some(quadrant) => match self.quadrant(&quadrant) {
                None => None,
                Some(TreeNode::Point(data)) => {
                    if data.position == *pt {
                        Some(&data.data)
                    } else {
                        None
                    }
                },
                Some(TreeNode::Node(n)) => {
                    proof {
                        lemma_quadrants_tile(self.bounds, *pt, quadrant);
                    }
                    n.find(pt)
                },
            },
        }
    }

    /// Splits the slot of `quadrant` where it holds a leaf: a new child node
    /// over that part of the bounds takes the slot and the leaf moves into
    /// it. An empty slot and a child node stay as they are.
    pub(crate) fn split(&mut self, quadrant: &Quadrant)
        requires
            old(self).wf(),
            old(self).slot(*quadrant) matches Some(TreeNode::Point(_)) ==> old(self).bounds.width
                >= 2 || old(self).bounds.height >= 2,
        ensures
            final(self).wf(),
            final(self).bounds == old(self).bounds,
            forall|p: Point| final(self).lookup(p) == old(self).lookup(p),
            forall|q: Quadrant| q != *quadrant ==> final(self).slot(q) == old(self).slot(q),
            final(self).leaf_count() == old(self).leaf_count(),
            match old(self).slot(*quadrant) {
                Some(TreeNode::Point(s)) => {
                    let part = old(self).bounds.quadrant_rect(*quadrant);
                    &&& *final(self) == old(self).with_slot(
                        *quadrant,
                        Some(
                            TreeNode::Node(
                                Box::new(
                                    Self::vacant(part).with_slot(
                                        part.quadrant_of(s.position)->0,
                                        Some(TreeNode::Point(s)),
                                    ),
                                ),
                            ),
                        ),
                    )
                    &&& final(self).node_count() == old(self).node_count() + 1
                },
                _ => *final(self) == *old(self),
            },
        decreases old(self).extent(), 0nat,
    {
        if self.quadrant(quadrant).is_none() {
            return ;
        }
        let ghost before = *self;
        proof {
            lemma_with_slot(before, *quadrant, None);
        }
        match self.quadrant_mut(quadrant).take().unwrap() {
            TreeNode::Point(data) => {
                let ghost leaf = data;
                proof {
                    lemma_quadrants_tile(before.bounds, data.position, *quadrant);
                }
                let bounds = self.bounds.create_quadrant(quadrant);
                let mut node: Node<T> = Node::new_bounded(&bounds);
                let ghost child0 = node;
                node.insert(data);
                let ghost child = node;
                *self.quadrant_mut(quadrant) = Some(TreeNode::Node(Box::new(node)));
                proof {
                    let v = Some(TreeNode::Node(Box::new(child)));
                    assert(*self == before.with_slot(*quadrant, v));
                    let inner = bounds.quadrant_of(leaf.position)->0;
                    lemma_with_slot(child0, inner, Some(TreeNode::Point(leaf)));
                    assert(slot_wf(v, before.bounds, *quadrant));
                    lemma_with_slot(before, *quadrant, v);
                    assert forall|p: Point| self.lookup(p) == before.lookup(p) by {
                        if before.bounds.quadrant_of(p) == Some(*quadrant) {
                            assert(before.lookup(p) == slot_lookup(before.slot(*quadrant), p));
                            assert(self.lookup(p) == slot_lookup(v, p));
                            assert(slot_lookup(v, p) == child.lookup(p));
                        }
                    }
                }
            },
            TreeNode::Node(n) => {
                *self.quadrant_mut(quadrant) = Some(TreeNode::Node(n));
                assert(*self == before);
            },
        }
    }

    /// Stores a leaf in the subtree. Where the slot of its quadrant already
    /// holds a leaf, the slot is split first, one level at a time, until the
    /// two leaves part.
    ///
    /// The position lies in the bounds and is not yet taken: two leaves
    /// under one position could never part.
    pub fn insert(&mut self, data: Spatial<T>)
        requires
            old(self).wf(),
            old(self).bounds.contains(data.position),
            old(self).lookup(data.position) is None,
        ensures
            final(self).wf(),
            final(self).bounds == old(self).bounds,
            forall|p: Point|
                final(self).lookup(p) == if p == data.position {
                    Some(data.data)
                } else {
                    old(self).lookup(p)
                },
            final(self)@ == old(self)@.insert(data.position, data.data),
            final(self).leaf_count() == old(self).leaf_count() + 1,
            final(self).node_count() >= old(self).node_count(),
            *final(self) == old(self).inserted(data),
        decreases old(self).extent(), 2nat,
    {
        let quadrant = self.bounds.find_quadrant(&data.position).unwrap();
        if self.quadrant(&quadrant).is_none() {
            self.place(&quadrant, data);
        } else {
            if !self.can_insert_unchecked(&quadrant) {
                proof {
                    let other = self.slot(quadrant)->0->Point_0;
                    lemma_with_slot(*self, quadrant, None);
                    lemma_shared_quadrant_is_smaller(self.bounds, other.position, data.position);
                }
                self.split(&quadrant);
            }
            let ghost parted = *self;
            self.descend(&quadrant, data);
            proof {
                Self::lemma_inserted_through(*old(self), parted, *self, quadrant, data);
            }
        }
        assert(self@ =~= old(self)@.insert(data.position, data.data));
    }

    /// Storing a leaf in the child node of its quadrant, after a split of
    /// that slot where it held a leaf, gives the subtree with one more leaf.
    pub proof fn lemma_inserted_through(
        before: Node<T>,
        parted: Node<T>,
        after: Node<T>,
        q: Quadrant,
        leaf: Spatial<T>,
    )
        requires
            before.wf(),
            before.bounds.contains(leaf.position),
            before.lookup(leaf.position) is None,
            before.bounds.quadrant_of(leaf.position) == Some(q),
            match before.slot(q) {
                None => false,
                Some(TreeNode::Node(_)) => parted == before,
                Some(TreeNode::Point(s)) => parted == before.with_slot(
                    q,
                    Some(
                        TreeNode::Node(
                            Box::new(
                                Self::vacant(before.bounds.quadrant_rect(q)).with_slot(
                                    before.bounds.quadrant_rect(q).quadrant_of(s.position)->0,
                                    Some(TreeNode::Point(s)),
                                ),
                            ),
                        ),
                    ),
                ),
            },
            parted.slot(q) matches Some(TreeNode::Node(n)) && after == parted.with_slot(
                q,
                Some(TreeNode::Node(Box::new(n.inserted(leaf)))),
            ),
        ensures
            after == before.inserted(leaf),
    {
        lemma_with_slot(before, q, None);
        match q {
            Quadrant::BottomLeft => {},
            Quadrant::BottomRight => {},
            Quadrant::TopRight => {},
            Quadrant::TopLeft => {},
        }
    }

    /// Puts a leaf into the empty slot of its quadrant.
    fn place(&mut self, quadrant: &Quadrant, data: Spatial<T>)
        requires
            old(self).wf(),
            old(self).bounds.quadrant_of(data.position) == Some(*quadrant),
            old(self).slot(*quadrant) is None,
        ensures
            *final(self) == old(self).with_slot(*quadrant, Some(TreeNode::Point(data))),
            final(self).wf(),
            final(self).bounds == old(self).bounds,
            forall|p: Point|
                final(self).lookup(p) == if p == data.position {
                    Some(data.data)
                } else {
                    old(self).lookup(p)
                },
            final(self).leaf_count() == old(self).leaf_count() + 1,
            final(self).node_count() == old(self).node_count(),
    {
        let ghost leaf = data;
        *self.quadrant_mut(quadrant) = Some(TreeNode::Point(data));
        proof {
            let v = Some(TreeNode::Point(leaf));
            assert(*self == old(self).with_slot(*quadrant, v));
            lemma_with_slot(*old(self), *quadrant, v);
            Self::lemma_inserted(*old(self), *self, *quadrant, v, leaf);
        }
    }

    /// Stores a leaf in the child node that holds the slot of its quadrant.
    fn descend(&mut self, quadrant: &Quadrant, data: Spatial<T>)
        requires
            old(self).wf(),
            old(self).bounds.quadrant_of(data.position) == Some(*quadrant),
            old(self).slot(*quadrant) matches Some(TreeNode::Node(_)),
            old(self).lookup(data.position) is None,
        ensures
            final(self).wf(),
            final(self).bounds == old(self).bounds,
            forall|p: Point|
                final(self).lookup(p) == if p == data.position {
                    Some(data.data)
                } else {
                    old(self).lookup(p)
                },
            final(self).leaf_count() == old(self).leaf_count() + 1,
            final(self).node_count() >= old(self).node_count(),
            old(self).slot(*quadrant) matches Some(TreeNode::Node(n)) && *final(self) == old(
                self,
            ).with_slot(*quadrant, Some(TreeNode::Node(Box::new(n.inserted(data))))),
        decreases old(self).extent(), 1nat,
    {
        let ghost before = *self;
        let ghost leaf = data;
        proof {
            lemma_quadrants_tile(before.bounds, data.position, *quadrant);
            lemma_with_slot(before, *quadrant, None);
        }
        if let Some(TreeNode::Node(mut node)) = self.quadrant_mut(quadrant).take() {
            let ghost child0 = *node;
            assert(before.slot(*quadrant) == Some(TreeNode::Node(Box::new(child0))));
            assert(child0.lookup(leaf.position) == before.lookup(leaf.position));
            node.insert(data);
            let ghost child1 = *node;
            *self.quadrant_mut(quadrant) = Some(TreeNode::Node(node));
            proof {
                let v = Some(TreeNode::Node(Box::new(child1)));
                assert(*self == before.with_slot(*quadrant, v));
                Self::lemma_descended(before, *quadrant, child0, child1, leaf);
                lemma_with_slot(before, *quadrant, v);
                Self::lemma_inserted(before, *self, *quadrant, v, leaf);
            }
        } else {
            assert(false);
        }
    }

    /// A child node that has taken a new leaf of its quadrant still fits
    /// into its slot, and the slot holds the leaf besides what it held.
    pub proof fn lemma_descended(
        before: Node<T>,
        q: Quadrant,
        child0: Node<T>,
        child1: Node<T>,
        leaf: Spatial<T>,
    )
        requires
            before.wf(),
            before.slot(q) == Some(TreeNode::Node(Box::new(child0))),
            before.bounds.quadrant_of(leaf.position) == Some(q),
            child1.wf(),
            child1.bounds == child0.bounds,
            forall|p: Point|
                child1.lookup(p) == if p == leaf.position {
                    Some(leaf.data)
                } else {
                    child0.lookup(p)
                },
        ensures
            slot_wf(Some(TreeNode::Node(Box::new(child1))), before.bounds, q),
            forall|p: Point|
                slot_lookup(Some(TreeNode::Node(Box::new(child1))), p) == if p == leaf.position {
                    Some(leaf.data)
                } else {
                    slot_lookup(before.slot(q), p)
                },
    {
        lemma_with_slot(before, q, None);
        let v = Some(TreeNode::Node(Box::new(child1)));
        assert forall|p: Point| #[trigger] child1.lookup(p) is Some implies before.bounds.quadrant_of(
            p,
        ) == Some(q) by {
            if p != leaf.position {
                assert(child0.lookup(p) is Some);
            }
        }
        assert forall|p: Point|
            slot_lookup(v, p) == if p == leaf.position {
                Some(leaf.data)
            } else {
                slot_lookup(before.slot(q), p)
            } by {
            assert(slot_lookup(v, p) == child1.lookup(p));
            assert(slot_lookup(before.slot(q), p) == child0.lookup(p));
        }
    }

    /// A node whose slot for the quadrant of a new leaf has changed so that
    /// it holds the leaf besides what it held, holds the leaf besides what
    /// the node held.
    pub proof fn lemma_inserted(
        before: Node<T>,
        after: Node<T>,
        q: Quadrant,
        v: Option<TreeNode<T>>,
        leaf: Spatial<T>,
    )
        requires
            after == before.with_slot(q, v),
            before.bounds.quadrant_of(leaf.position) == Some(q),
            forall|p: Point|
                slot_lookup(v, p) == if p == leaf.position {
                    Some(leaf.data)
                } else {
                    slot_lookup(before.slot(q), p)
                },
        ensures
            forall|p: Point|
                after.lookup(p) == if p == leaf.position {
                    Some(leaf.data)
                } else {
                    before.lookup(p)
                },
    {
        lemma_with_slot(before, q, v);
        assert forall|p: Point|
            after.lookup(p) == if p == leaf.position {
                Some(leaf.data)
            } else {
                before.lookup(p)
            } by {
            if before.bounds.quadrant_of(p) == Some(q) {
                assert(before.lookup(p) == slot_lookup(before.slot(q), p));
                assert(after.lookup(p) == slot_lookup(v, p));
            }
        }
    }

    /// Taking out what is held under `p` changes the slot of the quadrant of
    /// `p` and nothing else.
    pub proof fn lemma_without_slot(node: Node<T>, p: Point)
        ensures
            match node.bounds.quadrant_of(p) {
                None => node.without(p) == node,
                Some(q) => node.without(p) == node.with_slot(q, slot_without(node.slot(q), p)),
            },
    {
    }

    /// A node whose slot for the quadrant of `pt` has changed so that it
    /// holds what it held but for `pt`, holds what the node held but for
    /// `pt`.
    pub proof fn lemma_removed(
        before: Node<T>,
        after: Node<T>,
        q: Quadrant,
        v: Option<TreeNode<T>>,
        pt: Point,
    )
        requires
            after == before.with_slot(q, v),
            before.bounds.quadrant_of(pt) == Some(q),
            forall|p: Point|
                slot_lookup(v, p) == if p == pt {
                    None
                } else {
                    slot_lookup(before.slot(q), p)
                },
        ensures
            forall|p: Point|
                after.lookup(p) == if p == pt {
                    None
                } else {
                    before.lookup(p)
                },
    {
        lemma_with_slot(before, q, v);
        assert forall|p: Point|
            after.lookup(p) == if p == pt {
                None
            } else {
                before.lookup(p)
            } by {
            if before.bounds.quadrant_of(p) == Some(q) {
                assert(before.lookup(p) == slot_lookup(before.slot(q), p));
                assert(after.lookup(p) == slot_lookup(v, p));
            }
        }
    }

    /// Takes the payload stored under `pt` out of the subtree. The nodes
    /// stay as they are, also where one is left without a leaf.
    pub fn remove(&mut self, pt: &Point) -> (r: Option<T>)
        requires
            old(self).wf(),
        ensures
            final(self).wf(),
            final(self).bounds == old(self).bounds,
            r == old(self).lookup(*pt),
            forall|p: Point|
                final(self).lookup(p) == if p == *pt {
                    None
                } else {
                    old(self).lookup(p)
                },
            final(self)@ == old(self)@.remove(*pt),
            final(self).leaf_count() + (if r is Some { 1nat } else { 0nat }) == old(self).leaf_count(),
            final(self).node_count() == old(self).node_count(),
            *final(self) == old(self).without(*pt),
        decreases old(self).extent(),
    {
        let ghost before = *self;
        proof {
            Self::lemma_without_slot(before, *pt);
        }
        let r = if let Some(quadrant) = self.bounds.find_quadrant(pt) {
            proof {
                lemma_quadrants_tile(before.bounds, *pt, quadrant);
                lemma_with_slot(before, quadrant, None);
            }
            match self.quadrant_mut(&quadrant).take() {
                None => {
                    assert(*self == before);
                    proof {
                        Self::lemma_removed(before, *self, quadrant, None, *pt);
                    }
                    None
                },
                Some(TreeNode::Node(mut node)) => {
                    let ghost child0 = *node;
                    let t = node.remove(pt);
                    let ghost child1 = *node;
                    *self.quadrant_mut(&quadrant) = Some(TreeNode::Node(node));
                    proof {
                        let v = Some(TreeNode::Node(Box::new(child1)));
                        assert(before.slot(quadrant) == Some(TreeNode::Node(Box::new(child0))));
                        assert(*self == before.with_slot(quadrant, v));
                        assert(slot_wf(v, before.bounds, quadrant));
                        lemma_with_slot(before, quadrant, v);
                        assert forall|p: Point|
                            slot_lookup(v, p) == if p == *pt {
                                None
                            } else {
                                slot_lookup(before.slot(quadrant), p)
                            } by {
                            assert(slot_lookup(v, p) == child1.lookup(p));
                            assert(slot_lookup(before.slot(quadrant), p) == child0.lookup(p));
                        }
                        Self::lemma_removed(before, *self, quadrant, v, *pt);
                    }
                    t
                },
                Some(TreeNode::Point(data)) => {
                    if data.position == *pt {
                        proof {
                            assert(*self == before.with_slot(quadrant, None));
                            Self::lemma_removed(before, *self, quadrant, None, *pt);
                        }
                        Some(data.consume())
                    } else {
                        *self.quadrant_mut(&quadrant) = Some(TreeNode::Point(data));
                        proof {
                            assert(*self == before);
                            Self::lemma_removed(before, *self, quadrant, before.slot(quadrant), *pt);
                        }
                        None
                    }
                },
            }
        } else {
            None
        };
        proof {
            assert(self@ =~= before@.remove(*pt));
        }
        r
    }

    /// Whether all four slots are empty.
    pub fn is_empty(&self) -> (r: bool)
        ensures
            r == self.is_vacant(),
    {
        self.bottom_left.is_none() && self.bottom_right.is_none() && self.top_right.is_none()
            && self.top_left.is_none()
    }
}

} // verus!
