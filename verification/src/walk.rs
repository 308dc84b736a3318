use crate::laws::lemma_shrunk;
use crate::node::{Node, Spatial, TreeNode};
use crate::rectangle::Rectangle;
use vstd::prelude::*;

verus! {

/// The values behind a sequence of references.
pub open spec fn deref_all<A>(r: Seq<&A>) -> Seq<A> {
    Seq::new(r.len(), |i: int| *r[i])
}

/// The leaf that a slot holds itself, if any.
pub open spec fn slot_own<T>(slot: Option<TreeNode<T>>) -> Seq<Spatial<T>> {
    match slot {
        Some(TreeNode::Point(s)) => seq![s],
        _ => Seq::empty(),
    }
}

/// The child node that a slot holds, if any.
pub open spec fn slot_child<T>(slot: Option<TreeNode<T>>) -> Seq<Node<T>> {
    match slot {
        Some(TreeNode::Node(n)) => seq![*n],
        _ => Seq::empty(),
    }
}

/// The leaves of the child node that a slot holds.
pub open spec fn slot_leaves<T>(slot: Option<TreeNode<T>>) -> Seq<Spatial<T>>
    decreases slot,
{
    match slot {
        Some(TreeNode::Node(n)) => n.leaves(),
        _ => Seq::empty(),
    }
}

/// The nodes below the child node that a slot holds.
pub open spec fn slot_descendants<T>(slot: Option<TreeNode<T>>) -> Seq<Node<T>>
    decreases slot,
{
    match slot {
        Some(TreeNode::Node(n)) => n.descendants(),
        _ => Seq::empty(),
    }
}

/// The bounds of the nodes in and below a slot, each node before its
/// children.
pub open spec fn slot_boxes<T>(slot: Option<TreeNode<T>>) -> Seq<Rectangle>
    decreases slot,
{
    match slot {
        Some(TreeNode::Node(n)) => n.boxes(),
        _ => Seq::empty(),
    }
}

/// All leaves in and below a slot, in the order in which a walk through the
/// slots meets them.
pub open spec fn slot_drained<T>(slot: Option<TreeNode<T>>) -> Seq<Spatial<T>>
    decreases slot,
{
    match slot {
        None => Seq::empty(),
        Some(TreeNode::Point(s)) => seq![s],
        Some(TreeNode::Node(n)) => n.drained(),
    }
}

/// A slot after one pass of shrinking: a child node without any filled slot
/// is gone, another child node is shrunk itself, a leaf stays.
pub open spec fn slot_shrunk<T>(slot: Option<TreeNode<T>>) -> Option<TreeNode<T>>
    decreases slot,
{
    match slot {
        Some(TreeNode::Node(n)) => if n.is_vacant() {
            None
        } else {
            Some(TreeNode::Node(Box::new(n.shrunk())))
        },
        _ => slot,
    }
}

impl<T> Node<T> {
    /// The leaves that the node holds in its own slots, in the order of the
    /// slots.
    pub open spec fn own_leaves(self) -> Seq<Spatial<T>> {
        slot_own(self.bottom_left) + slot_own(self.bottom_right) + slot_own(self.top_right)
            + slot_own(self.top_left)
    }

    /// The child nodes in the order of the slots.
    pub open spec fn children(self) -> Seq<Node<T>> {
        slot_child(self.bottom_left) + slot_child(self.bottom_right) + slot_child(self.top_right)
            + slot_child(self.top_left)
    }

    /// All leaves of the subtree: the node's own leaves first, then those of
    /// each child node in the order of the slots.
    pub open spec fn leaves(self) -> Seq<Spatial<T>>
        decreases self,
    {
        self.own_leaves() + slot_leaves(self.bottom_left) + slot_leaves(self.bottom_right)
            + slot_leaves(self.top_right) + slot_leaves(self.top_left)
    }

    /// All nodes below this one: the child nodes first, then what lies below
    /// each of them in the order of the slots.
    pub open spec fn descendants(self) -> Seq<Node<T>>
        decreases self,
    {
        self.children() + slot_descendants(self.bottom_left) + slot_descendants(self.bottom_right)
            + slot_descendants(self.top_right) + slot_descendants(self.top_left)
    }

    /// The bounds of all nodes of the subtree, each node before its children.
    pub open spec fn boxes(self) -> Seq<Rectangle>
        decreases self,
    {
        seq![self.bounds] + slot_boxes(self.bottom_left) + slot_boxes(self.bottom_right)
            + slot_boxes(self.top_right) + slot_boxes(self.top_left)
    }

    /// All leaves of the subtree in the order in which a walk through the
    /// slots meets them.
    pub open spec fn drained(self) -> Seq<Spatial<T>>
        decreases self,
    {
        slot_drained(self.bottom_left) + slot_drained(self.bottom_right) + slot_drained(
            self.top_right,
        ) + slot_drained(self.top_left)
    }

    /// The node after one pass of shrinking.
    pub open spec fn shrunk(self) -> Node<T>
        decreases self,
    {
        Node {
            bottom_left: slot_shrunk(self.bottom_left),
            bottom_right: slot_shrunk(self.bottom_right),
            top_right: slot_shrunk(self.top_right),
            top_left: slot_shrunk(self.top_left),
            bounds: self.bounds,
        }
    }

    /// The four slots in the order bottom left, bottom right, top right,
    /// top left.
    pub fn quadrants(&self) -> (r: [&Option<TreeNode<T>>; 4])
        ensures
            *r[0] == self.bottom_left,
            *r[1] == self.bottom_right,
            *r[2] == self.top_right,
            *r[3] == self.top_left,
    {
        [&self.bottom_left, &self.bottom_right, &self.top_right, &self.top_left]
    }

    /// The leaves that the node holds in its own slots.
    pub fn data(&self) -> (r: Vec<&Spatial<T>>)
        ensures
            deref_all(r@) == self.own_leaves(),
    {
        let mut out: Vec<&Spatial<T>> = Vec::new();
        if let Some(TreeNode::Point(s)) = &self.bottom_left {
            out.push(s);
        }
        assert(deref_all(out@) =~= slot_own(self.bottom_left));
        if let Some(TreeNode::Point(s)) = &self.bottom_right {
            out.push(s);
        }
        assert(deref_all(out@) =~= slot_own(self.bottom_left) + slot_own(self.bottom_right));
        if let Some(TreeNode::Point(s)) = &self.top_right {
            out.push(s);
        }
        assert(deref_all(out@) =~= slot_own(self.bottom_left) + slot_own(self.bottom_right)
            + slot_own(self.top_right));
        if let Some(TreeNode::Point(s)) = &self.top_left {
            out.push(s);
        }
        assert(deref_all(out@) =~= self.own_leaves());
        out
    }

    /// The child nodes of the node.
    pub fn nodes(&self) -> (r: Vec<&Node<T>>)
        ensures
            deref_all(r@) == self.children(),
    {
        let mut out: Vec<&Node<T>> = Vec::new();
        if let Some(TreeNode::Node(n)) = &self.bottom_left {
            out.push(&**n);
        }
        assert(deref_all(out@) =~= slot_child(self.bottom_left));
        if let Some(TreeNode::Node(n)) = &self.bottom_right {
            out.push(&**n);
        }
        assert(deref_all(out@) =~= slot_child(self.bottom_left) + slot_child(self.bottom_right));
        if let Some(TreeNode::Node(n)) = &self.top_right {
            out.push(&**n);
        }
        assert(deref_all(out@) =~= slot_child(self.bottom_left) + slot_child(self.bottom_right)
            + slot_child(self.top_right));
        if let Some(TreeNode::Node(n)) = &self.top_left {
            out.push(&**n);
        }
        assert(deref_all(out@) =~= self.children());
        out
    }

    /// The number of leaves that the node holds in its own slots, four at
    /// most.
    pub fn data_count(&self) -> (r: u8)
        ensures
            r == self.own_leaves().len(),
            r <= 4,
    {
        let out = self.data();
        assert(out@.len() == deref_all(out@).len());
        out.len() as u8
    }

    /// All leaves of the subtree: the node's own first, then those of each
    /// child node.
    pub fn data_children(&self) -> (r: Vec<&Spatial<T>>)
        requires
            self.wf(),
        ensures
            deref_all(r@) == self.leaves(),
        decreases self.extent(),
    {
        let mut out = self.data();
        if let Some(TreeNode::Node(n)) = &self.bottom_left {
            let mut sub = n.data_children();
            let ghost a = out@;
            let ghost b = sub@;
            out.append(&mut sub);
            assert(deref_all(out@) =~= deref_all(a) + deref_all(b));
        }
        if let Some(TreeNode::Node(n)) = &self.bottom_right {
            let mut sub = n.data_children();
            let ghost a = out@;
            let ghost b = sub@;
            out.append(&mut sub);
            assert(deref_all(out@) =~= deref_all(a) + deref_all(b));
        }
        if let Some(TreeNode::Node(n)) = &self.top_right {
            let mut sub = n.data_children();
            let ghost a = out@;
            let ghost b = sub@;
            out.append(&mut sub);
            assert(deref_all(out@) =~= deref_all(a) + deref_all(b));
        }
        if let Some(TreeNode::Node(n)) = &self.top_left {
            let mut sub = n.data_children();
            let ghost a = out@;
            let ghost b = sub@;
            out.append(&mut sub);
            assert(deref_all(out@) =~= deref_all(a) + deref_all(b));
        }
        assert(deref_all(out@) =~= self.leaves());
        out
    }

    /// All nodes below this one: the child nodes first, then what lies below
    /// each of them.
    pub fn node_children(&self) -> (r: Vec<&Node<T>>)
        requires
            self.wf(),
        ensures
            deref_all(r@) == self.descendants(),
        decreases self.extent(),
    {
        let mut out = self.nodes();
        if let Some(TreeNode::Node(n)) = &self.bottom_left {
            let mut sub = n.node_children();
            let ghost a = out@;
            let ghost b = sub@;
            out.append(&mut sub);
            assert(deref_all(out@) =~= deref_all(a) + deref_all(b));
        }
        if let Some(TreeNode::Node(n)) = &self.bottom_right {
            let mut sub = n.node_children();
            let ghost a = out@;
            let ghost b = sub@;
            out.append(&mut sub);
            assert(deref_all(out@) =~= deref_all(a) + deref_all(b));
        }
        if let Some(TreeNode::Node(n)) = &self.top_right {
            let mut sub = n.node_children();
            let ghost a = out@;
            let ghost b = sub@;
            out.append(&mut sub);
            assert(deref_all(out@) =~= deref_all(a) + deref_all(b));
        }
        if let Some(TreeNode::Node(n)) = &self.top_left {
            let mut sub = n.node_children();
            let ghost a = out@;
            let ghost b = sub@;
            out.append(&mut sub);
            assert(deref_all(out@) =~= deref_all(a) + deref_all(b));
        }
        assert(deref_all(out@) =~= self.descendants());
        out
    }

    /// The bounds of all nodes of the subtree, each node before its children.
    pub fn aabbs(&self) -> (r: Vec<&Rectangle>)
        requires
            self.wf(),
        ensures
            deref_all(r@) == self.boxes(),
        decreases self.extent(),
    {
        let mut out: Vec<&Rectangle> = Vec::new();
        out.push(&self.bounds);
        assert(deref_all(out@) =~= seq![self.bounds]);
        if let Some(TreeNode::Node(n)) = &self.bottom_left {
            let mut sub = n.aabbs();
            let ghost a = out@;
            let ghost b = sub@;
            out.append(&mut sub);
            assert(deref_all(out@) =~= deref_all(a) + deref_all(b));
        }
        if let Some(TreeNode::Node(n)) = &self.bottom_right {
            let mut sub = n.aabbs();
            let ghost a = out@;
            let ghost b = sub@;
            out.append(&mut sub);
            assert(deref_all(out@) =~= deref_all(a) + deref_all(b));
        }
        if let Some(TreeNode::Node(n)) = &self.top_right {
            let mut sub = n.aabbs();
            let ghost a = out@;
            let ghost b = sub@;
            out.append(&mut sub);
            assert(deref_all(out@) =~= deref_all(a) + deref_all(b));
        }
        if let Some(TreeNode::Node(n)) = &self.top_left {
            let mut sub = n.aabbs();
            let ghost a = out@;
            let ghost b = sub@;
            out.append(&mut sub);
            assert(deref_all(out@) =~= deref_all(a) + deref_all(b));
        }
        assert(deref_all(out@) =~= self.boxes());
        out
    }

    /// Takes every leaf out of the subtree and hands them out; the child
    /// nodes are dropped on the way, and the node is left with four empty
    /// slots.
    pub fn collapse(&mut self) -> (r: Vec<Spatial<T>>)
        requires
            old(self).wf(),
        ensures
            r@ == old(self).drained(),
            *final(self) == Self::vacant(old(self).bounds),
        decreases old(self).extent(),
    {
        let mut data: Vec<Spatial<T>> = Vec::new();
        match self.bottom_left.take() {
            None => {},
            Some(TreeNode::Point(pt)) => data.push(pt),
            Some(TreeNode::Node(mut node)) => {
                let mut sub = node.collapse();
                data.append(&mut sub);
            },
        }
        assert(data@ =~= slot_drained(old(self).bottom_left));
        match self.bottom_right.take() {
            None => {},
            Some(TreeNode::Point(pt)) => data.push(pt),
            Some(TreeNode::Node(mut node)) => {
                let mut sub = node.collapse();
                data.append(&mut sub);
            },
        }
        assert(data@ =~= slot_drained(old(self).bottom_left) + slot_drained(
            old(self).bottom_right,
        ));
        match self.top_right.take() {
            None => {},
            Some(TreeNode::Point(pt)) => data.push(pt),
            Some(TreeNode::Node(mut node)) => {
                let mut sub = node.collapse();
                data.append(&mut sub);
            },
        }
        assert(data@ =~= slot_drained(old(self).bottom_left) + slot_drained(
            old(self).bottom_right,
        ) + slot_drained(old(self).top_right));
        match self.top_left.take() {
            None => {},
            Some(TreeNode::Point(pt)) => data.push(pt),
            Some(TreeNode::Node(mut node)) => {
                let mut sub = node.collapse();
                data.append(&mut sub);
            },
        }
        assert(data@ =~= old(self).drained());
        data
    }

    /// Drops every child node that has no filled slot, and shrinks the other
    /// child nodes in the same way. A child node that is left without a
    /// filled slot by this pass stays until the next.
    pub fn shrink_children(&mut self)
        requires
            old(self).wf(),
        ensures
            *final(self) == old(self).shrunk(),
            final(self).wf(),
            final(self).bounds == old(self).bounds,
            final(self)@ == old(self)@,
            final(self).leaf_count() == old(self).leaf_count(),
            final(self).node_count() <= old(self).node_count(),
        decreases old(self).extent(),
    {
        proof {
            lemma_shrunk(*old(self));
        }
        match self.bottom_left.take() {
            Some(TreeNode::Node(mut node)) => {
                if !node.is_empty() {
                    node.shrink_children();
                    self.bottom_left = Some(TreeNode::Node(node));
                }
            },
            other => {
                self.bottom_left = other;
            },
        }
        match self.bottom_right.take() {
            Some(TreeNode::Node(mut node)) => {
                if !node.is_empty() {
                    node.shrink_children();
                    self.bottom_right = Some(TreeNode::Node(node));
                }
            },
            other => {
                self.bottom_right = other;
            },
        }
        match self.top_right.take() {
            Some(TreeNode::Node(mut node)) => {
                if !node.is_empty() {
                    node.shrink_children();
                    self.top_right = Some(TreeNode::Node(node));
                }
            },
            other => {
                self.top_right = other;
            },
        }
        match self.top_left.take() {
            Some(TreeNode::Node(mut node)) => {
                if !node.is_empty() {
                    node.shrink_children();
                    self.top_left = Some(TreeNode::Node(node));
                }
            },
            other => {
                self.top_left = other;
            },
        }
    }
}

} // verus!
