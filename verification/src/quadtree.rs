use crate::laws::{
    distinct_positions, fetch, lemma_counts, lemma_drained, lemma_fetch_absent, lemma_size,
};
use crate::node::{Node, Spatial};
use crate::point::Point;
use crate::rectangle::Rectangle;
use crate::walk::deref_all;
use vstd::prelude::*;

verus! {

/// A quadtree: payloads of type `T`, each stored under one position inside
/// the bounds of the tree.
pub struct QuadTree<T> {
    pub root: Node<T>,
    pub bounds: Rectangle,
}

/// The subtree that holds, besides what `node` holds, the first `k` of
/// `leaves`, stored one after the other.
pub open spec fn refilled<T>(node: Node<T>, leaves: Seq<Spatial<T>>, k: nat) -> Node<T>
    decreases k,
{
    if k == 0 || k > leaves.len() {
        node
    } else {
        refilled(node, leaves, (k - 1) as nat).inserted(leaves[k - 1])
    }
}

/// The payloads of a sequence of leaves.
pub open spec fn payloads<T>(s: Seq<Spatial<T>>) -> Seq<T> {
    Seq::new(s.len(), |i: int| s[i].data)
}

/// The positions of a sequence of leaves.
pub open spec fn positions<T>(s: Seq<Spatial<T>>) -> Seq<Point> {
    Seq::new(s.len(), |i: int| s[i].position)
}

impl<T> QuadTree<T> {
    /// The tree is well formed: the root is, it covers the bounds of the
    /// tree, and these lie within the limit around the origin.
    pub open spec fn wf(self) -> bool {
        &&& self.root.wf()
        &&& self.root.bounds == self.bounds
        &&& self.bounds.in_plane()
    }

    /// The tree as a map from positions to payloads.
    pub open spec fn view(self) -> Map<Point, T> {
        self.root@
    }

    /// The payload stored under `p`, if any.
    pub open spec fn get(self, p: Point) -> Option<T> {
        self.root.lookup(p)
    }

    /// Creates an empty tree over `bounds`.
    pub fn new_bounded(bounds: &Rectangle) -> (tree: QuadTree<T>)
        requires
            bounds.in_plane(),
        ensures
            tree.wf(),
            tree.bounds == *bounds,
            tree@ == Map::<Point, T>::empty(),
            tree.root == Node::<T>::vacant(*bounds),
    {
        let tree = QuadTree { root: Node::new_bounded(bounds), bounds: *bounds };
        assert(tree@ =~= Map::<Point, T>::empty());
        tree
    }

    /// Stores `data` under `position`, unless the position lies outside the
    /// bounds or is taken. Says whether it stored the payload.
    pub fn insert(&mut self, data: T, position: Point) -> (stored: bool)
        requires
            old(self).wf(),
        ensures
            final(self).wf(),
            final(self).bounds == old(self).bounds,
            stored == (old(self).bounds.contains(position) && !old(self)@.contains_key(position)),
            stored ==> final(self)@ == old(self)@.insert(position, data),
            stored ==> final(self).root == old(self).root.inserted((Spatial { data, position })),
            stored ==> final(self).root.leaf_count() == old(self).root.leaf_count() + 1,
            !stored ==> *final(self) == *old(self),
    {
        if self.bounds.find_quadrant(&position).is_none() {
            return false;
        }
        if self.contains(position) {
            return false;
        }
        self.root.insert(Spatial::new(data, position));
        true
    }

    /// Stores `data` under `position` without looking first: the position
    /// lies inside the bounds and is free.
    pub fn insert_unchecked(&mut self, data: T, position: Point)
        requires
            old(self).wf(),
            old(self).bounds.contains(position),
            !old(self)@.contains_key(position),
        ensures
            final(self).wf(),
            final(self).bounds == old(self).bounds,
            final(self)@ == old(self)@.insert(position, data),
            final(self).root == old(self).root.inserted((Spatial { data, position })),
            final(self).root.leaf_count() == old(self).root.leaf_count() + 1,
    {
        self.root.insert(Spatial::new(data, position))
    }

    /// Stores a leaf whose position lies inside the bounds and is free.
    fn insert_unchecked_spatial(&mut self, spatial: Spatial<T>)
        requires
            old(self).wf(),
            old(self).bounds.contains(spatial.position),
            old(self).get(spatial.position) is None,
        ensures
            final(self).wf(),
            final(self).bounds == old(self).bounds,
            forall|p: Point|
                final(self).get(p) == if p == spatial.position {
                    Some(spatial.data)
                } else {
                    old(self).get(p)
                },
            final(self).root == old(self).root.inserted(spatial),
            final(self).root.leaf_count() == old(self).root.leaf_count() + 1,
    {
        self.root.insert(spatial)
    }

    /// Takes the payload stored under `pt` out of the tree.
    pub fn remove(&mut self, pt: Point) -> (r: Option<T>)
        requires
            old(self).wf(),
        ensures
            final(self).wf(),
            final(self).bounds == old(self).bounds,
            r == old(self).get(pt),
            final(self)@ == old(self)@.remove(pt),
            final(self).root == old(self).root.without(pt),
            final(self).root.leaf_count() + (if r is Some { 1nat } else { 0nat })
                == old(self).root.leaf_count(),
            final(self).root.node_count() == old(self).root.node_count(),
    {
        self.root.remove(&pt)
    }

    /// Puts `data` in the place of the payload stored under `position` and
    /// hands out the old payload. Where nothing is stored there, the tree
    /// stays as it is and `data` is dropped.
    pub fn replace(&mut self, data: T, position: Point) -> (r: Option<T>)
        requires
            old(self).wf(),
        ensures
            final(self).wf(),
            final(self).bounds == old(self).bounds,
            r == old(self).get(position),
            r is Some ==> final(self)@ == old(self)@.insert(position, data),
            r is Some ==> final(self).root == old(self).root.without(position).inserted(
                (Spatial { data, position }),
            ),
            r is None ==> final(self)@ == old(self)@,
            r is None ==> final(self).root == old(self).root.without(position),
            final(self).root.leaf_count() == old(self).root.leaf_count(),
    {
        match self.remove(position) {
            None => {
                assert(self@ =~= old(self)@);
                None
            },
            Some(t) => {
                self.insert(data, position);
                assert(self@ =~= old(self)@.insert(position, data));
                Some(t)
            },
        }
    }

    /// Makes the tree as small as its payloads allow: takes every leaf out,
    /// which drops all child nodes, and stores each again. What the tree
    /// holds stays; the nodes that removals left behind are gone.
    pub fn shrink(&mut self)
        requires
            old(self).wf(),
        ensures
            final(self).wf(),
            final(self).bounds == old(self).bounds,
            final(self)@ == old(self)@,
            forall|p: Point| final(self).get(p) == old(self).get(p),
            final(self).root.leaf_count() == old(self).root.leaf_count(),
            final(self).root == refilled(
                Node::<T>::vacant(old(self).bounds),
                old(self).root.drained(),
                old(self).root.drained().len(),
            ),
    {
        proof {
            lemma_drained(self.root);
        }
        let leaves = self.root.collapse();
        let ghost all = leaves@;
        assert(forall|p: Point| self.get(p) is None);
        assert(all.take(0) =~= Seq::<Spatial<T>>::empty());
        for leaf in it: leaves
            invariant
                self.wf(),
                self.bounds == old(self).bounds,
                it.seq() == all,
                all == old(self).root.drained(),
                distinct_positions(all),
                forall|i: int| 0 <= i < all.len() ==> self.bounds.contains((#[trigger] all[i]).position),
                forall|p: Point| self.get(p) == fetch(all.take(it.index() as int), p),
                self.root.leaf_count() == it.index(),
                self.root == refilled(Node::<T>::vacant(self.bounds), all, it.index() as nat),
        {
            let ghost i = it.index() as int;
            proof {
                assert(leaf == all[i]);
                assert forall|j: int| 0 <= j < all.take(i).len() implies (#[trigger] all.take(
                    i,
                )[j]).position != leaf.position by {
                    assert(all.take(i)[j] == all[j]);
                }
                lemma_fetch_absent(all.take(i), leaf.position);
                assert(all.take(i + 1).drop_last() =~= all.take(i));
                assert(all.take(i + 1).last() == leaf);
            }
            self.insert_unchecked_spatial(leaf);
        }
        proof {
            assert(all.take(all.len() as int) =~= all);
            assert forall|p: Point| self.root.lookup(p) == old(self).root.lookup(p) by {
                assert(self.get(p) == fetch(all, p));
            }
            assert(self@ =~= old(self)@);
        }
    }

    /// Whether a payload is stored under `pt`.
    pub fn contains(&self, pt: Point) -> (r: bool)
        requires
            self.wf(),
        ensures
            r == self@.contains_key(pt),
    {
        match self.root.find(&pt) {
            None => false,
            Some(_) => true,
        }
    }

    /// Finds the payload stored under `pt`.
    pub fn find_exact(&self, pt: Point) -> (r: Option<&T>)
        requires
            self.wf(),
        ensures
            match r {
                Some(t) => self@.contains_key(pt) && self@[pt] == *t,
                None => !self@.contains_key(pt),
            },
    {
        match self.root.find(&pt) {
            None => None,
            Some(t) => Some(t),
        }
    }

    /// Finds the payloads stored under the positions in `bounds`, as far as
    /// the range query of the root leads to them.
    pub fn find_in_bounds(&self, bounds: &Rectangle) -> (r: Option<Vec<&T>>)
        requires
            self.wf(),
            bounds.valid(),
        ensures
            match r {
                Some(found) => self.root.query(*bounds) is Some && deref_all(found@) == payloads(
                    self.root.query(*bounds)->0,
                ),
                None => self.root.query(*bounds) is None,
            },
    {
        if let Some(data) = self.root.find_in_bounds(bounds) {
            let mut out: Vec<&T> = Vec::new();
            let mut i: usize = 0;
            while i < data.len()
                invariant
                    i <= data.len(),
                    out@.len() == i,
                    forall|j: int| 0 <= j < i ==> *out@[j] == data@[j].data,
                decreases data.len() - i,
            {
                out.push(&data[i].data);
                i = i + 1;
            }
            assert(deref_all(out@) =~= payloads(deref_all(data@)));
            Some(out)
        } else {
            None
        }
    }

    /// Finds the stored positions in `bounds`, as far as the range query of
    /// the root leads to them.
    pub fn find_in_bounds_positions(&self, bounds: &Rectangle) -> (r: Option<Vec<Point>>)
        requires
            self.wf(),
            bounds.valid(),
        ensures
            match r {
                Some(found) => self.root.query(*bounds) is Some && found@ == positions(
                    self.root.query(*bounds)->0,
                ),
                None => self.root.query(*bounds) is None,
            },
    {
        if let Some(data) = self.root.find_in_bounds(bounds) {
            let mut out: Vec<Point> = Vec::new();
            let mut i: usize = 0;
            while i < data.len()
                invariant
                    i <= data.len(),
                    out@.len() == i,
                    forall|j: int| 0 <= j < i ==> out@[j] == data@[j].position,
                decreases data.len() - i,
            {
                out.push(data[i].position);
                i = i + 1;
            }
            assert(out@ =~= positions(deref_all(data@)));
            Some(out)
        } else {
            None
        }
    }

    /// The number of nodes of the tree, the root included.
    pub fn node_count(&self) -> (n: usize)
        requires
            self.wf(),
        ensures
            n == self.root.node_count(),
    {
        proof {
            lemma_counts(self.root);
        }
        let boxes = self.root.aabbs();
        assert(boxes@.len() == deref_all(boxes@).len());
        boxes.len()
    }

    /// The bounds of all nodes of the tree, each node before its children.
    pub fn aabbs(&self) -> (r: Vec<&Rectangle>)
        requires
            self.wf(),
        ensures
            deref_all(r@) == self.root.boxes(),
    {
        self.root.aabbs()
    }

    /// The number of payloads stored in the tree.
    pub fn len(&self) -> (n: usize)
        requires
            self.wf(),
        ensures
            n == self@.dom().len(),
            n == self.root.leaf_count(),
    {
        proof {
            lemma_counts(self.root);
            lemma_size(self.root);
        }
        let leaves = self.root.data_children();
        assert(leaves@.len() == deref_all(leaves@).len());
        leaves.len()
    }

    /// The positions of all payloads: those of the leaves of a node first,
    /// then those of each child node.
    pub fn iter_positions(&self) -> (r: Vec<&Point>)
        requires
            self.wf(),
        ensures
            deref_all(r@) == positions(self.root.leaves()),
    {
        let data = self.root.data_children();
        let mut out: Vec<&Point> = Vec::new();
        let mut i: usize = 0;
        while i < data.len()
            invariant
                i <= data.len(),
                out@.len() == i,
                forall|j: int| 0 <= j < i ==> *out@[j] == data@[j].position,
            decreases data.len() - i,
        {
            out.push(&data[i].position);
            i = i + 1;
        }
        assert(deref_all(out@) =~= positions(deref_all(data@)));
        out
    }

    /// All payloads: those of the leaves of a node first, then those of each
    /// child node.
    pub fn iter_data(&self) -> (r: Vec<&T>)
        requires
            self.wf(),
        ensures
            deref_all(r@) == payloads(self.root.leaves()),
    {
        let data = self.root.data_children();
        let mut out: Vec<&T> = Vec::new();
        let mut i: usize = 0;
        while i < data.len()
            invariant
                i <= data.len(),
                out@.len() == i,
                forall|j: int| 0 <= j < i ==> *out@[j] == data@[j].data,
            decreases data.len() - i,
        {
            out.push(&data[i].data);
            i = i + 1;
        }
        assert(deref_all(out@) =~= payloads(deref_all(data@)));
        out
    }
}

} // verus!
