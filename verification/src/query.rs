use crate::node::{lemma_with_slot, Node, Spatial, TreeNode};
use crate::point::Point;
use crate::rectangle::{
    lemma_quadrants_tile, Quadrant, Rectangle, RectangleRelation, PLANE_LIMIT,
};
use crate::walk::deref_all;
use vstd::prelude::*;

verus! {

/// What is added to the distance that bounds a nearest-neighbour search: a
/// tenth of a unit.
pub const SEARCH_MARGIN: u64 = 100;

/// The leaf of a slot, if the slot holds one and `area` holds its position.
pub open spec fn slot_matching<T>(slot: Option<TreeNode<T>>, area: Rectangle) -> Seq<Spatial<T>> {
    match slot {
        Some(TreeNode::Point(s)) => if area.contains(s.position) {
            seq![s]
        } else {
            Seq::empty()
        },
        _ => Seq::empty(),
    }
}

/// What a range query finds in the child node of a slot.
pub open spec fn slot_below<T>(slot: Option<TreeNode<T>>, area: Rectangle) -> Seq<Spatial<T>>
    decreases slot,
{
    match slot {
        Some(TreeNode::Node(n)) => match n.query(area) {
            Some(found) => found,
            None => Seq::empty(),
        },
        _ => Seq::empty(),
    }
}

/// `s` with `q` added at its end, unless `q` is none or already in `s`.
pub open spec fn push_unique(s: Seq<Quadrant>, q: Option<Quadrant>) -> Seq<Quadrant> {
    match q {
        Some(q) => if s.contains(q) {
            s
        } else {
            s.push(q)
        },
        None => s,
    }
}

/// The quadrants of `bounds` in which the corners of `area` lie, each once,
/// in the order of the corners.
pub open spec fn touched_quadrants(bounds: Rectangle, area: Rectangle) -> Seq<Quadrant> {
    let c = area.corner_points();
    push_unique(
        push_unique(
            push_unique(push_unique(Seq::empty(), bounds.quadrant_of(c[0])), bounds.quadrant_of(c[1])),
            bounds.quadrant_of(c[2]),
        ),
        bounds.quadrant_of(c[3]),
    )
}

/// The distance that bounds the search where the walk towards `p` ends at
/// this slot of a node with the given bounds.
pub open spec fn slot_reach<T>(slot: Option<TreeNode<T>>, bounds: Rectangle, p: Point) -> Option<int>
    decreases slot,
{
    match slot {
        None => Some(p.coordinate_distance_spec(bounds.farthest_corner(p)) + SEARCH_MARGIN),
        Some(TreeNode::Point(s)) => Some(p.coordinate_distance_spec(s.position) + SEARCH_MARGIN),
        Some(TreeNode::Node(n)) => n.reach(p),
    }
}

impl Rectangle {
    /// The corner that lies farthest from `p` by Euclidean distance; among
    /// corners equally far, the last one in the order of the corners.
    pub open spec fn farthest_corner(self, p: Point) -> Point {
        let c = self.corner_points();
        farther(farther(farther(c[0], c[1], p), c[2], p), c[3], p)
    }

    /// Finds the corner that lies farthest from `pt`.
    pub fn find_farthest_corner(&self, pt: &Point) -> (c: Point)
        requires
            self.valid(),
        ensures
            c == self.farthest_corner(*pt),
    {
        let corners = self.corners();
        let mut best: Point = corners[0];
        if corners[1].squared_distance(pt) >= best.squared_distance(pt) {
            best = corners[1];
        }
        if corners[2].squared_distance(pt) >= best.squared_distance(pt) {
            best = corners[2];
        }
        if corners[3].squared_distance(pt) >= best.squared_distance(pt) {
            best = corners[3];
        }
        best
    }
}

/// Of two points the one farther from `p`, the second where both are equally
/// far.
pub open spec fn farther(a: Point, b: Point, p: Point) -> Point {
    if b.squared_distance_spec(p) >= a.squared_distance_spec(p) {
        b
    } else {
        a
    }
}

/// The farthest corner is a corner, and no corner lies farther from `p`.
pub proof fn lemma_farthest_corner(r: Rectangle, p: Point)
    ensures
        r.corner_points().contains(r.farthest_corner(p)),
        forall|i: int|
            0 <= i < 4 ==> (#[trigger] r.corner_points()[i]).squared_distance_spec(p)
                <= r.farthest_corner(p).squared_distance_spec(p),
{
    let c = r.corner_points();
    let f = r.farthest_corner(p);
    assert(f == c[0] || f == c[1] || f == c[2] || f == c[3]);
}

impl<T> Node<T> {
    /// What a range query finds in or below the slot of quadrant `q`.
    pub open spec fn query_in(self, q: Quadrant, area: Rectangle) -> Seq<Spatial<T>>
        decreases self, 0nat,
    {
        match q {
            Quadrant::BottomLeft => slot_matching(self.bottom_left, area) + slot_below(
                self.bottom_left,
                area,
            ),
            Quadrant::BottomRight => slot_matching(self.bottom_right, area) + slot_below(
                self.bottom_right,
                area,
            ),
            Quadrant::TopRight => slot_matching(self.top_right, area) + slot_below(
                self.top_right,
                area,
            ),
            Quadrant::TopLeft => slot_matching(self.top_left, area) + slot_below(self.top_left, area),
        }
    }

    /// What a range query finds in or below the slots of the first `k`
    /// quadrants of `qs`.
    pub open spec fn gather(self, qs: Seq<Quadrant>, k: nat, area: Rectangle) -> Seq<Spatial<T>>
        decreases self, 1nat, k,
    {
        if k == 0 || k > qs.len() {
            Seq::empty()
        } else {
            self.gather(qs, (k - 1) as nat, area) + self.query_in(qs[k - 1], area)
        }
    }

    /// The result of a range query over `area`.
    ///
    /// The relation of the node's bounds to `area` decides. Disjoint: nothing
    /// is searched. Intersection: the node's own leaves that lie in `area`,
    /// then what the query finds in each child node. `area` holds the
    /// bounds: all leaves of the subtree. The bounds hold `area`: what the
    /// query finds in the quadrants that the corners of `area` touch.
    pub open spec fn query(self, area: Rectangle) -> Option<Seq<Spatial<T>>>
        decreases self, 2nat,
    {
        match self.bounds.relation_spec(area) {
            RectangleRelation::Disjoint => None,
            RectangleRelation::Intersection => Some(
                slot_matching(self.bottom_left, area) + slot_matching(self.bottom_right, area)
                    + slot_matching(self.top_right, area) + slot_matching(self.top_left, area)
                    + slot_below(self.bottom_left, area) + slot_below(self.bottom_right, area)
                    + slot_below(self.top_right, area) + slot_below(self.top_left, area),
            ),
            RectangleRelation::Containment(false) => Some(self.leaves()),
            RectangleRelation::Containment(true) => {
                let qs = touched_quadrants(self.bounds, area);
                Some(self.gather(qs, qs.len(), area))
            },
        }
    }

    /// The distance that bounds a nearest-neighbour search around `p`: the
    /// walk follows the quadrants of `p` downwards; at a leaf it takes the
    /// Chebyshev distance to the leaf, at an empty slot that to the farthest
    /// corner of the node, and adds the margin.
    pub open spec fn reach(self, p: Point) -> Option<int>
        decreases self,
    {
        match self.bounds.quadrant_of(p) {
            None => None,
            Some(Quadrant::BottomLeft) => slot_reach(self.bottom_left, self.bounds, p),
            Some(Quadrant::BottomRight) => slot_reach(self.bottom_right, self.bounds, p),
            Some(Quadrant::TopRight) => slot_reach(self.top_right, self.bounds, p),
            Some(Quadrant::TopLeft) => slot_reach(self.top_left, self.bounds, p),
        }
    }

    /// Computes the distance that bounds a nearest-neighbour search around
    /// `pt`; none where `pt` lies outside the bounds.
    pub fn minimum_coordinate_distance(&self, pt: &Point) -> (r: Option<u64>)
        requires
            self.wf(),
        ensures
            match r {
                Some(d) => self.reach(*pt) == Some(d as int),
                None => self.reach(*pt) is None,
            },
            r is Some == self.bounds.contains(*pt),
            r is Some && self.bounds.in_plane() ==> r->0 <= 2 * PLANE_LIMIT + SEARCH_MARGIN,
        decreases self.extent(),
    {
        match self.bounds.find_quadrant(pt) {
            None => None,
            Some(quadrant) => match self.quadrant(&quadrant) {
                None => {
                    let corner = self.bounds.find_farthest_corner(pt);
                    Some(pt.coordinate_distance(&corner) as u64 + SEARCH_MARGIN)
                },
                Some(TreeNode::Point(leaf)) => {
                    proof {
                        lemma_with_slot(*self, quadrant, None);
                    }
                    Some(pt.coordinate_distance(&leaf.position) as u64 + SEARCH_MARGIN)
                },
                Some(TreeNode::Node(node)) => {
                    proof {
                        lemma_quadrants_tile(self.bounds, *pt, quadrant);
                        lemma_with_slot(*self, quadrant, None);
                    }
                    node.minimum_coordinate_distance(pt)
                },
            },
        }
    }

    /// Adds the leaf of `slot` to `out` where `area` holds its position.
    fn push_matching<'a>(slot: &'a Option<TreeNode<T>>, area: &Rectangle, out: &mut Vec<&'a Spatial<T>>)
        ensures
            deref_all(final(out)@) == deref_all(old(out)@) + slot_matching(*slot, *area),
    {
        if let Some(TreeNode::Point(leaf)) = slot {
            if area.find_quadrant(&leaf.position).is_some() {
                out.push(leaf);
            }
        }
        assert(deref_all(out@) =~= deref_all(old(out)@) + slot_matching(*slot, *area));
    }

    /// Finds the leaves of the subtree that lie in `bounds`, as far as the
    /// relation of rectangles by corners leads to them.
    pub fn find_in_bounds(&self, bounds: &Rectangle) -> (r: Option<Vec<&Spatial<T>>>)
        requires
            self.wf(),
            bounds.valid(),
        ensures
            match r {
                Some(found) => self.query(*bounds) == Some(deref_all(found@)),
                None => self.query(*bounds) is None,
            },
        decreases self.extent(), 2nat,
    {
        match self.bounds.relation(bounds) {
            RectangleRelation::Disjoint => None,
            RectangleRelation::Intersection => Some(self.sweep(bounds)),
            RectangleRelation::Containment(query_rect_is_in_self) => {
                if !query_rect_is_in_self {
                    Some(self.data_children())
                } else {
                    Some(self.descend_touched(bounds))
                }
            },
        }
    }

    /// Adds to `out` what the query finds in the child node of the slot of
    /// `quadrant`.
    fn append_below<'a>(
        &'a self,
        quadrant: Quadrant,
        bounds: &Rectangle,
        out: &mut Vec<&'a Spatial<T>>,
    )
        requires
            self.wf(),
            bounds.valid(),
        ensures
            deref_all(final(out)@) == deref_all(old(out)@) + slot_below(
                self.slot(quadrant),
                *bounds,
            ),
        decreases self.extent(), 0nat,
    {
        if let Some(TreeNode::Node(n)) = self.quadrant(&quadrant) {
            proof {
                lemma_with_slot(*self, quadrant, None);
            }
            if let Some(mut ts) = n.find_in_bounds(bounds) {
                let ghost b = ts@;
                out.append(&mut ts);
                assert(deref_all(out@) =~= deref_all(old(out)@) + deref_all(b));
            }
        }
        assert(deref_all(out@) =~= deref_all(old(out)@) + slot_below(self.slot(quadrant), *bounds));
    }

    /// The node's own leaves that lie in `bounds`, then what the query finds
    /// in each child node.
    fn sweep(&self, bounds: &Rectangle) -> (data: Vec<&Spatial<T>>)
        requires
            self.wf(),
            bounds.valid(),
        ensures
            deref_all(data@) == slot_matching(self.bottom_left, *bounds) + slot_matching(
                self.bottom_right,
                *bounds,
            ) + slot_matching(self.top_right, *bounds) + slot_matching(self.top_left, *bounds)
                + slot_below(self.bottom_left, *bounds) + slot_below(self.bottom_right, *bounds)
                + slot_below(self.top_right, *bounds) + slot_below(self.top_left, *bounds),
        decreases self.extent(), 1nat,
    {
        let mut data: Vec<&Spatial<T>> = Vec::new();
        Self::push_matching(&self.bottom_left, bounds, &mut data);
        assert(deref_all(data@) =~= slot_matching(self.bottom_left, *bounds));
        Self::push_matching(&self.bottom_right, bounds, &mut data);
        Self::push_matching(&self.top_right, bounds, &mut data);
        Self::push_matching(&self.top_left, bounds, &mut data);
        self.append_below(Quadrant::BottomLeft, bounds, &mut data);
        self.append_below(Quadrant::BottomRight, bounds, &mut data);
        self.append_below(Quadrant::TopRight, bounds, &mut data);
        self.append_below(Quadrant::TopLeft, bounds, &mut data);
        data
    }

    /// What the query finds in the quadrants that the corners of `bounds`
    /// touch.
    fn descend_touched(&self, bounds: &Rectangle) -> (data: Vec<&Spatial<T>>)
        requires
            self.wf(),
            bounds.valid(),
        ensures
            deref_all(data@) == self.gather(
                touched_quadrants(self.bounds, *bounds),
                touched_quadrants(self.bounds, *bounds).len(),
                *bounds,
            ),
        decreases self.extent(), 0nat,
    {
        let quadrants = self.touched(bounds);
        let mut data: Vec<&Spatial<T>> = Vec::new();
        assert(deref_all(data@) =~= Seq::<Spatial<T>>::empty());
        let mut i: usize = 0;
        while i < quadrants.len()
            invariant
                self.wf(),
                bounds.valid(),
                i <= quadrants.len(),
                deref_all(data@) == self.gather(quadrants@, i as nat, *bounds),
            decreases quadrants.len() - i,
        {
            let quadrant = quadrants[i];
            let ghost before = data@;
            match self.quadrant(&quadrant) {
                None => {},
                Some(TreeNode::Point(pt)) => {
                    if bounds.find_quadrant(&pt.position).is_some() {
                        data.push(pt);
                    }
                },
                Some(TreeNode::Node(node)) => {
                    if let Some(mut ts) = node.find_in_bounds(bounds) {
                        let ghost b = ts@;
                        data.append(&mut ts);
                        assert(deref_all(data@) =~= deref_all(before) + deref_all(b));
                    }
                },
            }
            assert(deref_all(data@) =~= deref_all(before) + self.query_in(quadrant, *bounds));
            i = i + 1;
        }
        data
    }

    /// Lists the quadrants in which the corners of `area` lie, each once.
    pub fn touched(&self, area: &Rectangle) -> (r: Vec<Quadrant>)
        requires
            area.valid(),
        ensures
            r@ == touched_quadrants(self.bounds, *area),
    {
        let corners = area.corners();
        let mut quadrants: Vec<Quadrant> = Vec::with_capacity(4);
        push_unique_quadrant(&mut quadrants, self.bounds.find_quadrant(&corners[0]));
        push_unique_quadrant(&mut quadrants, self.bounds.find_quadrant(&corners[1]));
        push_unique_quadrant(&mut quadrants, self.bounds.find_quadrant(&corners[2]));
        push_unique_quadrant(&mut quadrants, self.bounds.find_quadrant(&corners[3]));
        quadrants
    }
}

/// Adds `q` at the end of `list`, unless it is none or already there.
pub fn push_unique_quadrant(list: &mut Vec<Quadrant>, q: Option<Quadrant>)
    ensures
        final(list)@ == push_unique(old(list)@, q),
{
    if let Some(quadrant) = q {
        let mut known = false;
        let mut i: usize = 0;
        while i < list.len()
            invariant
                i <= list.len(),
                list@ == old(list)@,
                known == exists|j: int| 0 <= j < i && list@[j] == quadrant,
            decreases list.len() - i,
        {
            if list[i] == quadrant {
                known = true;
            }
            i = i + 1;
        }
        if !known {
            list.push(quadrant);
        }
    }
}

} // verus!
