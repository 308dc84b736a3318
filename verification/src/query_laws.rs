use crate::laws::{
    distinct_positions, fetch, lemma_distinct_add, lemma_fetch_absent, lemma_fetch_add,
    lemma_fetch_present,
};
use crate::quadtree::positions;
use crate::node::{lemma_with_slot, Node, Spatial, TreeNode};
use crate::point::Point;
use crate::query::{push_unique, slot_below, slot_matching, touched_quadrants};
use crate::rectangle::{Quadrant, Rectangle, RectangleRelation};
use crate::walk::{slot_leaves, slot_own};
use vstd::prelude::*;

verus! {

/// Whether a range query sees all that lies in `area` below a slot.
pub open spec fn slot_sees<T>(slot: Option<TreeNode<T>>, area: Rectangle) -> bool
    decreases slot,
{
    match slot {
        Some(TreeNode::Node(n)) => n.sees(area),
        _ => true,
    }
}

impl<T> Node<T> {
    /// Whether a range query over `area` sees all that lies in `area` in
    /// this subtree: no node on its way whose bounds it finds disjoint from
    /// `area` holds a position that lies in `area`. This fails only where a
    /// node and `area` cross without either holding a corner of the other.
    pub open spec fn sees(self, area: Rectangle) -> bool
        decreases self,
    {
        match self.bounds.relation_spec(area) {
            RectangleRelation::Disjoint => forall|p: Point|
                area.contains(p) ==> (#[trigger] self.lookup(p)) is None,
            RectangleRelation::Containment(false) => true,
            _ => {
                &&& slot_sees(self.bottom_left, area)
                &&& slot_sees(self.bottom_right, area)
                &&& slot_sees(self.top_right, area)
                &&& slot_sees(self.top_left, area)
            },
        }
    }
}

/// Whether `p` lies in `area`; in no area, every position does.
pub open spec fn in_area(area: Option<Rectangle>, p: Point) -> bool {
    match area {
        Some(a) => a.contains(p),
        None => true,
    }
}

/// The leaves `x` are a faithful part of what `node` holds in `area` in the
/// quadrants `qs`: no position comes twice, and what `x` holds under a
/// position lies in `area` and in one of `qs` and is what the node holds
/// there. With `full`, `x` also holds every such position of the node.
pub open spec fn good<T>(
    x: Seq<Spatial<T>>,
    node: Node<T>,
    area: Option<Rectangle>,
    qs: Set<Quadrant>,
    full: bool,
) -> bool {
    &&& distinct_positions(x)
    &&& forall|p: Point| #[trigger]
        fetch(x, p) is Some ==> {
            &&& in_area(area, p)
            &&& node.bounds.quadrant_of(p) is Some
            &&& qs.contains(node.bounds.quadrant_of(p)->0)
            &&& fetch(x, p) == node.lookup(p)
        }
    &&& full ==> forall|p: Point|
        in_area(area, p) && node.bounds.quadrant_of(p) is Some && qs.contains(
            node.bounds.quadrant_of(p)->0,
        ) && (#[trigger] node.lookup(p)) is Some ==> fetch(x, p) is Some
}

/// The quadrant of a slot that holds a leaf.
pub open spec fn leaf_set<T>(slot: Option<TreeNode<T>>, q: Quadrant) -> Set<Quadrant> {
    if slot matches Some(TreeNode::Point(_)) {
        set![q]
    } else {
        Set::empty()
    }
}

/// The quadrant of a slot that holds a child node.
pub open spec fn node_set<T>(slot: Option<TreeNode<T>>, q: Quadrant) -> Set<Quadrant> {
    if slot matches Some(TreeNode::Node(_)) {
        set![q]
    } else {
        Set::empty()
    }
}

/// Two faithful parts for different quadrants make a faithful part for the
/// quadrants of both.
pub proof fn lemma_join<T>(
    a: Seq<Spatial<T>>,
    b: Seq<Spatial<T>>,
    node: Node<T>,
    area: Option<Rectangle>,
    qa: Set<Quadrant>,
    qb: Set<Quadrant>,
    full: bool,
)
    requires
        good(a, node, area, qa, full),
        good(b, node, area, qb, full),
        qa.disjoint(qb),
    ensures
        good(a + b, node, area, qa.union(qb), full),
{
    assert forall|i: int, j: int| 0 <= i < a.len() && 0 <= j < b.len() implies (#[trigger] a[i]).position
        != (#[trigger] b[j]).position by {
        lemma_fetch_present(a, i);
        lemma_fetch_present(b, j);
        if a[i].position == b[j].position {
            let q = node.bounds.quadrant_of(a[i].position)->0;
            assert(qa.contains(q) && qb.contains(q));
        }
    }
    lemma_distinct_add(a, b);
    assert forall|p: Point| #[trigger] fetch(a + b, p) is Some implies {
        &&& in_area(area, p)
        &&& node.bounds.quadrant_of(p) is Some
        &&& qa.union(qb).contains(node.bounds.quadrant_of(p)->0)
        &&& fetch(a + b, p) == node.lookup(p)
    } by {
        lemma_fetch_add(a, b, p);
    }
    if full {
        assert forall|p: Point|
            in_area(area, p) && node.bounds.quadrant_of(p) is Some && qa.union(qb).contains(
                node.bounds.quadrant_of(p)->0,
            ) && (#[trigger] node.lookup(p)) is Some implies fetch(a + b, p) is Some by {
            lemma_fetch_add(a, b, p);
        }
    }
}

/// Eight faithful parts, one for the leaf and one for the child node of each
/// slot, make up what the node holds in `area`.
pub proof fn lemma_join_slots<T>(
    node: Node<T>,
    area: Option<Rectangle>,
    a: Seq<Seq<Spatial<T>>>,
    b: Seq<Seq<Spatial<T>>>,
    full: bool,
)
    requires
        a.len() == 4,
        b.len() == 4,
        good(a[0], node, area, leaf_set(node.bottom_left, Quadrant::BottomLeft), full),
        good(a[1], node, area, leaf_set(node.bottom_right, Quadrant::BottomRight), full),
        good(a[2], node, area, leaf_set(node.top_right, Quadrant::TopRight), full),
        good(a[3], node, area, leaf_set(node.top_left, Quadrant::TopLeft), full),
        good(b[0], node, area, node_set(node.bottom_left, Quadrant::BottomLeft), full),
        good(b[1], node, area, node_set(node.bottom_right, Quadrant::BottomRight), full),
        good(b[2], node, area, node_set(node.top_right, Quadrant::TopRight), full),
        good(b[3], node, area, node_set(node.top_left, Quadrant::TopLeft), full),
    ensures
        distinct_positions(a[0] + a[1] + a[2] + a[3] + b[0] + b[1] + b[2] + b[3]),
        forall|p: Point| #[trigger]
            fetch(a[0] + a[1] + a[2] + a[3] + b[0] + b[1] + b[2] + b[3], p) is Some ==> in_area(
                area,
                p,
            ) && fetch(a[0] + a[1] + a[2] + a[3] + b[0] + b[1] + b[2] + b[3], p) == node.lookup(p),
        full ==> forall|p: Point|
            in_area(area, p) ==> #[trigger] fetch(
                a[0] + a[1] + a[2] + a[3] + b[0] + b[1] + b[2] + b[3],
                p,
            ) == node.lookup(p),
{
    let s0 = leaf_set(node.bottom_left, Quadrant::BottomLeft);
    let s1 = s0.union(leaf_set(node.bottom_right, Quadrant::BottomRight));
    let s2 = s1.union(leaf_set(node.top_right, Quadrant::TopRight));
    let s3 = s2.union(leaf_set(node.top_left, Quadrant::TopLeft));
    let s4 = s3.union(node_set(node.bottom_left, Quadrant::BottomLeft));
    let s5 = s4.union(node_set(node.bottom_right, Quadrant::BottomRight));
    let s6 = s5.union(node_set(node.top_right, Quadrant::TopRight));
    let s7 = s6.union(node_set(node.top_left, Quadrant::TopLeft));
    let x1 = a[0] + a[1];
    let x2 = x1 + a[2];
    let x3 = x2 + a[3];
    let x4 = x3 + b[0];
    let x5 = x4 + b[1];
    let x6 = x5 + b[2];
    let x7 = x6 + b[3];
    lemma_join(a[0], a[1], node, area, s0, leaf_set(node.bottom_right, Quadrant::BottomRight), full);
    lemma_join(x1, a[2], node, area, s1, leaf_set(node.top_right, Quadrant::TopRight), full);
    lemma_join(x2, a[3], node, area, s2, leaf_set(node.top_left, Quadrant::TopLeft), full);
    lemma_join(x3, b[0], node, area, s3, node_set(node.bottom_left, Quadrant::BottomLeft), full);
    lemma_join(x4, b[1], node, area, s4, node_set(node.bottom_right, Quadrant::BottomRight), full);
    lemma_join(x5, b[2], node, area, s5, node_set(node.top_right, Quadrant::TopRight), full);
    lemma_join(x6, b[3], node, area, s6, node_set(node.top_left, Quadrant::TopLeft), full);
    assert(good(x7, node, area, s7, full));
    if full {
        assert forall|p: Point| in_area(area, p) implies #[trigger] fetch(x7, p) == node.lookup(p) by {
            if node.lookup(p) is Some {
                let q = node.bounds.quadrant_of(p)->0;
                lemma_with_slot(node, q, None);
                assert(node.slot(q) is Some);
                assert(s7.contains(q));
            }
        }
    }
}

/// The parts that a range query takes from one slot are faithful: the leaf
/// of the slot where it lies in `area`, and what the query finds in the
/// child node, which is all of it where the query sees all below the slot.
pub proof fn lemma_slot_query<T>(node: Node<T>, q: Quadrant, area: Rectangle)
    requires
        node.wf(),
        area.valid(),
    ensures
        good(slot_matching(node.slot(q), area), node, Some(area), leaf_set(node.slot(q), q), true),
        good(
            slot_below(node.slot(q), area),
            node,
            Some(area),
            node_set(node.slot(q), q),
            slot_sees(node.slot(q), area),
        ),
    decreases node, 0nat,
{
    let slot = node.slot(q);
    lemma_with_slot(node, q, None);
    match slot {
        None => {},
        Some(TreeNode::Point(s)) => {
            let x = slot_matching(slot, area);
            if area.contains(s.position) {
                assert(x.drop_last() =~= Seq::<Spatial<T>>::empty());
                assert(x.last() == s);
                assert forall|p: Point| fetch(x, p) == if p == s.position {
                    Some(s.data)
                } else {
                    None
                } by {
                    assert(fetch(x.drop_last(), p) is None);
                }
            }
        },
        Some(TreeNode::Node(n)) => {
            lemma_query(*n, area);
            let x = slot_below(slot, area);
            assert forall|p: Point| #[trigger] fetch(x, p) is Some implies {
                &&& area.contains(p)
                &&& node.bounds.quadrant_of(p) == Some(q)
                &&& fetch(x, p) == node.lookup(p)
            } by {
                assert(n.lookup(p) is Some);
            }
            if n.sees(area) {
                assert forall|p: Point|
                    area.contains(p) && node.bounds.quadrant_of(p) == Some(q) && (
                    #[trigger] node.lookup(p)) is Some implies fetch(x, p) is Some by {
                    assert(n.lookup(p) is Some);
                }
            }
        },
    }
}

/// The parts of the list of all leaves that come from one slot are
/// faithful and hold all that the slot holds.
pub proof fn lemma_slot_leaves<T>(node: Node<T>, q: Quadrant)
    requires
        node.wf(),
    ensures
        good(slot_own(node.slot(q)), node, None, leaf_set(node.slot(q), q), true),
        good(slot_leaves(node.slot(q)), node, None, node_set(node.slot(q), q), true),
    decreases node, 0nat,
{
    let slot = node.slot(q);
    lemma_with_slot(node, q, None);
    match slot {
        None => {},
        Some(TreeNode::Point(s)) => {
            let x = slot_own(slot);
            assert(x.drop_last() =~= Seq::<Spatial<T>>::empty());
            assert(x.last() == s);
            assert forall|p: Point| fetch(x, p) == if p == s.position {
                Some(s.data)
            } else {
                None
            } by {
                assert(fetch(x.drop_last(), p) is None);
            }
        },
        Some(TreeNode::Node(n)) => {
            lemma_leaves(*n);
            let x = slot_leaves(slot);
            assert forall|p: Point| #[trigger] fetch(x, p) is Some implies {
                &&& node.bounds.quadrant_of(p) == Some(q)
                &&& fetch(x, p) == node.lookup(p)
            } by {
                assert(n.lookup(p) is Some);
            }
            assert forall|p: Point|
                node.bounds.quadrant_of(p) == Some(q) && (#[trigger] node.lookup(p)) is Some implies fetch(
                x,
                p,
            ) is Some by {
                assert(n.lookup(p) is Some);
            }
        },
    }
}

/// The list of all leaves of a well-formed subtree is what the subtree
/// holds: no position comes twice, and the leaves hold under each position
/// what is found under it in the subtree.
pub proof fn lemma_leaves<T>(node: Node<T>)
    requires
        node.wf(),
    ensures
        distinct_positions(node.leaves()),
        forall|p: Point| #[trigger] fetch(node.leaves(), p) == node.lookup(p),
    decreases node, 1nat,
{
    lemma_slot_leaves(node, Quadrant::BottomLeft);
    lemma_slot_leaves(node, Quadrant::BottomRight);
    lemma_slot_leaves(node, Quadrant::TopRight);
    lemma_slot_leaves(node, Quadrant::TopLeft);
    let a = seq![
        slot_own(node.bottom_left),
        slot_own(node.bottom_right),
        slot_own(node.top_right),
        slot_own(node.top_left),
    ];
    let b = seq![
        slot_leaves(node.bottom_left),
        slot_leaves(node.bottom_right),
        slot_leaves(node.top_right),
        slot_leaves(node.top_left),
    ];
    lemma_join_slots(node, None, a, b, true);
    assert(node.leaves() == a[0] + a[1] + a[2] + a[3] + b[0] + b[1] + b[2] + b[3]);
}

/// The quadrants up to index `k` of a list.
pub open spec fn among(qs: Seq<Quadrant>, k: int) -> Set<Quadrant>
    decreases k,
{
    if k <= 0 {
        Set::empty()
    } else {
        among(qs, k - 1).insert(qs[k - 1])
    }
}

/// What `among` holds stands in the list before index `k`, and the other
/// way round.
pub proof fn lemma_among(qs: Seq<Quadrant>, k: int)
    requires
        0 <= k <= qs.len(),
    ensures
        forall|q: Quadrant| #[trigger]
            among(qs, k).contains(q) <==> exists|j: int| 0 <= j < k && qs[j] == q,
    decreases k,
{
    if k > 0 {
        lemma_among(qs, k - 1);
        assert forall|q: Quadrant| #[trigger]
            among(qs, k).contains(q) <==> exists|j: int| 0 <= j < k && qs[j] == q by {
            if among(qs, k).contains(q) {
                if q == qs[k - 1] {
                    assert(qs[k - 1] == q);
                } else {
                    assert(among(qs, k - 1).contains(q));
                    let j = choose|j: int| 0 <= j < k - 1 && qs[j] == q;
                    assert(0 <= j < k && qs[j] == q);
                }
            }
            if exists|j: int| 0 <= j < k && qs[j] == q {
                let j = choose|j: int| 0 <= j < k && qs[j] == q;
                if j < k - 1 {
                    assert(0 <= j < k - 1 && qs[j] == q);
                    assert(among(qs, k - 1).contains(q));
                }
            }
        }
    }
}

/// Adding a quadrant to a list unless it is there keeps a list without
/// repetition so, keeps what the list holds, and makes the list hold the
/// quadrant.
pub proof fn lemma_push_unique(s: Seq<Quadrant>, q: Option<Quadrant>)
    requires
        s.no_duplicates(),
    ensures
        push_unique(s, q).no_duplicates(),
        forall|x: Quadrant| s.contains(x) ==> #[trigger] push_unique(s, q).contains(x),
        q is Some ==> push_unique(s, q).contains(q->0),
{
    let r = push_unique(s, q);
    match q {
        Some(x) => {
            if s.contains(x) {
            } else {
                assert(r[s.len() as int] == x);
                assert forall|y: Quadrant| s.contains(y) implies #[trigger] r.contains(y) by {
                    let j = choose|j: int| 0 <= j < s.len() && s[j] == y;
                    assert(r[j] == y);
                }
            }
        },
        None => {},
    }
}

/// Where the bounds hold all corners of `area`, the quadrants that the
/// corners touch come once each, and every position in `area` lies in one
/// of them.
pub proof fn lemma_touched(bounds: Rectangle, area: Rectangle, p: Point)
    requires
        area.valid(),
        bounds.corners_inside(area) == 4,
    ensures
        touched_quadrants(bounds, area).no_duplicates(),
        area.contains(p) ==> bounds.quadrant_of(p) is Some && touched_quadrants(bounds, area).contains(
            bounds.quadrant_of(p)->0,
        ),
{
    let c = area.corner_points();
    let t0 = Seq::<Quadrant>::empty();
    let t1 = push_unique(t0, bounds.quadrant_of(c[0]));
    let t2 = push_unique(t1, bounds.quadrant_of(c[1]));
    let t3 = push_unique(t2, bounds.quadrant_of(c[2]));
    let t4 = push_unique(t3, bounds.quadrant_of(c[3]));
    lemma_push_unique(t0, bounds.quadrant_of(c[0]));
    lemma_push_unique(t1, bounds.quadrant_of(c[1]));
    lemma_push_unique(t2, bounds.quadrant_of(c[2]));
    lemma_push_unique(t3, bounds.quadrant_of(c[3]));
    if area.contains(p) {
        let q = bounds.quadrant_of(p)->0;
        assert(bounds.contains(c[0]) && bounds.contains(c[1]) && bounds.contains(c[2])
            && bounds.contains(c[3]));
        assert(bounds.quadrant_of(c[0]) == Some(q) || bounds.quadrant_of(c[1]) == Some(q)
            || bounds.quadrant_of(c[2]) == Some(q) || bounds.quadrant_of(c[3]) == Some(q));
        assert(t1.contains(q) || t2.contains(q) || t3.contains(q) || t4.contains(q));
    }
}

/// What a range query gathers from the first `k` of a list of different
/// quadrants is a faithful part for these quadrants.
pub proof fn lemma_gather<T>(node: Node<T>, area: Rectangle, qs: Seq<Quadrant>, k: nat)
    requires
        node.wf(),
        area.valid(),
        qs.no_duplicates(),
        k <= qs.len(),
    ensures
        good(
            node.gather(qs, k, area),
            node,
            Some(area),
            among(qs, k as int),
            node.bounds.relation_spec(area) == RectangleRelation::Containment(true) && node.sees(
                area,
            ),
        ),
    decreases node, 1nat, k,
{
    let full = node.bounds.relation_spec(area) == RectangleRelation::Containment(true) && node.sees(
        area,
    );
    if k > 0 {
        let q = qs[k - 1];
        lemma_gather(node, area, qs, (k - 1) as nat);
        lemma_slot_query(node, q, area);
        lemma_among(qs, k - 1);
        let slot = node.slot(q);
        let a = slot_matching(slot, area);
        let b = slot_below(slot, area);
        assert(node.query_in(q, area) == a + b) by {
            match q {
                Quadrant::BottomLeft => {},
                Quadrant::BottomRight => {},
                Quadrant::TopRight => {},
                Quadrant::TopLeft => {},
            }
        }
        assert(full ==> slot_sees(slot, area)) by {
            match q {
                Quadrant::BottomLeft => {},
                Quadrant::BottomRight => {},
                Quadrant::TopRight => {},
                Quadrant::TopLeft => {},
            }
        }
        lemma_join(a, b, node, Some(area), leaf_set(slot, q), node_set(slot, q), full);
        let both = leaf_set(slot, q).union(node_set(slot, q));
        let before = among(qs, k - 1);
        assert(before.disjoint(both)) by {
            if before.contains(q) {
                let j = choose|j: int| 0 <= j < k - 1 && qs[j] == q;
                assert(qs[j] == qs[k - 1]);
            }
        }
        lemma_join(node.gather(qs, (k - 1) as nat, area), a + b, node, Some(area), before, both, full);
        let x = node.gather(qs, k, area);
        assert(x == node.gather(qs, (k - 1) as nat, area) + (a + b));
        lemma_with_slot(node, q, None);
        assert(good(x, node, Some(area), among(qs, k as int), full)) by {
            assert forall|p: Point| #[trigger] fetch(x, p) is Some implies among(qs, k as int).contains(
                node.bounds.quadrant_of(p)->0,
            ) by {
                assert(before.union(both).contains(node.bounds.quadrant_of(p)->0));
            }
            if full {
                assert forall|p: Point|
                    area.contains(p) && node.bounds.quadrant_of(p) is Some && among(
                        qs,
                        k as int,
                    ).contains(node.bounds.quadrant_of(p)->0) && (#[trigger] node.lookup(p)) is Some implies fetch(
                    x,
                    p,
                ) is Some by {
                    let qp = node.bounds.quadrant_of(p)->0;
                    if qp == q {
                        assert(node.slot(q) is Some);
                        assert(both.contains(q));
                    }
                    assert(before.union(both).contains(qp));
                }
            }
        }
    }
}

/// What a range query finds is in the tree and in the area, and where the
/// query sees all that lies in the area, it finds all of it.
///
/// No position comes twice among the leaves found; each lies in `area` and
/// is held by the subtree with the payload found. Where the query sees all,
/// the leaves found hold, under every position in `area`, what the subtree
/// holds there: they are as many as the positions of the subtree in `area`,
/// whatever the order in which these were stored. A query that finds the
/// bounds disjoint from `area` has then nothing to find.
pub proof fn lemma_query<T>(node: Node<T>, area: Rectangle)
    requires
        node.wf(),
        area.valid(),
    ensures
        match node.query(area) {
            Some(found) => {
                &&& distinct_positions(found)
                &&& forall|p: Point| #[trigger]
                    fetch(found, p) is Some ==> area.contains(p) && fetch(found, p) == node.lookup(p)
                &&& node.sees(area) ==> forall|p: Point|
                    area.contains(p) ==> #[trigger] fetch(found, p) == node.lookup(p)
            },
            None => node.sees(area) ==> forall|p: Point|
                area.contains(p) ==> (#[trigger] node.lookup(p)) is None,
        },
    decreases node, 2nat,
{
    match node.bounds.relation_spec(area) {
        RectangleRelation::Disjoint => {},
        RectangleRelation::Intersection => {
            lemma_slot_query(node, Quadrant::BottomLeft, area);
            lemma_slot_query(node, Quadrant::BottomRight, area);
            lemma_slot_query(node, Quadrant::TopRight, area);
            lemma_slot_query(node, Quadrant::TopLeft, area);
            let a = seq![
                slot_matching(node.bottom_left, area),
                slot_matching(node.bottom_right, area),
                slot_matching(node.top_right, area),
                slot_matching(node.top_left, area),
            ];
            let b = seq![
                slot_below(node.bottom_left, area),
                slot_below(node.bottom_right, area),
                slot_below(node.top_right, area),
                slot_below(node.top_left, area),
            ];
            lemma_join_slots(node, Some(area), a, b, node.sees(area));
            assert(node.query(area)->0 == a[0] + a[1] + a[2] + a[3] + b[0] + b[1] + b[2] + b[3]);
        },
        RectangleRelation::Containment(false) => {
            lemma_leaves(node);
            let found = node.leaves();
            assert forall|p: Point| #[trigger] fetch(found, p) is Some implies area.contains(p) by {
                assert(node.lookup(p) is Some);
                assert(node.bounds.contains(p));
            }
        },
        RectangleRelation::Containment(true) => {
            let qs = touched_quadrants(node.bounds, area);
            lemma_touched(node.bounds, area, area.anchor);
            lemma_gather(node, area, qs, qs.len());
            lemma_among(qs, qs.len() as int);
            let found = node.gather(qs, qs.len(), area);
            if node.sees(area) {
                assert forall|p: Point| area.contains(p) implies #[trigger] fetch(found, p)
                    == node.lookup(p) by {
                    lemma_touched(node.bounds, area, p);
                    if node.lookup(p) is Some {
                        let q = node.bounds.quadrant_of(p)->0;
                        assert(qs.contains(q));
                        let j = choose|j: int| 0 <= j < qs.len() && qs[j] == q;
                        assert(among(qs, qs.len() as int).contains(q));
                    }
                }
            }
        },
    }
}

/// Where a range query sees all that lies in `area`, it finds as many
/// leaves as the subtree holds positions in `area`.
pub proof fn lemma_query_count<T>(node: Node<T>, area: Rectangle)
    requires
        node.wf(),
        area.valid(),
        node.sees(area),
        node.query(area) is Some,
    ensures
        node.query(area)->0.len() == node@.dom().filter(|p: Point| area.contains(p)).len(),
{
    let found = node.query(area)->0;
    let ps = positions(found);
    let inside = node@.dom().filter(|p: Point| area.contains(p));
    lemma_query(node, area);
    assert forall|i: int, j: int| 0 <= i < ps.len() && 0 <= j < ps.len() && i != j implies ps[i]
        != ps[j] by {
        if i < j {
            assert(found[i].position != found[j].position);
        } else {
            assert(found[j].position != found[i].position);
        }
    }
    ps.unique_seq_to_set();
    assert forall|p: Point| inside.contains(p) == ps.to_set().contains(p) by {
        if ps.contains(p) {
            let i = choose|i: int| 0 <= i < ps.len() && ps[i] == p;
            lemma_fetch_present(found, i);
            assert(fetch(found, p) is Some);
        } else {
            assert forall|j: int| 0 <= j < found.len() implies (#[trigger] found[j]).position
                != p by {
                assert(ps[j] == found[j].position);
            }
            lemma_fetch_absent(found, p);
            if area.contains(p) {
                assert(fetch(found, p) == node.lookup(p));
            }
        }
    }
    assert(inside =~= ps.to_set());
}

} // verus!
