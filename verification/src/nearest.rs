use crate::node::Spatial;
use crate::point::Point;
use crate::quadtree::QuadTree;
use crate::rectangle::Rectangle;
use crate::walk::deref_all;
use vstd::prelude::*;

verus! {

/// Where a leaf at squared distance `d` from `p` goes into `t`, looking from
/// index `from` on: before the first leaf that lies farther from `p`, or at
/// the end.
pub open spec fn landing<T>(t: Seq<Spatial<T>>, d: int, p: Point, from: int) -> int
    decreases t.len() - from,
{
    if from < 0 || from >= t.len() {
        t.len() as int
    } else if t[from].position.squared_distance_spec(p) > d {
        from
    } else {
        landing(t, d, p, from + 1)
    }
}

/// The leaves of `s` in the order of their distance from `p`, the nearest
/// first; leaves equally far keep the order that they have in `s`.
pub open spec fn nearest_order<T>(s: Seq<Spatial<T>>, p: Point) -> Seq<Spatial<T>>
    decreases s.len(),
{
    if s.len() == 0 {
        Seq::empty()
    } else {
        let t = nearest_order(s.drop_last(), p);
        t.insert(landing(t, s.last().position.squared_distance_spec(p), p, 0), s.last())
    }
}

/// The leaves come in the order of their distance from `p`, the nearest
/// first.
pub open spec fn nearest_first<T>(t: Seq<Spatial<T>>, p: Point) -> bool {
    forall|i: int, j: int|
        0 <= i < j < t.len() ==> (#[trigger] t[i]).position.squared_distance_spec(p) <= (
        #[trigger] t[j]).position.squared_distance_spec(p)
}

/// Where a leaf goes into a sequence lies at or behind the index from which
/// was looked; the leaves from there up to it lie no farther from `p` than
/// `d`, and the leaf at it, if there is one, lies farther.
pub proof fn lemma_landing<T>(t: Seq<Spatial<T>>, d: int, p: Point, from: int)
    requires
        0 <= from <= t.len(),
    ensures
        from <= landing(t, d, p, from) <= t.len(),
        forall|k: int|
            from <= k < landing(t, d, p, from) ==> (#[trigger] t[k]).position.squared_distance_spec(p)
                <= d,
        landing(t, d, p, from) < t.len() ==> t[landing(t, d, p, from)].position.squared_distance_spec(
            p,
        ) > d,
    decreases t.len() - from,
{
    if from < t.len() && t[from].position.squared_distance_spec(p) <= d {
        lemma_landing(t, d, p, from + 1);
    }
}

/// Ordering by distance brings the nearest first and neither drops nor adds
/// a leaf.
pub proof fn lemma_nearest_order<T>(s: Seq<Spatial<T>>, p: Point)
    ensures
        nearest_first(nearest_order(s, p), p),
        nearest_order(s, p).to_multiset() == s.to_multiset(),
        nearest_order(s, p).len() == s.len(),
    decreases s.len(),
{
    if s.len() == 0 {
        assert(nearest_order(s, p) =~= s);
    } else {
        let t = nearest_order(s.drop_last(), p);
        lemma_nearest_order(s.drop_last(), p);
        let x = s.last();
        let d = x.position.squared_distance_spec(p);
        let pos = landing(t, d, p, 0);
        lemma_landing(t, d, p, 0);
        let r = t.insert(pos, x);
        assert(r == nearest_order(s, p));
        assert forall|i: int, j: int| 0 <= i < j < r.len() implies (#[trigger] r[i]).position.squared_distance_spec(
        p) <= (#[trigger] r[j]).position.squared_distance_spec(p) by {
            if j < pos {
                assert(r[i] == t[i] && r[j] == t[j]);
            } else if j == pos {
                assert(r[i] == t[i]);
            } else {
                assert(r[j] == t[j - 1]);
                if i < pos {
                    assert(r[i] == t[i]);
                    if pos < j - 1 {
                        assert(t[pos].position.squared_distance_spec(p) <= t[j - 1].position.squared_distance_spec(p));
                    }
                } else if i == pos {
                    if pos < j - 1 {
                        assert(t[pos].position.squared_distance_spec(p) <= t[j - 1].position.squared_distance_spec(p));
                    }
                } else {
                    assert(r[i] == t[i - 1]);
                }
            }
        }
        assert(r.remove(pos) =~= t);
        assert(r[pos] == x);
        vstd::seq_lib::to_multiset_remove(r, pos);
        assert(r.contains(x));
        r.to_multiset_ensures();
        assert(r.to_multiset().count(x) > 0);
        assert(r.to_multiset() =~= t.to_multiset().insert(x));
        assert(s =~= s.drop_last().push(x));
        vstd::seq_lib::to_multiset_build(s.drop_last(), x);
    }
}

/// The square window of a nearest-neighbour search: `p` in the middle, the
/// edges `d` away.
pub open spec fn search_window(p: Point, d: int) -> Rectangle {
    Rectangle {
        anchor: Point { x: (p.x - d) as i32, y: (p.y - d) as i32 },
        width: (2 * d) as u32,
        height: (2 * d) as u32,
    }
}

/// Orders leaves by their distance from `pt`, the nearest first.
pub fn sort_by_distance<'a, T>(data: &Vec<&'a Spatial<T>>, pt: &Point) -> (out: Vec<&'a Spatial<T>>)
    ensures
        deref_all(out@) == nearest_order(deref_all(data@), *pt),
{
    let mut out: Vec<&Spatial<T>> = Vec::new();
    let mut i: usize = 0;
    assert(deref_all(data@).take(0) =~= Seq::<Spatial<T>>::empty());
    assert(deref_all(out@) =~= Seq::<Spatial<T>>::empty());
    while i < data.len()
        invariant
            i <= data.len(),
            deref_all(out@) == nearest_order(deref_all(data@).take(i as int), *pt),
        decreases data.len() - i,
    {
        let leaf = data[i];
        let d = leaf.position.squared_distance(pt);
        let ghost sorted = deref_all(out@);
        let mut j: usize = 0;
        while j < out.len() && out[j].position.squared_distance(pt) <= d
            invariant
                j <= out.len(),
                sorted == deref_all(out@),
                landing(sorted, d as int, *pt, 0) == landing(sorted, d as int, *pt, j as int),
            decreases out.len() - j,
        {
            j = j + 1;
        }
        out.insert(j, leaf);
        proof {
            let prefix = deref_all(data@).take(i as int + 1);
            assert(prefix.drop_last() =~= deref_all(data@).take(i as int));
            assert(prefix.last() == *leaf);
            assert(deref_all(out@) =~= sorted.insert(j as int, *leaf));
        }
        i = i + 1;
    }
    assert(deref_all(data@).take(data.len() as int) =~= deref_all(data@));
    out
}

impl<T> QuadTree<T> {
    /// The result of a search for the `n` nearest neighbours of `p`: the
    /// range query over the search window, in the order of the distance
    /// from `p`, cut after `n` leaves. None where `p` lies outside the
    /// bounds or the range query finds the window disjoint from them.
    pub open spec fn nearest(self, p: Point, n: nat) -> Option<Seq<Spatial<T>>> {
        match self.root.reach(p) {
            None => None,
            Some(d) => match self.root.query(search_window(p, d)) {
                None => None,
                Some(found) => {
                    let sorted = nearest_order(found, p);
                    Some(
                        if n < sorted.len() {
                            sorted.take(n as int)
                        } else {
                            sorted
                        },
                    )
                },
            },
        }
    }

    /// Searches the `n` leaves nearest to `pt` among those that the range
    /// query over the search window finds.
    pub fn find_nearest_neighbors(&self, pt: &Point, n: usize) -> (r: Option<Vec<&Spatial<T>>>)
        requires
            self.wf(),
        ensures
            match r {
                Some(found) => self.nearest(*pt, n as nat) == Some(deref_all(found@)),
                None => self.nearest(*pt, n as nat) is None,
            },
    {
        if let Some(dist) = self.root.minimum_coordinate_distance(pt) {
            let side: u32 = (dist * 2) as u32;
            let query_rect = Rectangle::new_centered(*pt, side, side);
            assert(query_rect == search_window(*pt, dist as int));
            match self.root.find_in_bounds(&query_rect) {
                Some(data) => {
                    let mut sorted = sort_by_distance(&data, pt);
                    let ghost all = sorted@;
                    if n < sorted.len() {
                        sorted.truncate(n);
                        assert(deref_all(sorted@) =~= deref_all(all).take(n as int));
                    }
                    Some(sorted)
                },
                None => None,
            }
        } else {
            None
        }
    }

    /// Finds the payload of the leaf nearest to `pt`.
    pub fn find_nearest_neighbor(&self, pt: Point) -> (r: Option<&T>)
        requires
            self.wf(),
        ensures
            match r {
                Some(t) => self.nearest(pt, 1) is Some && self.nearest(pt, 1)->0.len() > 0
                    && self.nearest(pt, 1)->0[0].data == *t,
                None => self.nearest(pt, 1) is None || self.nearest(pt, 1)->0.len() == 0,
            },
    {
        if let Some(found) = self.find_nearest_neighbors(&pt, 1) {
            assert(found@.len() == deref_all(found@).len());
            if found.len() > 0 {
                Some(&found[0].data)
            } else {
                None
            }
        } else {
            None
        }
    }

    /// Finds the position of the leaf nearest to `pt`.
    pub fn find_nearest_neighbor_position(&self, pt: Point) -> (r: Option<Point>)
        requires
            self.wf(),
        ensures
            match r {
                Some(t) => self.nearest(pt, 1) is Some && self.nearest(pt, 1)->0.len() > 0
                    && self.nearest(pt, 1)->0[0].position == t,
                None => self.nearest(pt, 1) is None || self.nearest(pt, 1)->0.len() == 0,
            },
    {
        if let Some(found) = self.find_nearest_neighbors(&pt, 1) {
            assert(found@.len() == deref_all(found@).len());
            if found.len() > 0 {
                Some(found[0].position)
            } else {
                None
            }
        } else {
            None
        }
    }
}

} // verus!
