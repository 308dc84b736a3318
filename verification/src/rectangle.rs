use crate::point::Point;
use vstd::prelude::*;

verus! {

/// The largest distance of an edge of a tree's bounds from the origin, in
/// ticks. Within it, any search window around a position of the tree fits
/// the coordinate type.
pub const PLANE_LIMIT: i32 = 0x2000_0000;

/// An axis-aligned rectangle, anchored at its bottom left corner. Its edges
/// belong to it.
#[derive(Debug, Copy, Clone, PartialEq, Eq, Structural)]
pub struct Rectangle {
    pub anchor: Point,
    pub width: u32,
    pub height: u32,
}

/// One of the four parts into which the two midlines cut a rectangle.
#[derive(Debug, Copy, Clone, PartialEq, Eq, Structural)]
pub enum Quadrant {
    BottomLeft,
    BottomRight,
    TopRight,
    TopLeft,
}

/// How two rectangles lie to each other, judged by their corners.
#[derive(Debug, Copy, Clone, PartialEq, Eq, Structural)]
pub enum RectangleRelation {
    /// Neither rectangle holds a corner of the other.
    Disjoint,
    /// Some corners of one lie in the other, but not all four.
    Intersection,
    /// One rectangle holds all corners of the other: with `true` the first
    /// holds the second, with `false` the second holds the first.
    Containment(bool),
}

impl Quadrant {
    /// Whether the quadrant lies right of the vertical midline.
    pub open spec fn is_right(self) -> bool {
        self == Quadrant::BottomRight || self == Quadrant::TopRight
    }

    /// Whether the quadrant lies above the horizontal midline.
    pub open spec fn is_top(self) -> bool {
        self == Quadrant::TopRight || self == Quadrant::TopLeft
    }
}

impl Rectangle {
    /// The far edges fit the coordinate type.
    pub open spec fn valid(self) -> bool {
        &&& self.anchor.x + self.width <= i32::MAX
        &&& self.anchor.y + self.height <= i32::MAX
    }

    /// The rectangle lies within the limit around the origin.
    pub open spec fn in_plane(self) -> bool {
        &&& -PLANE_LIMIT <= self.low_x()
        &&& self.high_x() <= PLANE_LIMIT
        &&& -PLANE_LIMIT <= self.low_y()
        &&& self.high_y() <= PLANE_LIMIT
    }

    pub open spec fn low_x(self) -> int {
        self.anchor.x as int
    }

    pub open spec fn low_y(self) -> int {
        self.anchor.y as int
    }

    pub open spec fn high_x(self) -> int {
        self.anchor.x + self.width
    }

    pub open spec fn high_y(self) -> int {
        self.anchor.y + self.height
    }

    /// The vertical midline: the anchor plus half the width, rounded down.
    pub open spec fn mid_x(self) -> int {
        self.anchor.x + self.width / 2
    }

    /// The horizontal midline: the anchor plus half the height, rounded down.
    pub open spec fn mid_y(self) -> int {
        self.anchor.y + self.height / 2
    }

    pub open spec fn area(self) -> int {
        self.width * self.height
    }

    /// Whether `p` lies in the rectangle, edges included.
    pub open spec fn contains(self, p: Point) -> bool {
        &&& self.low_x() <= p.x <= self.high_x()
        &&& self.low_y() <= p.y <= self.high_y()
    }

    /// The quadrant of a point: none outside the rectangle; inside, a point
    /// on a midline counts to the left or lower side.
    pub open spec fn quadrant_of(self, p: Point) -> Option<Quadrant> {
        if !self.contains(p) {
            None
        } else if p.x > self.mid_x() {
            if p.y > self.mid_y() {
                Some(Quadrant::TopRight)
            } else {
                Some(Quadrant::BottomRight)
            }
        } else {
            if p.y > self.mid_y() {
                Some(Quadrant::TopLeft)
            } else {
                Some(Quadrant::BottomLeft)
            }
        }
    }

    /// The part of the rectangle that stands for quadrant `q`: the midlines
    /// cut the rectangle, the left and lower parts reach up to them, the
    /// right and upper parts start on them. Where an extent is odd, the right
    /// or upper part is the larger by one tick.
    pub open spec fn quadrant_rect(self, q: Quadrant) -> Rectangle {
        Rectangle {
            anchor: Point {
                x: (if q.is_right() { self.mid_x() } else { self.low_x() }) as i32,
                y: (if q.is_top() { self.mid_y() } else { self.low_y() }) as i32,
            },
            width: (if q.is_right() { self.width - self.width / 2 } else { self.width as int / 2 }) as u32,
            height: (if q.is_top() { self.height - self.height / 2 } else { self.height as int / 2 }) as u32,
        }
    }

    /// The four corners in the order bottom left, bottom right, top right,
    /// top left.
    pub open spec fn corner_points(self) -> Seq<Point> {
        seq![
            Point { x: self.low_x() as i32, y: self.low_y() as i32 },
            Point { x: self.high_x() as i32, y: self.low_y() as i32 },
            Point { x: self.high_x() as i32, y: self.high_y() as i32 },
            Point { x: self.low_x() as i32, y: self.high_y() as i32 },
        ]
    }

    /// How many of the corners of `other` lie in `self`.
    pub open spec fn corners_inside(self, other: Rectangle) -> int {
        let c = other.corner_points();
        (if self.contains(c[0]) { 1int } else { 0int })
            + (if self.contains(c[1]) { 1int } else { 0int })
            + (if self.contains(c[2]) { 1int } else { 0int })
            + (if self.contains(c[3]) { 1int } else { 0int })
    }

    /// The relation of `self` to `other`, judged by corners alone. Two
    /// rectangles that cross without either holding a corner of the other
    /// count as disjoint.
    pub open spec fn relation_spec(self, other: Rectangle) -> RectangleRelation {
        let inner = self.corners_inside(other);
        if inner == 0 {
            let outer = other.corners_inside(self);
            if outer == 0 {
                RectangleRelation::Disjoint
            } else if outer == 4 {
                RectangleRelation::Containment(false)
            } else {
                RectangleRelation::Intersection
            }
        } else if inner == 4 {
            RectangleRelation::Containment(true)
        } else {
            RectangleRelation::Intersection
        }
    }

    /// Creates a rectangle from its bottom left corner and its extents.
    pub fn new(anchor: Point, width: u32, height: u32) -> (r: Rectangle)
        requires
            anchor.x + width <= i32::MAX,
            anchor.y + height <= i32::MAX,
        ensures
            r == (Rectangle { anchor, width, height }),
            r.valid(),
    {
        Rectangle { anchor, width, height }
    }

    /// Creates a rectangle around a centre: the anchor lies half the extents
    /// (rounded down) to the left of and below `center`.
    pub fn new_centered(center: Point, width: u32, height: u32) -> (r: Rectangle)
        requires
            i32::MIN <= center.x - width / 2,
            i32::MIN <= center.y - height / 2,
            center.x - width / 2 + width <= i32::MAX,
            center.y - height / 2 + height <= i32::MAX,
        ensures
            r.anchor.x == center.x - width / 2,
            r.anchor.y == center.y - height / 2,
            r.width == width,
            r.height == height,
            r.valid(),
    {
        let x: i64 = center.x as i64 - (width / 2) as i64;
        let y: i64 = center.y as i64 - (height / 2) as i64;
        Rectangle { anchor: Point::new(x as i32, y as i32), width, height }
    }

    pub fn width(&self) -> (w: u32)
        ensures
            w == self.width,
    {
        self.width
    }

    pub fn height(&self) -> (h: u32)
        ensures
            h == self.height,
    {
        self.height
    }

    /// The point where the two midlines meet.
    pub fn center(&self) -> (c: Point)
        requires
            self.valid(),
        ensures
            c.x == self.mid_x(),
            c.y == self.mid_y(),
    {
        let x: i64 = self.anchor.x as i64 + (self.width / 2) as i64;
        let y: i64 = self.anchor.y as i64 + (self.height / 2) as i64;
        Point::new(x as i32, y as i32)
    }

    pub fn min_x(&self) -> (v: i32)
        ensures
            v == self.low_x(),
    {
        self.anchor.x
    }

    pub fn max_x(&self) -> (v: i32)
        requires
            self.valid(),
        ensures
            v == self.high_x(),
    {
        (self.anchor.x as i64 + self.width as i64) as i32
    }

    pub fn min_y(&self) -> (v: i32)
        ensures
            v == self.low_y(),
    {
        self.anchor.y
    }

    pub fn max_y(&self) -> (v: i32)
        requires
            self.valid(),
        ensures
            v == self.high_y(),
    {
        (self.anchor.y as i64 + self.height as i64) as i32
    }

    /// Finds the quadrant in which `pt` lies, if it lies in the rectangle.
    pub fn find_quadrant(&self, pt: &Point) -> (q: Option<Quadrant>)
        ensures
            q == self.quadrant_of(*pt),
    {
        let min_x: i64 = self.anchor.x as i64;
        let min_y: i64 = self.anchor.y as i64;
        let max_x: i64 = min_x + self.width as i64;
        let max_y: i64 = min_y + self.height as i64;
        let px: i64 = pt.x as i64;
        let py: i64 = pt.y as i64;

        if px < min_x || px > max_x || py < min_y || py > max_y {
            None
        } else {
            let mid_x: i64 = min_x + (self.width / 2) as i64;
            let mid_y: i64 = min_y + (self.height / 2) as i64;
            if px > mid_x {
                if py > mid_y {
                    Some(Quadrant::TopRight)
                } else {
                    Some(Quadrant::BottomRight)
                }
            } else {
                if py > mid_y {
                    Some(Quadrant::TopLeft)
                } else {
                    Some(Quadrant::BottomLeft)
                }
            }
        }
    }

    /// Builds the part of the rectangle that stands for `quadrant`.
    pub fn create_quadrant(&self, quadrant: &Quadrant) -> (r: Rectangle)
        requires
            self.valid(),
        ensures
            r == self.quadrant_rect(*quadrant),
            r.valid(),
    {
        let half_w: u32 = self.width / 2;
        let half_h: u32 = self.height / 2;
        let mid_x: i32 = (self.anchor.x as i64 + half_w as i64) as i32;
        let mid_y: i32 = (self.anchor.y as i64 + half_h as i64) as i32;
        match quadrant {
            Quadrant::BottomLeft => Rectangle { anchor: self.anchor, width: half_w, height: half_h },
            Quadrant::BottomRight => Rectangle {
                anchor: Point::new(mid_x, self.anchor.y),
                width: self.width - half_w,
                height: half_h,
            },
            Quadrant::TopRight => Rectangle {
                anchor: Point::new(mid_x, mid_y),
                width: self.width - half_w,
                height: self.height - half_h,
            },
            Quadrant::TopLeft => Rectangle {
                anchor: Point::new(self.anchor.x, mid_y),
                width: half_w,
                height: self.height - half_h,
            },
        }
    }

    /// Returns the four corners in the order bottom left, bottom right, top
    /// right, top left.
    pub fn corners(&self) -> (c: [Point; 4])
        requires
            self.valid(),
        ensures
            c@ == self.corner_points(),
    {
        let lx: i32 = self.anchor.x;
        let ly: i32 = self.anchor.y;
        let hx: i32 = self.max_x();
        let hy: i32 = self.max_y();
        let c = [Point::new(lx, ly), Point::new(hx, ly), Point::new(hx, hy), Point::new(lx, hy)];
        assert(c@ =~= self.corner_points());
        c
    }

    /// Counts the corners of `other` that lie in `self`.
    pub fn count_corners_inside(&self, other: &Rectangle) -> (n: u8)
        requires
            other.valid(),
        ensures
            n == self.corners_inside(*other),
    {
        let c = other.corners();
        let mut n: u8 = 0;
        if self.find_quadrant(&c[0]).is_some() {
            n = n + 1;
        }
        if self.find_quadrant(&c[1]).is_some() {
            n = n + 1;
        }
        if self.find_quadrant(&c[2]).is_some() {
            n = n + 1;
        }
        if self.find_quadrant(&c[3]).is_some() {
            n = n + 1;
        }
        n
    }

    /// Classifies how `self` lies to `other` by the corners of each that lie
    /// in the other.
    pub fn relation(&self, other: &Rectangle) -> (r: RectangleRelation)
        requires
            self.valid(),
            other.valid(),
        ensures
            r == self.relation_spec(*other),
    {
        let inner: u8 = self.count_corners_inside(other);
        if inner == 0 {
            let outer: u8 = other.count_corners_inside(self);
            if outer == 0 {
                RectangleRelation::Disjoint
            } else if outer == 4 {
                RectangleRelation::Containment(false)
            } else {
                RectangleRelation::Intersection
            }
        } else if inner == 4 {
            RectangleRelation::Containment(true)
        } else {
            RectangleRelation::Intersection
        }
    }
}

} // verus!

verus! {

/// A rectangle with neither extent above one tick has at most one position in
/// each quadrant. So where two different positions share a quadrant, one of
/// the extents is at least two, and each quadrant is smaller than the whole.
pub proof fn lemma_shared_quadrant_is_smaller(r: Rectangle, a: Point, b: Point)
    requires
        a != b,
        r.quadrant_of(a) is Some,
        r.quadrant_of(a) == r.quadrant_of(b),
    ensures
        r.width >= 2 || r.height >= 2,
{
}

/// The four parts tile the rectangle. Each part lies in the rectangle; every
/// position of the rectangle lies in the part of its own quadrant; a position
/// that lies in a part of another quadrant lies on a midline, so two parts
/// share no more than an edge; and the areas of the four parts add up to the
/// area of the whole.
pub proof fn lemma_quadrants_tile(r: Rectangle, p: Point, q: Quadrant)
    requires
        r.valid(),
    ensures
        r.quadrant_rect(q).valid(),
        r.quadrant_rect(q).contains(p) ==> r.contains(p),
        r.quadrant_of(p) == Some(q) ==> r.quadrant_rect(q).contains(p),
        r.quadrant_rect(q).contains(p) && r.quadrant_of(p) != Some(q) ==> p.x == r.mid_x() || p.y
            == r.mid_y(),
        r.quadrant_rect(Quadrant::BottomLeft).area() + r.quadrant_rect(Quadrant::BottomRight).area()
            + r.quadrant_rect(Quadrant::TopRight).area() + r.quadrant_rect(Quadrant::TopLeft).area()
            == r.area(),
{
    let w0 = r.width as int / 2;
    let w1 = r.width - r.width / 2;
    let h0 = r.height as int / 2;
    let h1 = r.height - r.height / 2;
    assert(w0 * h0 + w1 * h0 + w1 * h1 + w0 * h1 == (w0 + w1) * (h0 + h1)) by (nonlinear_arith);
}

} // verus!
