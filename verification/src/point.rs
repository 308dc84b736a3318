use vstd::prelude::*;

verus! {

/// Number of ticks that make up one unit of length.
pub const TICKS_PER_UNIT: i32 = 1000;

/// A position in the plane, in ticks.
#[derive(Debug, Copy, Clone, PartialEq, Eq, Structural)]
pub struct Point {
    pub x: i32,
    pub y: i32,
}

/// The absolute difference of two coordinates.
pub open spec fn gap(a: int, b: int) -> int {
    if a >= b {
        a - b
    } else {
        b - a
    }
}

impl Point {
    /// The squared Euclidean distance between two points.
    pub open spec fn squared_distance_spec(self, other: Point) -> int {
        (self.x - other.x) * (self.x - other.x) + (self.y - other.y) * (self.y - other.y)
    }

    /// The Chebyshev distance between two points: the larger of the two
    /// coordinate gaps.
    pub open spec fn coordinate_distance_spec(self, other: Point) -> int {
        let dx = gap(self.x as int, other.x as int);
        let dy = gap(self.y as int, other.y as int);
        if dx >= dy {
            dx
        } else {
            dy
        }
    }

    /// Creates a point from its two coordinates.
    pub fn new(x: i32, y: i32) -> (p: Point)
        ensures
            p.x == x,
            p.y == y,
    {
        Point { x, y }
    }

    /// The x coordinate.
    pub fn x(&self) -> (v: i32)
        ensures
            v == self.x,
    {
        self.x
    }

    /// The y coordinate.
    pub fn y(&self) -> (v: i32)
        ensures
            v == self.y,
    {
        self.y
    }

    /// Computes the squared Euclidean distance to `other`.
    pub fn squared_distance(&self, other: &Point) -> (d: u128)
        ensures
            d == self.squared_distance_spec(*other),
    {
        let dx: i128 = self.x as i128 - other.x as i128;
        let dy: i128 = self.y as i128 - other.y as i128;
        assert(-0x1_0000_0000 < dx < 0x1_0000_0000);
        assert(-0x1_0000_0000 < dy < 0x1_0000_0000);
        assert(0 <= dx * dx <= 0x1_0000_0000_0000_0000) by (nonlinear_arith)
            requires
                -0x1_0000_0000 < dx < 0x1_0000_0000,
        ;
        assert(0 <= dy * dy <= 0x1_0000_0000_0000_0000) by (nonlinear_arith)
            requires
                -0x1_0000_0000 < dy < 0x1_0000_0000,
        ;
        let sx: i128 = dx * dx;
        let sy: i128 = dy * dy;
        (sx + sy) as u128
    }

    /// Computes the Chebyshev distance to `other`.
    pub fn coordinate_distance(&self, other: &Point) -> (d: u32)
        ensures
            d == self.coordinate_distance_spec(*other),
    {
        let dx: i64 = self.x as i64 - other.x as i64;
        let dy: i64 = self.y as i64 - other.y as i64;
        let ax: i64 = if dx >= 0 { dx } else { -dx };
        let ay: i64 = if dy >= 0 { dy } else { -dy };
        if ax >= ay {
            ax as u32
        } else {
            ay as u32
        }
    }
}

impl From<(i32, i32)> for Point {
    /// Makes a point of a pair of coordinates, x first.
    fn from(args: (i32, i32)) -> (p: Point) {
        Point::new(args.0, args.1)
    }
}

impl vstd::std_specs::convert::FromSpecImpl<(i32, i32)> for Point {
    open spec fn obeys_from_spec() -> bool {
        true
    }

    open spec fn from_spec(v: (i32, i32)) -> Point {
        Point { x: v.0, y: v.1 }
    }
}

} // verus!
