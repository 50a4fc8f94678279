//! Plain geometric value types: points, sizes and rectangles on an
//! integer coordinate grid.

use vstd::prelude::*;

verus! {

/// A position in the parent's coordinate space.
#[derive(Debug, Clone, Copy, PartialEq, Eq, Structural)]
pub struct Point {
    pub x: i64,
    pub y: i64,
}

impl Point {
    pub fn new(x: i64, y: i64) -> (r: Point)
        ensures
            r == (Point { x, y }),
    {
        Point { x, y }
    }
}

/// An axis-aligned extent.
#[derive(Debug, Clone, Copy, PartialEq, Eq, Structural)]
pub struct Size {
    pub width: i64,
    pub height: i64,
}

impl Size {
    pub fn new(width: i64, height: i64) -> (r: Size)
        ensures
            r == (Size { width, height }),
    {
        Size { width, height }
    }

    /// The midpoint of the extent, measured from its origin.
    pub fn center(&self) -> (r: Point)
        requires
            self.width >= 0,
            self.height >= 0,
        ensures
            r.x == self.width / 2,
            r.y == self.height / 2,
    {
        Point { x: self.width / 2, y: self.height / 2 }
    }
}

/// A placement rectangle: an origin and a size.
#[derive(Debug, Clone, Copy, PartialEq, Eq, Structural)]
pub struct Rect {
    pub origin: Point,
    pub size: Size,
}

impl Rect {
    pub fn new(origin: Point, size: Size) -> (r: Rect)
        ensures
            r == (Rect { origin, size }),
    {
        Rect { origin, size }
    }

    pub fn from_xywh(x: i64, y: i64, width: i64, height: i64) -> (r: Rect)
        ensures
            r == (Rect { origin: Point { x, y }, size: Size { width, height } }),
    {
        Rect { origin: Point { x, y }, size: Size { width, height } }
    }

    pub fn min_x(&self) -> (r: i64)
        ensures
            r == self.origin.x,
    {
        self.origin.x
    }

    pub fn min_y(&self) -> (r: i64)
        ensures
            r == self.origin.y,
    {
        self.origin.y
    }

    pub fn max_x(&self) -> (r: i64)
        requires
            self.origin.x + self.size.width <= i64::MAX,
            self.origin.x + self.size.width >= i64::MIN,
        ensures
            r == self.origin.x + self.size.width,
    {
        self.origin.x + self.size.width
    }

    pub fn max_y(&self) -> (r: i64)
        requires
            self.origin.y + self.size.height <= i64::MAX,
            self.origin.y + self.size.height >= i64::MIN,
        ensures
            r == self.origin.y + self.size.height,
    {
        self.origin.y + self.size.height
    }

    /// Whether `point` lies inside the rectangle, borders included.
    pub fn contains(&self, point: &Point) -> (r: bool)
        requires
            self.origin.x + self.size.width <= i64::MAX,
            self.origin.x + self.size.width >= i64::MIN,
            self.origin.y + self.size.height <= i64::MAX,
            self.origin.y + self.size.height >= i64::MIN,
        ensures
            r == (point.x >= self.origin.x && point.y >= self.origin.y
                && point.x <= self.origin.x + self.size.width
                && point.y <= self.origin.y + self.size.height),
    {
        point.x >= self.min_x() && point.y >= self.min_y() && point.x <= self.max_x()
            && point.y <= self.max_y()
    }

    pub fn x(&self) -> (r: i64)
        ensures
            r == self.origin.x,
    {
        self.origin.x
    }

    pub fn y(&self) -> (r: i64)
        ensures
            r == self.origin.y,
    {
        self.origin.y
    }

    pub fn width(&self) -> (r: i64)
        ensures
            r == self.size.width,
    {
        self.size.width
    }

    pub fn height(&self) -> (r: i64)
        ensures
            r == self.size.height,
    {
        self.size.height
    }
}

} // verus!
