use vstd::prelude::*;

verus! {

/// A cell coordinate: `x` is the column, `y` the row.
#[derive(Debug, Clone, Copy, PartialEq, Eq, Structural)]
pub struct Point {
    pub x: usize,
    pub y: usize,
}

impl Point {
    pub fn new(x: usize, y: usize) -> (r: Point)
        ensures
            r.x == x,
            r.y == y,
    {
        Point { x, y }
    }

    pub fn equals(&self, that: &Point) -> (r: bool)
        ensures
            r == (*self == *that),
    {
        self.x == that.x && self.y == that.y
    }

    /// Moves one step down-right, unless either coordinate would overflow.
    pub open spec fn spec_increment(self) -> Point {
        if self.x < usize::MAX && self.y < usize::MAX {
            Point { x: (self.x + 1) as usize, y: (self.y + 1) as usize }
        } else {
            self
        }
    }

    /// Moves one step up-left, unless either coordinate would go below zero.
    pub open spec fn spec_decrement(self) -> Point {
        if self.x > 0 && self.y > 0 {
            Point { x: (self.x - 1) as usize, y: (self.y - 1) as usize }
        } else {
            self
        }
    }

    pub fn increment(&mut self)
        ensures
            *final(self) == old(self).spec_increment(),
    {
        if let (Some(result_x), Some(result_y)) = (self.x.checked_add(1), self.y.checked_add(1)) {
            self.x = result_x;
            self.y = result_y;
        }
    }

    pub fn decrement(&mut self)
        ensures
            *final(self) == old(self).spec_decrement(),
    {
        if let (Some(result_x), Some(result_y)) = (self.x.checked_sub(1), self.y.checked_sub(1)) {
            self.x = result_x;
            self.y = result_y;
        }
    }
}

/// An axis-aligned rectangle given by two inclusive corners.
#[derive(Debug, Clone, Copy, PartialEq, Eq, Structural)]
pub struct Rectangle {
    pub min_point: Point,
    pub max_point: Point,
}

pub open spec fn rect(min_x: int, min_y: int, max_x: int, max_y: int) -> Rectangle {
    Rectangle {
        min_point: Point { x: min_x as usize, y: min_y as usize },
        max_point: Point { x: max_x as usize, y: max_y as usize },
    }
}

pub open spec fn min_int(a: int, b: int) -> int {
    if a <= b { a } else { b }
}

pub open spec fn max_int(a: int, b: int) -> int {
    if a >= b { a } else { b }
}

impl Rectangle {
    /// Corners in order: both coordinates of the minimum do not exceed the maximum's.
    pub open spec fn is_proper(self) -> bool {
        self.min_point.x <= self.max_point.x && self.min_point.y <= self.max_point.y
    }

    /// The reserved "empty" rectangle, which no cell ever widened.
    pub open spec fn spec_default() -> Rectangle {
        rect(usize::MAX as int, usize::MAX as int, 0, 0)
    }

    pub open spec fn spec_width(self) -> int {
        self.max_point.x - self.min_point.x + 1
    }

    pub open spec fn spec_height(self) -> int {
        self.max_point.y - self.min_point.y + 1
    }

    pub open spec fn spec_size(self) -> int {
        self.spec_width() * self.spec_height()
    }

    /// Closed intervals on both axes intersect; touching counts.
    pub open spec fn spec_overlaps(self, that: Rectangle) -> bool {
        &&& self.min_point.y <= that.max_point.y
        &&& that.min_point.y <= self.max_point.y
        &&& self.min_point.x <= that.max_point.x
        &&& that.min_point.x <= self.max_point.x
    }

    /// The smallest rectangle enclosing both.
    pub open spec fn spec_merge(self, that: Rectangle) -> Rectangle {
        rect(
            min_int(self.min_point.x as int, that.min_point.x as int),
            min_int(self.min_point.y as int, that.min_point.y as int),
            max_int(self.max_point.x as int, that.max_point.x as int),
            max_int(self.max_point.y as int, that.max_point.y as int),
        )
    }

    pub open spec fn spec_contains_point(self, x: int, y: int) -> bool {
        self.min_point.x <= x <= self.max_point.x && self.min_point.y <= y <= self.max_point.y
    }

    /// Every point of `that` lies in `self`.
    pub open spec fn encloses(self, that: Rectangle) -> bool {
        &&& self.min_point.x <= that.min_point.x
        &&& self.min_point.y <= that.min_point.y
        &&& that.max_point.x <= self.max_point.x
        &&& that.max_point.y <= self.max_point.y
    }

    /// Some corner coordinate lies at or beyond the given width or height.
    pub open spec fn spec_out_of_bounds(self, width: int, height: int) -> bool {
        self.min_point.x >= width || self.max_point.x >= width || self.min_point.y >= height
            || self.max_point.y >= height
    }

    pub fn create_default() -> (r: Rectangle)
        ensures
            r == Rectangle::spec_default(),
    {
        Rectangle { min_point: Point::new(usize::MAX, usize::MAX), max_point: Point::new(0, 0) }
    }

    pub fn create_zero() -> (r: Rectangle)
        ensures
            r == rect(0, 0, 0, 0),
    {
        Rectangle { min_point: Point::new(0, 0), max_point: Point::new(0, 0) }
    }

    pub fn create_with_points(min_point: Point, max_point: Point) -> (r: Rectangle)
        ensures
            r.min_point == min_point,
            r.max_point == max_point,
    {
        Rectangle { min_point, max_point }
    }

    pub fn create_with_coordinates(min_x: usize, min_y: usize, max_x: usize, max_y: usize) -> (r:
        Rectangle)
        ensures
            r == rect(min_x as int, min_y as int, max_x as int, max_y as int),
    {
        Rectangle { min_point: Point::new(min_x, min_y), max_point: Point::new(max_x, max_y) }
    }

    pub fn merge(&self, that: &Rectangle) -> (r: Rectangle)
        ensures
            r == self.spec_merge(*that),
    {
        let min_x = if self.min_point.x <= that.min_point.x { self.min_point.x } else { that.min_point.x };
        let min_y = if self.min_point.y <= that.min_point.y { self.min_point.y } else { that.min_point.y };
        let max_x = if self.max_point.x >= that.max_point.x { self.max_point.x } else { that.max_point.x };
        let max_y = if self.max_point.y >= that.max_point.y { self.max_point.y } else { that.max_point.y };
        Self::create_with_coordinates(min_x, min_y, max_x, max_y)
    }

    pub fn is_overlapping(&self, that: &Rectangle) -> (r: bool)
        ensures
            r == self.spec_overlaps(*that),
    {
        if self.max_point.y < that.min_point.y || that.max_point.y < self.min_point.y {
            return false;
        }
        self.max_point.x >= that.min_point.x && that.max_point.x >= self.min_point.x
    }

    pub fn get_width(&self) -> (r: usize)
        requires
            self.min_point.x <= self.max_point.x,
            self.spec_width() <= usize::MAX,
        ensures
            r == self.spec_width(),
    {
        self.max_point.x - self.min_point.x + 1
    }

    pub fn get_height(&self) -> (r: usize)
        requires
            self.min_point.y <= self.max_point.y,
            self.spec_height() <= usize::MAX,
        ensures
            r == self.spec_height(),
    {
        self.max_point.y - self.min_point.y + 1
    }

    pub fn size(&self) -> (r: usize)
        requires
            self.is_proper(),
            self.spec_size() <= usize::MAX,
        ensures
            r == self.spec_size(),
    {
        proof {
            let w = self.spec_width();
            let h = self.spec_height();
            assert(w <= w * h && h <= w * h) by (nonlinear_arith)
                requires w >= 1, h >= 1;
        }
        self.get_width() * self.get_height()
    }

    pub fn contains_point(&self, point: &Point) -> (r: bool)
        ensures
            r == self.spec_contains_point(point.x as int, point.y as int),
    {
        point.x >= self.min_point.x && point.x <= self.max_point.x && point.y >= self.min_point.y
            && point.y <= self.max_point.y
    }

    pub fn equals(&self, that: &Rectangle) -> (r: bool)
        ensures
            r == (*self == *that),
    {
        self.min_point.equals(&that.min_point) && self.max_point.equals(&that.max_point)
    }

    pub fn out_of_bounds(&self, width: usize, height: usize) -> (r: bool)
        ensures
            r == self.spec_out_of_bounds(width as int, height as int),
    {
        self.min_point.x >= width || self.max_point.x >= width || self.min_point.y >= height
            || self.max_point.y >= height
    }
}

} // verus!
