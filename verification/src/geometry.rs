//! Integer points and sizes on the grid.
use vstd::prelude::*;

verus! {

/// Width and height of a bounding box, in cells.
#[derive(Debug, PartialEq, Eq, Structural, Clone, Copy)]
pub struct Size {
    pub width: usize,
    pub height: usize,
}

impl Size {
    /// A box `width` cells wide and `height` cells high.
    pub fn new(width: usize, height: usize) -> (s: Self)
        ensures
            s.width == width,
            s.height == height,
    {
        Size { width: width, height: height }
    }
}

/// A cell position: `x` grows to the right, `y` grows downwards.
#[derive(PartialEq, Eq, Structural, Hash, Debug, Clone, Copy, PartialOrd, Ord)]
pub struct Point {
    pub x: isize,
    pub y: isize,
}

impl View for Point {
    type V = (int, int);

    open spec fn view(&self) -> (int, int) {
        (self.x as int, self.y as int)
    }
}

impl Point {
    /// The point (x, y).
    pub fn new(x: isize, y: isize) -> (p: Self)
        ensures
            p.x == x,
            p.y == y,
    {
        Point { x: x, y: y }
    }

    /// The point at column `x` and row `y` of a scan.
    pub fn from(x: &usize, y: &usize) -> (p: Self)
        requires
            *x <= isize::MAX,
            *y <= isize::MAX,
        ensures
            p@ == (*x as int, *y as int),
    {
        Point { x: *x as isize, y: *y as isize }
    }
}

impl core::ops::Neg for Point {
    type Output = Point;

    /// The point reflected through the origin.
    fn neg(self) -> (r: Point) {
        Point { x: -self.x, y: -self.y }
    }
}

impl vstd::std_specs::ops::NegSpecImpl for Point {
    open spec fn obeys_neg_spec() -> bool {
        true
    }

    open spec fn neg_req(self) -> bool {
        self.x > isize::MIN && self.y > isize::MIN
    }

    open spec fn neg_spec(self) -> Point {
        Point { x: (-self.x) as isize, y: (-self.y) as isize }
    }
}

impl core::ops::Add for Point {
    type Output = Point;

    /// The sum of two points, coordinate by coordinate.
    fn add(self, other: Point) -> (r: Point) {
        Point { x: self.x + other.x, y: self.y + other.y }
    }
}

impl vstd::std_specs::ops::AddSpecImpl for Point {
    open spec fn obeys_add_spec() -> bool {
        true
    }

    open spec fn add_req(self, other: Point) -> bool {
        isize::MIN <= self.x + other.x <= isize::MAX && isize::MIN <= self.y + other.y
            <= isize::MAX
    }

    open spec fn add_spec(self, other: Point) -> Point {
        Point { x: (self.x + other.x) as isize, y: (self.y + other.y) as isize }
    }
}

impl core::ops::Sub for Point {
    type Output = Point;

    /// The difference of two points, coordinate by coordinate.
    fn sub(self, other: Point) -> (r: Point) {
        Point { x: self.x - other.x, y: self.y - other.y }
    }
}

impl vstd::std_specs::ops::SubSpecImpl for Point {
    open spec fn obeys_sub_spec() -> bool {
        true
    }

    open spec fn sub_req(self, other: Point) -> bool {
        isize::MIN <= self.x - other.x <= isize::MAX && isize::MIN <= self.y - other.y
            <= isize::MAX
    }

    open spec fn sub_spec(self, other: Point) -> Point {
        Point { x: (self.x - other.x) as isize, y: (self.y - other.y) as isize }
    }
}

} // verus!
