//! Rectangles of whole pixels. Operations saturate at the numeric bounds.

use vstd::prelude::*;

use crate::units::saturate_i32;

verus! {

/// A point, or a distance from one point to another.
#[derive(Clone, Copy, Debug, PartialEq, Eq, Structural)]
pub struct Point {
    pub x: i32,
    pub y: i32,
}

/// A width and a height.
#[derive(Clone, Copy, Debug, PartialEq, Eq, Structural)]
pub struct Size {
    pub w: i32,
    pub h: i32,
}

/// A rectangle, given by its top left corner and its size.
#[derive(Clone, Copy, Debug, PartialEq, Eq, Structural)]
pub struct Rectangle {
    pub loc: Point,
    pub size: Size,
}

/// The direction in which a group lays out its children: one below the other, or side by side.
#[derive(Clone, Copy, Debug, PartialEq, Eq, Structural)]
pub enum Orientation {
    Horizontal,
    Vertical,
}

impl Orientation {
    /// The other orientation.
    pub open spec fn spec_opposite(self) -> Orientation {
        match self {
            Orientation::Horizontal => Orientation::Vertical,
            Orientation::Vertical => Orientation::Horizontal,
        }
    }

    /// The other orientation.
    pub fn opposite(self) -> (other: Orientation)
        ensures
            other == self.spec_opposite(),
    {
        match self {
            Orientation::Horizontal => Orientation::Vertical,
            Orientation::Vertical => Orientation::Horizontal,
        }
    }
}

/// The sum of two numbers, or the nearest `i32`.
pub open spec fn plus(a: int, b: int) -> i32 {
    saturate_i32(a + b) as i32
}

/// The difference of two numbers, or the nearest `i32`.
pub open spec fn minus(a: int, b: int) -> i32 {
    saturate_i32(a - b) as i32
}

/// What is left of an extent when `b` is taken off it: never negative.
pub open spec fn shrunk(a: int, b: int) -> i32 {
    if minus(a, b) > 0 {
        minus(a, b)
    } else {
        0
    }
}

/// `a + b`, or the nearest `i32`.
pub fn add_saturating(a: i32, b: i32) -> (sum: i32)
    ensures
        sum == plus(a as int, b as int),
{
    let sum: i64 = a as i64 + b as i64;
    if sum < i32::MIN as i64 {
        i32::MIN
    } else if sum > i32::MAX as i64 {
        i32::MAX
    } else {
        sum as i32
    }
}

/// `a - b`, or the nearest `i32`.
pub fn sub_saturating(a: i32, b: i32) -> (difference: i32)
    ensures
        difference == minus(a as int, b as int),
{
    let difference: i64 = a as i64 - b as i64;
    if difference < i32::MIN as i64 {
        i32::MIN
    } else if difference > i32::MAX as i64 {
        i32::MAX
    } else {
        difference as i32
    }
}

/// `2 * a`, or the nearest `i32`.
pub fn double_saturating(a: i32) -> (product: i32)
    ensures
        product == saturate_i32(2 * a),
{
    let product: i64 = 2 * a as i64;
    if product < i32::MIN as i64 {
        i32::MIN
    } else if product > i32::MAX as i64 {
        i32::MAX
    } else {
        product as i32
    }
}

/// What is left of an extent when `b` is taken off it: never negative.
pub fn shrink(a: i32, b: i32) -> (left: i32)
    ensures
        left == shrunk(a as int, b as int),
{
    let difference: i32 = sub_saturating(a, b);
    if difference > 0 {
        difference
    } else {
        0
    }
}

/// The smaller of two numbers.
pub open spec fn least(a: i32, b: i32) -> i32 {
    if a <= b {
        a
    } else {
        b
    }
}

/// The larger of two numbers.
pub open spec fn greatest(a: i32, b: i32) -> i32 {
    if a >= b {
        a
    } else {
        b
    }
}

impl Rectangle {
    /// The rectangle at (`x`, `y`) that is `w` wide and `h` high.
    pub open spec fn of(x: i32, y: i32, w: i32, h: i32) -> Rectangle {
        Rectangle { loc: Point { x, y }, size: Size { w, h } }
    }

    /// The right edge.
    pub open spec fn spec_right(self) -> i32 {
        plus(self.loc.x as int, self.size.w as int)
    }

    /// The bottom edge.
    pub open spec fn spec_bottom(self) -> i32 {
        plus(self.loc.y as int, self.size.h as int)
    }

    /// Whether a point lies inside: on the top and left edges, but not on the others.
    pub open spec fn holds(self, point: Point) -> bool {
        &&& self.loc.x <= point.x < self.spec_right()
        &&& self.loc.y <= point.y < self.spec_bottom()
    }

    /// The smallest rectangle that spans the corners of both.
    pub open spec fn joined(self, other: Rectangle) -> Rectangle {
        let left = least(
            least(self.loc.x, self.spec_right()),
            least(other.loc.x, other.spec_right()),
        );
        let top = least(
            least(self.loc.y, self.spec_bottom()),
            least(other.loc.y, other.spec_bottom()),
        );
        let right = greatest(
            greatest(self.loc.x, self.spec_right()),
            greatest(other.loc.x, other.spec_right()),
        );
        let bottom = greatest(
            greatest(self.loc.y, self.spec_bottom()),
            greatest(other.loc.y, other.spec_bottom()),
        );
        Rectangle::of(
            left,
            top,
            minus(right as int, left as int),
            minus(bottom as int, top as int),
        )
    }

    /// The rectangle with this much taken off at each edge.
    pub open spec fn inset(self, left: i32, top: i32, right: i32, bottom: i32) -> Rectangle {
        Rectangle::of(
            plus(self.loc.x as int, left as int),
            plus(self.loc.y as int, top as int),
            shrunk(shrunk(self.size.w as int, left as int) as int, right as int),
            shrunk(shrunk(self.size.h as int, top as int) as int, bottom as int),
        )
    }

    /// The extent along which a group of this orientation lays out its children.
    pub open spec fn extent(self, orientation: Orientation) -> i32 {
        match orientation {
            Orientation::Horizontal => self.size.h,
            Orientation::Vertical => self.size.w,
        }
    }

    /// The rectangle at (`x`, `y`) that is `w` wide and `h` high.
    pub fn new(x: i32, y: i32, w: i32, h: i32) -> (rectangle: Rectangle)
        ensures
            rectangle == Rectangle::of(x, y, w, h),
    {
        Rectangle { loc: Point { x, y }, size: Size { w, h } }
    }

    /// The right edge.
    pub fn right(self) -> (right: i32)
        ensures
            right == self.spec_right(),
    {
        add_saturating(self.loc.x, self.size.w)
    }

    /// The bottom edge.
    pub fn bottom(self) -> (bottom: i32)
        ensures
            bottom == self.spec_bottom(),
    {
        add_saturating(self.loc.y, self.size.h)
    }

    /// Whether a point lies inside: on the top and left edges, but not on the others.
    pub fn contains(self, point: Point) -> (yes: bool)
        ensures
            yes == self.holds(point),
    {
        self.loc.x <= point.x && point.x < self.right() && self.loc.y <= point.y && point.y
            < self.bottom()
    }

    /// The smallest rectangle that spans the corners of both.
    pub fn merge(self, other: Rectangle) -> (bounds: Rectangle)
        ensures
            bounds == self.joined(other),
    {
        let left: i32 = smaller(
            smaller(self.loc.x, self.right()),
            smaller(other.loc.x, other.right()),
        );
        let top: i32 = smaller(
            smaller(self.loc.y, self.bottom()),
            smaller(other.loc.y, other.bottom()),
        );
        let right: i32 = larger(
            larger(self.loc.x, self.right()),
            larger(other.loc.x, other.right()),
        );
        let bottom: i32 = larger(
            larger(self.loc.y, self.bottom()),
            larger(other.loc.y, other.bottom()),
        );
        Rectangle::new(left, top, sub_saturating(right, left), sub_saturating(bottom, top))
    }

    /// The rectangle with this much taken off at each edge.
    pub fn shrunk_by(self, left: i32, top: i32, right: i32, bottom: i32) -> (rest: Rectangle)
        ensures
            rest == self.inset(left, top, right, bottom),
    {
        Rectangle::new(
            add_saturating(self.loc.x, left),
            add_saturating(self.loc.y, top),
            shrink(shrink(self.size.w, left), right),
            shrink(shrink(self.size.h, top), bottom),
        )
    }

    /// The extent along which a group of this orientation lays out its children.
    pub fn length(self, orientation: Orientation) -> (length: i32)
        ensures
            length == self.extent(orientation),
    {
        match orientation {
            Orientation::Horizontal => self.size.h,
            Orientation::Vertical => self.size.w,
        }
    }
}

/// The smaller of two numbers.
pub fn smaller(a: i32, b: i32) -> (result: i32)
    ensures
        result == least(a, b),
{
    if a <= b {
        a
    } else {
        b
    }
}

/// The larger of two numbers.
pub fn larger(a: i32, b: i32) -> (result: i32)
    ensures
        result == greatest(a, b),
{
    if a >= b {
        a
    } else {
        b
    }
}

} // verus!
