//! Fitting areas into others: windows in an overview, and windows that wait to be exchanged.

use vstd::prelude::*;

use crate::data::{scale, scaled};
use crate::doubles::{half_rest, rest_half};
use crate::geometry::{add_saturating, plus, minus, sub_saturating, Point, Rectangle, Size};
use crate::units::saturate_i32;

verus! {

/// The largest width of a window that waits to be exchanged.
pub const MAX_SWAP_WINDOW_WIDTH: i32 = 360;

/// The largest height of a window that waits to be exchanged.
pub const MAX_SWAP_WINDOW_HEIGHT: i32 = 240;

/// A proportion; for what is nothing it is one.
#[derive(Clone, Copy, Debug, PartialEq, Eq, Structural)]
pub struct Proportion {
    pub num: i32,
    pub den: i32,
}

impl Proportion {
    /// `value` in this proportion, to the nearest whole number of what doubles give.
    pub open spec fn of(self, value: int) -> i32 {
        scaled(self.num as int, self.den as int, value)
    }

    /// `value` in this proportion, to the nearest whole number of what doubles give.
    pub fn apply(self, value: i32) -> (result: i32)
        requires
            self.den > 0,
        ensures
            result == self.of(value as int),
    {
        scale(self.num, self.den as i128, value)
    }
}

/// The nearest `i32`.
fn clamp(value: i128) -> (result: i32)
    ensures
        result == saturate_i32(value as int),
{
    if value > i32::MAX as i128 {
        i32::MAX
    } else if value < i32::MIN as i128 {
        i32::MIN
    } else {
        value as i32
    }
}

/// The proportion of a length that is at most `limit` to the length.
pub open spec fn limited(length: i32, limit: i32) -> Proportion {
    if length > limit {
        Proportion { num: limit, den: length }
    } else {
        Proportion { num: 1, den: 1 }
    }
}

/// By how much a window that waits to be exchanged is scaled down.
pub open spec fn spec_swap_factor(size: Size) -> Proportion {
    let w = limited(size.w, MAX_SWAP_WINDOW_WIDTH);
    let h = limited(size.h, MAX_SWAP_WINDOW_HEIGHT);
    if h.num * w.den < w.num * h.den {
        h
    } else {
        w
    }
}

/// By how much a window that waits to be exchanged is scaled down.
pub fn swap_factor(size: Size) -> (factor: Proportion)
    ensures
        factor == spec_swap_factor(size),
        factor.den > 0,
        0 < factor.num <= factor.den,
{
    let w: Proportion = if size.w > MAX_SWAP_WINDOW_WIDTH {
        Proportion { num: MAX_SWAP_WINDOW_WIDTH, den: size.w }
    } else {
        Proportion { num: 1, den: 1 }
    };
    let h: Proportion = if size.h > MAX_SWAP_WINDOW_HEIGHT {
        Proportion { num: MAX_SWAP_WINDOW_HEIGHT, den: size.h }
    } else {
        Proportion { num: 1, den: 1 }
    };
    assert(0 <= h.num * w.den <= 360 * 0x7fff_ffff && 0 <= w.num * h.den <= 360 * 0x7fff_ffff)
        by (nonlinear_arith)
        requires
            0 < h.num <= 360,
            0 < w.num <= 360,
            0 < w.den <= 0x7fff_ffff,
            0 < h.den <= 0x7fff_ffff,
    ;
    if (h.num as i64) * (w.den as i64) < (w.num as i64) * (h.den as i64) {
        h
    } else {
        w
    }
}

/// Where a window that waits to be exchanged is shown: scaled down, in the upper right corner
/// of an area.
pub open spec fn swap_area(size: Size, relative_to: Rectangle) -> Rectangle {
    let factor = spec_swap_factor(size);
    let w = factor.of(size.w as int);
    let h = factor.of(size.h as int);
    Rectangle::of(
        minus(plus(relative_to.loc.x as int, relative_to.size.w as int) as int, w as int),
        relative_to.loc.y,
        w,
        h,
    )
}

/// Where a window that waits to be exchanged is shown: scaled down, in the upper right corner
/// of an area.
pub fn swap_geometry(size: Size, relative_to: Rectangle) -> (area: Rectangle)
    ensures
        area == swap_area(size, relative_to),
{
    let factor: Proportion = swap_factor(size);
    let w: i32 = factor.apply(size.w);
    let h: i32 = factor.apply(size.h);
    Rectangle::new(
        sub_saturating(add_saturating(relative_to.loc.x, relative_to.size.w), w),
        relative_to.loc.y,
        w,
        h,
    )
}

/// Whether an area has to be scaled by its height to fit into another one.
pub open spec fn fits_by_height(from: Size, to: Size) -> bool {
    if from.w <= 0 {
        to.w > 0 && from.h > 0
    } else {
        from.h > 0 && to.w * from.h > to.h * from.w
    }
}

/// By how much an area is scaled to fit into another one, and how far into it it is moved to be
/// in its middle, as doubles give it.
pub open spec fn centered_in(from: Size, to: Size) -> (Proportion, Point) {
    if fits_by_height(from, to) {
        (
            Proportion { num: to.h, den: from.h },
            Point {
                x: saturate_i32(
                    half_rest(to.w as int, from.w as int, to.h as int, from.h as int),
                ) as i32,
                y: 0,
            },
        )
    } else if from.w > 0 {
        (
            Proportion { num: to.w, den: from.w },
            Point {
                x: 0,
                y: saturate_i32(
                    half_rest(to.h as int, from.h as int, to.w as int, from.w as int),
                ) as i32,
            },
        )
    } else {
        (Proportion { num: 0, den: 1 }, Point { x: 0, y: 0 })
    }
}

/// By how much an area is scaled to fit into another one, and how far into it it is moved to be
/// in its middle.
pub fn scale_to_center(from: Size, to: Size) -> (result: (Proportion, Point))
    ensures
        result == centered_in(from, to),
        result.0.den > 0,
{
    assert(-0x4000_0000_0000_0000 <= to.w * from.h <= 0x4000_0000_0000_0000
        && -0x4000_0000_0000_0000 <= to.h * from.w <= 0x4000_0000_0000_0000) by (nonlinear_arith)
        requires
            -0x8000_0000 <= from.w <= 0x7fff_ffff,
            -0x8000_0000 <= from.h <= 0x7fff_ffff,
            -0x8000_0000 <= to.w <= 0x7fff_ffff,
            -0x8000_0000 <= to.h <= 0x7fff_ffff,
    ;
    let across: i128 = to.w as i128 * from.h as i128;
    let down: i128 = to.h as i128 * from.w as i128;
    let by_height: bool = if from.w <= 0 {
        to.w > 0 && from.h > 0
    } else {
        from.h > 0 && across > down
    };
    if by_height {
        let x: i32 = clamp(rest_half(to.w, from.w, to.h, from.h));
        (Proportion { num: to.h, den: from.h }, Point { x, y: 0 })
    } else if from.w > 0 {
        let y: i32 = clamp(rest_half(to.h, from.h, to.w, from.w));
        (Proportion { num: to.w, den: from.w }, Point { x: 0, y })
    } else {
        (Proportion { num: 0, den: 1 }, Point { x: 0, y: 0 })
    }
}

impl Rectangle {
    /// This area scaled to fit into another one, in its middle.
    pub open spec fn spec_fitted(self, into: Rectangle) -> Rectangle {
        let (scale, offset) = centered_in(self.size, into.size);
        Rectangle::of(
            plus(into.loc.x as int, offset.x as int),
            plus(into.loc.y as int, offset.y as int),
            scale.of(self.size.w as int),
            scale.of(self.size.h as int),
        )
    }

    /// This area scaled to fit into another one, in its middle.
    pub fn fitted(self, into: Rectangle) -> (area: Rectangle)
        ensures
            area == self.spec_fitted(into),
    {
        let (scale, offset) = scale_to_center(self.size, into.size);
        Rectangle::new(
            add_saturating(into.loc.x, offset.x),
            add_saturating(into.loc.y, offset.y),
            scale.apply(self.size.w),
            scale.apply(self.size.h),
        )
    }
}

} // verus!
