//! The numbers of the layout.
//!
//! Positions on the scrolling strip are whole numbers of subpixels. Positions and deltas that
//! come from input devices arrive as the bit patterns of IEEE 754 double precision numbers and
//! are converted here.

use vstd::prelude::*;
use vstd::arithmetic::power2::{
    lemma_pow2_pos, lemma_pow2_strictly_increases, lemma_pow2_unfold, lemma2_to64, lemma2_to64_rest,
    pow2,
};

verus! {

/// Subpixels in one pixel.
pub const SUBPIXEL: i128 = 1_048_576;

/// Subpixels in half a pixel.
pub const HALF_PIXEL: i128 = 524_288;

/// The largest magnitude, in subpixels, that a position or delta can have.
pub const SUBPIXEL_LIMIT: i128 = 0x1_0000_0000_0000_0000_0000_0000_0000;

/// The integer nearest to `num / den`; the one further from zero if two are equally near.
pub open spec fn round_ratio(num: int, den: int) -> int {
    if num >= 0 {
        (2 * num + den) / (2 * den)
    } else {
        -((-2 * num + den) / (2 * den))
    }
}

/// `value`, or the nearest `i32`.
pub open spec fn saturate_i32(value: int) -> int {
    if value < i32::MIN {
        i32::MIN as int
    } else if value > i32::MAX {
        i32::MAX as int
    } else {
        value
    }
}

/// The whole pixel nearest to a position given in subpixels, as an `i32`.
pub open spec fn nearest_pixel(subpixels: int) -> int {
    saturate_i32(round_ratio(subpixels, SUBPIXEL as int))
}

/// A rounded ratio is off by half a unit at most.
pub proof fn lemma_round_ratio(num: int, den: int)
    requires
        den > 0,
    ensures
        2 * num - den <= 2 * den * round_ratio(num, den) <= 2 * num + den,
        num >= 0 ==> round_ratio(num, den) >= 0,
        num <= 0 ==> round_ratio(num, den) <= 0,
{
    let n = if num >= 0 { num } else { -num };
    let q = (2 * n + den) / (2 * den);
    assert(2 * den * q <= 2 * n + den && 2 * n + den < 2 * den * q + 2 * den && q >= 0)
        by (nonlinear_arith)
        requires
            q == (2 * n + den) / (2 * den),
            den > 0,
            n >= 0,
    ;
    assert(2 * den * (-q) == -(2 * den * q)) by (nonlinear_arith);
    assert(den / (2 * den) == 0) by (nonlinear_arith)
        requires
            den > 0,
    ;
}

/// The integer nearest to `num / den`, ties away from zero.
pub fn round_div(num: i128, den: i128) -> (rounded: i128)
    requires
        den > 0,
        den <= SUBPIXEL_LIMIT,
        -0x1000_0000_0000_0000_0000_0000_0000_0000 <= num <= 0x1000_0000_0000_0000_0000_0000_0000_0000,
    ensures
        rounded == round_ratio(num as int, den as int),
{
    proof {
        lemma_round_ratio(num as int, den as int);
    }
    if num >= 0 {
        (2 * num + den) / (2 * den)
    } else {
        -((-2 * num + den) / (2 * den))
    }
}

/// The whole pixel nearest to a position given in subpixels.
pub fn to_nearest_pixel(subpixels: i128) -> (pixel: i32)
    requires
        -0x1000_0000_0000_0000_0000_0000_0000_0000 <= subpixels <= 0x1000_0000_0000_0000_0000_0000_0000_0000,
    ensures
        pixel == nearest_pixel(subpixels as int),
{
    let rounded: i128 = round_div(subpixels, SUBPIXEL);
    if rounded < i32::MIN as i128 {
        i32::MIN
    } else if rounded > i32::MAX as i128 {
        i32::MAX
    } else {
        rounded as i32
    }
}

/// The bit pattern of an IEEE 754 double precision number.
#[derive(Clone, Copy, Debug, PartialEq, Eq, Structural)]
pub struct Float64 {
    pub bits: u64,
}

impl Float64 {
    /// The sign bit.
    pub open spec fn negative(self) -> bool {
        self.bits >= 0x8000_0000_0000_0000
    }

    /// The biased exponent field.
    pub open spec fn exponent_field(self) -> int {
        (self.bits as int / 0x10_0000_0000_0000) % 2048
    }

    /// The fraction field.
    pub open spec fn fraction_field(self) -> int {
        self.bits as int % 0x10_0000_0000_0000
    }

    /// Whether the pattern is a number, rather than an infinity or not a number.
    pub open spec fn finite(self) -> bool {
        self.exponent_field() != 2047
    }

    /// The integer significand of a finite number.
    pub open spec fn significand(self) -> int {
        if self.exponent_field() == 0 {
            self.fraction_field()
        } else {
            self.fraction_field() + 0x10_0000_0000_0000
        }
    }

    /// The power of two that scales the significand of a finite number.
    pub open spec fn scale(self) -> int {
        if self.exponent_field() == 0 {
            -1074
        } else {
            self.exponent_field() - 1075
        }
    }

    /// The magnitude of a finite number in subpixels, to the nearest one, ties up, and no
    /// more than the limit.
    pub open spec fn subpixel_magnitude(self) -> int {
        let shift = self.scale() + 20;
        let exact = if shift >= 0 {
            self.significand() * (pow2(shift as nat) as int)
        } else {
            round_ratio(self.significand(), pow2((-shift) as nat) as int)
        };
        if exact > SUBPIXEL_LIMIT {
            SUBPIXEL_LIMIT as int
        } else {
            exact
        }
    }

    /// A finite number of pixels in subpixels.
    pub open spec fn spec_subpixels(self) -> int {
        if self.negative() {
            -self.subpixel_magnitude()
        } else {
            self.subpixel_magnitude()
        }
    }

    /// The greatest whole number that is not above a finite number.
    pub open spec fn floor(self) -> int {
        let magnitude = if self.scale() >= 0 {
            self.significand() * (pow2(self.scale() as nat) as int)
        } else {
            self.significand() / (pow2((-self.scale()) as nat) as int)
        };
        let whole = self.scale() >= 0 || self.significand() % (pow2(
            (-self.scale()) as nat,
        ) as int) == 0;
        if !self.negative() {
            magnitude
        } else if whole {
            -magnitude
        } else {
            -magnitude - 1
        }
    }

    /// Whether the pattern is a number, rather than an infinity or not a number.
    pub fn is_finite(self) -> (yes: bool)
        ensures
            yes == self.finite(),
    {
        (self.bits / 0x10_0000_0000_0000) % 2048 != 2047
    }

    /// The significand and scale of a finite number.
    fn decode(self) -> (parts: (u64, i32))
        requires
            self.finite(),
        ensures
            parts.0 == self.significand(),
            parts.1 == self.scale(),
            parts.0 < 0x20_0000_0000_0000,
            -1074 <= parts.1 <= 971,
            parts.1 > -1074 ==> parts.0 >= 0x10_0000_0000_0000,
    {
        let exponent: u64 = (self.bits / 0x10_0000_0000_0000) % 2048;
        let fraction: u64 = self.bits % 0x10_0000_0000_0000;
        if exponent == 0 {
            (fraction, -1074)
        } else {
            (fraction + 0x10_0000_0000_0000, exponent as i32 - 1075)
        }
    }

    /// A finite number of pixels in subpixels, to the nearest one.
    pub fn subpixels(self) -> (subpixels: i128)
        requires
            self.finite(),
        ensures
            subpixels == self.spec_subpixels(),
            -SUBPIXEL_LIMIT <= subpixels <= SUBPIXEL_LIMIT,
    {
        let (significand, scale) = self.decode();
        let shift: i32 = scale + 20;
        let magnitude: i128 = if shift > 60 {
            proof {
                lemma2_to64_rest();
                lemma2_to64();
                if shift > 61 {
                    lemma_pow2_strictly_increases(61, shift as nat);
                }
                let p = pow2(shift as nat) as int;
                assert(significand * p >= SUBPIXEL_LIMIT) by (nonlinear_arith)
                    requires
                        significand >= 0x10_0000_0000_0000,
                        p >= 0x2000_0000_0000_0000,
                ;
            }
            SUBPIXEL_LIMIT
        } else if shift >= 0 {
            let power: i128 = power_of_two(shift as u32);
            proof {
                lemma2_to64_rest();
                lemma2_to64();
                assert(0 <= significand * power <= 0x20_0000_0000_0000 * 0x1000_0000_0000_0000)
                    by (nonlinear_arith)
                    requires
                        0 <= significand <= 0x20_0000_0000_0000,
                        0 <= power <= 0x1000_0000_0000_0000,
                ;
            }
            let exact: i128 = significand as i128 * power;
            if exact > SUBPIXEL_LIMIT {
                SUBPIXEL_LIMIT
            } else {
                exact
            }
        } else if shift >= -60 {
            let power: i128 = power_of_two((-shift) as u32);
            proof {
                lemma2_to64_rest();
                lemma2_to64();
                lemma_round_ratio(significand as int, power as int);
                let r = round_ratio(significand as int, power as int);
                assert(r <= significand + 1) by (nonlinear_arith)
                    requires
                        2 * power * r <= 2 * significand + power,
                        power >= 1,
                        r >= 0,
                        significand >= 0,
                ;
            }
            round_div(significand as i128, power)
        } else {
            proof {
                lemma2_to64_rest();
                lemma2_to64();
                lemma_pow2_strictly_increases(60, (-shift) as nat);
                let p = pow2((-shift) as nat) as int;
                assert((2 * significand + p) / (2 * p) == 0) by (nonlinear_arith)
                    requires
                        0 <= significand < 0x20_0000_0000_0000,
                        p > 0x1000_0000_0000_0000,
                ;
            }
            0
        };
        if self.bits >= 0x8000_0000_0000_0000 {
            -magnitude
        } else {
            magnitude
        }
    }

    /// The pixel that a finite coordinate lies in, as an `i32`.
    pub fn floor_pixel(self) -> (pixel: i32)
        requires
            self.finite(),
        ensures
            pixel == saturate_i32(self.floor()),
    {
        let (significand, scale) = self.decode();
        let negative: bool = self.bits >= 0x8000_0000_0000_0000;
        if scale >= 0 {
            proof {
                lemma_pow2_pos(scale as nat);
                let p = pow2(scale as nat) as int;
                assert(significand * p >= 0x10_0000_0000_0000) by (nonlinear_arith)
                    requires
                        significand >= 0x10_0000_0000_0000,
                        p >= 1,
                ;
            }
            if negative {
                i32::MIN
            } else {
                i32::MAX
            }
        } else {
            let (quotient, exact): (i64, bool) = if scale >= -60 {
                let power: i128 = power_of_two((-scale) as u32);
                proof {
                    lemma2_to64_rest();
                    lemma2_to64();
                    assert(0 <= significand as int / power as int <= significand) by (nonlinear_arith)
                        requires
                            0 <= significand,
                            power >= 1,
                    ;
                }
                ((significand as i128 / power) as i64, significand as i128 % power == 0)
            } else {
                proof {
                    lemma2_to64_rest();
                    lemma2_to64();
                    lemma_pow2_strictly_increases(60, (-scale) as nat);
                    let p = pow2((-scale) as nat) as int;
                    assert(significand as int / p == 0 && significand as int % p == significand)
                        by (nonlinear_arith)
                        requires
                            0 <= significand < p,
                    ;
                }
                (0, significand == 0)
            };
            let whole: i64 = if !negative {
                quotient
            } else if exact {
                -quotient
            } else {
                -quotient - 1
            };
            if whole < i32::MIN as i64 {
                i32::MIN
            } else if whole > i32::MAX as i64 {
                i32::MAX
            } else {
                whole as i32
            }
        }
    }
}

impl Float64 {
    /// The pixel that a coordinate lies in, as an `i32`: the nearest one for an infinity, and
    /// zero for what is not a number.
    pub open spec fn spec_pixel(self) -> int {
        if self.finite() {
            saturate_i32(self.floor())
        } else if self.fraction_field() != 0 {
            0
        } else if self.negative() {
            i32::MIN as int
        } else {
            i32::MAX as int
        }
    }

    /// The pixel that a coordinate lies in.
    pub fn pixel(self) -> (pixel: i32)
        ensures
            pixel == self.spec_pixel(),
    {
        if self.is_finite() {
            self.floor_pixel()
        } else if self.bits % 0x10_0000_0000_0000 != 0 {
            0
        } else if self.bits >= 0x8000_0000_0000_0000 {
            i32::MIN
        } else {
            i32::MAX
        }
    }
}

/// The `exponent`-th power of two.
fn power_of_two(exponent: u32) -> (power: i128)
    requires
        exponent <= 60,
    ensures
        power == pow2(exponent as nat),
        1 <= power <= 0x1000_0000_0000_0000,
{
    let mut power: i128 = 1;
    let mut i: u32 = 0;
    proof {
        lemma2_to64();
    }
    while i < exponent
        invariant
            i <= exponent <= 60,
            power == pow2(i as nat),
            1 <= power <= 0x1000_0000_0000_0000,
        decreases exponent - i,
    {
        proof {
            lemma_pow2_unfold((i + 1) as nat);
            lemma2_to64_rest();
            lemma2_to64();
            if i + 1 < 60 {
                lemma_pow2_strictly_increases((i + 1) as nat, 60);
            }
        }
        power = power * 2;
        i += 1;
    }
    power
}

} // verus!
