//! What holds of coordinates, whole and in parts of a pixel.

use vstd::arithmetic::div_mod::lemma_fundamental_div_mod;
use vstd::arithmetic::power2::{lemma2_to64, lemma_pow2_adds, lemma_pow2_pos, pow2};
use vstd::prelude::*;

use crate::units::{round_ratio, Float64, SUBPIXEL, SUBPIXEL_LIMIT};

verus! {

/// A significand that is scaled up, in whole pixels and in parts of one.
proof fn lemma_scaled_up(significand: int, scale: nat)
    requires
        0 <= significand,
    ensures
        significand * pow2(scale + 20) == 1_048_576 * (significand * pow2(scale)),
{
    lemma2_to64();
    lemma_pow2_adds(scale, 20);
    assert(significand * (pow2(scale) * 1_048_576) == 1_048_576 * (significand * pow2(scale)))
        by (nonlinear_arith);
}

/// A significand that is scaled down a little.
proof fn lemma_scaled_down(significand: int, digits: nat)
    requires
        0 <= significand,
        0 < digits <= 20,
    ensures
        ({
            let whole = significand / (pow2(digits) as int);
            let parts = significand * pow2((20 - digits) as nat);
            &&& 1_048_576 * whole <= parts < 1_048_576 * (whole + 1)
            &&& significand % (pow2(digits) as int) == 0 ==> parts == 1_048_576 * whole
        }),
{
    lemma2_to64();
    lemma_pow2_pos(digits);
    lemma_pow2_pos((20 - digits) as nat);
    lemma_pow2_adds(digits, (20 - digits) as nat);
    let unit = pow2(digits) as int;
    let rest = pow2((20 - digits) as nat) as int;
    let whole = significand / unit;
    let left = significand % unit;
    lemma_fundamental_div_mod(significand, unit);
    assert(significand * rest == 1_048_576 * whole + left * rest && 0 <= left * rest < 1_048_576
        && (left == 0 ==> left * rest == 0)) by (nonlinear_arith)
        requires
            significand == unit * whole + left,
            unit * rest == 1_048_576,
            0 <= left < unit,
            rest > 0,
    ;
}

/// A significand that is scaled down by more than the parts of a pixel.
proof fn lemma_scaled_far_down(significand: int, digits: nat)
    requires
        0 <= significand,
        20 < digits,
    ensures
        ({
            let whole = significand / (pow2(digits) as int);
            let parts = round_ratio(significand, pow2((digits - 20) as nat) as int);
            &&& 1_048_576 * whole <= parts <= 1_048_576 * (whole + 1)
            &&& significand % (pow2(digits) as int) == 0 ==> parts == 1_048_576 * whole
        }),
{
    lemma2_to64();
    lemma_pow2_pos(digits);
    lemma_pow2_pos((digits - 20) as nat);
    lemma_pow2_adds(20, (digits - 20) as nat);
    let unit = pow2(digits) as int;
    let part = pow2((digits - 20) as nat) as int;
    let whole = significand / unit;
    let left = significand % unit;
    lemma_fundamental_div_mod(significand, unit);
    let parts = round_ratio(significand, part);
    lemma_fundamental_div_mod(2 * significand + part, 2 * part);
    let over = (2 * significand + part) % (2 * part);
    assert(1_048_576 * whole <= parts <= 1_048_576 * (whole + 1)) by (nonlinear_arith)
        requires
            significand == unit * whole + left,
            unit == 1_048_576 * part,
            0 <= left < unit,
            part > 0,
            2 * significand + part == 2 * part * parts + over,
            0 <= over < 2 * part,
    ;
    if left == 0 {
        assert(parts == 1_048_576 * whole) by (nonlinear_arith)
            requires
                significand == unit * whole,
                unit == 1_048_576 * part,
                part > 0,
                2 * significand + part == 2 * part * parts + over,
                0 <= over < 2 * part,
        ;
    }
}

/// A coordinate in parts of a pixel lies in the pixel that it lies in as a whole, from where the
/// pixel begins to where the next one does.
pub proof fn law_parts_lie_in_their_pixel(number: Float64)
    requires
        number.finite(),
        number.subpixel_magnitude() < SUBPIXEL_LIMIT,
    ensures
        SUBPIXEL * number.floor() <= number.spec_subpixels() <= SUBPIXEL * (number.floor() + 1),
{
    let significand = number.significand();
    let scale = number.scale();
    if scale >= 0 {
        lemma_scaled_up(significand, scale as nat);
        assert((scale + 20) as nat == scale as nat + 20);
    } else if scale >= -20 {
        lemma_scaled_down(significand, (-scale) as nat);
        assert((scale + 20) as nat == (20 - (-scale) as nat) as nat);
    } else {
        lemma_scaled_far_down(significand, (-scale) as nat);
        assert((-(scale + 20)) as nat == ((-scale) as nat - 20) as nat);
    }
}

/// The number with the other sign is as far from zero on the other side.
pub proof fn law_signs_mirror(number: Float64, other: Float64)
    requires
        number.finite(),
        number.bits < 0x8000_0000_0000_0000,
        other.bits == number.bits + 0x8000_0000_0000_0000,
    ensures
        other.finite(),
        other.spec_subpixels() == -number.spec_subpixels(),
        number.spec_subpixels() >= 0,
{
    let bits = number.bits as int;
    assert((bits + 0x8000_0000_0000_0000) / 0x10_0000_0000_0000 == bits / 0x10_0000_0000_0000
        + 2048);
    assert(other.exponent_field() == number.exponent_field());
    assert(other.fraction_field() == number.fraction_field());
    let scale = number.scale();
    let significand = number.significand();
    if scale + 20 >= 0 {
        lemma_pow2_pos((scale + 20) as nat);
        assert(significand * pow2((scale + 20) as nat) >= 0) by (nonlinear_arith)
            requires
                significand >= 0,
                pow2((scale + 20) as nat) > 0,
        ;
    } else {
        lemma_pow2_pos((-(scale + 20)) as nat);
    }
}

} // verus!
