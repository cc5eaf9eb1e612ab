//! Proportions of pixels, computed to the precision of IEEE 754 double precision numbers.
//!
//! A positive double is a whole number of 53 binary digits, its significand, times a power of
//! two. A quotient or product that needs more digits becomes the nearest double, the one with
//! the even significand if two are equally near. Extents are far from the largest and the
//! smallest doubles, so exponents are not limited here.

use vstd::prelude::*;
use vstd::arithmetic::power2::{
    lemma_pow2_adds, lemma_pow2_pos, lemma_pow2_strictly_increases, lemma_pow2_unfold, lemma2_to64,
    lemma2_to64_rest, pow2,
};

use crate::units::{lemma_round_ratio, round_div, round_ratio, saturate_i32};

verus! {

/// The smallest number of 53 binary digits.
pub const SIGNIFICAND_MIN: u64 = 0x10_0000_0000_0000;

/// What the numbers that are divided here stay below.
pub const DIVIDED_LIMIT: u128 = 0x200_0000_0000_0000_0000_0000_0000_0000;

/// What proportions are cut off at, which is more pixels than there are.
pub const PROPORTION_LIMIT: u128 = 0x1_0000_0000;

/// The integer nearest to `num / den`; the even one if two are equally near.
pub open spec fn half_even(num: int, den: int) -> int {
    let whole = num / den;
    let rest = num % den;
    if 2 * rest < den || 2 * rest == den && whole % 2 == 0 {
        whole
    } else {
        whole + 1
    }
}

/// The double nearest to `num / den`, as its significand and the exponent of the power of two
/// that it is multiplied by.
pub open spec fn nearest_double(num: int, den: int) -> (int, int)
    decreases
        (if num < den {
            den - num
        } else if num >= 2 * den {
            num - den
        } else {
            0
        }),
{
    if num <= 0 || den <= 0 {
        (0, 0)
    } else if num >= 2 * den {
        let (significand, exponent) = nearest_double(num, 2 * den);
        (significand, exponent + 1)
    } else if num < den {
        let (significand, exponent) = nearest_double(2 * num, den);
        (significand, exponent - 1)
    } else {
        (half_even(num * SIGNIFICAND_MIN, den), -52)
    }
}

/// The integer nearest to a number of this significand and exponent, ties away from zero.
pub open spec fn nearest_integer(significand: int, exponent: int) -> int {
    if exponent >= 0 {
        significand * pow2(exponent as nat)
    } else {
        round_ratio(significand, pow2((-exponent) as nat) as int)
    }
}

/// The whole part of a number of this significand and exponent.
pub open spec fn whole_part(significand: int, exponent: int) -> int {
    if exponent >= 0 {
        significand * pow2(exponent as nat)
    } else {
        significand / (pow2((-exponent) as nat) as int)
    }
}

/// The number nearest to a whole number that has 53 binary digits at most, apart from zeros at
/// the end.
pub open spec fn to_digits(value: int) -> int {
    if value < 2 * SIGNIFICAND_MIN {
        value
    } else {
        let (significand, exponent) = nearest_double(value, 1);
        whole_part(significand, exponent)
    }
}

/// The part `len` of `from`, which are positive, as a part of `to`: the double nearest to the
/// product of `to` and the double nearest to `len / from`, to the nearest integer.
pub open spec fn proportional(len: int, from: int, to: int) -> int {
    let (ratio, exponent) = nearest_double(len, from);
    let (product, shift) = nearest_double(ratio * to, 1);
    nearest_integer(product, exponent + shift)
}

/// The number without its sign.
pub open spec fn unsigned(value: int) -> int {
    if value < 0 {
        -value
    } else {
        value
    }
}

/// Half of the double nearest to `num / den`, to the nearest integer.
pub open spec fn nearest_half(num: int, den: int) -> int {
    if num == 0 {
        0
    } else {
        let (significand, exponent) = nearest_double(unsigned(num), den);
        let half = nearest_integer(significand, exponent - 1);
        if num < 0 {
            -half
        } else {
            half
        }
    }
}

/// Half of what `part`, in the proportion of `num` to `den`, leaves of `length`, as doubles give
/// it, to the nearest integer.
pub open spec fn half_rest(length: int, part: int, num: int, den: int) -> int {
    if part == 0 || num == 0 {
        round_ratio(length, 2)
    } else {
        let (ratio, exponent) = nearest_double(unsigned(num), den);
        let (product, shift) = nearest_double(ratio * unsigned(part), 1);
        let taken = if (part < 0) == (num < 0) {
            product
        } else {
            -product
        };
        let power = exponent + shift;
        if power >= 0 {
            nearest_half(length - taken * pow2(power as nat), 1)
        } else {
            let unit = pow2((-power) as nat) as int;
            nearest_half(length * unit - taken, unit)
        }
    }
}

/// A number that is rounded is off by half a unit at most.
proof fn lemma_half_even(num: int, den: int)
    requires
        0 <= num,
        0 < den,
    ensures
        2 * num - den <= 2 * (half_even(num, den) * den) <= 2 * num + den,
        0 <= half_even(num, den),
{
    let whole = num / den;
    let rest = num % den;
    assert(num == whole * den + rest && 0 <= rest < den && whole >= 0) by (nonlinear_arith)
        requires
            0 <= num,
            0 < den,
            whole == num / den,
            rest == num % den,
    ;
    assert((whole + 1) * den == whole * den + den) by (nonlinear_arith);
}

/// What a number is multiplied by to write it, with this exponent, as an integer.
spec fn raised(exponent: int) -> int {
    if exponent < 0 {
        pow2((-exponent) as nat) as int
    } else {
        1
    }
}

/// What a significand with this exponent is multiplied by.
spec fn lifted(exponent: int) -> int {
    if exponent > 0 {
        pow2(exponent as nat) as int
    } else {
        1
    }
}

/// Powers of two double from one exponent to the next.
proof fn lemma_steps(exponent: int)
    ensures
        exponent < 0 ==> raised(exponent) == 2 * raised(exponent + 1) && lifted(exponent) == 1
            && lifted(exponent + 1) == 1,
        exponent >= 0 ==> lifted(exponent + 1) == 2 * lifted(exponent) && raised(exponent) == 1
            && raised(exponent + 1) == 1,
        raised(exponent) >= 1,
        lifted(exponent) >= 1,
{
    lemma2_to64();
    if exponent < 0 {
        lemma_pow2_unfold((-exponent) as nat);
        lemma_pow2_pos((-exponent) as nat);
        if exponent == -1 {
            assert(pow2(1) == 2);
        }
    } else {
        lemma_pow2_unfold((exponent + 1) as nat);
        lemma_pow2_pos((exponent + 1) as nat);
        if exponent > 0 {
            lemma_pow2_pos(exponent as nat);
        }
    }
}

/// A double differs from what it stands for by one part in 2^53 at most.
proof fn lemma_nearest_double(num: int, den: int)
    requires
        0 < num,
        0 < den,
    ensures
        ({
            let (significand, exponent) = nearest_double(num, den);
            let exact = num * raised(exponent);
            let near = significand * den * lifted(exponent);
            &&& SIGNIFICAND_MIN <= significand <= 2 * SIGNIFICAND_MIN
            &&& num < 2 * den ==> exponent <= -52
            &&& num >= den ==> exponent >= -52
            &&& -exact <= 0x20_0000_0000_0000 * (near - exact) <= exact
        }),
    decreases
        (if num < den {
            den - num
        } else if num >= 2 * den {
            num - den
        } else {
            0
        }),
{
    let (significand, exponent) = nearest_double(num, den);
    lemma_steps(exponent);
    if num >= 2 * den {
        lemma_nearest_double(num, 2 * den);
        lemma_steps(exponent - 1);
        let before = num * raised(exponent - 1);
        let close = significand * (2 * den) * lifted(exponent - 1);
        let exact = num * raised(exponent);
        let near = significand * den * lifted(exponent);
        if exponent <= 0 {
            assert(before == 2 * exact && close == 2 * near) by (nonlinear_arith)
                requires
                    before == num * raised(exponent - 1),
                    exact == num * raised(exponent),
                    raised(exponent - 1) == 2 * raised(exponent),
                    close == significand * (2 * den) * lifted(exponent - 1),
                    near == significand * den * lifted(exponent),
                    lifted(exponent) == 1,
                    lifted(exponent - 1) == 1,
            ;
        } else {
            assert(before == exact && close == near) by (nonlinear_arith)
                requires
                    before == num * raised(exponent - 1),
                    exact == num * raised(exponent),
                    raised(exponent - 1) == raised(exponent),
                    close == significand * (2 * den) * lifted(exponent - 1),
                    near == significand * den * lifted(exponent),
                    lifted(exponent) == 2 * lifted(exponent - 1),
            ;
        }
    } else if num < den {
        lemma_nearest_double(2 * num, den);
        assert((2 * num) * raised(exponent + 1) == num * raised(exponent)) by (nonlinear_arith)
            requires
                raised(exponent) == 2 * raised(exponent + 1),
        ;
    } else {
        let unit = SIGNIFICAND_MIN as int;
        lemma_half_even(num * unit, den);
        lemma2_to64();
        lemma2_to64_rest();
        assert(raised(exponent) == unit);
        let near = significand * den * lifted(exponent);
        assert(near == significand * den);
        assert(den * unit <= num * unit < 2 * den * unit) by (nonlinear_arith)
            requires
                den <= num < 2 * den,
                unit > 0,
        ;
        assert(unit <= significand <= 2 * unit) by (nonlinear_arith)
            requires
                2 * (num * unit) - den <= 2 * (significand * den) <= 2 * (num * unit) + den,
                den * unit <= num * unit < 2 * den * unit,
                den > 0,
        ;
    }
}

/// A quotient that needs no more digits than there are is exact. It is `quotient` times a power
/// of two.
proof fn lemma_exact(num: int, den: int, quotient: int, digits: int)
    requires
        0 < num,
        0 < den,
        0 < quotient < 2 * SIGNIFICAND_MIN,
        num * raised(-digits) == quotient * den * lifted(-digits),
    ensures
        ({
            let (significand, exponent) = nearest_double(num, den);
            &&& exponent + digits <= 0
            &&& significand == quotient * pow2((-(exponent + digits)) as nat)
        }),
    decreases
        (if num < den {
            den - num
        } else if num >= 2 * den {
            num - den
        } else {
            0
        }),
{
    let (significand, exponent) = nearest_double(num, den);
    lemma_steps(-digits);
    lemma_steps(-digits - 1);
    let up = raised(-digits);
    let down = lifted(-digits);
    if num >= 2 * den {
        let more = raised(-(digits + 1));
        let less = lifted(-(digits + 1));
        assert(num * more == quotient * (2 * den) * less) by (nonlinear_arith)
            requires
                num * up == quotient * den * down,
                more == 2 * up && less == down || more == up && down == 2 * less,
        ;
        lemma_exact(num, 2 * den, quotient, digits + 1);
    } else if num < den {
        lemma_steps(-digits + 1);
        lemma_steps(-(digits - 1));
        let more = raised(-(digits - 1));
        let less = lifted(-(digits - 1));
        assert((2 * num) * more == quotient * den * less) by (nonlinear_arith)
            requires
                num * up == quotient * den * down,
                up == 2 * more && less == down || more == up && less == 2 * down,
        ;
        lemma_exact(2 * num, den, quotient, digits - 1);
    } else {
        let unit = SIGNIFICAND_MIN as int;
        lemma2_to64();
        lemma2_to64_rest();
        // The quotient has one digit more than it is shifted by.
        assert(digits >= 0) by {
            if digits < 0 {
                assert(up == 1);
                assert(down >= 2) by {
                    lemma_steps(-digits - 1);
                }
                assert(quotient * den * down >= 2 * den) by (nonlinear_arith)
                    requires
                        quotient >= 1,
                        down >= 2,
                        den > 0,
                ;
            }
        }
        assert(down == 1);
        assert(up == pow2(digits as nat));
        assert(quotient * den == num * up) by (nonlinear_arith)
            requires
                num * up == quotient * den * down,
                down == 1,
        ;
        assert(up <= quotient) by (nonlinear_arith)
            requires
                quotient * den == num * up,
                den <= num,
                den > 0,
                up >= 1,
        ;
        if digits > 52 {
            lemma_pow2_unfold(53);
            if digits > 53 {
                lemma_pow2_strictly_increases(53, digits as nat);
            }
        }
        let rest = pow2((52 - digits) as nat) as int;
        lemma_pow2_adds(digits as nat, (52 - digits) as nat);
        assert(up * rest == unit);
        let result = quotient * rest;
        assert(num * unit == result * den) by (nonlinear_arith)
            requires
                quotient * den == num * up,
                up * rest == unit,
                result == quotient * rest,
        ;
        assert((num * unit) / den == result && (num * unit) % den == 0) by (nonlinear_arith)
            requires
                num * unit == result * den,
                den > 0,
        ;
    }
}

/// A number of few digits is kept.
pub proof fn lemma_few_digits(value: int, digits: nat)
    requires
        0 <= value < 2 * SIGNIFICAND_MIN,
    ensures
        to_digits(value * pow2(digits)) == value * pow2(digits),
{
    let number = value * pow2(digits);
    lemma_pow2_pos(digits);
    if number >= 2 * SIGNIFICAND_MIN {
        assert(value > 0 && digits > 0) by {
            lemma2_to64();
            assert(0 * pow2(digits) == 0) by (nonlinear_arith);
        }
        let (significand, exponent) = nearest_double(number, 1);
        assert(number * raised(digits as int) == value * 1 * lifted(digits as int))
            by (nonlinear_arith)
            requires
                number == value * pow2(digits),
                raised(digits as int) == 1,
                lifted(digits as int) == pow2(digits),
        ;
        lemma_exact(number, 1, value, -(digits as int));
        lemma_wide(number);
        let shift = (digits - exponent) as nat;
        lemma_pow2_adds(shift, exponent as nat);
        assert(value * pow2(shift) * pow2(exponent as nat) == value * pow2(digits))
            by (nonlinear_arith)
            requires
                pow2(shift) * pow2(exponent as nat) == pow2(digits),
        ;
    }
}

/// A number with more digits than a significand has is a multiple of its last one.
proof fn lemma_wide(value: int)
    requires
        2 * SIGNIFICAND_MIN <= value,
    ensures
        nearest_double(value, 1).1 >= 0,
{
    let (significand, exponent) = nearest_double(value, 1);
    lemma_nearest_double(value, 1);
    lemma_steps(exponent);
    if exponent < 0 {
        let r = raised(exponent);
        assert(r >= 2) by {
            lemma_steps(exponent + 1);
        }
        assert(value * r >= 2 * value) by (nonlinear_arith)
            requires
                r >= 2,
                value > 0,
        ;
        assert(significand * 1 * lifted(exponent) == significand) by (nonlinear_arith)
            requires
                lifted(exponent) == 1,
        ;
        assert(false);
    }
}

/// A whole number that is brought to 53 digits changes by one part in 2^53 at most.
pub proof fn lemma_to_digits(value: int)
    requires
        0 <= value,
    ensures
        -value <= 0x20_0000_0000_0000 * (to_digits(value) - value) <= value,
{
    if value >= 2 * SIGNIFICAND_MIN {
        lemma_wide(value);
        lemma_nearest_double(value, 1);
        let (significand, exponent) = nearest_double(value, 1);
        lemma2_to64();
        assert(value * raised(exponent) == value) by (nonlinear_arith)
            requires
                raised(exponent) == 1,
        ;
        assert(significand * 1 * lifted(exponent) == to_digits(value)) by (nonlinear_arith)
            requires
                to_digits(value) == significand * lifted(exponent),
        ;
    }
}

/// The whole part of a quotient of doubles is not more than the quotient and a little, and with
/// one more not less than the quotient and a little less.
pub proof fn lemma_whole_part(num: int, den: int)
    requires
        0 < num,
        0 < den,
    ensures
        ({
            let (significand, exponent) = nearest_double(num, den);
            let whole = whole_part(significand, exponent);
            &&& 0 <= whole
            &&& 0x20_0000_0000_0000 * (den * whole) <= 0x20_0000_0000_0001 * num
            &&& 0x1f_ffff_ffff_ffff * num <= 0x20_0000_0000_0000 * (den * (whole + 1))
        }),
{
    let (significand, exponent) = nearest_double(num, den);
    lemma_nearest_double(num, den);
    lemma_steps(exponent);
    lemma2_to64();
    let whole = whole_part(significand, exponent);
    let r = raised(exponent);
    let near = significand * den * lifted(exponent);
    let exact = num * r;
    let top = significand * lifted(exponent);
    assert(whole * r <= top && top < (whole + 1) * r && whole >= 0) by {
        if exponent >= 0 {
            assert(whole == top);
            assert(significand * lifted(exponent) >= 0) by (nonlinear_arith)
                requires
                    significand >= 0,
                    lifted(exponent) >= 1,
            ;
            assert(whole * 1 == whole && (whole + 1) * 1 == whole + 1);
        } else {
            assert(whole * r <= significand < (whole + 1) * r && whole >= 0) by (nonlinear_arith)
                requires
                    whole == significand / r,
                    r >= 1,
                    significand >= 0,
            ;
            assert(top == significand) by (nonlinear_arith)
                requires
                    top == significand * lifted(exponent),
                    lifted(exponent) == 1,
            ;
        }
    }
    assert(near == den * top) by (nonlinear_arith)
        requires
            near == significand * den * lifted(exponent),
            top == significand * lifted(exponent),
    ;
    let product = den * whole;
    assert(product * r <= near && near <= (product + den) * r) by (nonlinear_arith)
        requires
            whole * r <= top < (whole + 1) * r,
            near == den * top,
            product == den * whole,
            den > 0,
    ;
    assert(den * (whole + 1) == product + den) by (nonlinear_arith)
        requires
            product == den * whole,
    ;
    assert(0x20_0000_0000_0000 * product <= 0x20_0000_0000_0001 * num) by (nonlinear_arith)
        requires
            product * r <= near,
            0x20_0000_0000_0000 * (near - exact) <= exact,
            exact == num * r,
            r >= 1,
    ;
    assert(0x1f_ffff_ffff_ffff * num <= 0x20_0000_0000_0000 * (product + den)) by (nonlinear_arith)
        requires
            near <= (product + den) * r,
            -exact <= 0x20_0000_0000_0000 * (near - exact),
            exact == num * r,
            r >= 1,
    ;
}

/// A quotient that is a whole number of few digits is found.
pub proof fn lemma_whole_quotient(num: int, den: int, quotient: int)
    requires
        0 < den,
        0 <= quotient < 2 * SIGNIFICAND_MIN,
        num == quotient * den,
    ensures
        whole_part(nearest_double(num, den).0, nearest_double(num, den).1) == quotient,
{
    lemma2_to64();
    if quotient > 0 {
        assert(num > 0) by (nonlinear_arith)
            requires
                num == quotient * den,
                quotient > 0,
                den > 0,
        ;
        assert(num * raised(0) == quotient * den * lifted(0)) by (nonlinear_arith)
            requires
                num == quotient * den,
                raised(0) == 1,
                lifted(0) == 1,
        ;
        lemma_exact(num, den, quotient, 0);
        let (significand, exponent) = nearest_double(num, den);
        let r = pow2((-exponent) as nat) as int;
        lemma_pow2_pos((-exponent) as nat);
        if exponent < 0 {
            assert(significand / r == quotient) by (nonlinear_arith)
                requires
                    significand == quotient * r,
                    r >= 1,
            ;
        } else {
            assert(quotient * 1 * 1 == quotient);
        }
    } else {
        assert(num == 0) by (nonlinear_arith)
            requires
                num == quotient * den,
                quotient == 0,
        ;
        assert(0 * pow2(0) == 0);
    }
}

/// A quotient that is not below a power of two has an exponent to match.
proof fn lemma_large_exponent(num: int, den: int, digits: nat)
    requires
        0 < den,
        den * pow2(digits) <= num,
    ensures
        nearest_double(num, den).1 >= digits - 52,
    decreases digits,
{
    lemma_pow2_pos(digits);
    assert(den <= den * pow2(digits)) by (nonlinear_arith)
        requires
            0 < den,
            pow2(digits) >= 1,
    ;
    if digits == 0 {
        lemma_nearest_double(num, den);
    } else {
        lemma_pow2_unfold(digits);
        let half = pow2((digits - 1) as nat) as int;
        lemma_pow2_pos((digits - 1) as nat);
        assert(den * (2 * half) == 2 * den * half && 2 * den <= 2 * den * half)
            by (nonlinear_arith)
            requires
                half >= 1,
                den > 0,
        ;
        lemma_large_exponent(num, 2 * den, (digits - 1) as nat);
    }
}

/// A quotient that is not too small has an exponent to match.
proof fn lemma_small_exponent(num: int, den: int, digits: nat)
    requires
        0 < num,
        0 < den <= num * pow2(digits),
    ensures
        nearest_double(num, den).1 >= -52 - digits,
    decreases digits,
{
    lemma2_to64();
    lemma_nearest_double(num, den);
    if num < den {
        if digits == 0 {
            assert(num * pow2(0) == num);
        } else {
            lemma_pow2_unfold(digits);
            let half = pow2((digits - 1) as nat) as int;
            assert(num * (2 * half) == 2 * num * half) by (nonlinear_arith);
            lemma_small_exponent(2 * num, den, (digits - 1) as nat);
        }
    }
}

/// Half of a number that is too large for pixels is too large for them.
proof fn lemma_large_half(num: int)
    requires
        num >= 0x8_0000_0000_0000,
    ensures
        nearest_half(num, 1) > i32::MAX + 1,
        nearest_half(-num, 1) < i32::MIN,
{
    let (m, g) = nearest_double(num, 1);
    lemma_nearest_double(num, 1);
    lemma_steps(g);
    if g >= 1 {
        lemma_pow2_pos((g - 1) as nat);
        assert(m * pow2((g - 1) as nat) >= m) by (nonlinear_arith)
            requires
                pow2((g - 1) as nat) >= 1,
                m >= 0,
        ;
    } else {
        let r = raised(g);
        let unit = pow2((1 - g) as nat) as int;
        lemma_pow2_unfold((1 - g) as nat);
        lemma2_to64();
        assert(unit == 2 * r);
        lemma_round_ratio(m, unit);
        let half = round_ratio(m, unit);
        assert(m * 1 * lifted(g) == m) by (nonlinear_arith)
            requires
                lifted(g) == 1,
        ;
        let exact = num * r;
        assert(exact >= 0x8_0000_0000_0000 * r) by (nonlinear_arith)
            requires
                exact == num * r,
                num >= 0x8_0000_0000_0000,
                r >= 1,
        ;
        if half <= 0x8000_0000 {
            assert(2 * unit * half <= 2 * unit * 0x8000_0000) by (nonlinear_arith)
                requires
                    half <= 0x8000_0000,
                    unit > 0,
            ;
            assert(false);
        }
    }
}

/// A part of a whole, taken of something else, is off by half a pixel and hardly more.
pub proof fn lemma_proportional(len: int, from: int, to: int)
    requires
        0 < len <= from,
        0 < to <= i32::MAX,
    ensures
        0 <= proportional(len, from, to) <= to,
        -0x4_0000_0000_0000 * from - len * to <= 0x4_0000_0000_0000 * (2 * (from * proportional(
            len,
            from,
            to,
        )) - 2 * (len * to)) <= 0x4_0000_0000_0000 * from + len * to,
{
    let (m, e) = nearest_double(len, from);
    lemma_nearest_double(len, from);
    lemma_steps(e);
    let a = raised(e);
    assert(m * to > 0) by (nonlinear_arith)
        requires
            m > 0,
            to > 0,
    ;
    let (p, f) = nearest_double(m * to, 1);
    lemma_nearest_double(m * to, 1);
    lemma_steps(f);
    let b = raised(f);
    let c = lifted(f);
    let x = p * c;
    let y = m * to * b;
    assert(p * 1 * c == x);
    let q = a * b;
    assert(q >= 1) by (nonlinear_arith)
        requires
            a >= 1,
            b >= 1,
            q == a * b,
    ;
    let z = len * to * q;
    // The double nearest to the quotient, and the product, each with its error.
    assert(m * from * lifted(e) == m * from);
    assert(-z <= 0x20_0000_0000_0000 * (from * y - z) <= z) by {
        let n = m * from;
        let d = len * a;
        assert(from * y == n * (to * b)) by (nonlinear_arith)
            requires
                y == m * to * b,
                n == m * from,
        ;
        assert(z == d * (to * b)) by (nonlinear_arith)
            requires
                z == len * to * q,
                q == a * b,
                d == len * a,
        ;
        let w = to * b;
        assert(w >= 1) by (nonlinear_arith)
            requires
                to >= 1,
                b >= 1,
                w == to * b,
        ;
        assert(-(d * w) <= 0x20_0000_0000_0000 * (n * w - d * w) <= d * w) by (nonlinear_arith)
            requires
                -d <= 0x20_0000_0000_0000 * (n - d) <= d,
                w >= 1,
        ;
    }
    assert(-(from * y) <= 0x20_0000_0000_0000 * (from * x - from * y) <= from * y)
        by (nonlinear_arith)
        requires
            -y <= 0x20_0000_0000_0000 * (x - y) <= y,
            from > 0,
    ;
    // The scale of the product.
    assert(z >= 0) by (nonlinear_arith)
        requires
            z == len * to * q,
            len > 0,
            to > 0,
            q >= 1,
    ;
    assert(z <= from * to * q) by (nonlinear_arith)
        requires
            z == len * to * q,
            0 < len <= from,
            to > 0,
            q >= 1,
    ;
    let s = e + f;
    assert(s < 0) by {
        if s >= 0 {
            // Then the product would be too large for a part of `to`.
            assert(f > 0);
            assert(b == 1);
            lemma_pow2_adds((-e) as nat, s as nat);
            assert(c == a * pow2(s as nat));
            lemma_pow2_pos(s as nat);
            let u = pow2(s as nat) as int;
            assert(from * x >= from * a * 0x10_0000_0000_0000) by (nonlinear_arith)
                requires
                    x == p * (a * u),
                    p >= 0x10_0000_0000_0000,
                    u >= 1,
                    a >= 1,
                    from >= 1,
            ;
            assert(q == a) by (nonlinear_arith)
                requires
                    q == a * b,
                    b == 1,
            ;
            assert(from * to * q <= from * a * 0x7fff_ffff) by (nonlinear_arith)
                requires
                    q == a,
                    0 < to <= 0x7fff_ffff,
                    from > 0,
                    a >= 1,
            ;
            assert(from * a >= 1) by (nonlinear_arith)
                requires
                    from >= 1,
                    a >= 1,
            ;
            let fa = from * a;
            assert(from * a * 0x10_0000_0000_0000 == fa * 0x10_0000_0000_0000);
            assert(from * a * 0x7fff_ffff == fa * 0x7fff_ffff);
            assert(false);
        }
    }
    let t = pow2((-s) as nat) as int;
    lemma_pow2_pos((-s) as nat);
    assert(t * c == q) by {
        if f > 0 {
            lemma_pow2_adds((-s) as nat, f as nat);
            assert(b == 1);
            assert(q == a) by (nonlinear_arith)
                requires
                    q == a * b,
                    b == 1,
            ;
        } else if f < 0 {
            lemma_pow2_adds((-e) as nat, (-f) as nat);
        } else {
            assert(q == a) by (nonlinear_arith)
                requires
                    q == a * b,
                    b == 1,
            ;
        }
    }
    let r = round_ratio(p, t);
    lemma_round_ratio(p, t);
    assert(r == proportional(len, from, to));
    assert(2 * x - q <= 2 * (r * q) <= 2 * x + q) by (nonlinear_arith)
        requires
            2 * p - t <= 2 * t * r <= 2 * p + t,
            t * c == q,
            x == p * c,
            c >= 1,
    ;
    let fr = from * r;
    assert(2 * (from * x) - from * q <= 2 * (fr * q) <= 2 * (from * x) + from * q)
        by (nonlinear_arith)
        requires
            2 * x - q <= 2 * (r * q) <= 2 * x + q,
            fr == from * r,
            from > 0,
    ;
    let big = 0x20_0000_0000_0000int;
    assert(z == (len * to) * q);
    assert(big * (from * y) <= big * z + z);
    assert(-3 * z <= big * (from * x - z) <= 3 * z);
    let v = 2 * fr - 2 * (len * to);
    assert(v * q == 2 * (fr * q) - 2 * z) by (nonlinear_arith)
        requires
            v == 2 * fr - 2 * (len * to),
            z == (len * to) * q,
    ;
    assert(-(big * (from * q)) - 6 * z <= big * (v * q) <= big * (from * q) + 6 * z);
    let bound = 0x4_0000_0000_0000 * from + len * to;
    assert(bound * q == 0x4_0000_0000_0000 * (from * q) + z) by (nonlinear_arith)
        requires
            bound == 0x4_0000_0000_0000 * from + len * to,
            z == (len * to) * q,
    ;
    assert(-(bound * q) <= 0x4_0000_0000_0000 * (v * q) <= bound * q);
    assert(-bound <= 0x4_0000_0000_0000 * v <= bound) by (nonlinear_arith)
        requires
            -(bound * q) <= 0x4_0000_0000_0000 * (v * q) <= bound * q,
            q >= 1,
    ;
    // Not more than `to`.
    assert(len * to <= from * to) by (nonlinear_arith)
        requires
            len <= from,
            to > 0,
    ;
    assert(from * to <= from * 0x7fff_ffff) by (nonlinear_arith)
        requires
            from > 0,
            to <= 0x7fff_ffff,
    ;
    assert(r <= to) by {
        if r > to {
            assert(fr >= from * to + from) by (nonlinear_arith)
                requires
                    r >= to + 1,
                    fr == from * r,
                    from > 0,
            ;
            assert(from * 0x7fff_ffff == 0x7fff_ffff * from);
            assert(false);
        }
    }
}

/// The double nearest to `num / den`, as its significand and its exponent.
pub fn divide(num: u128, den: u128) -> (double: (u64, i32))
    requires
        0 < num < DIVIDED_LIMIT,
        0 < den < DIVIDED_LIMIT,
    ensures
        (double.0 as int, double.1 as int) == nearest_double(num as int, den as int),
        SIGNIFICAND_MIN <= double.0 <= 2 * SIGNIFICAND_MIN,
        -173 <= double.1 <= 69,
{
    let mut n: u128 = num;
    let mut d: u128 = den;
    let mut exponent: i32 = -52;
    let ghost (significand, power) = nearest_double(num as int, den as int);
    proof {
        lemma_nearest_double(num as int, den as int);
        lemma2_to64();
        lemma_pow2_adds(64, 57);
        lemma2_to64_rest();
        assert(pow2(121) == DIVIDED_LIMIT) by {
            assert(0x1_0000_0000_0000_0000 * 0x200_0000_0000_0000
                == 0x200_0000_0000_0000_0000_0000_0000_0000);
        }
    }
    while n >= 2 * d
        invariant
            0 < n < DIVIDED_LIMIT,
            0 < d < DIVIDED_LIMIT,
            -52 <= exponent,
            d >= pow2((exponent + 52) as nat),
            pow2(121) == DIVIDED_LIMIT,
            d == den || d <= n,
            exponent <= 69,
            nearest_double(n as int, d as int).0 == significand,
            nearest_double(n as int, d as int).1 + exponent + 52 == power,
        decreases n - d,
    {
        d = 2 * d;
        exponent = exponent + 1;
        proof {
            lemma_pow2_unfold((exponent + 52) as nat);
            if exponent > 69 {
                lemma_pow2_strictly_increases(121, (exponent + 52) as nat);
            }
        }
    }
    while n < d
        invariant
            0 < n < 2 * d,
            0 < d < DIVIDED_LIMIT,
            -173 <= exponent <= 69,
            n < d ==> n >= pow2((-52 - exponent) as nat) && exponent <= -52,
            pow2(121) == DIVIDED_LIMIT,
            nearest_double(n as int, d as int).0 == significand,
            nearest_double(n as int, d as int).1 + exponent + 52 == power,
        decreases 2 * d - n,
    {
        n = 2 * n;
        exponent = exponent - 1;
        proof {
            lemma_pow2_unfold((-52 - exponent) as nat);
            if exponent < -173 {
                lemma_pow2_strictly_increases(121, (-52 - exponent) as nat);
            }
        }
    }
    let mut whole: u128 = 1;
    let mut rest: u128 = n - d;
    let mut digits: u32 = 0;
    while digits < 52
        invariant
            digits <= 52,
            d <= n < 2 * d,
            0 < d < DIVIDED_LIMIT,
            rest < d,
            n * pow2(digits as nat) == whole * d + rest,
            pow2(digits as nat) <= whole < 2 * pow2(digits as nat),
            pow2(52) == SIGNIFICAND_MIN,
            digits < 52 ==> pow2(digits as nat) < pow2(52),
        decreases 52 - digits,
    {
        let ghost (before, left) = (whole as int, rest as int);
        let ghost scale = pow2(digits as nat) as int;
        proof {
            lemma_pow2_unfold((digits + 1) as nat);
            if digits + 1 < 52 {
                lemma_pow2_strictly_increases((digits + 1) as nat, 52);
            }
        }
        rest = 2 * rest;
        whole = 2 * whole;
        if rest >= d {
            rest = rest - d;
            whole = whole + 1;
        }
        digits = digits + 1;
        proof {
            assert(n * (2 * scale) == whole * d + rest) by (nonlinear_arith)
                requires
                    n * scale == before * d + left,
                    whole == 2 * before && rest == 2 * left || whole == 2 * before + 1 && rest == 2
                        * left - d,
            ;
        }
    }
    proof {
        let product = n * SIGNIFICAND_MIN;
        assert(whole == product / d as int && rest == product % d as int) by (nonlinear_arith)
            requires
                product == whole * d + rest,
                0 <= rest < d,
        ;
    }
    if 2 * rest > d || 2 * rest == d && whole % 2 == 1 {
        whole = whole + 1;
    }
    (whole as u64, exponent)
}

/// The whole part of a number of this significand and exponent.
pub fn whole(significand: u64, exponent: i32) -> (result: u128)
    requires
        significand <= 2 * SIGNIFICAND_MIN,
        -173 <= exponent <= 69,
    ensures
        result == whole_part(significand as int, exponent as int),
        result <= 0x8000_0000_0000_0000_0000_0000_0000_0000,
{
    let ghost start = significand as int;
    proof {
        lemma2_to64();
        lemma2_to64_rest();
    }
    if exponent >= 0 {
        let mut result: u128 = significand as u128;
        let mut digits: i32 = 0;
        proof {
            lemma_pow2_adds(64, 5);
            assert(start * pow2(0) == start);
        }
        while digits < exponent
            invariant
                0 <= digits <= exponent <= 69,
                0 <= start <= 0x20_0000_0000_0000,
                result == start * pow2(digits as nat),
                result <= 0x8000_0000_0000_0000_0000_0000_0000_0000,
                pow2(69) == 0x20_0000_0000_0000_0000,
            decreases exponent - digits,
        {
            proof {
                lemma_pow2_unfold((digits + 1) as nat);
                assert(start * (2 * pow2(digits as nat)) == 2 * (start * pow2(digits as nat)))
                    by (nonlinear_arith);
                if digits + 1 < 69 {
                    lemma_pow2_strictly_increases((digits + 1) as nat, 69);
                }
                assert(start * pow2((digits + 1) as nat) <= 0x20_0000_0000_0000
                    * 0x20_0000_0000_0000_0000) by (nonlinear_arith)
                    requires
                        0 <= start <= 0x20_0000_0000_0000,
                        pow2((digits + 1) as nat) <= 0x20_0000_0000_0000_0000,
                ;
            }
            result = 2 * result;
            digits = digits + 1;
        }
        result
    } else {
        let mut result: u128 = significand as u128;
        let mut digits: i32 = 0;
        assert(start / 1 == start);
        while digits < -exponent
            invariant
                -173 <= exponent < 0,
                0 <= digits <= -exponent,
                0 <= start <= 0x20_0000_0000_0000,
                result == start / (pow2(digits as nat) as int),
                result <= 0x20_0000_0000_0000,
            decreases -exponent - digits,
        {
            proof {
                let unit = pow2(digits as nat) as int;
                lemma_pow2_pos(digits as nat);
                lemma_pow2_unfold((digits + 1) as nat);
                vstd::arithmetic::div_mod::lemma_div_denominator(start, unit, 2);
            }
            result = result / 2;
            digits = digits + 1;
        }
        result
    }
}

/// The number nearest to a whole number that has 53 binary digits at most.
pub fn round_digits(value: u128) -> (result: u128)
    requires
        value < DIVIDED_LIMIT,
    ensures
        result == to_digits(value as int),
{
    if value < 2 * SIGNIFICAND_MIN as u128 {
        value
    } else {
        let (significand, exponent): (u64, i32) = divide(value, 1);
        whole(significand, exponent)
    }
}

/// The part `len` of `from` as a part of `to`.
pub fn proportion(len: u128, from: u128, to: u128) -> (result: u128)
    requires
        0 < len < DIVIDED_LIMIT,
        0 < from < DIVIDED_LIMIT,
        0 < to <= PROPORTION_LIMIT,
    ensures
        result <= PROPORTION_LIMIT,
        result == proportional(len as int, from as int, to as int) || result == PROPORTION_LIMIT
            && proportional(len as int, from as int, to as int) > PROPORTION_LIMIT,
{
    let (ratio, exponent): (u64, i32) = divide(len, from);
    assert(0 < ratio * to <= 0x20_0000_0000_0000 * 0x1_0000_0000) by (nonlinear_arith)
        requires
            0 < ratio <= 0x20_0000_0000_0000,
            0 < to <= 0x1_0000_0000,
    ;
    let (product, shift): (u64, i32) = divide(ratio as u128 * to, 1);
    round_integer(product, exponent + shift)
}

/// Half of what `part`, in the proportion of `num` to `den`, leaves of `length`, cut off where
/// there are no more pixels.
pub fn rest_half(length: i32, part: i32, num: i32, den: i32) -> (result: i128)
    requires
        den > 0,
    ensures
        saturate_i32(result as int) == saturate_i32(
            half_rest(length as int, part as int, num as int, den as int),
        ),
{
    if part == 0 || num == 0 {
        return round_div(length as i128, 2);
    }
    let top: u128 = magnitude(num as i128);
    let across: u128 = magnitude(part as i128);
    let (ratio, exponent): (u64, i32) = divide(top, den as u128);
    proof {
        lemma2_to64();
        lemma_small_exponent(top as int, den as int, 31);
        assert(0x10_0000_0000_0000 <= ratio * across <= 0x20_0000_0000_0000 * 0x8000_0000)
            by (nonlinear_arith)
            requires
                0x10_0000_0000_0000 <= ratio <= 0x20_0000_0000_0000,
                1 <= across <= 0x8000_0000,
        ;
    }
    let (product, shift): (u64, i32) = divide(ratio as u128 * across, 1);
    proof {
        lemma2_to64_rest();
        lemma_large_exponent(ratio * across, 1, 52);
    }
    let taken: i128 = if (part < 0) == (num < 0) {
        product as i128
    } else {
        -(product as i128)
    };
    let power: i32 = exponent + shift;
    if power >= 0 {
        proof {
            lemma_pow2_pos(power as nat);
            let lift = pow2(power as nat) as int;
            assert(product * lift >= product && (-product) * lift == -(product * lift))
                by (nonlinear_arith)
                requires
                    lift >= 1,
                    product >= 0,
            ;
            let rest = length - taken * lift;
            lemma_large_half(unsigned(rest));
            assert(-(-rest) == rest);
        }
        return if taken > 0 {
            -0x1_0000_0000
        } else {
            0x1_0000_0000
        };
    }
    let mut unit: i128 = 1;
    let mut digits: i32 = 0;
    proof {
        lemma_pow2_adds(64, 19);
        assert(pow2(83) == 0x8_0000_0000_0000_0000_0000) by {
            assert(0x1_0000_0000_0000_0000 * 0x8_0000 == 0x8_0000_0000_0000_0000_0000);
        }
    }
    while digits < -power
        invariant
            -83 <= power < 0,
            0 <= digits <= -power,
            unit == pow2(digits as nat),
            1 <= unit <= 0x8_0000_0000_0000_0000_0000,
            pow2(83) == 0x8_0000_0000_0000_0000_0000,
        decreases -power - digits,
    {
        proof {
            lemma_pow2_unfold((digits + 1) as nat);
            if digits + 1 < 83 {
                lemma_pow2_strictly_increases((digits + 1) as nat, 83);
            }
        }
        unit = 2 * unit;
        digits = digits + 1;
    }
    assert(-0x8000_0000 * 0x8_0000_0000_0000_0000_0000 <= length * unit <= 0x8000_0000
        * 0x8_0000_0000_0000_0000_0000) by (nonlinear_arith)
        requires
            -0x8000_0000 <= length <= 0x8000_0000,
            1 <= unit <= 0x8_0000_0000_0000_0000_0000,
    ;
    let rest: i128 = length as i128 * unit - taken;
    if rest == 0 {
        return 0;
    }
    let (left, place): (u64, i32) = divide(magnitude(rest), unit as u128);
    let half: u128 = round_integer(left, place - 1);
    if rest < 0 {
        -(half as i128)
    } else {
        half as i128
    }
}

/// The number without its sign.
fn magnitude(value: i128) -> (result: u128)
    requires
        value > i128::MIN,
    ensures
        result == unsigned(value as int),
{
    if value < 0 {
        (-value) as u128
    } else {
        value as u128
    }
}

/// The integer nearest to a number of this significand and exponent, cut off where there are no
/// more pixels.
fn round_integer(product: u64, power: i32) -> (result: u128)
    requires
        SIGNIFICAND_MIN <= product <= 2 * SIGNIFICAND_MIN,
        -400 <= power <= 400,
    ensures
        result <= PROPORTION_LIMIT,
        result == nearest_integer(product as int, power as int) || result == PROPORTION_LIMIT
            && nearest_integer(product as int, power as int) > PROPORTION_LIMIT,
{
    let ghost significand = product as int;
    if power >= 0 {
        proof {
            lemma_pow2_pos(power as nat);
            assert(significand * pow2(power as nat) >= significand) by (nonlinear_arith)
                requires
                    significand >= 0,
                    pow2(power as nat) >= 1,
            ;
        }
        return PROPORTION_LIMIT;
    }
    let ghost unit = pow2((-power) as nat) as int;
    let mut den: u128 = 1;
    let mut digits: i32 = 0;
    proof {
        lemma2_to64();
        lemma2_to64_rest();
    }
    while digits < -power && digits < 60
        invariant
            -400 <= power < 0,
            0 <= digits <= 60,
            digits <= -power,
            den == pow2(digits as nat),
            pow2(60) == 0x1000_0000_0000_0000,
            digits < 60 ==> pow2(digits as nat) < pow2(60),
        decreases 60 - digits,
    {
        proof {
            lemma_pow2_unfold((digits + 1) as nat);
            if digits + 1 < 60 {
                lemma_pow2_strictly_increases((digits + 1) as nat, 60);
            }
        }
        den = 2 * den;
        digits = digits + 1;
    }
    if digits < -power {
        proof {
            lemma_pow2_strictly_increases(60, (-power) as nat);
            assert((2 * significand + unit) / (2 * unit) == 0) by (nonlinear_arith)
                requires
                    0 <= 2 * significand < unit,
            ;
        }
        return 0;
    }
    assert(den == unit);
    let result: u128 = (2 * (product as u128) + den) / (2 * den);
    if result > PROPORTION_LIMIT {
        PROPORTION_LIMIT
    } else {
        result
    }
}

} // verus!
