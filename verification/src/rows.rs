//! Vertical subdivision of a column into tile rows.
//!
//! Row weights are doubles: one, a height in pixels, or a mean of such weights. They are kept as
//! whole multiples of 2^-52, as which every double from one on can be written, and what is
//! computed of them is rounded as doubles are. Only the ratios between the weights of one column
//! matter.

use vstd::prelude::*;

use crate::doubles::{
    divide, lemma_to_digits, lemma_whole_part, nearest_double, round_digits, to_digits, whole,
    whole_part,
};

verus! {

/// The weight of a tile that was never resized: the number one.
pub const WEIGHT_ONE: u128 = 0x10_0000_0000_0000;

/// What all weights are below: more than any column is high.
pub const WEIGHT_LIMIT: u128 = 0x10_0000_0000_0000_0000_0000;

/// What the weights of a column are together at most, which is more than as many of them as
/// there is memory for.
pub const TOTAL_LIMIT: u128 = 0x100_0000_0000_0000_0000_0000_0000_0000;

/// The most rows of which it is sure that rounding makes them no higher than their column.
pub const ROWS_LIMIT: usize = 0x8_0000;

/// Whether this is a weight.
pub open spec fn is_weight(weight: u128) -> bool {
    0 < weight < WEIGHT_LIMIT
}

/// The weight that a stored weight stands for: what is not a weight counts as one.
pub open spec fn effective_weight(weight: u128) -> u128 {
    if is_weight(weight) {
        weight
    } else {
        WEIGHT_ONE
    }
}

/// The weight that a stored weight stands for.
pub fn valid_weight(weight: u128) -> (valid: u128)
    ensures
        valid == effective_weight(weight),
        is_weight(valid),
{
    if weight > 0 && weight < WEIGHT_LIMIT {
        weight
    } else {
        WEIGHT_ONE
    }
}

/// The sum of the first `count` effective weights, each time rounded to a double.
pub open spec fn total_before(weights: Seq<u128>, count: int) -> int
    decreases count,
{
    if count <= 0 {
        0
    } else {
        let total = to_digits(
            total_before(weights, count - 1) + effective_weight(weights[count - 1]),
        );
        if total < TOTAL_LIMIT {
            total
        } else {
            TOTAL_LIMIT as int
        }
    }
}

/// The mean of weights.
pub open spec fn mean_of(weights: Seq<u128>) -> int {
    let count = weights.len() as int;
    let (significand, exponent) = nearest_double(total_before(weights, count), count);
    whole_part(significand, exponent)
}

/// The gap that fits between `count` rows of a column: as large as asked for, unless the
/// gaps alone would be taller than the column.
pub open spec fn row_gap(column_height: int, gap: int, count: int) -> int {
    let height = if column_height > 0 { column_height } else { 0 };
    let requested = if gap > 0 { gap } else { 0 };
    if count <= 1 {
        0
    } else if requested <= height / (count - 1) {
        requested
    } else {
        height / (count - 1)
    }
}

/// What the gaps leave of the column for the rows themselves.
pub open spec fn row_space(column_height: int, gap: int, count: int) -> int {
    let height = if column_height > 0 { column_height } else { 0 };
    if count <= 1 {
        height
    } else {
        height - row_gap(column_height, gap, count) * (count - 1)
    }
}

/// The whole pixels that row `index` gets of `space` by its weight.
pub open spec fn row_share(space: int, weights: Seq<u128>, index: int) -> int {
    let product = to_digits(space * effective_weight(weights[index]));
    let (significand, exponent) = nearest_double(
        product,
        total_before(weights, weights.len() as int),
    );
    let share = whole_part(significand, exponent);
    if share < space {
        share
    } else {
        space
    }
}

/// The pixels that the first `count` rows get by weight.
pub open spec fn shares_before(space: int, weights: Seq<u128>, count: int) -> int
    decreases count,
{
    if count <= 0 {
        0
    } else {
        shares_before(space, weights, count - 1) + row_share(space, weights, count - 1)
    }
}

/// The pixels that the shares of all rows leave over.
pub open spec fn left_over(space: int, weights: Seq<u128>) -> int {
    let assigned = shares_before(space, weights, weights.len() as int);
    if assigned < space {
        space - assigned
    } else {
        0
    }
}

/// The height of row `index`: its share, and one of the pixels left over by rounding for as
/// many rows from the top as there are such pixels.
pub open spec fn row_height(column_height: int, gap: int, weights: Seq<u128>, index: int) -> int {
    let space = row_space(column_height, gap, weights.len() as int);
    row_share(space, weights, index) + if index < left_over(space, weights) {
        1int
    } else {
        0
    }
}

/// The offset of row `index` from the top of the column.
pub open spec fn row_offset(column_height: int, gap: int, weights: Seq<u128>, index: int) -> int
    decreases index,
{
    if index <= 0 {
        0
    } else {
        row_offset(column_height, gap, weights, index - 1) + row_height(
            column_height,
            gap,
            weights,
            index - 1,
        ) + row_gap(column_height, gap, weights.len() as int)
    }
}

/// The weights that `count` equal rows have.
pub open spec fn equal_weights(count: nat) -> Seq<u128> {
    Seq::new(count, |i: int| WEIGHT_ONE)
}

/// The sum of the first `count` effective weights.
spec fn weight_before(weights: Seq<u128>, count: int) -> int
    decreases count,
{
    if count <= 0 {
        0
    } else {
        weight_before(weights, count - 1) + effective_weight(weights[count - 1])
    }
}

/// Sums of weights are weights at least.
proof fn lemma_total_positive(weights: Seq<u128>, count: int)
    requires
        0 <= count <= weights.len(),
    ensures
        0 <= total_before(weights, count) <= TOTAL_LIMIT,
        0 < count ==> 0 < total_before(weights, count),
    decreases count,
{
    if count > 0 {
        lemma_total_positive(weights, count - 1);
        lemma_to_digits(total_before(weights, count - 1) + effective_weight(weights[count - 1]));
    }
}

/// The sums of doubles stay near the sums of the weights.
proof fn lemma_total_near(weights: Seq<u128>, count: int)
    requires
        0 <= count <= weights.len(),
        count <= ROWS_LIMIT,
    ensures
        ({
            let exact = weight_before(weights, count);
            let off = 0x10_0000_0000_0000 * (total_before(weights, count) - exact);
            &&& count <= exact <= count * WEIGHT_LIMIT
            &&& -(count * exact) <= off <= count * exact
        }),
    decreases count,
{
    if count > 0 {
        lemma_total_near(weights, count - 1);
        let before = weight_before(weights, count - 1);
        let weight = effective_weight(weights[count - 1]) as int;
        let total = total_before(weights, count - 1);
        let exact = before + weight;
        lemma_total_positive(weights, count - 1);
        lemma_to_digits(total + weight);
        let sum = to_digits(total + weight);
        let fewer = count - 1;
        assert(fewer * before <= 0x8_0000 * before) by (nonlinear_arith)
            requires
                fewer <= 0x8_0000,
                before >= 0,
        ;
        assert(count * exact == fewer * before + fewer * weight + exact && 0 <= fewer * weight)
            by (nonlinear_arith)
            requires
                exact == before + weight,
                fewer == count - 1,
                fewer >= 0,
                weight >= 0,
        ;
        assert(count * WEIGHT_LIMIT == fewer * WEIGHT_LIMIT + WEIGHT_LIMIT) by (nonlinear_arith)
            requires
                fewer == count - 1,
        ;
        assert(count * WEIGHT_LIMIT <= 0x8_0000 * WEIGHT_LIMIT) by (nonlinear_arith)
            requires
                count <= 0x8_0000,
        ;
        assert(sum < TOTAL_LIMIT);
    } else {
        assert(0 * weight_before(weights, 0) == 0 && 0 * WEIGHT_LIMIT == 0) by (nonlinear_arith);
    }
}

/// A row gets no less than nothing and no more than there is.
proof fn lemma_share_inside(space: int, weights: Seq<u128>, index: int)
    requires
        0 <= space,
        0 <= index < weights.len(),
    ensures
        0 <= row_share(space, weights, index) <= space,
{
    let weight = effective_weight(weights[index]) as int;
    let total = total_before(weights, weights.len() as int);
    lemma_total_positive(weights, weights.len() as int);
    assert(0 <= space * weight) by (nonlinear_arith)
        requires
            0 <= space,
            0 <= weight,
    ;
    lemma_to_digits(space * weight);
    let product = to_digits(space * weight);
    if product > 0 {
        lemma_whole_part(product, total);
    } else {
        assert(0 * vstd::arithmetic::power2::pow2(0) == 0) by (nonlinear_arith);
    }
}

/// The share of a row is near to what its weight is of all weights.
proof fn lemma_share_near(space: int, weights: Seq<u128>, index: int)
    requires
        0 <= space <= i32::MAX,
        0 <= index < weights.len(),
        weights.len() <= ROWS_LIMIT,
    ensures
        ({
            let part = space * effective_weight(weights[index]);
            let total = total_before(weights, weights.len() as int);
            let share = row_share(space, weights, index);
            &&& 0x10_0000_0000_0000 * (total * share) <= 0x10_0000_0000_0002 * part
            &&& 0xf_ffff_ffff_ffff * part <= 0x10_0000_0000_0000 * (total * (share + 1))
        }),
{
    let count = weights.len() as int;
    let weight = effective_weight(weights[index]) as int;
    let total = total_before(weights, count);
    let exact = weight_before(weights, count);
    let share = row_share(space, weights, index);
    let part = space * weight;
    lemma_total_positive(weights, count);
    lemma_total_near(weights, count);
    lemma_weight_inside(weights, index, count);
    assert(0 <= part) by (nonlinear_arith)
        requires
            0 <= space,
            0 <= weight,
            part == space * weight,
    ;
    lemma_to_digits(part);
    let product = to_digits(part);
    if product > 0 {
        lemma_whole_part(product, total);
        let (significand, exponent) = nearest_double(product, total);
        let found = whole_part(significand, exponent);
        assert(0x10_0000_0000_0000 * (total * found) <= 0x10_0000_0000_0002 * part);
        assert(0xf_ffff_ffff_ffff * part <= 0x10_0000_0000_0000 * (total * (found + 1)));
        if found > space {
            // Then all of the space is no less than the part.
            assert(total * share <= total * found) by (nonlinear_arith)
                requires
                    share <= found,
                    total >= 0,
            ;
            assert(count * exact <= 0x8_0000 * exact) by (nonlinear_arith)
                requires
                    count <= 0x8_0000,
                    exact >= 0,
            ;
            assert(0xf_ffff_fff8_0000 * exact <= 0x10_0000_0000_0000 * total);
            assert(0xf_ffff_fff8_0000 * weight <= 0x10_0000_0000_0000 * total);
            assert(0xf_ffff_fff8_0000 * (weight * (space + 1)) <= 0x10_0000_0000_0000 * (total * (
            space + 1))) by (nonlinear_arith)
                requires
                    0xf_ffff_fff8_0000 * weight <= 0x10_0000_0000_0000 * total,
                    space >= 0,
            ;
            assert(weight * (space + 1) == part + weight) by (nonlinear_arith)
                requires
                    part == space * weight,
            ;
            assert(part <= 0x7fff_ffff * weight) by (nonlinear_arith)
                requires
                    part == space * weight,
                    0 <= space <= 0x7fff_ffff,
                    weight >= 0,
            ;
        }
    } else {
        assert(part == 0);
        assert(0 * vstd::arithmetic::power2::pow2(0) == 0) by (nonlinear_arith);
        assert(share == 0);
        assert(total * 0 == 0 && total * 1 == total) by (nonlinear_arith);
    }
}

/// A weight is part of the sum.
proof fn lemma_weight_inside(weights: Seq<u128>, index: int, count: int)
    requires
        0 <= index < count <= weights.len(),
    ensures
        0 <= weight_before(weights, count - 1),
        effective_weight(weights[index]) <= weight_before(weights, count),
    decreases count,
{
    if count > 1 {
        if index < count - 1 {
            lemma_weight_inside(weights, index, count - 1);
        } else {
            lemma_weight_inside(weights, 0, count - 1);
        }
    }
}

/// The shares of the first rows are near to what their weights are of all weights.
proof fn lemma_shares_near(space: int, weights: Seq<u128>, count: int)
    requires
        0 <= space <= i32::MAX,
        0 <= count <= weights.len(),
        weights.len() <= ROWS_LIMIT,
    ensures
        ({
            let part = space * weight_before(weights, count);
            let total = total_before(weights, weights.len() as int);
            let shares = shares_before(space, weights, count);
            &&& 0x10_0000_0000_0000 * (total * shares) <= 0x10_0000_0000_0002 * part
            &&& 0xf_ffff_ffff_ffff * part <= 0x10_0000_0000_0000 * (total * (shares + count))
        }),
    decreases count,
{
    let total = total_before(weights, weights.len() as int);
    if count > 0 {
        lemma_shares_near(space, weights, count - 1);
        lemma_share_near(space, weights, count - 1);
        let before = weight_before(weights, count - 1);
        let weight = effective_weight(weights[count - 1]) as int;
        let shares = shares_before(space, weights, count - 1);
        let share = row_share(space, weights, count - 1);
        assert(space * (before + weight) == space * before + space * weight && total * (shares
            + share) == total * shares + total * share && total * (shares + share + count) == total
            * (shares + (count - 1)) + total * (share + 1)) by (nonlinear_arith);
    } else {
        assert(space * 0 == 0 && total * 0 == 0) by (nonlinear_arith);
    }
}

/// The shares never exceed the space, and leave no more pixels over than there are rows.
pub proof fn lemma_left_over(space: int, weights: Seq<u128>)
    requires
        0 <= space <= i32::MAX,
        0 < weights.len() <= ROWS_LIMIT,
    ensures
        0 <= space - shares_before(space, weights, weights.len() as int) <= weights.len(),
        left_over(space, weights) == space - shares_before(space, weights, weights.len() as int),
{
    let count = weights.len() as int;
    let total = total_before(weights, count);
    let exact = weight_before(weights, count);
    let sum = shares_before(space, weights, count);
    lemma_total_near(weights, count);
    lemma_shares_near(space, weights, count);
    lemma_shares_monotonic(space, weights, 0, count);
    assert(count * exact <= 0x8_0000 * exact) by (nonlinear_arith)
        requires
            count <= 0x8_0000,
            exact >= 0,
    ;
    assert(0xf_ffff_fff8_0000 * exact <= 0x10_0000_0000_0000 * total <= 0x10_0000_0008_0000
        * exact);
    assert(0xf_ffff_fff8_0000 * (exact * sum) <= 0x10_0000_0000_0000 * (total * sum))
        by (nonlinear_arith)
        requires
            0xf_ffff_fff8_0000 * exact <= 0x10_0000_0000_0000 * total,
            sum >= 0,
    ;
    assert(0x10_0000_0000_0000 * (total * (sum + count)) <= 0x10_0000_0008_0000 * (exact * (sum
        + count))) by (nonlinear_arith)
        requires
            0x10_0000_0000_0000 * total <= 0x10_0000_0008_0000 * exact,
            sum + count >= 0,
    ;
    assert(space * exact <= 0x7fff_ffff * exact) by (nonlinear_arith)
        requires
            space <= 0x7fff_ffff,
            exact >= 0,
    ;
    if sum > space {
        assert(exact * sum >= space * exact + exact) by (nonlinear_arith)
            requires
                sum >= space + 1,
                exact >= 0,
        ;
        assert(false);
    }
    if sum + count < space {
        assert(exact * (sum + count) <= space * exact - exact) by (nonlinear_arith)
            requires
                sum + count <= space - 1,
                exact >= 0,
        ;
        assert(false);
    }
}

/// No row is higher than the space that there is.
pub proof fn lemma_height_inside(column_height: int, gap: int, weights: Seq<u128>, index: int)
    requires
        0 <= index < weights.len(),
    ensures
        0 <= row_height(column_height, gap, weights, index) <= row_space(
            column_height,
            gap,
            weights.len() as int,
        ),
{
    let count = weights.len() as int;
    let space = row_space(column_height, gap, count);
    lemma_row_space(column_height, gap, count);
    lemma_share_inside(space, weights, index);
    lemma_shares_monotonic(space, weights, 0, index);
    lemma_shares_monotonic(space, weights, index + 1, count);
}

/// The gaps fit into the column.
pub proof fn lemma_row_space(column_height: int, gap: int, count: int)
    requires
        0 < count,
    ensures
        0 <= row_gap(column_height, gap, count),
        0 <= row_space(column_height, gap, count),
        row_space(column_height, gap, count) + row_gap(column_height, gap, count) * (count - 1) == if
            column_height > 0 {
            column_height
        } else {
            0
        },
{
    let height = if column_height > 0 { column_height } else { 0 };
    if count > 1 {
        let gaps = count - 1;
        let actual = row_gap(column_height, gap, count);
        assert(0 <= height / gaps && (height / gaps) * gaps <= height) by (nonlinear_arith)
            requires
                0 <= height,
                0 < gaps,
        ;
        assert(actual * gaps <= (height / gaps) * gaps) by (nonlinear_arith)
            requires
                actual <= height / gaps,
                0 < gaps,
        ;
    } else {
        assert(row_gap(column_height, gap, count) * 0 == 0);
    }
}

/// The rows have no more room than the column.
pub proof fn lemma_space_inside(column_height: int, gap: int, count: int)
    requires
        column_height <= i32::MAX,
        0 < count,
    ensures
        row_space(column_height, gap, count) <= i32::MAX,
{
    lemma_row_space(column_height, gap, count);
    assert(0 <= row_gap(column_height, gap, count) * (count - 1)) by (nonlinear_arith)
        requires
            0 <= row_gap(column_height, gap, count),
            0 < count,
    ;
}

/// The offset of a row in closed form: the shares and gaps above it, and the pixels that the
/// rows above it got of what rounding left over.
proof fn lemma_row_offset(column_height: int, gap: int, weights: Seq<u128>, index: int)
    requires
        column_height <= i32::MAX,
        0 <= index <= weights.len(),
        0 < weights.len() <= ROWS_LIMIT,
    ensures
        ({
            let count = weights.len() as int;
            let space = row_space(column_height, gap, count);
            let left = space - shares_before(space, weights, count);
            row_offset(column_height, gap, weights, index) == shares_before(space, weights, index)
                + (if index < left {
                index
            } else {
                left
            }) + index * row_gap(column_height, gap, count)
        }),
    decreases index,
{
    let count = weights.len() as int;
    let space = row_space(column_height, gap, count);
    lemma_row_space(column_height, gap, count);
    lemma_space_inside(column_height, gap, count);
    lemma_left_over(space, weights);
    let actual = row_gap(column_height, gap, count);
    if index > 0 {
        lemma_row_offset(column_height, gap, weights, index - 1);
        assert(index * actual == (index - 1) * actual + actual) by (nonlinear_arith);
    } else {
        assert(0 * actual == 0);
    }
}

/// Every row lies inside the column, and rows above it end where it begins or earlier.
pub proof fn lemma_row_inside(column_height: int, gap: int, weights: Seq<u128>, index: int)
    requires
        column_height <= i32::MAX,
        0 <= index < weights.len(),
        weights.len() <= ROWS_LIMIT,
    ensures
        0 <= row_offset(column_height, gap, weights, index),
        0 <= row_height(column_height, gap, weights, index),
        row_offset(column_height, gap, weights, index) + row_height(
            column_height,
            gap,
            weights,
            index,
        ) <= if column_height > 0 {
            column_height
        } else {
            0
        },
{
    let count = weights.len() as int;
    let space = row_space(column_height, gap, count);
    let actual = row_gap(column_height, gap, count);
    lemma_row_space(column_height, gap, count);
    lemma_space_inside(column_height, gap, count);
    lemma_left_over(space, weights);
    lemma_row_offset(column_height, gap, weights, index);
    lemma_row_offset(column_height, gap, weights, index + 1);
    lemma_shares_monotonic(space, weights, 0, index);
    lemma_share_inside(space, weights, index);
    lemma_shares_monotonic(space, weights, index + 1, count);
    assert(0 <= index * actual) by (nonlinear_arith)
        requires
            0 <= index,
            0 <= actual,
    ;
    assert((index + 1) * actual == index * actual + actual) by (nonlinear_arith);
    assert(index * actual <= (count - 1) * actual) by (nonlinear_arith)
        requires
            index <= count - 1,
            0 <= actual,
    ;
    assert(actual * (count - 1) == (count - 1) * actual) by (nonlinear_arith);
}

/// More rows never get fewer pixels.
proof fn lemma_shares_monotonic(space: int, weights: Seq<u128>, low: int, high: int)
    requires
        0 <= space,
        0 <= low <= high <= weights.len(),
        0 < weights.len(),
    ensures
        shares_before(space, weights, low) <= shares_before(space, weights, high),
    decreases high - low,
{
    if low < high {
        lemma_shares_monotonic(space, weights, low, high - 1);
        lemma_share_inside(space, weights, high - 1);
    }
}

/// The rows of a column and the gaps between them cover it exactly: the first row begins at
/// its top and the last one ends at its bottom.
pub proof fn law_rows_cover_the_column(column_height: int, gap: int, weights: Seq<u128>)
    requires
        0 < weights.len() <= ROWS_LIMIT,
        0 <= column_height <= i32::MAX,
    ensures
        row_offset(column_height, gap, weights, 0) == 0,
        row_offset(column_height, gap, weights, weights.len() - 1) + row_height(
            column_height,
            gap,
            weights,
            weights.len() - 1,
        ) == column_height,
{
    let count = weights.len() as int;
    let space = row_space(column_height, gap, count);
    let actual = row_gap(column_height, gap, count);
    lemma_row_space(column_height, gap, count);
    lemma_space_inside(column_height, gap, count);
    lemma_left_over(space, weights);
    lemma_row_offset(column_height, gap, weights, count - 1);
    assert(actual * (count - 1) == (count - 1) * actual) by (nonlinear_arith);
}

/// Rows are stacked downwards without overlapping, separated by the gap.
pub proof fn law_rows_are_stacked(column_height: int, gap: int, weights: Seq<u128>, index: int)
    requires
        0 <= index < weights.len() - 1,
    ensures
        row_offset(column_height, gap, weights, index + 1) == row_offset(
            column_height,
            gap,
            weights,
            index,
        ) + row_height(column_height, gap, weights, index) + row_gap(
            column_height,
            gap,
            weights.len() as int,
        ),
        0 <= row_gap(column_height, gap, weights.len() as int),
        0 <= row_height(column_height, gap, weights, index),
{
    lemma_row_space(column_height, gap, weights.len() as int);
    lemma_height_inside(column_height, gap, weights, index);
}

/// Rows of equal weight differ in height by one pixel at most, the taller ones on top.
pub proof fn law_equal_rows(column_height: int, gap: int, count: nat, upper: int, lower: int)
    requires
        0 <= upper <= lower < count,
    ensures
        row_height(column_height, gap, equal_weights(count), lower) <= row_height(
            column_height,
            gap,
            equal_weights(count),
            upper,
        ) <= row_height(column_height, gap, equal_weights(count), lower) + 1,
{
}

/// The sum of all effective weights, rounded as it grows.
pub fn total_weight(weights: &[u128]) -> (total: u128)
    ensures
        total == total_before(weights@, weights@.len() as int),
        total <= TOTAL_LIMIT,
        0 < weights@.len() ==> 0 < total,
{
    let mut total: u128 = 0;
    let mut i: usize = 0;
    while i < weights.len()
        invariant
            i <= weights@.len(),
            total == total_before(weights@, i as int),
            total <= TOTAL_LIMIT,
        decreases weights@.len() - i,
    {
        let sum: u128 = round_digits(total + valid_weight(weights[i]));
        total = if sum < TOTAL_LIMIT {
            sum
        } else {
            TOTAL_LIMIT
        };
        i += 1;
    }
    proof {
        lemma_total_positive(weights@, weights@.len() as int);
    }
    total
}

/// The mean of weights.
pub fn mean_weight(weights: &[u128]) -> (mean: u128)
    requires
        0 < weights@.len(),
    ensures
        mean == mean_of(weights@),
{
    let total: u128 = total_weight(weights);
    let (significand, exponent): (u64, i32) = divide(total, weights.len() as u128);
    whole(significand, exponent)
}

/// The whole pixels that a row gets of `space`, if its weight is `weight` of `total`.
fn share_of(space: u64, weight: u128, total: u128, weights: &[u128], index: usize) -> (share: u64)
    requires
        space <= i32::MAX,
        index < weights@.len(),
        weight == effective_weight(weights@[index as int]),
        total == total_before(weights@, weights@.len() as int),
    ensures
        share == row_share(space as int, weights@, index as int),
        share <= space,
{
    proof {
        lemma_total_positive(weights@, weights@.len() as int);
        lemma_share_inside(space as int, weights@, index as int);
        assert(0 <= space * weight <= 0x7fff_ffff * 0x10_0000_0000_0000_0000_0000)
            by (nonlinear_arith)
            requires
                space <= 0x7fff_ffff,
                weight <= 0x10_0000_0000_0000_0000_0000,
        ;
        lemma_to_digits(space * weight);
    }
    let product: u128 = round_digits(space as u128 * weight);
    if product == 0 {
        assert(0 * vstd::arithmetic::power2::pow2(0) == 0) by (nonlinear_arith);
        return 0;
    }
    let (significand, exponent): (u64, i32) = divide(product, total);
    let found: u128 = whole(significand, exponent);
    if found < space as u128 {
        found as u64
    } else {
        space
    }
}

/// Splits a column of `column_height` pixels into one row per weight, top to bottom, with
/// `gap` pixels between neighbours. Each row is given by its offset and its height.
///
/// Heights follow the weights, rounded down; the pixels that rounding leaves over go to the
/// topmost rows, one each. Gaps shrink where they would not fit.
pub fn weighted_vertical_tile_rows(column_height: i32, gap: i32, weights: &[u128]) -> (rows: Vec<
    (i32, i32),
>)
    ensures
        rows@.len() == weights@.len(),
        forall|i: int|
            0 <= i < weights@.len() ==> (#[trigger] rows@[i]).0 == row_offset(
                column_height as int,
                gap as int,
                weights@,
                i,
            ) as i32 && rows@[i].1 == row_height(column_height as int, gap as int, weights@, i),
        weights@.len() <= ROWS_LIMIT ==> forall|i: int|
            0 <= i < weights@.len() ==> (#[trigger] rows@[i]).0 == row_offset(
                column_height as int,
                gap as int,
                weights@,
                i,
            ),
{
    let mut rows: Vec<(i32, i32)> = Vec::new();
    let count: usize = weights.len();
    if count == 0 {
        return rows;
    }
    let height: i64 = if column_height > 0 { column_height as i64 } else { 0 };
    let requested: i64 = if gap > 0 { gap as i64 } else { 0 };
    let gaps: u64 = (count - 1) as u64;
    let fitting: u64 = if gaps == 0 { 0 } else { height as u64 / gaps };
    let actual: u64 = if gaps == 0 {
        0
    } else if requested as u64 <= fitting {
        requested as u64
    } else {
        fitting
    };
    proof {
        lemma_row_space(column_height as int, gap as int, count as int);
        assert(actual == row_gap(column_height as int, gap as int, count as int));
        assert(actual * gaps == row_gap(column_height as int, gap as int, count as int) * (count
            - 1));
    }
    let space: u64 = height as u64 - actual * gaps;
    let ghost shape = weights@;
    assert(space == row_space(column_height as int, gap as int, count as int));

    let total: u128 = total_weight(weights);
    proof {
        lemma_space_inside(column_height as int, gap as int, count as int);
    }

    let mut shares: Vec<u64> = Vec::new();
    let mut assigned: u64 = 0;
    let mut i: usize = 0;
    while i < count
        invariant
            i <= count == weights@.len(),
            shape == weights@,
            0 < count,
            total == total_before(shape, count as int),
            0 <= space <= i32::MAX,
            0 <= shares_before(space as int, shape, i as int),
            assigned == if shares_before(space as int, shape, i as int) < space {
                shares_before(space as int, shape, i as int)
            } else {
                space as int
            },
            shares@.len() == i,
            forall|k: int|
                0 <= k < i ==> (#[trigger] shares@[k]) == row_share(space as int, shape, k),
        decreases count - i,
    {
        proof {
            lemma_share_inside(space as int, shape, i as int);
        }
        let share: u64 = share_of(space, valid_weight(weights[i]), total, weights, i);
        shares.push(share);
        assigned = if assigned + share < space {
            assigned + share
        } else {
            space
        };
        i += 1;
    }
    let left: u64 = space - assigned;
    assert(left == left_over(space as int, shape));

    let mut y: i128 = 0;
    i = 0;
    while i < count
        invariant
            i <= count == weights@.len(),
            shape == weights@,
            shares@.len() == count,
            actual == row_gap(column_height as int, gap as int, count as int),
            0 <= actual <= i32::MAX,
            0 <= space <= i32::MAX,
            space == row_space(column_height as int, gap as int, count as int),
            left == left_over(space as int, shape),
            forall|k: int|
                0 <= k < count ==> (#[trigger] shares@[k]) == row_share(space as int, shape, k),
            y == row_offset(column_height as int, gap as int, shape, i as int),
            0 <= y <= i * 0x1_0000_0000,
            rows@.len() == i,
            forall|k: int|
                0 <= k < i ==> (#[trigger] rows@[k]).0 == row_offset(
                    column_height as int,
                    gap as int,
                    shape,
                    k,
                ) as i32 && rows@[k].1 == row_height(column_height as int, gap as int, shape, k),
        decreases count - i,
    {
        proof {
            lemma_height_inside(column_height as int, gap as int, shape, i as int);
        }
        let extra: u64 = if (i as u64) < left { 1 } else { 0 };
        assert(shares@[i as int] + extra == row_height(
            column_height as int,
            gap as int,
            shape,
            i as int,
        ));
        let tile_height: u64 = shares[i] + extra;
        rows.push((#[verifier::truncate] (y as i32), tile_height as i32));
        y = y + tile_height as i128 + actual as i128;
        i += 1;
    }
    proof {
        if count <= ROWS_LIMIT {
            assert forall|k: int| 0 <= k < count implies (#[trigger] rows@[k]).0 == row_offset(
                column_height as int,
                gap as int,
                shape,
                k,
            ) by {
                lemma_row_inside(column_height as int, gap as int, shape, k);
                lemma_height_inside(column_height as int, gap as int, shape, k);
            }
        }
    }
    rows
}

/// The rows of a column of `tile_count` tiles of equal weight.
pub fn vertical_tile_rows(column_height: i32, gap: i32, tile_count: usize) -> (rows: Vec<
    (i32, i32),
>)
    ensures
        rows@.len() == tile_count,
        forall|i: int|
            0 <= i < tile_count ==> (#[trigger] rows@[i]).0 == row_offset(
                column_height as int,
                gap as int,
                equal_weights(tile_count as nat),
                i,
            ) as i32 && rows@[i].1 == row_height(
                column_height as int,
                gap as int,
                equal_weights(tile_count as nat),
                i,
            ),
{
    let mut weights: Vec<u128> = Vec::new();
    let mut i: usize = 0;
    while i < tile_count
        invariant
            i <= tile_count,
            weights@ == equal_weights(i as nat),
        decreases tile_count - i,
    {
        weights.push(WEIGHT_ONE);
        assert(weights@ =~= equal_weights((i + 1) as nat));
        i += 1;
    }
    weighted_vertical_tile_rows(column_height, gap, weights.as_slice())
}

} // verus!
