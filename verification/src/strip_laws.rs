//! What holds of the viewport, the widths of columns and the heights of rows, whatever is done to
//! the strip.

use vstd::prelude::*;

use crate::actions::ResizeDirection;
use crate::columns::{
    ColumnDropTarget, ColumnResizeAnchor, ColumnWidth, DEFAULT_COLUMN_PERCENT, HALF_COLUMN_PERCENT,
    MAX_COLUMN_PERCENT, MIN_COLUMN_PERCENT, VIEWPORT_LIMIT,
};
use crate::doubles::{lemma_few_digits, lemma_whole_quotient};
use crate::geometry::Rectangle;
use crate::rows::{
    effective_weight, is_weight, law_rows_are_stacked, left_over, lemma_left_over, lemma_row_inside,
    lemma_row_space, lemma_space_inside, row_gap, row_height, row_share, row_space, shares_before,
    total_before, ROWS_LIMIT, WEIGHT_ONE,
};
use crate::strip::{weight_index_from, DragView, Strip};
use crate::units::{HALF_PIXEL, SUBPIXEL};
use crate::viewport::{
    lemma_clamped_wf, lemma_edges, lemma_edges_ordered, lemma_pan_bounds, lemma_revealed_wf,
    lemma_strip_width,
};

verus! {

impl Strip {
    /// Whether the strip is in order, with sizes that a machine can hold.
    pub open spec fn measurable(self) -> bool {
        &&& self.wf()
        &&& self.gap <= i32::MAX
        &&& self.viewport_width <= i32::MAX
        &&& self.columns.len() <= u64::MAX
    }

    /// Whether all of a column is in the viewport.
    pub open spec fn shows_column(self, column: int) -> bool {
        self.viewport_x <= self.left_edge(column) && self.right_edge(column) <= self.viewport_x
            + SUBPIXEL * self.viewport_width
    }
}

/// The ends of a column are on the strip.
proof fn lemma_column_on_strip(strip: Strip, column: int)
    requires
        strip.measurable(),
        0 <= column < strip.columns.len(),
    ensures
        0 <= strip.left_edge(column) < strip.right_edge(column) <= strip.width(),
{
    let last = strip.columns.len() - 1;
    lemma_edges(strip, column);
    lemma_strip_width(strip);
    if column < last {
        lemma_edges(strip, last);
        lemma_edges_ordered(strip, column, last);
    }
}

/// The viewport stays on the strip: unless the user placed it, it does not reach beyond the
/// strip's ends as long as there is enough of it; if the user did, it ends where the first or the
/// last column is in its middle. Bringing it back changes nothing else, and once is enough.
pub proof fn law_viewport_stays_on_the_strip(strip: Strip)
    requires
        strip.measurable(),
    ensures
        ({
            let after = strip.clamped();
            let last = strip.columns.len() - 1;
            &&& after == (Strip { viewport_x: after.viewport_x, ..strip })
            &&& after.clamped() == after
            &&& !strip.user_positioned_viewport ==> 0 <= after.viewport_x
            &&& !strip.user_positioned_viewport && SUBPIXEL * strip.visible_width()
                <= strip.width() ==> after.viewport_x + SUBPIXEL * strip.visible_width()
                <= strip.width()
            &&& !strip.user_positioned_viewport && SUBPIXEL * strip.visible_width()
                >= strip.width() ==> after.viewport_x == 0
            &&& strip.user_positioned_viewport && strip.columns.len() > 0 ==> strip.center(0)
                <= after.viewport_x + HALF_PIXEL * strip.visible_width() <= strip.center(last)
        }),
{
    lemma_clamped_wf(strip);
    lemma_strip_width(strip);
    let after = strip.clamped();
    assert(after.widths_before(after.columns.len() as int) == strip.widths_before(
        strip.columns.len() as int,
    ));
    if strip.user_positioned_viewport && strip.columns.len() > 0 {
        lemma_pan_bounds(strip);
        assert(after.center(0) == strip.center(0));
        assert(after.center(strip.columns.len() - 1) == strip.center(strip.columns.len() - 1));
    }
}

/// Bringing a tile into view shows all of its column, if the viewport is wide enough for it,
/// moves nothing on the strip, and once is enough.
pub proof fn law_reveal_shows_the_column(strip: Strip, tile: u64, column: int, row: int)
    requires
        strip.measurable(),
        strip.viewport_width > 0,
        strip.position(tile) == Some((column, row)),
        0 <= column < strip.columns.len(),
        strip.width_of(column) <= strip.viewport_width,
    ensures
        ({
            let after = strip.revealed(tile);
            &&& after.shows_column(column)
            &&& after.focused == Some(tile)
            &&& !after.user_positioned_viewport
            &&& after == (Strip {
                viewport_x: after.viewport_x,
                focused: Some(tile),
                user_positioned_viewport: false,
                ..strip
            })
            &&& after.revealed(tile) == after
        }),
{
    lemma_column_on_strip(strip, column);
    lemma_strip_width(strip);
    let focused = Strip { focused: Some(tile), user_positioned_viewport: false, ..strip };
    assert(focused.widths_before(focused.columns.len() as int) == strip.widths_before(
        strip.columns.len() as int,
    ));
    let after = strip.revealed(tile);
    assert(after.left_edge(column) == strip.left_edge(column));
    assert(after.right_edge(column) == strip.right_edge(column));
    assert(after.position(tile) == strip.position(tile));
    assert(after.shows_column(column));
}

/// A tile that is already in view is not moved by bringing it into view.
pub proof fn law_visible_columns_stay(strip: Strip, tile: u64, column: int, row: int)
    requires
        strip.viewport_width > 0,
        strip.position(tile) == Some((column, row)),
        strip.shows_column(column),
    ensures
        strip.revealed(tile) == (Strip {
            focused: Some(tile),
            user_positioned_viewport: false,
            ..strip
        }),
{
}

/// A centered column has its middle in the middle of the viewport, and nothing on the strip moves.
pub proof fn law_centered_column_is_in_the_middle(strip: Strip, tile: u64, column: int, row: int)
    requires
        strip.viewport_width > 0,
        strip.position(tile) == Some((column, row)),
    ensures
        strip.centered(tile).viewport_x + HALF_PIXEL * strip.viewport_width == strip.center(column),
        strip.centered(tile).focused == Some(tile),
        strip.centered(tile).columns == strip.columns,
        strip.centered(tile).weights == strip.weights,
        strip.centered(tile).centered(tile) == strip.centered(tile),
{
    let after = strip.centered(tile);
    assert(after.center(column) == strip.center(column));
}

/// Panning a strip of several tiles moves the viewport and nothing else, no farther than to where
/// the first or the last column is in its middle. A pan that does not get that far is undone by
/// the opposite one.
pub proof fn law_pan_moves_only_the_viewport(strip: Strip, delta: int)
    requires
        strip.measurable(),
        strip.can_pan(),
        strip.tiles().len() != 1,
    ensures
        ({
            let after = strip.panned(delta);
            let half = HALF_PIXEL * strip.viewport_width;
            let last = strip.columns.len() - 1;
            &&& after == (Strip {
                viewport_x: after.viewport_x,
                user_positioned_viewport: true,
                ..strip
            })
            &&& strip.center(0) <= after.viewport_x + half <= strip.center(last)
            &&& strip.center(0) <= strip.viewport_x + half <= strip.center(last)
                && after.viewport_x == strip.viewport_x + delta ==> after.panned(-delta)
                == (Strip { user_positioned_viewport: true, ..strip })
        }),
{
    lemma_pan_bounds(strip);
    let there = Strip {
        user_positioned_viewport: true,
        viewport_x: strip.viewport_x + delta,
        ..strip
    };
    let last = strip.columns.len() - 1;
    assert(there.center(0) == strip.center(0) && there.center(last) == strip.center(last));
    let after = strip.panned(delta);
    assert(after.center(0) == strip.center(0) && after.center(last) == strip.center(last));
    let back = Strip { viewport_x: after.viewport_x - delta, ..after };
    assert(back.center(0) == strip.center(0) && back.center(last) == strip.center(last));
    assert(after.panned(-delta) == back.clamped());
}

/// A lone tile is centered by a pan, however far it goes. Nothing but the viewport changes.
pub proof fn law_pan_centers_a_lone_tile(strip: Strip, delta: int)
    requires
        strip.can_pan(),
        strip.tiles().len() == 1,
    ensures
        strip.panned(delta) == (Strip {
            focused: strip.focused,
            ..strip.centered(strip.tiles()[0])
        }),
        strip.panned(delta) == (Strip {
            viewport_x: strip.panned(delta).viewport_x,
            user_positioned_viewport: strip.panned(delta).user_positioned_viewport,
            ..strip
        }),
{
}

/// The left edge of a column depends on the columns left of it alone.
proof fn lemma_left_edge_kept(strip: Strip, other: Strip, column: int)
    requires
        0 <= column <= strip.columns.len(),
        column <= other.columns.len(),
        other.viewport_width == strip.viewport_width,
        other.gap == strip.gap,
        forall|i: int| 0 <= i < column ==> #[trigger] other.columns[i] == strip.columns[i],
    ensures
        other.left_edge(column) == strip.left_edge(column),
        other.widths_before(column) == strip.widths_before(column),
    decreases column,
{
    if column > 0 {
        lemma_left_edge_kept(strip, other, column - 1);
        assert(other.columns[column - 1] == strip.columns[column - 1]);
    }
}

/// Resizing a column with the pointer keeps its other edge where it is on the screen, changes its
/// width by what is reported and by nothing else, and leaves the tiles, their order and the other
/// columns alone. The width that it ends up with is within the limits.
pub proof fn law_resize_keeps_the_other_edge(
    strip: Strip,
    tile: u64,
    delta: int,
    anchor: ColumnResizeAnchor,
    column: int,
    row: int,
)
    requires
        strip.measurable(),
        strip.viewport_width > 0,
        strip.position(tile) == Some((column, row)),
        0 <= column < strip.columns.len(),
        strip.column_resized(tile, delta, anchor) is Some,
    ensures
        ({
            let (changed, applied, after) = strip.column_resized(tile, delta, anchor)->0;
            let moved = strip.viewport_x + SUBPIXEL * applied;
            &&& !changed ==> after == strip && applied == 0
            &&& applied == after.width_of(column) - strip.width_of(column)
            &&& anchor is Left ==> after.left_edge(column) - after.viewport_x == strip.left_edge(
                column,
            ) - strip.viewport_x
            &&& anchor is Right && -VIEWPORT_LIMIT <= moved <= VIEWPORT_LIMIT ==> after.right_edge(
                column,
            ) - after.viewport_x == strip.right_edge(column) - strip.viewport_x
            &&& after.columns.len() == strip.columns.len()
            &&& forall|i: int|
                0 <= i < strip.columns.len() ==> (#[trigger] after.columns[i]).tiles
                    == strip.columns[i].tiles && (i != column ==> after.columns[i]
                    == strip.columns[i])
            &&& after.weights == strip.weights
            &&& changed ==> !after.columns[column].width.below(MIN_COLUMN_PERCENT as int)
                && !after.columns[column].width.above(MAX_COLUMN_PERCENT as int)
        }),
{
    let (changed, applied, after) = strip.column_resized(tile, delta, anchor)->0;
    lemma_left_edge_kept(strip, after, column);
    if changed {
        let requested = strip.requested_width(column, delta);
        assert(1 <= requested <= i32::MAX);
        let width = ColumnWidth::spec_limited(requested, strip.viewport_width);
        assert(after.columns[column].width == width);
    }
}

/// The widths that can be chosen with the keyboard.
pub open spec fn is_preset(width: ColumnWidth) -> bool {
    width == ColumnWidth::spec_percent(MIN_COLUMN_PERCENT) || width == ColumnWidth::spec_percent(
        HALF_COLUMN_PERCENT,
    ) || width == ColumnWidth::spec_percent(DEFAULT_COLUMN_PERCENT) || width
        == ColumnWidth::spec_percent(MAX_COLUMN_PERCENT)
}

/// Every step with the keyboard leads to a preset width. From a preset the next wider and the next
/// narrower one undo each other, and four steps in one direction go all the way around.
pub proof fn law_presets_go_around(width: ColumnWidth, direction: ResizeDirection)
    requires
        width.valid(),
    ensures
        is_preset(width.next_preset(direction)),
        is_preset(width) ==> width.next_preset(ResizeDirection::Outwards).next_preset(
            ResizeDirection::Inwards,
        ) == width,
        is_preset(width) ==> width.next_preset(ResizeDirection::Inwards).next_preset(
            ResizeDirection::Outwards,
        ) == width,
        is_preset(width) ==> width.next_preset(direction).next_preset(direction).next_preset(
            direction,
        ).next_preset(direction) == width,
{
}

/// A width between two presets goes to the next one in the direction asked for.
pub proof fn law_next_preset_is_beyond(width: ColumnWidth)
    requires
        width.valid(),
        !width.below(MIN_COLUMN_PERCENT as int),
        width.below(MAX_COLUMN_PERCENT as int),
    ensures
        width.num * width.next_preset(ResizeDirection::Outwards).den < width.next_preset(
            ResizeDirection::Outwards,
        ).num * width.den,
        width.above(MIN_COLUMN_PERCENT as int) ==> width.next_preset(ResizeDirection::Inwards).num
            * width.den < width.num * width.next_preset(ResizeDirection::Inwards).den,
{
}

/// Choosing a width with the keyboard changes the column of the tile and nothing else but the
/// focus.
pub proof fn law_width_choice_changes_one_column(
    strip: Strip,
    tile: u64,
    direction: ResizeDirection,
    column: int,
    row: int,
)
    requires
        strip.position(tile) == Some((column, row)),
        0 <= column < strip.columns.len(),
    ensures
        ({
            let after = strip.width_cycled(tile, direction)->0;
            &&& strip.width_cycled(tile, direction) is Some
            &&& after == (Strip { columns: after.columns, focused: Some(tile), ..strip })
            &&& after.columns.len() == strip.columns.len()
            &&& is_preset(after.columns[column].width)
            &&& forall|i: int|
                0 <= i < strip.columns.len() ==> (#[trigger] after.columns[i]).tiles
                    == strip.columns[i].tiles && (i != column ==> after.columns[i]
                    == strip.columns[i])
        }),
{
}

/// The first of some heights together.
pub open spec fn heights_before(heights: Seq<int>, count: int) -> int
    decreases count,
{
    if count <= 0 {
        0
    } else {
        heights_before(heights, count - 1) + heights[count - 1]
    }
}

/// The heights of the rows of a column.
pub open spec fn row_heights(column_height: int, gap: int, weights: Seq<u128>) -> Seq<int> {
    Seq::new(weights.len(), |i: int| row_height(column_height, gap, weights, i))
}

/// The rows together take all the room that the gaps leave.
proof fn lemma_heights_fill(column_height: int, gap: int, weights: Seq<u128>, count: int)
    requires
        column_height <= i32::MAX,
        0 < weights.len() <= ROWS_LIMIT,
        0 <= count <= weights.len(),
    ensures
        ({
            let space = row_space(column_height, gap, weights.len() as int);
            let left = left_over(space, weights);
            heights_before(row_heights(column_height, gap, weights), count) == shares_before(
                space,
                weights,
                count,
            ) + if count < left {
                count
            } else {
                left
            }
        }),
    decreases count,
{
    let space = row_space(column_height, gap, weights.len() as int);
    lemma_row_space(column_height, gap, weights.len() as int);
    lemma_space_inside(column_height, gap, weights.len() as int);
    lemma_left_over(space, weights);
    if count > 0 {
        lemma_heights_fill(column_height, gap, weights, count - 1);
    }
}

/// Other heights that differ in two neighbours, whose sum stays, add up to the same.
proof fn lemma_pair_moved(heights: Seq<int>, other: Seq<int>, row: int, count: int)
    requires
        0 <= row,
        row + 1 < heights.len(),
        heights.len() == other.len(),
        0 <= count <= heights.len(),
        heights[row] + heights[row + 1] == other[row] + other[row + 1],
        forall|i: int| 0 <= i < heights.len() && i != row && i != row + 1 ==> heights[i] == other[i],
    ensures
        count != row + 1 ==> heights_before(heights, count) == heights_before(other, count),
        count == row + 1 ==> heights_before(heights, count) - heights[row] == heights_before(
            other,
            count,
        ) - other[row],
    decreases count,
{
    if count > 0 {
        lemma_pair_moved(heights, other, row, count - 1);
        if count == row + 2 {
            lemma_pair_moved(heights, other, row, row);
        }
    }
}

/// Whether rows have their heights as weights, and none is without height.
pub open spec fn weigh_as(weights: Seq<u128>, heights: Seq<int>) -> bool {
    heights.len() == weights.len() && forall|i: int|
        0 <= i < heights.len() ==> (#[trigger] heights[i]) >= 1 && weights[i] == WEIGHT_ONE
            * heights[i]
}

/// The highest column whose rows are sure to keep heights that they have as weights: higher than
/// any screen.
pub const EXACT_HEIGHT: i32 = 0x400_0000;

/// Weights in the proportion of heights add up in that proportion.
pub proof fn lemma_weights_of_heights(heights: Seq<int>, weights: Seq<u128>, count: int)
    requires
        weigh_as(weights, heights),
        0 <= count <= heights.len(),
        heights_before(heights, count) <= EXACT_HEIGHT,
    ensures
        total_before(weights, count) == WEIGHT_ONE * heights_before(heights, count),
        heights_before(heights, count) >= count,
        forall|i: int|
            0 <= i < count ==> #[trigger] heights[i] <= heights_before(heights, count)
                && effective_weight(weights[i]) == weights[i],
    decreases count,
{
    if count > 0 {
        assert(weights[count - 1] == WEIGHT_ONE * heights[count - 1]);
        assert(heights[count - 1] >= 1);
        lemma_weights_of_heights(heights, weights, count - 1);
        vstd::arithmetic::power2::lemma2_to64_rest();
        let height = heights_before(heights, count);
        lemma_few_digits(height, 52);
    }
}

/// The share of a row whose weight is its height.
proof fn lemma_share_of_height(space: int, heights: Seq<int>, weights: Seq<u128>, row: int)
    requires
        weigh_as(weights, heights),
        0 <= row < heights.len(),
        heights_before(heights, heights.len() as int) == space,
        space <= EXACT_HEIGHT,
    ensures
        row_share(space, weights, row) == heights[row],
{
    lemma_weights_of_heights(heights, weights, heights.len() as int);
    assert(heights[row] >= 1 && weights[row] == WEIGHT_ONE * heights[row]);
    let total = WEIGHT_ONE * space;
    let height = heights[row];
    let pixels = space * height;
    assert(0 <= pixels <= 0x400_0000 * 0x400_0000) by (nonlinear_arith)
        requires
            0 <= space <= 0x400_0000,
            0 <= height <= 0x400_0000,
            pixels == space * height,
    ;
    vstd::arithmetic::power2::lemma2_to64_rest();
    lemma_few_digits(pixels, 52);
    assert(space * (WEIGHT_ONE * height) == pixels * WEIGHT_ONE && pixels * WEIGHT_ONE == height
        * total) by (nonlinear_arith)
        requires
            total == WEIGHT_ONE * space,
            pixels == space * height,
    ;
    lemma_whole_quotient(pixels * WEIGHT_ONE, total, height);
}

/// The shares of rows whose weights are their heights.
proof fn lemma_shares_of_heights(space: int, heights: Seq<int>, weights: Seq<u128>, count: int)
    requires
        weigh_as(weights, heights),
        0 < heights.len(),
        0 <= count <= heights.len(),
        heights_before(heights, heights.len() as int) == space,
        space <= EXACT_HEIGHT,
    ensures
        shares_before(space, weights, count) == heights_before(heights, count),
    decreases count,
{
    if count > 0 {
        lemma_shares_of_heights(space, heights, weights, count - 1);
        lemma_share_of_height(space, heights, weights, count - 1);
    }
}

/// Rows that have their heights as weights, and fill the column, keep their heights.
pub proof fn law_heights_as_weights_are_kept(
    column_height: int,
    gap: int,
    heights: Seq<int>,
    weights: Seq<u128>,
    row: int,
)
    requires
        column_height <= EXACT_HEIGHT,
        weigh_as(weights, heights),
        0 <= row < heights.len(),
        heights_before(heights, heights.len() as int) == row_space(
            column_height,
            gap,
            heights.len() as int,
        ),
    ensures
        row_height(column_height, gap, weights, row) == heights[row],
{
    let space = row_space(column_height, gap, weights.len() as int);
    lemma_row_space(column_height, gap, weights.len() as int);
    assert(space <= EXACT_HEIGHT) by (nonlinear_arith)
        requires
            space + row_gap(column_height, gap, weights.len() as int) * (weights.len() - 1)
                <= EXACT_HEIGHT,
            0 <= row_gap(column_height, gap, weights.len() as int),
            0 < weights.len(),
    ;
    lemma_share_of_height(space, heights, weights, row);
    lemma_shares_of_heights(space, heights, weights, heights.len() as int);
}

/// The place of a weight after another one was set.
proof fn lemma_weight_found(weights: Seq<(u64, u128)>, tile: u64, start: int)
    requires
        0 <= start,
    ensures
        match weight_index_from(weights, tile, start) {
            Some(i) => start <= i < weights.len() && weights[i].0 == tile && forall|k: int|
                start <= k < i ==> (#[trigger] weights[k]).0 != tile,
            None => forall|k: int| start <= k < weights.len() ==> (#[trigger] weights[k]).0 != tile,
        },
    decreases weights.len() - start,
{
    if start < weights.len() {
        lemma_weight_found(weights, tile, start + 1);
    }
}

/// A weight that was set is found again, and others are as before.
pub proof fn lemma_weight_set(strip: Strip, tile: u64, weight: u128, other: u64)
    ensures
        is_weight(weight) ==> strip.weighted(tile, weight).weight_of(tile) == weight,
        other != tile ==> strip.weighted(tile, weight).weight_of(other) == strip.weight_of(other),
{
    let after = strip.weighted(tile, weight);
    lemma_weight_found(strip.weights, tile, 0);
    lemma_weight_found(strip.weights, other, 0);
    lemma_weight_found(after.weights, tile, 0);
    lemma_weight_found(after.weights, other, 0);
    let valid = effective_weight(weight);
    match weight_index_from(strip.weights, tile, 0) {
        Some(i) => {
            assert(after.weights[i] == (tile, valid));
        },
        None => {
            assert(after.weights[strip.weights.len() as int] == (tile, valid));
        },
    }
    if other != tile {
        match weight_index_from(strip.weights, other, 0) {
            Some(k) => {
                assert(after.weights[k] == strip.weights[k]);
                match weight_index_from(after.weights, other, 0) {
                    Some(j) => {
                        if j < k {
                            assert(after.weights[j].0 == other);
                            assert(j < strip.weights.len());
                            assert(strip.weights[j].0 != other);
                        }
                    },
                    None => {
                        assert(after.weights[k].0 == other);
                    },
                }
            },
            None => {
                match weight_index_from(after.weights, other, 0) {
                    Some(j) => {
                        assert(after.weights[j].0 == other);
                        if j < strip.weights.len() {
                            assert(strip.weights[j].0 != other);
                        }
                    },
                    None => {},
                }
            },
        }
    }
}

/// The heights that the rows of a column are given when a separator is moved.
pub open spec fn heights_with(heights: Seq<int>, row: int, upper: int, lower: int) -> Seq<int> {
    heights.update(row, upper).update(row + 1, lower)
}

/// Fixing the rows of a column at heights makes these their weights.
proof fn lemma_weights_fixed(
    strip: Strip,
    column: int,
    row: int,
    upper: int,
    lower: int,
    count: int,
    at: int,
)
    requires
        0 <= column < strip.columns.len(),
        0 <= row,
        row + 1 < strip.columns[column].tiles.len(),
        strip.columns[column].tiles.no_duplicates(),
        0 <= at < count <= strip.columns[column].tiles.len(),
        1 <= upper <= i32::MAX,
        1 <= lower <= i32::MAX,
        forall|i: int|
            0 <= i < strip.columns[column].tiles.len() ==> 1 <= #[trigger] strip.height_of(
                column,
                i,
            ) <= i32::MAX,
    ensures
        (Strip {
            weights: strip.weights_fixed(column, row, upper, lower, count),
            ..strip
        }).weight_of(strip.columns[column].tiles[at]) == WEIGHT_ONE * (if at == row {
            upper
        } else if at == row + 1 {
            lower
        } else {
            strip.height_of(column, at)
        }),
    decreases count,
{
    let tiles = strip.columns[column].tiles;
    let before = Strip {
        weights: strip.weights_fixed(column, row, upper, lower, count - 1),
        ..strip
    };
    let last = count - 1;
    assert(1 <= strip.height_of(column, last) <= i32::MAX);
    let height = if last == row {
        upper
    } else if last == row + 1 {
        lower
    } else {
        strip.height_of(column, last)
    };
    let weight = (height * WEIGHT_ONE) as u128;
    assert(is_weight(weight));
    lemma_weight_set(before, tiles[last], weight, tiles[at]);
    assert(before.weighted(tiles[last], weight).weights == strip.weights_fixed(
        column,
        row,
        upper,
        lower,
        count,
    ));
    if at < last {
        lemma_weights_fixed(strip, column, row, upper, lower, count - 1, at);
    }
}

/// Moving the separator between two rows changes the heights of these two only, and what they
/// are together stays. The room and the rows that a column has no height for are left out.
pub proof fn law_row_resize_changes_only_the_pair(
    strip: Strip,
    upper: u64,
    lower: u64,
    delta: int,
    column: int,
    row: int,
    at: int,
)
    requires
        strip.position(upper) == Some((column, row)),
        strip.position(lower) == Some((column, row + 1)),
        0 <= column < strip.columns.len(),
        0 <= row,
        row + 1 < strip.columns[column].tiles.len(),
        strip.columns[column].tiles.no_duplicates(),
        strip.columns[column].tiles.len() <= ROWS_LIMIT,
        0 < strip.column_height <= EXACT_HEIGHT,
        forall|i: int|
            0 <= i < strip.columns[column].tiles.len() ==> 1 <= #[trigger] strip.height_of(
                column,
                i,
            ),
        0 <= at < strip.columns[column].tiles.len(),
    ensures
        ({
            let (changed, after) = strip.rows_resized(upper, lower, delta)->0;
            let moved = Strip::moved_separator(
                strip.height_of(column, row),
                strip.height_of(column, row + 1),
                delta,
            );
            &&& strip.rows_resized(upper, lower, delta) is Some
            &&& after == (Strip { weights: after.weights, ..strip })
            &&& after.height_of(column, row) == moved
            &&& after.height_of(column, row) + after.height_of(column, row + 1) == strip.height_of(
                column,
                row,
            ) + strip.height_of(column, row + 1)
            &&& at != row && at != row + 1 ==> after.height_of(column, at) == strip.height_of(
                column,
                at,
            )
        }),
{
    let tiles = strip.columns[column].tiles;
    let weights = strip.column_weights(column);
    let gap = strip.gap;
    let heights = row_heights(strip.column_height, gap, weights);
    let count = tiles.len() as int;
    assert forall|i: int| 0 <= i < count implies #[trigger] heights[i] == strip.height_of(
        column,
        i,
    ) && strip.height_of(column, i) <= strip.column_height by {
        lemma_row_inside(strip.column_height, gap, weights, i);
    }
    let top = strip.height_of(column, row);
    let bottom = strip.height_of(column, row + 1);
    assert(heights[row] == top && heights[row + 1] == bottom);
    lemma_pair_room(strip, column, row);
    let moved = Strip::moved_separator(top, bottom, delta);
    let rest = top + bottom - moved;
    let (changed, after) = strip.rows_resized(upper, lower, delta)->0;
    assert(1 <= moved && 1 <= rest);
    if changed {
        let space = row_space(strip.column_height, gap, count);
        lemma_heights_fill(strip.column_height, gap, weights, count);
        lemma_row_space(strip.column_height, gap, count);
        lemma_left_over(space, weights);
        assert(heights_before(heights, count) == space);
        let now = heights_with(heights, row, moved, rest);
        lemma_pair_moved(heights, now, row, count);
        lemma_pair_moved(now, heights, row, count);
        assert(moved <= i32::MAX && rest <= i32::MAX);
        let fixed = after.column_weights(column);
        assert forall|i: int| 0 <= i < now.len() implies (#[trigger] now[i]) >= 1 && fixed[i]
            == WEIGHT_ONE * now[i] by {
            assert(heights[i] == strip.height_of(column, i));
            assert forall|k: int| 0 <= k < count implies 1 <= #[trigger] strip.height_of(column, k)
                <= i32::MAX by {
                assert(heights[k] == strip.height_of(column, k));
            }
            lemma_weights_fixed(strip, column, row, moved, rest, count, i);
        }
        law_heights_as_weights_are_kept(strip.column_height, gap, now, fixed, row);
        law_heights_as_weights_are_kept(strip.column_height, gap, now, fixed, row + 1);
        law_heights_as_weights_are_kept(strip.column_height, gap, now, fixed, at);
        assert(heights[at] == strip.height_of(column, at));
    }
}

/// Two rows on top of each other are not higher than the column.
proof fn lemma_pair_room(strip: Strip, column: int, row: int)
    requires
        0 <= column < strip.columns.len(),
        0 <= row,
        row + 1 < strip.columns[column].tiles.len(),
        strip.columns[column].tiles.len() <= ROWS_LIMIT,
        0 < strip.column_height <= i32::MAX,
    ensures
        strip.height_of(column, row) + strip.height_of(column, row + 1) <= strip.column_height,
{
    let weights = strip.column_weights(column);
    lemma_row_inside(strip.column_height, strip.gap, weights, row);
    lemma_row_inside(strip.column_height, strip.gap, weights, row + 1);
    law_rows_are_stacked(strip.column_height, strip.gap, weights, row);
}

/// Bringing a tile into view moves the viewport no further than it has to: to the left until the
/// column begins at its left edge, to the right until the column ends at its right edge, and not
/// at all if all of the column is in view.
pub proof fn law_reveal_goes_no_further_than_needed(strip: Strip, tile: u64, column: int, row: int)
    requires
        strip.measurable(),
        strip.viewport_width > 0,
        strip.position(tile) == Some((column, row)),
        0 <= column < strip.columns.len(),
        0 <= strip.viewport_x,
        strip.viewport_x == 0 || strip.viewport_x + SUBPIXEL * strip.viewport_width <= strip.width(),
    ensures
        ({
            let after = strip.revealed(tile).viewport_x;
            let left = strip.left_edge(column);
            let right = strip.right_edge(column);
            let end = strip.viewport_x + SUBPIXEL * strip.viewport_width;
            &&& left < strip.viewport_x ==> after == left
            &&& left >= strip.viewport_x && right > end ==> after + SUBPIXEL * strip.viewport_width
                == right
            &&& left >= strip.viewport_x && right <= end ==> after == strip.viewport_x
        }),
{
    lemma_column_on_strip(strip, column);
    lemma_strip_width(strip);
    let focused = Strip { focused: Some(tile), user_positioned_viewport: false, ..strip };
    assert(focused.widths_before(focused.columns.len() as int) == strip.widths_before(
        strip.columns.len() as int,
    ));
    assert(focused.width() == strip.width());
}

/// A viewport that gets another size still shows the column with the focus, unless the user put it
/// where it is.
pub proof fn law_a_resized_viewport_shows_the_focus(
    strip: Strip,
    viewport_width: int,
    gap: int,
    tile: u64,
    column: int,
    row: int,
)
    requires
        strip.measurable(),
        !strip.user_positioned_viewport,
        strip.focused == Some(tile),
        strip.position(tile) == Some((column, row)),
        0 <= column < strip.columns.len(),
        0 < viewport_width <= i32::MAX,
        0 <= gap <= i32::MAX,
        strip.columns[column].width.spec_pixels(viewport_width) <= viewport_width,
    ensures
        ({
            let after = strip.measured(viewport_width, gap);
            &&& after.viewport_width == viewport_width
            &&& after.gap == gap
            &&& after.columns == strip.columns
            &&& after.focused == Some(tile)
            &&& after.shows_column(column)
        }),
{
    let sized = (Strip { viewport_width, gap, ..strip }).clamped();
    lemma_clamped_wf(Strip { viewport_width, gap, ..strip });
    assert(sized.measurable());
    law_reveal_shows_the_column(sized, tile, column, row);
}

/// When the strip is brought up to date, the tile that is asked for is in view and has the focus;
/// one that is to be in the middle is there.
pub proof fn law_an_update_shows_what_is_asked_for(
    strip: Strip,
    tiles: Seq<u64>,
    activated: Option<u64>,
    viewport: Rectangle,
    gap: int,
    tile: u64,
    column: int,
    row: int,
)
    requires
        0 < viewport.size.w,
        0 <= gap <= i32::MAX,
        ({
            let known = strip.reconciled(tiles);
            &&& (Strip { viewport_x: 0, ..known }).wf()
            &&& known.columns.len() <= u64::MAX
            &&& known.position(tile) == Some((column, row))
            &&& 0 <= column < known.columns.len()
            &&& known.tiles().len() != 1
        }),
    ensures
        ({
            let known = strip.reconciled(tiles);
            let asked = strip.updated(
                None,
                tiles,
                activated,
                viewport,
                gap,
                Some(tile),
                false,
                false,
            );
            let middle = strip.updated(
                Some(tile),
                tiles,
                activated,
                viewport,
                gap,
                None,
                false,
                false,
            );
            &&& asked.columns == known.columns
            &&& asked.focused == Some(tile)
            &&& asked.viewport_width == viewport.size.w
            &&& asked.column_height == viewport.size.h
            &&& asked.width_of(column) <= viewport.size.w ==> asked.shows_column(column)
            &&& middle.focused == Some(tile)
            &&& middle.columns == known.columns
            &&& middle.viewport_x + HALF_PIXEL * viewport.size.w == middle.center(column)
        }),
{
    let known = strip.reconciled(tiles);
    let width = viewport.size.w as int;
    let wide = Strip { viewport_width: width, gap, ..known };
    lemma_clamped_wf(wide);
    let cut = wide.clamped();
    if !cut.user_positioned_viewport && cut.focused is Some {
        lemma_revealed_wf(cut, cut.focused->0);
    }
    let sized = Strip { column_height: viewport.size.h as int, ..known.measured(width, gap) };
    assert(sized.columns == known.columns && sized.viewport_width == width && sized.gap == gap);
    assert(sized.measurable());
    let asked = sized.preferred_revealed(Some(tile), activated);
    assert(sized.position(tile) == Some((column, row)));
    if sized.width_of(column) <= width {
        law_reveal_shows_the_column(sized, tile, column, row);
    }
    assert(asked.tiles() == known.tiles());
    let shown = sized.preferred_revealed(None, activated);
    assert(shown.columns == known.columns && shown.viewport_width == width);
    assert(shown.position(tile) == Some((column, row)));
}

/// Dropping a tile neither begins nor ends a drag.
proof fn lemma_dropped_drag(strip: Strip, drag: DragView, tile: u64, target: ColumnDropTarget)
    ensures
        strip.dropped(drag, tile, target).drag == strip.drag,
{
    assert(strip.restored(drag, tile).drag == strip.drag);
}

/// Bringing the tile with the focus into view leaves the focus and the drag.
proof fn lemma_revealed_focus(strip: Strip, tile: u64)
    requires
        strip.focused == Some(tile),
    ensures
        strip.revealed(tile).focused == Some(tile),
        strip.revealed(tile).drag == strip.drag,
        strip.revealed(tile).columns == strip.columns,
        strip.contains(tile) ==> !strip.revealed(tile).user_positioned_viewport,
{
}

/// A tile that is dropped on the strip has the focus there, and the drag is over.
pub proof fn law_a_dropped_tile_has_the_focus(strip: Strip, tile: u64, target: ColumnDropTarget)
    requires
        !(target is Discard),
    ensures
        ({
            let after = strip.drag_finished(Some(tile), target);
            &&& after.focused == Some(tile)
            &&& after.drag is None
            &&& after.contains(tile) ==> !after.user_positioned_viewport
        }),
{
    let settled = Strip { drag: None, ..strip };
    let drag = match strip.drag {
        Some(pending) => pending,
        None => match settled.snapshot(tile) {
            Some(found) => found,
            None => settled.foreign_drag(tile),
        },
    };
    let lifted = settled.without(drag.source);
    let rest = if tile != drag.source {
        lifted.without(tile)
    } else {
        lifted
    };
    assert(lifted.drag is None && rest.drag is None);
    lemma_dropped_drag(rest, drag, tile, target);
    let placed = Strip { focused: Some(tile), ..rest.dropped(drag, tile, target) };
    lemma_revealed_focus(placed, tile);
    assert(strip.drag_finished(Some(tile), target) == placed.revealed(tile));
}

} // verus!
