//! Which way the focus, tiles and edges go on the strip.

use vstd::prelude::*;

use crate::actions::ResizeDirection;
use crate::columns::{ColumnDropTarget, ColumnResizeAnchor, ColumnWidth};
use crate::doubles::lemma_whole_part;
use crate::laws::lemma_position_unique;
use crate::rows::{is_weight, mean_of, WEIGHT_LIMIT, WEIGHT_ONE};
use crate::strip::{DragView, Strip};
use crate::strip_laws::{
    heights_before, lemma_weight_set, lemma_weights_of_heights, weigh_as, EXACT_HEIGHT,
};

verus! {

impl Strip {
    /// Whether a tile stands here.
    pub open spec fn stands_at(self, tile: u64, column: int, row: int) -> bool {
        &&& 0 <= column < self.columns.len()
        &&& 0 <= row < self.columns[column].tiles.len()
        &&& self.columns[column].tiles[row] == tile
    }
}

/// The focus finds a tile in the column that many columns further right whenever there is such a
/// column: the one in the same row if the column has that row, and its last one otherwise.
pub proof fn law_the_focus_finds_a_tile_in_every_column(
    strip: Strip,
    tile: u64,
    column: int,
    row: int,
    delta: int,
)
    requires
        strip.tidy(),
        strip.stands_at(tile, column, row),
    ensures
        !(0 <= column + delta < strip.columns.len()) ==> strip.beside(tile, delta) is None,
        0 <= column + delta < strip.columns.len() ==> {
            let tiles = strip.columns[column + delta].tiles;
            &&& strip.beside(tile, delta) is Some
            &&& tiles.contains(strip.beside(tile, delta)->0)
            &&& row < tiles.len() ==> strip.beside(tile, delta)->0 == tiles[row]
            &&& row >= tiles.len() ==> strip.beside(tile, delta)->0 == tiles[tiles.len() - 1]
        },
{
    lemma_position_unique(strip, column, row);
    if 0 <= column + delta < strip.columns.len() {
        let tiles = strip.columns[column + delta].tiles;
        assert(strip.columns[column + delta].tiles.len() > 0);
        assert(tiles.contains(tiles[tiles.len() - 1]));
        if row < tiles.len() {
            assert(tiles.contains(tiles[row]));
        }
    }
}

/// The focus goes down a column row by row, and stops at its ends.
pub proof fn law_the_focus_goes_down_the_rows(
    strip: Strip,
    tile: u64,
    column: int,
    row: int,
    delta: int,
)
    requires
        strip.tidy(),
        strip.stands_at(tile, column, row),
    ensures
        strip.below(tile, delta) is Some <==> 0 <= row + delta < strip.columns[column].tiles.len(),
        strip.below(tile, delta) matches Some(next) ==> strip.stands_at(next, column, row + delta),
        strip.below(tile, delta) matches Some(next) ==> strip.below(next, -delta) == Some(tile),
        strip.rows_at(tile, 1) matches Some((upper, lower)) ==> upper == tile && strip.stands_at(
            lower,
            column,
            row + 1,
        ),
        strip.rows_at(tile, -1) matches Some((upper, lower)) ==> lower == tile && strip.stands_at(
            upper,
            column,
            row - 1,
        ),
        strip.rows_at(tile, 1) is Some <==> row + 1 < strip.columns[column].tiles.len(),
        strip.rows_at(tile, -1) is Some <==> row > 0,
        delta != 1 && delta != -1 ==> strip.rows_at(tile, delta) is None,
{
    lemma_position_unique(strip, column, row);
    if 0 <= row + delta < strip.columns[column].tiles.len() {
        lemma_position_unique(strip, column, row + delta);
    }
}

/// A tile that shares its column leaves it for a column of its own, directly to the left of the
/// others if it moves left and directly to the right of them if it moves right. A tile that is
/// alone in its column changes places with the column next to it, and stays if there is none.
pub proof fn law_a_tile_moves_to_its_side(
    strip: Strip,
    tile: u64,
    column: int,
    row: int,
    delta: int,
)
    requires
        strip.tidy(),
        strip.stands_at(tile, column, row),
        delta == 1 || delta == -1,
    ensures
        ({
            let tiles = strip.columns[column].tiles;
            let moved = strip.moved_sideways(tile, delta);
            let after = moved->0;
            let count = strip.columns.len() as int;
            if tiles.len() > 1 {
                let (own, rest) = if delta < 0 {
                    (column, column + 1)
                } else {
                    (column + 1, column)
                };
                &&& moved is Some
                &&& after.columns.len() == count + 1
                &&& after.columns[own].tiles == seq![tile]
                &&& after.columns[rest].tiles == tiles.remove(row)
                &&& after.columns[rest].width == strip.columns[column].width
                &&& forall|i: int|
                    0 <= i < column ==> #[trigger] after.columns[i] == strip.columns[i]
                &&& forall|i: int|
                    column + 1 < i < count + 1 ==> #[trigger] after.columns[i] == strip.columns[i - 1]
            } else if 0 <= column + delta < count {
                &&& moved is Some
                &&& after.columns.len() == count
                &&& after.columns[column + delta] == strip.columns[column]
                &&& after.columns[column] == strip.columns[column + delta]
                &&& forall|i: int|
                    0 <= i < count && i != column && i != column + delta
                        ==> #[trigger] after.columns[i] == strip.columns[i]
            } else {
                moved is None
            }
        }),
{
    lemma_position_unique(strip, column, row);
}

/// A tile that shares its column changes places with the one above or below it, and stays at the
/// ends. A tile that is alone in its column joins the column to its left, or the one to its right
/// if there is none: at the bottom if it moves down and at the top if it moves up.
pub proof fn law_a_tile_moves_up_or_down(
    strip: Strip,
    tile: u64,
    column: int,
    row: int,
    delta: int,
)
    requires
        strip.tidy(),
        strip.stands_at(tile, column, row),
        delta == 1 || delta == -1,
    ensures
        ({
            let tiles = strip.columns[column].tiles;
            let (result, after) = strip.moved_vertically(tile, delta);
            let count = strip.columns.len() as int;
            if tiles.len() > 1 && 0 <= row + delta < tiles.len() {
                &&& result is Moved
                &&& after.columns.len() == count
                &&& after.stands_at(tile, column, row + delta)
                &&& after.stands_at(tiles[row + delta], column, row)
                &&& after.columns[column].tiles.len() == tiles.len()
                &&& after.columns[column].width == strip.columns[column].width
                &&& forall|i: int|
                    0 <= i < tiles.len() && i != row && i != row + delta
                        ==> #[trigger] after.columns[column].tiles[i] == tiles[i]
                &&& forall|i: int|
                    0 <= i < count && i != column ==> #[trigger] after.columns[i]
                        == strip.columns[i]
            } else if tiles.len() > 1 || count == 1 {
                result is Edge && after == strip
            } else {
                let into = if column > 0 {
                    strip.columns[column - 1]
                } else {
                    strip.columns[1]
                };
                let at = if column > 0 {
                    column - 1
                } else {
                    0
                };
                &&& result is Moved
                &&& after.columns.len() == count - 1
                &&& after.columns[at].tiles == if delta < 0 {
                    seq![tile] + into.tiles
                } else {
                    into.tiles.push(tile)
                }
                &&& after.columns[at].width == into.width
                &&& forall|i: int| 0 <= i < at ==> #[trigger] after.columns[i] == strip.columns[i]
                &&& forall|i: int|
                    at < i < count - 1 ==> #[trigger] after.columns[i] == strip.columns[i + 1]
            }
        }),
{
    lemma_position_unique(strip, column, row);
    let tiles = strip.columns[column].tiles;
    let (result, after) = strip.moved_vertically(tile, delta);
    let count = strip.columns.len() as int;
    if tiles.len() <= 1 && count > 1 {
        let into = if column > 0 {
            strip.columns[column - 1]
        } else {
            strip.columns[1]
        };
        let at = if column > 0 {
            column - 1
        } else {
            0
        };
        assert(into.tiles.insert(0, tile) =~= seq![tile] + into.tiles);
        assert(into.tiles.insert(into.tiles.len() as int, tile) =~= into.tiles.push(tile));
    }
}

/// A tile that is dropped beside, above or below another one stands there: in a column of its own
/// directly to the left or to the right of the other's, or in the row directly above or below
/// it. Dropped at an end of the strip, it is the first or the last column. No other tile leaves
/// its column.
pub proof fn law_a_dropped_tile_stands_where_it_was_dropped(
    strip: Strip,
    drag: DragView,
    tile: u64,
    anchor: u64,
    column: int,
    row: int,
)
    requires
        strip.tidy(),
        strip.stands_at(anchor, column, row),
        drag.source_column >= 0,
        drag.source_tile >= 0,
    ensures
        ({
            let before = strip.dropped(drag, tile, ColumnDropTarget::Before(anchor)).columns;
            let behind = strip.dropped(drag, tile, ColumnDropTarget::After(anchor)).columns;
            let above = strip.dropped(drag, tile, ColumnDropTarget::Above(anchor)).columns;
            let below = strip.dropped(drag, tile, ColumnDropTarget::Below(anchor)).columns;
            let first = strip.dropped(drag, tile, ColumnDropTarget::First).columns;
            let last = strip.dropped(drag, tile, ColumnDropTarget::Last).columns;
            let tiles = strip.columns[column].tiles;
            let count = strip.columns.len() as int;
            &&& before.len() == count + 1
            &&& before[column].tiles == seq![tile]
            &&& before[column + 1] == strip.columns[column]
            &&& before.remove(column) == strip.columns
            &&& behind.len() == count + 1
            &&& behind[column] == strip.columns[column]
            &&& behind[column + 1].tiles == seq![tile]
            &&& behind.remove(column + 1) == strip.columns
            &&& above.len() == count
            &&& above[column].tiles[row] == tile
            &&& above[column].tiles[row + 1] == anchor
            &&& above[column].tiles.remove(row) == tiles
            &&& below.len() == count
            &&& below[column].tiles[row] == anchor
            &&& below[column].tiles[row + 1] == tile
            &&& below[column].tiles.remove(row + 1) == tiles
            &&& forall|i: int|
                0 <= i < count && i != column ==> #[trigger] above[i] == strip.columns[i]
            &&& forall|i: int|
                0 <= i < count && i != column ==> #[trigger] below[i] == strip.columns[i]
            &&& first[0].tiles == seq![tile]
            &&& first.remove(0) == strip.columns
            &&& last[count].tiles == seq![tile]
            &&& last.remove(count) == strip.columns
        }),
{
    lemma_position_unique(strip, column, row);
    let before = strip.dropped(drag, tile, ColumnDropTarget::Before(anchor)).columns;
    let behind = strip.dropped(drag, tile, ColumnDropTarget::After(anchor)).columns;
    let above = strip.dropped(drag, tile, ColumnDropTarget::Above(anchor)).columns;
    let below = strip.dropped(drag, tile, ColumnDropTarget::Below(anchor)).columns;
    let first = strip.dropped(drag, tile, ColumnDropTarget::First).columns;
    let last = strip.dropped(drag, tile, ColumnDropTarget::Last).columns;
    let tiles = strip.columns[column].tiles;
    let count = strip.columns.len() as int;
    assert(before.remove(column) =~= strip.columns);
    assert(behind.remove(column + 1) =~= strip.columns);
    assert(first.remove(0) =~= strip.columns);
    assert(last.remove(count) =~= strip.columns);
    assert(above[column].tiles.remove(row) =~= tiles);
    assert(below[column].tiles.remove(row + 1) =~= tiles);
}

/// Moving the separator below a row down makes the row higher and the one below it lower, by as
/// much as it was moved, and moving it up does the opposite, until one of the two would get lower
/// than it may: 240 pixels, or a quarter of what both have if that is less than twice as much.
pub proof fn law_a_separator_follows_the_pointer(upper: int, lower: int, delta: int)
    requires
        0 <= upper,
        0 <= lower,
        1 < upper + lower <= i32::MAX,
        i32::MIN <= delta <= i32::MAX,
    ensures
        ({
            let after = Strip::moved_separator(upper, lower, delta);
            let both = upper + lower;
            let least = if both >= 480 {
                240
            } else if both >= 8 {
                both / 4
            } else {
                1
            };
            &&& least <= after <= upper + lower - least
            &&& least <= upper + delta <= upper + lower - least ==> after == upper + delta
            &&& upper + delta < least ==> after == least
            &&& upper + delta > upper + lower - least ==> after == upper + lower - least
            &&& 1 <= least
            &&& 2 * least <= upper + lower
        }),
{
}

/// A column that is resized gets wider by what is asked for and narrower if that is negative,
/// within the limits: a third of the viewport and all of it. Where it stays within them, it has
/// just the width that was asked for, and its width never changes the other way.
pub proof fn law_a_column_follows_the_pointer(
    strip: Strip,
    tile: u64,
    column: int,
    row: int,
    delta: int,
    anchor: ColumnResizeAnchor,
)
    requires
        strip.tidy(),
        strip.stands_at(tile, column, row),
        0 < strip.viewport_width <= i32::MAX,
        strip.columns[column].width.valid(),
        i32::MIN <= delta <= i32::MAX,
    ensures
        ({
            let width = strip.width_of(column) + delta;
            let result = strip.column_resized(tile, delta, anchor);
            let (changed, applied, after) = result->0;
            let chosen = after.columns[column].width;
            &&& result is Some
            &&& changed && width >= 1 && width <= i32::MAX && 33 * strip.viewport_width <= 100
                * width <= 100 * strip.viewport_width ==> chosen.num * strip.viewport_width == width
                * chosen.den
            &&& changed && 100 * width < 33 * strip.viewport_width && strip.viewport_width > 3
                ==> chosen.num * 100 == 33 * chosen.den
            &&& changed && width > strip.viewport_width ==> chosen.num == chosen.den
            &&& changed ==> after.focused == Some(tile) && after.user_positioned_viewport
        }),
{
    lemma_position_unique(strip, column, row);
    let requested = strip.requested_width(column, delta);
    let width = strip.width_of(column) + delta;
    assert(1 <= requested <= i32::MAX);
    let chosen = ColumnWidth::spec_limited(requested, strip.viewport_width);
    if 1 <= width <= i32::MAX {
        assert(requested == width);
    }
}

/// A pan moves the viewport by what is asked for, to the right if that is positive, as long as
/// some column can be in its middle; if it would get beyond the first or the last one, it stops
/// there.
pub proof fn law_a_pan_goes_as_far_as_it_says(strip: Strip, delta: int)
    requires
        strip.viewport_width > 0,
        strip.columns.len() > 0,
        strip.tiles().len() != 1,
        strip.center(0) <= strip.center(strip.columns.len() - 1),
    ensures
        ({
            let half = crate::units::HALF_PIXEL * strip.viewport_width;
            let last = strip.columns.len() - 1;
            let there = strip.viewport_x + delta + half;
            let middle = strip.panned(delta).viewport_x + half;
            &&& strip.center(0) <= there <= strip.center(last) ==> middle == there
            &&& there < strip.center(0) ==> middle == strip.center(0)
            &&& there > strip.center(last) ==> middle == strip.center(last)
        }),
{
    let moved = Strip {
        user_positioned_viewport: true,
        viewport_x: strip.viewport_x + delta,
        ..strip
    };
    let last = strip.columns.len() - 1;
    assert(moved.center(0) == strip.center(0) && moved.center(last) == strip.center(last));
}

/// The mean of weights that stand for heights is that of the heights, but for an error too small
/// to be seen.
proof fn lemma_mean(weights: Seq<u128>, heights: Seq<int>)
    requires
        weigh_as(weights, heights),
        0 < heights.len(),
        heights_before(heights, heights.len() as int) <= EXACT_HEIGHT,
    ensures
        ({
            let total = heights_before(heights, heights.len() as int);
            let count = heights.len() as int;
            let mean = mean_of(weights);
            &&& -(count + total) <= count * mean - WEIGHT_ONE * total <= total
            &&& 0 < mean < WEIGHT_LIMIT
        }),
{
    let count = heights.len() as int;
    lemma_weights_of_heights(heights, weights, count);
    let total = heights_before(heights, count);
    assert(total >= count);
    lemma_whole_part(WEIGHT_ONE * total, count);
    let mean = mean_of(weights);
    assert(count * (mean + 1) == count * mean + count) by (nonlinear_arith);
    assert(mean > 0) by (nonlinear_arith)
        requires
            count * mean >= WEIGHT_ONE * total - count - total,
            WEIGHT_ONE == 0x10_0000_0000_0000,
            total >= count,
            count > 0,
    ;
    assert(mean < WEIGHT_LIMIT) by (nonlinear_arith)
        requires
            count * mean <= WEIGHT_ONE * total + total,
            WEIGHT_ONE == 0x10_0000_0000_0000,
            WEIGHT_LIMIT == 0x10_0000_0000_0000_0000_0000,
            total <= 0x400_0000,
            count >= 1,
            mean > 0,
    ;
}

/// A tile that joins a column gets a row of the mean height there, and leaves the others in
/// proportion: their weights stay.
pub proof fn law_a_joining_tile_gets_a_mean_row(
    strip: Strip,
    tile: u64,
    column: int,
    delta: int,
    heights: Seq<int>,
    other: u64,
)
    requires
        strip.tidy(),
        strip.stands_at(tile, column, 0),
        strip.columns[column].tiles.len() == 1,
        strip.columns.len() > 1,
        delta == 1 || delta == -1,
        other != tile,
        weigh_as(
            strip.column_weights(if column > 0 {
                column - 1
            } else {
                1
            }),
            heights,
        ),
        heights_before(heights, heights.len() as int) <= EXACT_HEIGHT,
    ensures
        ({
            let after = strip.moved_vertically(tile, delta).1;
            let total = heights_before(heights, heights.len() as int);
            let count = heights.len() as int;
            &&& -(count + total) <= count * after.weight_of(tile) - WEIGHT_ONE * total <= total
            &&& after.weight_of(other) == strip.weight_of(other)
        }),
{
    lemma_position_unique(strip, column, 0);
    let into = if column > 0 {
        column - 1
    } else {
        1
    };
    let at = if column > 0 {
        column - 1
    } else {
        0
    };
    let rest = Strip { columns: strip.columns.remove(column), ..strip };
    assert(rest.columns[at] == strip.columns[into]);
    assert(rest.column_weights(at) =~= strip.column_weights(into));
    assert(strip.columns[into].tiles.len() > 0);
    lemma_mean(strip.column_weights(into), heights);
    let joined = rest.with_tile(
        at,
        if delta < 0 {
            0
        } else {
            rest.columns[at].tiles.len() as int
        },
        tile,
    );
    lemma_weight_set(joined, tile, rest.mean_weight(at), other);
}

/// A tile that gets a column of its own has the width that new columns have, 66 percent of the
/// viewport, and a row of its own. A tile that is dropped beside others keeps the width of the
/// column that it was taken from if it was alone there; one that is dropped above or below
/// another keeps its weight if it was in one column with it, and leaves the column as wide as it is.
pub proof fn law_a_column_of_its_own_has_its_width(
    strip: Strip,
    drag: DragView,
    tile: u64,
    anchor: u64,
    column: int,
    row: int,
    delta: int,
)
    requires
        strip.tidy(),
        strip.stands_at(anchor, column, row),
        delta == 1 || delta == -1,
        is_weight(drag.source_weight),
    ensures
        strip.columns[column].tiles.len() > 1 ==> {
            let after = strip.moved_sideways(anchor, delta)->0;
            let own = if delta < 0 {
                column
            } else {
                column + 1
            };
            &&& after.columns[own].width.num * 100 == 66 * after.columns[own].width.den
            &&& after.weight_of(anchor) == WEIGHT_ONE
            &&& after.focused == Some(anchor)
        },
        ({
            let before = strip.dropped(drag, tile, ColumnDropTarget::Before(anchor));
            let behind = strip.dropped(drag, tile, ColumnDropTarget::After(anchor));
            let above = strip.dropped(drag, tile, ColumnDropTarget::Above(anchor));
            let below = strip.dropped(drag, tile, ColumnDropTarget::Below(anchor));
            let first = strip.dropped(drag, tile, ColumnDropTarget::First);
            let last = strip.dropped(drag, tile, ColumnDropTarget::Last);
            let widths = seq![
                before.columns[column].width,
                behind.columns[column + 1].width,
                first.columns[0].width,
                last.columns[strip.columns.len() as int].width,
            ];
            &&& forall|i: int|
                0 <= i < 4 && drag.source_tiles.len() == 1 ==> #[trigger] widths[i]
                    == drag.source_width
            &&& forall|i: int|
                0 <= i < 4 && drag.source_tiles.len() != 1 ==> (#[trigger] widths[i]).num * 100
                    == 66 * widths[i].den
            &&& before.weight_of(tile) == WEIGHT_ONE
            &&& behind.weight_of(tile) == WEIGHT_ONE
            &&& above.columns[column].width == strip.columns[column].width
            &&& below.columns[column].width == strip.columns[column].width
            &&& drag.source_tiles.contains(anchor) ==> above.weight_of(tile) == drag.source_weight
                && below.weight_of(tile) == drag.source_weight
        }),
{
    lemma_position_unique(strip, column, row);
    let rest = Strip {
        columns: strip.columns.update(
            column,
            crate::strip::ColumnView {
                tiles: strip.columns[column].tiles.remove(row),
                width: strip.columns[column].width,
            },
        ),
        ..strip
    };
    let own = if delta < 0 {
        column
    } else {
        column + 1
    };
    let single = crate::strip::single_column(anchor);
    lemma_weight_set(rest.with_column(own, single), anchor, WEIGHT_ONE, anchor);
    let width = if drag.source_tiles.len() == 1 {
        drag.source_width
    } else {
        ColumnWidth::spec_default()
    };
    let new_column = crate::strip::ColumnView { tiles: seq![tile], width };
    lemma_weight_set(strip.with_column(column, new_column), tile, WEIGHT_ONE, tile);
    lemma_weight_set(strip.with_column(column + 1, new_column), tile, WEIGHT_ONE, tile);
    lemma_weight_set(strip.with_tile(column, row, tile), tile, drag.source_weight, tile);
    lemma_weight_set(strip.with_tile(column, row + 1, tile), tile, drag.source_weight, tile);
}

/// A tile that is asked for is brought into view, and has the focus. One that just becomes active
/// is brought into view too, unless the viewport was put where it is on purpose: it only gets the
/// focus then.
pub proof fn law_what_is_asked_for_comes_first(
    strip: Strip,
    requested: Option<u64>,
    activated: Option<u64>,
    tile: u64,
)
    requires
        strip.contains(tile),
    ensures
        ({
            let asked = strip.preferred_revealed(Some(tile), activated);
            let active = strip.preferred_revealed(None, Some(tile));
            &&& asked.focused == Some(tile)
            &&& !asked.user_positioned_viewport
            &&& asked == strip.preferred_revealed(Some(tile), None)
            &&& active.focused == Some(tile)
            &&& strip.user_positioned_viewport ==> active.viewport_x == strip.viewport_x
                && active.user_positioned_viewport
            &&& !strip.user_positioned_viewport ==> active == asked
            &&& asked.columns == strip.columns && active.columns == strip.columns
            &&& strip.preferred_revealed(None, None) == strip
        }),
{
}

/// Whether this is one of the widths that are offered: a third, a half, two thirds or all of the
/// viewport, in percent.
pub open spec fn is_offered(percent: int) -> bool {
    percent == 33 || percent == 50 || percent == 66 || percent == 100
}

/// Asked to get wider, a column takes the next wider one of the widths that are offered, and starts
/// again with the narrowest behind the widest; asked to get narrower it goes the other way.
pub proof fn law_the_next_width_is_taken(width: ColumnWidth, other: int)
    requires
        width.valid(),
        is_offered(other),
    ensures
        ({
            let wider = width.next_preset(ResizeDirection::Outwards);
            let narrower = width.next_preset(ResizeDirection::Inwards);
            &&& wider.den == 100 && is_offered(wider.num as int)
            &&& narrower.den == 100 && is_offered(narrower.num as int)
            &&& 100 * width.num < other * width.den ==> width.num * 100 < wider.num * width.den
                && wider.num <= other
            &&& 100 * width.num >= 100 * width.den ==> wider.num == 33
            &&& 100 * width.num > other * width.den ==> narrower.num * width.den < width.num * 100
                && other <= narrower.num
            &&& 100 * width.num <= 33 * width.den ==> narrower.num == 100
        }),
{
}

} // verus!
