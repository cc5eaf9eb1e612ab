//! The mathematical model of the scrolling strip.
//!
//! Each operation on the strip is a function from the strip before to the strip after. The
//! contracts of the executable operations are stated with these functions.

use vstd::prelude::*;

use crate::actions::ResizeDirection;
use crate::columns::{
    ColumnDropTarget, ColumnResizeAnchor, ColumnWidth, TileMove, MIN_TILE_HEIGHT, VIEWPORT_LIMIT,
};
use crate::rows::{effective_weight, mean_of, row_height, WEIGHT_ONE};
use crate::units::{saturate_i32, HALF_PIXEL, SUBPIXEL};

verus! {

/// A column of the strip.
#[verifier::ext_equal]
pub struct ColumnView {
    pub tiles: Seq<u64>,
    pub width: ColumnWidth,
}

/// What is remembered of a tile while it is dragged.
#[verifier::ext_equal]
pub struct DragView {
    pub source: u64,
    pub source_column: int,
    pub source_tile: int,
    pub source_width: ColumnWidth,
    pub source_tiles: Seq<u64>,
    pub source_weight: u128,
    pub focused: Option<u64>,
    pub viewport_x: int,
    pub user_positioned_viewport: bool,
}

/// The strip and the viewport on it.
#[verifier::ext_equal]
pub struct Strip {
    pub columns: Seq<ColumnView>,
    pub weights: Seq<(u64, u128)>,
    pub focused: Option<u64>,
    pub drag: Option<DragView>,
    pub viewport_x: int,
    pub user_positioned_viewport: bool,
    pub viewport_width: int,
    pub gap: int,
    pub column_height: int,
}

/// The first index, not below `start`, at which `item` stands.
pub open spec fn index_from(items: Seq<u64>, item: u64, start: int) -> Option<int>
    decreases items.len() - start,
{
    if start < 0 || start >= items.len() {
        None
    } else if items[start] == item {
        Some(start)
    } else {
        index_from(items, item, start + 1)
    }
}

/// The first column, not below `start`, that holds `tile`, and the row of the tile in it.
pub open spec fn find_from(columns: Seq<ColumnView>, tile: u64, start: int) -> Option<(int, int)>
    decreases columns.len() - start,
{
    if start < 0 || start >= columns.len() {
        None
    } else {
        match index_from(columns[start].tiles, tile, 0) {
            Some(row) => Some((start, row)),
            None => find_from(columns, tile, start + 1),
        }
    }
}

/// The first index, not below `start`, of a weight recorded for `tile`.
pub open spec fn weight_index_from(weights: Seq<(u64, u128)>, tile: u64, start: int) -> Option<int>
    decreases weights.len() - start,
{
    if start < 0 || start >= weights.len() {
        None
    } else if weights[start].0 == tile {
        Some(start)
    } else {
        weight_index_from(weights, tile, start + 1)
    }
}

/// The recorded weights after `weight` was recorded for `tile`.
pub open spec fn with_weight(weights: Seq<(u64, u128)>, tile: u64, weight: u128) -> Seq<(u64, u128)> {
    let valid = effective_weight(weight);
    match weight_index_from(weights, tile, 0) {
        Some(index) => weights.update(index, (tile, valid)),
        None => weights.push((tile, valid)),
    }
}

/// The recorded weights without those of `tile`.
pub open spec fn without_weight(weights: Seq<(u64, u128)>, tile: u64) -> Seq<(u64, u128)>
    decreases weights.len(),
{
    if weights.len() == 0 {
        seq![]
    } else {
        let rest = without_weight(weights.drop_last(), tile);
        if weights.last().0 == tile {
            rest
        } else {
            rest.push(weights.last())
        }
    }
}

/// `items` without repetitions: only the first occurrence of each stays.
pub open spec fn distinct(items: Seq<u64>) -> Seq<u64>
    decreases items.len(),
{
    if items.len() == 0 {
        seq![]
    } else {
        let rest = distinct(items.drop_last());
        if rest.contains(items.last()) {
            rest
        } else {
            rest.push(items.last())
        }
    }
}

/// The tiles of one column that stay: those wanted that neither `seen` nor the tiles above
/// hold.
pub open spec fn kept_tiles(tiles: Seq<u64>, wanted: Seq<u64>, seen: Seq<u64>) -> Seq<u64>
    decreases tiles.len(),
{
    if tiles.len() == 0 {
        seq![]
    } else {
        let rest = kept_tiles(tiles.drop_last(), wanted, seen);
        if wanted.contains(tiles.last()) && !seen.contains(tiles.last()) && !rest.contains(
            tiles.last(),
        ) {
            rest.push(tiles.last())
        } else {
            rest
        }
    }
}

/// The wanted tiles that the columns hold, in strip order, each once.
pub open spec fn survivors(columns: Seq<ColumnView>, wanted: Seq<u64>) -> Seq<u64>
    decreases columns.len(),
{
    if columns.len() == 0 {
        seq![]
    } else {
        let rest = survivors(columns.drop_last(), wanted);
        rest + kept_tiles(columns.last().tiles, wanted, rest)
    }
}

/// The columns with only the surviving tiles, and without those that lost all of theirs.
pub open spec fn kept_columns(columns: Seq<ColumnView>, wanted: Seq<u64>) -> Seq<ColumnView>
    decreases columns.len(),
{
    if columns.len() == 0 {
        seq![]
    } else {
        let rest = kept_columns(columns.drop_last(), wanted);
        let tiles = kept_tiles(
            columns.last().tiles,
            wanted,
            survivors(columns.drop_last(), wanted),
        );
        if tiles.len() == 0 {
            rest
        } else {
            rest.push(ColumnView { tiles, width: columns.last().width })
        }
    }
}

/// The recorded weights of `tiles`, the first one of each.
pub open spec fn kept_weights(weights: Seq<(u64, u128)>, tiles: Seq<u64>) -> Seq<(u64, u128)>
    decreases weights.len(),
{
    if weights.len() == 0 {
        seq![]
    } else {
        let rest = kept_weights(weights.drop_last(), tiles);
        if tiles.contains(weights.last().0) && weight_index_from(rest, weights.last().0, 0) is None {
            rest.push(weights.last())
        } else {
            rest
        }
    }
}

/// The recorded weights, with a weight of one recorded for each of `tiles` that had none.
pub open spec fn completed_weights(weights: Seq<(u64, u128)>, tiles: Seq<u64>) -> Seq<(u64, u128)>
    decreases tiles.len(),
{
    if tiles.len() == 0 {
        weights
    } else {
        let rest = completed_weights(weights, tiles.drop_last());
        if weight_index_from(rest, tiles.last(), 0) is None {
            rest.push((tiles.last(), WEIGHT_ONE))
        } else {
            rest
        }
    }
}

/// The items that are not in `known`.
pub open spec fn unknown(items: Seq<u64>, known: Seq<u64>) -> Seq<u64>
    decreases items.len(),
{
    if items.len() == 0 {
        seq![]
    } else {
        let rest = unknown(items.drop_last(), known);
        if known.contains(items.last()) {
            rest
        } else {
            rest.push(items.last())
        }
    }
}

/// A column of its own for `tile`, of the default width.
pub open spec fn single_column(tile: u64) -> ColumnView {
    ColumnView { tiles: seq![tile], width: ColumnWidth::spec_default() }
}

/// A column of its own for each of `tiles`.
pub open spec fn single_columns(tiles: Seq<u64>) -> Seq<ColumnView> {
    Seq::new(tiles.len(), |i: int| single_column(tiles[i]))
}

/// A weight of one for each of `tiles`.
pub open spec fn unit_weights(tiles: Seq<u64>) -> Seq<(u64, u128)> {
    Seq::new(tiles.len(), |i: int| (tiles[i], WEIGHT_ONE))
}

/// All tiles of the first `count` columns, in strip order.
pub open spec fn tiles_of(columns: Seq<ColumnView>, count: int) -> Seq<u64>
    decreases count,
{
    if count <= 0 {
        seq![]
    } else {
        tiles_of(columns, count - 1) + columns[count - 1].tiles
    }
}

/// `value`, or the nearer of the two bounds.
pub open spec fn clamp(value: int, low: int, high: int) -> int {
    if value < low {
        low
    } else if value > high {
        high
    } else {
        value
    }
}

/// The sum of the widths of the first `count` columns in pixels.
pub open spec fn widths_before(columns: Seq<ColumnView>, viewport_width: int, count: int) -> int
    decreases count,
{
    if count <= 0 {
        0
    } else {
        widths_before(columns, viewport_width, count - 1) + columns[count - 1].width.spec_pixels(
            viewport_width,
        )
    }
}

/// Whether every width is a positive fraction.
pub open spec fn valid_widths(columns: Seq<ColumnView>) -> bool {
    forall|i: int| 0 <= i < columns.len() ==> (#[trigger] columns[i]).width.valid()
}

/// The column that holds the first of `peers`, from `start` on and other than `source`, that
/// is on the strip.
pub open spec fn peer_column(
    columns: Seq<ColumnView>,
    peers: Seq<u64>,
    source: u64,
    start: int,
) -> Option<int>
    decreases peers.len() - start,
{
    if start < 0 || start >= peers.len() {
        None
    } else {
        match find_from(columns, peers[start], 0) {
            Some((column, _)) if peers[start] != source => Some(column),
            _ => peer_column(columns, peers, source, start + 1),
        }
    }
}

impl Strip {
    /// The strip without columns that everything starts with.
    pub open spec fn empty() -> Strip {
        Strip {
            columns: seq![],
            weights: seq![],
            focused: None,
            drag: None,
            viewport_x: 0,
            user_positioned_viewport: false,
            viewport_width: 0,
            gap: 0,
            column_height: 0,
        }
    }

    /// The column and row of `tile`.
    pub open spec fn position(self, tile: u64) -> Option<(int, int)> {
        find_from(self.columns, tile, 0)
    }

    /// Whether the strip holds `tile`.
    pub open spec fn contains(self, tile: u64) -> bool {
        self.position(tile) is Some
    }

    /// All tiles, in strip order.
    pub open spec fn tiles(self) -> Seq<u64> {
        tiles_of(self.columns, self.columns.len() as int)
    }

    /// Every width is a positive fraction, and the numbers are in range.
    pub open spec fn wf(self) -> bool {
        &&& valid_widths(self.columns)
        &&& self.gap >= 0
        &&& -VIEWPORT_LIMIT <= self.viewport_x <= VIEWPORT_LIMIT
        &&& match self.drag {
            Some(drag) => drag.source_width.valid() && -VIEWPORT_LIMIT <= drag.viewport_x
                <= VIEWPORT_LIMIT,
            None => true,
        }
    }

    /// No column is empty, and every tile occurs once.
    pub open spec fn tidy(self) -> bool {
        &&& forall|i: int|
            0 <= i < self.columns.len() ==> (#[trigger] self.columns[i]).tiles.len() > 0
        &&& self.tiles().no_duplicates()
    }

    /// The row weight of `tile`.
    pub open spec fn weight_of(self, tile: u64) -> u128 {
        match weight_index_from(self.weights, tile, 0) {
            Some(index) => effective_weight(self.weights[index].1),
            None => WEIGHT_ONE,
        }
    }

    /// The row weights of the tiles of a column.
    pub open spec fn column_weights(self, column: int) -> Seq<u128> {
        Seq::new(
            self.columns[column].tiles.len(),
            |i: int| self.weight_of(self.columns[column].tiles[i]),
        )
    }

    /// The mean row weight in a column.
    pub open spec fn mean_weight(self, column: int) -> u128 {
        if 0 <= column < self.columns.len() && self.columns[column].tiles.len() > 0 {
            mean_of(self.column_weights(column)) as u128
        } else {
            WEIGHT_ONE
        }
    }

    /// The width of a column in pixels.
    pub open spec fn width_of(self, column: int) -> int {
        self.columns[column].width.spec_pixels(self.viewport_width)
    }

    /// The sum of the widths of the first `count` columns in pixels.
    pub open spec fn widths_before(self, count: int) -> int {
        widths_before(self.columns, self.viewport_width, count)
    }

    /// The left edge of a column on the strip, in subpixels.
    pub open spec fn left_edge(self, column: int) -> int {
        SUBPIXEL * (self.widths_before(column) + column * self.gap)
    }

    /// The right edge of a column on the strip, in subpixels.
    pub open spec fn right_edge(self, column: int) -> int {
        self.left_edge(column) + SUBPIXEL * self.width_of(column)
    }

    /// The center of a column on the strip, in subpixels.
    pub open spec fn center(self, column: int) -> int {
        self.left_edge(column) + HALF_PIXEL * self.width_of(column)
    }

    /// The width of the strip with its inner gaps, in subpixels.
    pub open spec fn width(self) -> int {
        let count = self.columns.len() as int;
        SUBPIXEL * (self.widths_before(count) + (if count > 0 {
            count - 1
        } else {
            0
        }) * self.gap)
    }

    /// The width of the viewport in pixels, zero if it has none.
    pub open spec fn visible_width(self) -> int {
        if self.viewport_width > 0 {
            self.viewport_width
        } else {
            0
        }
    }

    /// The viewport position nearest to `x` at which the middle of the viewport is not left
    /// of the center of the first column or right of the center of the last one.
    pub open spec fn pan_target(self, x: int) -> int {
        clamp(
            x,
            self.center(0) - HALF_PIXEL * self.visible_width(),
            self.center(self.columns.len() - 1) - HALF_PIXEL * self.visible_width(),
        )
    }

    /// The viewport brought back to where it may stand: between the centered outer columns
    /// when the user positioned it, otherwise inside the strip.
    pub open spec fn clamped(self) -> Strip {
        if self.user_positioned_viewport && self.columns.len() > 0 {
            Strip { viewport_x: self.pan_target(self.viewport_x), ..self }
        } else {
            let room = self.width() - SUBPIXEL * self.visible_width();
            Strip {
                viewport_x: clamp(
                    self.viewport_x,
                    0,
                    if room > 0 {
                        room
                    } else {
                        0
                    },
                ),
                ..self
            }
        }
    }

    /// The strip of exactly the tiles `mapped`: the known ones stay where they are, the others
    /// follow in columns of their own.
    pub open spec fn reconciled(self, mapped: Seq<u64>) -> Strip {
        let wanted = distinct(mapped);
        let kept = survivors(self.columns, wanted);
        let fresh = unknown(wanted, kept);
        let columns = kept_columns(self.columns, wanted) + single_columns(fresh);
        if columns.len() == 0 {
            Strip {
                columns,
                weights: seq![],
                focused: None,
                viewport_x: 0,
                user_positioned_viewport: false,
                ..self
            }
        } else {
            (Strip {
                columns,
                weights: completed_weights(kept_weights(self.weights, kept), kept) + unit_weights(
                    fresh,
                ),
                focused: match self.focused {
                    Some(tile) => if kept.contains(tile) {
                        Some(tile)
                    } else {
                        None
                    },
                    None => None,
                },
                ..self
            }).clamped()
        }
    }

    /// The strip without the first occurrence of `tile`, and without its column if that was
    /// all it held.
    pub open spec fn without(self, tile: u64) -> Strip {
        match self.position(tile) {
            None => self,
            Some((column, row)) => {
                let tiles = self.columns[column].tiles.remove(row);
                Strip {
                    columns: if tiles.len() == 0 {
                        self.columns.remove(column)
                    } else {
                        self.columns.update(
                            column,
                            ColumnView { tiles, width: self.columns[column].width },
                        )
                    },
                    weights: without_weight(self.weights, tile),
                    ..self
                }
            },
        }
    }

    /// The strip with `weight` recorded for `tile`.
    pub open spec fn weighted(self, tile: u64, weight: u128) -> Strip {
        Strip { weights: with_weight(self.weights, tile, weight), ..self }
    }

    /// The strip with a new column before the column that now has this index.
    pub open spec fn with_column(self, index: int, column: ColumnView) -> Strip {
        Strip { columns: self.columns.insert(index, column), ..self }
    }

    /// The strip with `tile` inserted into a column, above the tile that now has this row.
    pub open spec fn with_tile(self, column: int, row: int, tile: u64) -> Strip {
        Strip {
            columns: self.columns.update(
                column,
                ColumnView {
                    tiles: self.columns[column].tiles.insert(row, tile),
                    width: self.columns[column].width,
                },
            ),
            ..self
        }
    }

    /// The strip with `tile` in a new column right of the one that holds `focused`, or at the
    /// end.
    pub open spec fn with_new_toplevel(self, tile: u64, focused: Option<u64>) -> Strip {
        let rest = self.without(tile);
        let insertion = match focused {
            Some(anchor) => match rest.position(anchor) {
                Some((column, _)) => column + 1,
                None => rest.columns.len() as int,
            },
            None => rest.columns.len() as int,
        };
        rest.with_column(insertion, single_column(tile)).weighted(tile, WEIGHT_ONE).clamped()
    }

    /// What to remember of `tile` when it is dragged.
    pub open spec fn snapshot(self, tile: u64) -> Option<DragView> {
        match self.position(tile) {
            None => None,
            Some((column, row)) => Some(
                DragView {
                    source: tile,
                    source_column: column,
                    source_tile: row,
                    source_width: self.columns[column].width,
                    source_tiles: self.columns[column].tiles,
                    source_weight: self.weight_of(tile),
                    focused: self.focused,
                    viewport_x: self.viewport_x,
                    user_positioned_viewport: self.user_positioned_viewport,
                },
            ),
        }
    }

    /// The strip with `tile` put where the dragged tile came from: among the peers it had, or
    /// else in a column of its own.
    pub open spec fn restored(self, drag: DragView, tile: u64) -> Strip {
        let placed = match peer_column(self.columns, drag.source_tiles, drag.source, 0) {
            Some(column) => {
                let rows = self.columns[column].tiles.len() as int;
                let row = if drag.source_tile < rows { drag.source_tile } else { rows };
                Strip {
                    columns: self.columns.update(
                        column,
                        ColumnView {
                            tiles: self.columns[column].tiles.insert(row, tile),
                            width: drag.source_width,
                        },
                    ),
                    ..self
                }
            },
            None => {
                let count = self.columns.len() as int;
                let index = if drag.source_column < count { drag.source_column } else { count };
                self.with_column(
                    index,
                    ColumnView { tiles: seq![tile], width: drag.source_width },
                )
            },
        };
        placed.weighted(tile, drag.source_weight)
    }

    /// The strip after the pending drag, if there is one, was taken back.
    pub open spec fn drag_cancelled(self) -> Strip {
        match self.drag {
            None => self,
            Some(drag) => {
                let rest = (Strip { drag: None, ..self }).without(drag.source).restored(
                    drag,
                    drag.source,
                );
                (Strip {
                    focused: match drag.focused {
                        Some(tile) => if rest.contains(tile) {
                            Some(tile)
                        } else {
                            None
                        },
                        None => None,
                    },
                    viewport_x: drag.viewport_x,
                    user_positioned_viewport: drag.user_positioned_viewport,
                    ..rest
                }).clamped()
            },
        }
    }

    /// What a drop that nothing remembers a drag for counts as: a tile of its own, dragged
    /// from the end of the strip.
    pub open spec fn foreign_drag(self, tile: u64) -> DragView {
        DragView {
            source: tile,
            source_column: self.columns.len() as int,
            source_tile: 0,
            source_width: ColumnWidth::spec_default(),
            source_tiles: seq![tile],
            source_weight: WEIGHT_ONE,
            focused: self.focused,
            viewport_x: self.viewport_x,
            user_positioned_viewport: self.user_positioned_viewport,
        }
    }

    /// The strip with `tile` dropped at `target`, after a drag that `drag` remembers. Neither
    /// the dragged tile nor `tile` is on the strip any more.
    pub open spec fn dropped(self, drag: DragView, tile: u64, target: ColumnDropTarget) -> Strip {
        let fallback = if drag.source_column < self.columns.len() {
            drag.source_column
        } else {
            self.columns.len() as int
        };
        let column = ColumnView {
            tiles: seq![tile],
            width: if drag.source_tiles.len() == 1 {
                drag.source_width
            } else {
                ColumnWidth::spec_default()
            },
        };
        match target {
            ColumnDropTarget::Above(anchor) | ColumnDropTarget::Below(anchor) => {
                match self.position(anchor) {
                    None => self.restored(drag, tile),
                    Some((index, row)) => {
                        let weight = if drag.source_tiles.contains(anchor) {
                            drag.source_weight
                        } else {
                            self.mean_weight(index)
                        };
                        self.with_tile(
                            index,
                            if target is Above {
                                row
                            } else {
                                row + 1
                            },
                            tile,
                        ).weighted(tile, weight)
                    },
                }
            },
            ColumnDropTarget::Before(anchor) | ColumnDropTarget::After(anchor) => {
                let index = match self.position(anchor) {
                    None => fallback,
                    Some((found, _)) => if target is Before {
                        found
                    } else {
                        found + 1
                    },
                };
                self.with_column(index, column).weighted(tile, WEIGHT_ONE)
            },
            ColumnDropTarget::First => self.with_column(0, column).weighted(tile, WEIGHT_ONE),
            ColumnDropTarget::Last => self.with_column(
                self.columns.len() as int,
                column,
            ).weighted(tile, WEIGHT_ONE),
            ColumnDropTarget::Original | ColumnDropTarget::Discard => self.restored(drag, tile),
        }
    }

    /// The strip after the pending drag ended in a drop of `tile` at `target`.
    pub open spec fn drag_finished(self, tile: Option<u64>, target: ColumnDropTarget) -> Strip {
        let settled = Strip { drag: None, ..self };
        if target is Discard {
            let rest = match self.drag {
                Some(drag) => settled.without(drag.source),
                None => settled,
            };
            (Strip {
                focused: match tile {
                    Some(end) => if rest.contains(end) {
                        Some(end)
                    } else {
                        None
                    },
                    None => None,
                },
                ..rest
            }).clamped()
        } else {
            match tile {
                None => self.drag_cancelled(),
                Some(end) => {
                    let drag = match self.drag {
                        Some(pending) => pending,
                        None => match settled.snapshot(end) {
                            Some(found) => found,
                            None => settled.foreign_drag(end),
                        },
                    };
                    let lifted = settled.without(drag.source);
                    let rest = if end != drag.source {
                        lifted.without(end)
                    } else {
                        lifted
                    };
                    (Strip { focused: Some(end), ..rest.dropped(drag, end, target) }).revealed(end)
                },
            }
        }
    }

    /// The strip for a viewport of this width and this gap between columns.
    pub open spec fn measured(self, viewport_width: int, gap: int) -> Strip {
        let sized = (Strip {
            viewport_width: if viewport_width > 1 {
                viewport_width
            } else {
                1
            },
            gap: if gap > 0 {
                gap
            } else {
                0
            },
            ..self
        }).clamped();
        if sized.user_positioned_viewport {
            sized
        } else {
            match sized.focused {
                Some(tile) => sized.revealed(tile),
                None => sized,
            }
        }
    }

    /// The tile in the same row of the column `delta` columns further right, or else the last
    /// one there.
    pub open spec fn beside(self, tile: u64, delta: int) -> Option<u64> {
        match self.position(tile) {
            None => None,
            Some((column, row)) => {
                let target = column + delta;
                if 0 <= target < self.columns.len() {
                    let tiles = self.columns[target].tiles;
                    if row < tiles.len() {
                        Some(tiles[row])
                    } else if tiles.len() > 0 {
                        Some(tiles.last())
                    } else {
                        None
                    }
                } else {
                    None
                }
            },
        }
    }

    /// The tile `delta` rows further down in the same column.
    pub open spec fn below(self, tile: u64, delta: int) -> Option<u64> {
        match self.position(tile) {
            None => None,
            Some((column, row)) => if 0 <= row + delta < self.columns[column].tiles.len() {
                Some(self.columns[column].tiles[row + delta])
            } else {
                None
            },
        }
    }

    /// The pair of neighbouring rows that `tile` is the upper (`delta` 1) or the lower
    /// (`delta` -1) one of.
    pub open spec fn rows_at(self, tile: u64, delta: int) -> Option<(u64, u64)> {
        if delta == -1 {
            match self.below(tile, -1) {
                Some(upper) => Some((upper, tile)),
                None => None,
            }
        } else if delta == 1 {
            match self.below(tile, 1) {
                Some(lower) => Some((tile, lower)),
                None => None,
            }
        } else {
            None
        }
    }

    /// The strip after `tile` moved sideways: out of a shared column into one of its own next
    /// to it, or else by `delta` places together with its column. `None` if it cannot move.
    pub open spec fn moved_sideways(self, tile: u64, delta: int) -> Option<Strip> {
        match self.position(tile) {
            None => None,
            Some((column, row)) => if self.columns[column].tiles.len() > 1 {
                let rest = Strip {
                    columns: self.columns.update(
                        column,
                        ColumnView {
                            tiles: self.columns[column].tiles.remove(row),
                            width: self.columns[column].width,
                        },
                    ),
                    ..self
                };
                Some(
                    Strip {
                        focused: Some(tile),
                        ..rest.with_column(
                            if delta < 0 {
                                column
                            } else {
                                column + 1
                            },
                            single_column(tile),
                        ).weighted(tile, WEIGHT_ONE)
                    },
                )
            } else if 0 <= column + delta < self.columns.len() {
                Some(
                    Strip {
                        columns: self.columns.update(column, self.columns[column + delta]).update(
                            column + delta,
                            self.columns[column],
                        ),
                        focused: Some(tile),
                        ..self
                    },
                )
            } else {
                None
            },
        }
    }

    /// Whether, and to what, the strip changes when `tile` is moved up or down: within a
    /// shared column, or else into the neighbouring column on the left, or on the right of the
    /// first column.
    pub open spec fn moved_vertically(self, tile: u64, delta: int) -> (TileMove, Strip) {
        match self.position(tile) {
            None => (TileMove::Unavailable, self),
            Some((column, row)) => {
                let tiles = self.columns[column].tiles;
                if tiles.len() > 1 {
                    if 0 <= row + delta < tiles.len() {
                        (
                            TileMove::Moved,
                            Strip {
                                columns: self.columns.update(
                                    column,
                                    ColumnView {
                                        tiles: tiles.update(row, tiles[row + delta]).update(
                                            row + delta,
                                            tiles[row],
                                        ),
                                        width: self.columns[column].width,
                                    },
                                ),
                                focused: Some(tile),
                                ..self
                            },
                        )
                    } else {
                        (TileMove::Edge, self)
                    }
                } else if self.columns.len() < 2 {
                    (TileMove::Edge, self)
                } else {
                    let rest = Strip { columns: self.columns.remove(column), ..self };
                    let destination = if column > 0 { column - 1 } else { 0 };
                    let end = if delta < 0 {
                        0
                    } else {
                        rest.columns[destination].tiles.len() as int
                    };
                    (
                        TileMove::Moved,
                        Strip {
                            focused: Some(tile),
                            ..rest.with_tile(destination, end, tile).weighted(
                                tile,
                                rest.mean_weight(destination),
                            )
                        },
                    )
                }
            },
        }
    }

    /// The strip with another width for a column.
    pub open spec fn with_width(self, column: int, width: ColumnWidth) -> Strip {
        Strip {
            columns: self.columns.update(
                column,
                ColumnView { tiles: self.columns[column].tiles, width },
            ),
            ..self
        }
    }

    /// The strip after the column of `tile` took the next preset width.
    pub open spec fn width_cycled(self, tile: u64, direction: ResizeDirection) -> Option<Strip> {
        match self.position(tile) {
            None => None,
            Some((column, _)) => Some(
                Strip {
                    focused: Some(tile),
                    ..self.with_width(
                        column,
                        self.columns[column].width.next_preset(direction),
                    )
                },
            ),
        }
    }

    /// The width in pixels that a column is resized to, before it is limited to what a column
    /// may have.
    pub open spec fn requested_width(self, column: int, delta: int) -> int {
        let width = saturate_i32(self.width_of(column) + delta);
        if width > 1 { width } else { 1 }
    }

    /// Whether, by how many pixels, and to what the strip changes when the column of `tile`
    /// grows by `delta` pixels while its edge at `anchor` stays in place. `None` if there is
    /// nothing to resize.
    pub open spec fn column_resized(self, tile: u64, delta: int, anchor: ColumnResizeAnchor) -> Option<
        (bool, int, Strip),
    > {
        match self.position(tile) {
            None => None,
            Some((column, _)) => if self.viewport_width <= 0 {
                None
            } else {
                let width = ColumnWidth::spec_limited(
                    self.requested_width(column, delta),
                    self.viewport_width,
                );
                if width.same(self.columns[column].width) {
                    Some((false, 0, self))
                } else {
                    let resized = self.with_width(column, width);
                    let applied = resized.width_of(column) - self.width_of(column);
                    Some(
                        (
                            true,
                            applied,
                            Strip {
                                viewport_x: if anchor is Right {
                                    clamp(
                                        self.viewport_x + SUBPIXEL * applied,
                                        -VIEWPORT_LIMIT as int,
                                        VIEWPORT_LIMIT as int,
                                    )
                                } else {
                                    self.viewport_x
                                },
                                user_positioned_viewport: true,
                                focused: Some(tile),
                                ..resized
                            },
                        ),
                    )
                }
            },
        }
    }

    /// The height in pixels of a row.
    pub open spec fn height_of(self, column: int, row: int) -> int {
        row_height(self.column_height, self.gap, self.column_weights(column), row)
    }

    /// The smallest height that a resize leaves each of two rows that together are
    /// `pair_height` pixels tall.
    pub open spec fn row_minimum(pair_height: int) -> int {
        if pair_height >= 2 * MIN_TILE_HEIGHT {
            MIN_TILE_HEIGHT as int
        } else if pair_height / 4 > 1 {
            pair_height / 4
        } else {
            1
        }
    }

    /// The height of the upper of two rows after the separator below it was moved down by
    /// `delta` pixels, as far as the rows allow.
    pub open spec fn moved_separator(upper: int, lower: int, delta: int) -> int {
        let pair = saturate_i32(upper + lower);
        let minimum = Self::row_minimum(pair);
        clamp(saturate_i32(upper + delta), minimum, pair - minimum)
    }

    /// The row weights after every row of a column was fixed at its height in pixels, with two
    /// neighbours at other heights.
    pub open spec fn weights_fixed(
        self,
        column: int,
        upper_row: int,
        upper: int,
        lower: int,
        count: int,
    ) -> Seq<(u64, u128)>
        decreases count,
    {
        if count <= 0 {
            self.weights
        } else {
            let row = count - 1;
            let height = if row == upper_row {
                upper
            } else if row == upper_row + 1 {
                lower
            } else {
                self.height_of(column, row)
            };
            with_weight(
                self.weights_fixed(column, upper_row, upper, lower, count - 1),
                self.columns[column].tiles[row],
                ((if height > 1 {
                    height
                } else {
                    1
                }) * WEIGHT_ONE) as u128,
            )
        }
    }

    /// Whether, and to what, the strip changes when the separator between two rows is moved
    /// down by `delta` pixels. `None` if they are not neighbours.
    pub open spec fn rows_resized(self, upper: u64, lower: u64, delta: int) -> Option<
        (bool, Strip),
    > {
        match (self.position(upper), self.position(lower)) {
            (Some((column, row)), Some((lower_column, lower_row))) => if lower_column != column
                || lower_row != row + 1 || self.column_height <= 0 {
                None
            } else {
                let upper_height = self.height_of(column, row);
                let lower_height = self.height_of(column, row + 1);
                let new_upper = Self::moved_separator(upper_height, lower_height, delta);
                let pair = saturate_i32(upper_height + lower_height);
                if pair <= 1 || new_upper == upper_height {
                    Some((false, self))
                } else {
                    Some(
                        (
                            true,
                            Strip {
                                weights: self.weights_fixed(
                                    column,
                                    row,
                                    new_upper,
                                    pair - new_upper,
                                    self.columns[column].tiles.len() as int,
                                ),
                                ..self
                            },
                        ),
                    )
                }
            },
            _ => None,
        }
    }

    /// The strip with `tile` focused and the viewport moved just enough to show its column.
    pub open spec fn revealed(self, tile: u64) -> Strip {
        match self.position(tile) {
            None => self,
            Some((column, _)) => {
                let focused = Strip {
                    focused: Some(tile),
                    user_positioned_viewport: false,
                    ..self
                };
                let left = self.left_edge(column);
                let right = self.right_edge(column);
                if self.viewport_width <= 0 {
                    focused
                } else if left < self.viewport_x {
                    (Strip { viewport_x: left, ..focused }).clamped()
                } else if right > self.viewport_x + SUBPIXEL * self.viewport_width {
                    (Strip {
                        viewport_x: right - SUBPIXEL * self.viewport_width,
                        ..focused
                    }).clamped()
                } else {
                    focused
                }
            },
        }
    }

    /// The viewport position at which the column of `tile` is centered.
    pub open spec fn centering(self, tile: u64) -> Option<int> {
        match self.position(tile) {
            None => None,
            Some((column, _)) => if self.viewport_width > 0 {
                Some(self.center(column) - HALF_PIXEL * self.viewport_width)
            } else {
                None
            },
        }
    }

    /// The strip with the column of `tile` centered and the tile focused.
    pub open spec fn centered(self, tile: u64) -> Strip {
        match self.centering(tile) {
            None => self,
            Some(target) => Strip {
                viewport_x: target,
                user_positioned_viewport: false,
                focused: Some(tile),
                ..self
            },
        }
    }

    /// The strip with its only tile centered, if it has just one.
    pub open spec fn only_tile_centered(self) -> Strip {
        if self.tiles().len() == 1 {
            self.centered(self.tiles()[0])
        } else {
            self
        }
    }

    /// The strip after the requested tile, or else the activated one, was brought into view.
    /// A viewport that the user positioned only gives way to a request.
    pub open spec fn preferred_revealed(self, requested: Option<u64>, activated: Option<u64>) -> Strip {
        match requested {
            Some(tile) => self.revealed(tile),
            None => match activated {
                None => self,
                Some(tile) => if !self.user_positioned_viewport {
                    self.revealed(tile)
                } else if self.contains(tile) {
                    Strip { focused: Some(tile), ..self }
                } else {
                    self
                },
            },
        }
    }

    /// Whether there is anything to pan.
    pub open spec fn can_pan(self) -> bool {
        self.viewport_width > 0 && self.columns.len() > 0
    }

    /// The strip with the viewport where its only tile is centered. The focus stays.
    pub open spec fn viewport_on_only_tile(self) -> Strip {
        match self.centering(self.tiles()[0]) {
            None => self,
            Some(target) => Strip {
                viewport_x: target,
                user_positioned_viewport: false,
                ..self
            },
        }
    }

    /// The strip after the user panned it by `delta` subpixels. A lone tile is centered
    /// instead.
    pub open spec fn panned(self, delta: int) -> Strip {
        if !self.can_pan() {
            self
        } else if self.tiles().len() == 1 {
            self.viewport_on_only_tile()
        } else {
            (Strip {
                user_positioned_viewport: true,
                viewport_x: self.viewport_x + delta,
                ..self
            }).clamped()
        }
    }
}

} // verus!
