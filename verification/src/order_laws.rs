//! What holds of the order of the tiles on the strip and of the widths of columns when a tile is
//! dragged: the other tiles keep theirs.

use vstd::prelude::*;

use crate::arrangement_laws::{
    law_cancelled_drag_restores_the_strip, law_drop_keeps_tiles, lemma_drop_shape, lemma_found_in,
    lemma_peer, lemma_place, lemma_reveal_shape, lemma_tidy, lemma_tiles_of_first,
};
use crate::columns::{ColumnDropTarget, ColumnWidth};
use crate::laws::{
    law_reconciled, law_reconciliation_keeps_weights, law_reconciliation_takes_away_what_is_gone,
};
use crate::strip::{peer_column, tiles_of, ColumnView, DragView, Strip};
use crate::strip_laws::lemma_weight_set;

verus! {

/// The items but these two.
pub open spec fn others(items: Seq<u64>, first: u64, second: u64) -> Seq<u64>
    decreases items.len(),
{
    if items.len() == 0 {
        seq![]
    } else {
        let rest = others(items.drop_last(), first, second);
        if items.last() == first || items.last() == second {
            rest
        } else {
            rest.push(items.last())
        }
    }
}

/// The items of two lists together.
proof fn lemma_others_sum(left: Seq<u64>, right: Seq<u64>, first: u64, second: u64)
    ensures
        others(left + right, first, second) == others(left, first, second) + others(
            right,
            first,
            second,
        ),
    decreases right.len(),
{
    if right.len() == 0 {
        assert(left + right =~= left);
        assert(others(left, first, second) + others(right, first, second) =~= others(
            left,
            first,
            second,
        ));
    } else {
        lemma_others_sum(left, right.drop_last(), first, second);
        assert((left + right).drop_last() =~= left + right.drop_last());
        assert((left + right).last() == right.last());
        assert(others(left + right, first, second) =~= others(left, first, second) + others(
            right,
            first,
            second,
        ));
    }
}

/// One more of the two items makes no difference.
proof fn lemma_others_insert(items: Seq<u64>, at: int, item: u64, first: u64, second: u64)
    requires
        0 <= at <= items.len(),
        item == first || item == second,
    ensures
        others(items.insert(at, item), first, second) == others(items, first, second),
{
    let left = items.take(at);
    let right = items.skip(at);
    let one = seq![item];
    assert(items =~= left + right);
    assert(items.insert(at, item) =~= (left + one) + right);
    lemma_others_sum(left, right, first, second);
    lemma_others_sum(left + one, right, first, second);
    lemma_others_sum(left, one, first, second);
    lemma_others_one(item, first, second);
    assert(others(left, first, second) + seq![] =~= others(left, first, second));
}

/// A list of one of the two items alone holds no others.
proof fn lemma_others_one(item: u64, first: u64, second: u64)
    requires
        item == first || item == second,
    ensures
        others(seq![item], first, second) == Seq::<u64>::empty(),
{
    let one = seq![item];
    assert(one.last() == item);
    assert(one.drop_last() =~= seq![]);
    assert(others(one.drop_last(), first, second) =~= seq![]);
}

/// One less of the two items makes no difference.
proof fn lemma_others_remove(items: Seq<u64>, at: int, first: u64, second: u64)
    requires
        0 <= at < items.len(),
        items[at] == first || items[at] == second,
    ensures
        others(items.remove(at), first, second) == others(items, first, second),
{
    lemma_others_insert(items.remove(at), at, items[at], first, second);
    assert(items.remove(at).insert(at, items[at]) =~= items);
}

/// The tiles of columns but these two.
spec fn others_in(columns: Seq<ColumnView>, first: u64, second: u64) -> Seq<u64>
    decreases columns.len(),
{
    if columns.len() == 0 {
        seq![]
    } else {
        others_in(columns.drop_last(), first, second) + others(columns.last().tiles, first, second)
    }
}

/// The other tiles, taken from the list of them all.
proof fn lemma_others_all(columns: Seq<ColumnView>, first: u64, second: u64)
    ensures
        others(tiles_of(columns, columns.len() as int), first, second) == others_in(
            columns,
            first,
            second,
        ),
    decreases columns.len(),
{
    if columns.len() > 0 {
        let count = columns.len() as int;
        lemma_others_all(columns.drop_last(), first, second);
        lemma_tiles_of_first(columns, count - 1);
        lemma_others_sum(tiles_of(columns, count - 1), columns.last().tiles, first, second);
    }
}

/// A column of nothing else makes no difference.
proof fn lemma_others_in_insert(
    columns: Seq<ColumnView>,
    at: int,
    column: ColumnView,
    first: u64,
    second: u64,
)
    requires
        0 <= at <= columns.len(),
        others(column.tiles, first, second).len() == 0,
    ensures
        others_in(columns.insert(at, column), first, second) == others_in(columns, first, second),
    decreases columns.len(),
{
    let more = columns.insert(at, column);
    if at == columns.len() {
        assert(more.drop_last() =~= columns);
        assert(more.last() == column);
        assert(others_in(columns, first, second) + others(column.tiles, first, second)
            =~= others_in(columns, first, second));
    } else {
        lemma_others_in_insert(columns.drop_last(), at, column, first, second);
        assert(more.drop_last() =~= columns.drop_last().insert(at, column));
        assert(more.last() == columns.last());
    }
}

/// A column with the same other tiles makes no difference.
proof fn lemma_others_in_update(
    columns: Seq<ColumnView>,
    at: int,
    column: ColumnView,
    first: u64,
    second: u64,
)
    requires
        0 <= at < columns.len(),
        others(column.tiles, first, second) == others(columns[at].tiles, first, second),
    ensures
        others_in(columns.update(at, column), first, second) == others_in(columns, first, second),
    decreases columns.len(),
{
    let changed = columns.update(at, column);
    if at == columns.len() - 1 {
        assert(changed.drop_last() =~= columns.drop_last());
        assert(changed.last() == column);
    } else {
        lemma_others_in_update(columns.drop_last(), at, column, first, second);
        assert(changed.drop_last() =~= columns.drop_last().update(at, column));
        assert(changed.last() == columns.last());
    }
}

/// Taking one of the two tiles off leaves the order of the others.
proof fn lemma_others_without(strip: Strip, tile: u64, first: u64, second: u64)
    requires
        tile == first || tile == second,
    ensures
        others_in(strip.without(tile).columns, first, second) == others_in(
            strip.columns,
            first,
            second,
        ),
{
    if strip.contains(tile) {
        lemma_place(strip, tile);
        let (column, row) = strip.position(tile)->0;
        let tiles = strip.columns[column].tiles.remove(row);
        lemma_others_remove(strip.columns[column].tiles, row, first, second);
        if tiles.len() == 0 {
            assert(tiles =~= seq![]);
            let rest = strip.columns.remove(column);
            assert(others(tiles, first, second).len() == 0);
            lemma_others_in_insert(rest, column, strip.columns[column], first, second);
            assert(rest.insert(column, strip.columns[column]) =~= strip.columns);
        } else {
            lemma_others_in_update(
                strip.columns,
                column,
                ColumnView { tiles, width: strip.columns[column].width },
                first,
                second,
            );
        }
    }
}

/// A tile that is put into a column leaves the order of the others.
proof fn lemma_others_row(
    columns: Seq<ColumnView>,
    at: int,
    row: int,
    column: ColumnView,
    tile: u64,
    first: u64,
)
    requires
        0 <= at < columns.len(),
        0 <= row <= columns[at].tiles.len(),
        column.tiles == columns[at].tiles.insert(row, tile),
    ensures
        others_in(columns.update(at, column), first, tile) == others_in(columns, first, tile),
{
    lemma_others_insert(columns[at].tiles, row, tile, first, tile);
    lemma_others_in_update(columns, at, column, first, tile);
}

/// A tile that is put into a column of its own leaves the order of the others.
proof fn lemma_others_column(
    columns: Seq<ColumnView>,
    at: int,
    column: ColumnView,
    tile: u64,
    first: u64,
)
    requires
        0 <= at <= columns.len(),
        column.tiles == seq![tile],
    ensures
        others_in(columns.insert(at, column), first, tile) == others_in(columns, first, tile),
{
    lemma_others_one(tile, first, tile);
    lemma_others_in_insert(columns, at, column, first, tile);
}

/// A tile that is put back leaves the order of the others.
proof fn lemma_others_restored(strip: Strip, drag: DragView, tile: u64, first: u64)
    requires
        0 <= drag.source_column,
        0 <= drag.source_tile,
    ensures
        others_in(strip.restored(drag, tile).columns, first, tile) == others_in(
            strip.columns,
            first,
            tile,
        ),
{
    lemma_peer(strip.columns, drag.source_tiles, drag.source, 0);
    match peer_column(strip.columns, drag.source_tiles, drag.source, 0) {
        Some(column) => {
            let rows = strip.columns[column].tiles.len() as int;
            let row = if drag.source_tile < rows {
                drag.source_tile
            } else {
                rows
            };
            lemma_others_row(
                strip.columns,
                column,
                row,
                ColumnView {
                    tiles: strip.columns[column].tiles.insert(row, tile),
                    width: drag.source_width,
                },
                tile,
                first,
            );
        },
        None => {
            let count = strip.columns.len() as int;
            let index = if drag.source_column < count {
                drag.source_column
            } else {
                count
            };
            lemma_others_column(
                strip.columns,
                index,
                ColumnView { tiles: seq![tile], width: drag.source_width },
                tile,
                first,
            );
        },
    }
}

impl ColumnDropTarget {
    /// Whether a drop here makes a new column.
    pub open spec fn opens_column(self) -> bool {
        self is Before || self is After || self is First || self is Last
    }
}

impl DragView {
    /// The width of a new column for what was dragged: that of the column it came from if it was
    /// alone there, and the default one else.
    pub open spec fn column_width(self) -> ColumnWidth {
        if self.source_tiles.len() == 1 {
            self.source_width
        } else {
            ColumnWidth::spec_default()
        }
    }
}

impl Strip {
    /// Where the column of a drop is put.
    spec fn opening(self, drag: DragView, target: ColumnDropTarget) -> int {
        let fallback = if drag.source_column < self.columns.len() {
            drag.source_column
        } else {
            self.columns.len() as int
        };
        match target {
            ColumnDropTarget::Before(anchor) | ColumnDropTarget::After(anchor) => {
                match self.position(anchor) {
                    None => fallback,
                    Some((found, _)) => if target is Before {
                        found
                    } else {
                        found + 1
                    },
                }
            },
            ColumnDropTarget::First => 0,
            _ => self.columns.len() as int,
        }
    }
}

/// A tile that is dropped leaves the order of the others.
proof fn lemma_others_dropped(
    strip: Strip,
    drag: DragView,
    tile: u64,
    target: ColumnDropTarget,
    first: u64,
)
    requires
        0 <= drag.source_column,
        0 <= drag.source_tile,
    ensures
        others_in(strip.dropped(drag, tile, target).columns, first, tile) == others_in(
            strip.columns,
            first,
            tile,
        ),
        target.opens_column() ==> ({
            let at = strip.opening(drag, target);
            let column = ColumnView { tiles: seq![tile], width: drag.column_width() };
            &&& 0 <= at <= strip.columns.len()
            &&& strip.dropped(drag, tile, target).columns == strip.columns.insert(at, column)
        }),
{
    let column = ColumnView { tiles: seq![tile], width: drag.column_width() };
    lemma_others_restored(strip, drag, tile, first);
    match target {
        ColumnDropTarget::Above(anchor) | ColumnDropTarget::Below(anchor) => {
            if strip.contains(anchor) {
                lemma_place(strip, anchor);
                let (index, found) = strip.position(anchor)->0;
                let row = if target is Above {
                    found
                } else {
                    found + 1
                };
                lemma_others_row(
                    strip.columns,
                    index,
                    row,
                    ColumnView {
                        tiles: strip.columns[index].tiles.insert(row, tile),
                        width: strip.columns[index].width,
                    },
                    tile,
                    first,
                );
            }
        },
        ColumnDropTarget::Before(anchor) | ColumnDropTarget::After(anchor) => {
            if strip.contains(anchor) {
                lemma_place(strip, anchor);
            }
            lemma_others_column(strip.columns, strip.opening(drag, target), column, tile, first);
        },
        ColumnDropTarget::First | ColumnDropTarget::Last => {
            lemma_others_column(strip.columns, strip.opening(drag, target), column, tile, first);
        },
        _ => {},
    }
}

/// A drop leaves the order of all tiles but the dropped one. Where it makes a new column, the
/// dropped tile is alone there, and the column is as wide as the one that the tile came from if
/// it was alone in that when the drag began, and has the default width else.
pub proof fn law_drop_keeps_the_order_of_the_others(
    begun: Strip,
    strip: Strip,
    tile: u64,
    target: ColumnDropTarget,
    drag: DragView,
)
    requires
        strip.tidy(),
        begun.snapshot(drag.source) == Some(drag),
        strip.drag == Some(drag),
        !(target is Discard),
    ensures
        ({
            let after = strip.drag_finished(Some(tile), target);
            let (from, _) = begun.position(drag.source)->0;
            &&& others(after.tiles(), drag.source, tile) == others(
                strip.tiles(),
                drag.source,
                tile,
            )
            &&& target.opens_column() ==> (after.position(tile) matches Some((column, row)) && row
                == 0 && after.columns[column].tiles == seq![tile] && after.columns[column].width
                == if begun.columns[from].tiles.len() == 1 {
                begun.columns[from].width
            } else {
                ColumnWidth::spec_default()
            })
        }),
{
    lemma_place(begun, drag.source);
    let after = strip.drag_finished(Some(tile), target);
    let settled = Strip { drag: None, ..strip };
    let lifted = settled.without(drag.source);
    let rest = if tile != drag.source {
        lifted.without(tile)
    } else {
        lifted
    };
    let dropped = rest.dropped(drag, tile, target);
    law_drop_keeps_tiles(strip, tile, target, drag);
    assert(dropped.columns == after.columns) by {
        lemma_drop_shape(rest, drag, tile, target);
        lemma_reveal_shape(Strip { focused: Some(tile), ..dropped }, tile);
    }
    lemma_others_without(settled, drag.source, drag.source, tile);
    lemma_others_without(lifted, tile, drag.source, tile);
    lemma_others_dropped(rest, drag, tile, target, drag.source);
    lemma_others_all(strip.columns, drag.source, tile);
    lemma_others_all(after.columns, drag.source, tile);
    if target.opens_column() {
        let at = rest.opening(drag, target);
        let column = ColumnView { tiles: seq![tile], width: drag.column_width() };
        assert(after.columns[at] == column);
        lemma_tidy(after);
        lemma_found_in(after, at, 0, tile);
    }
}

/// Taking back a drag whose tile was gone from the strip in between leaves the strip as it was
/// when the drag began: the columns, the weights of all tiles, the focus and the viewport.
pub proof fn law_cancelled_drag_leaves_no_trace(strip: Strip, mapped: Seq<u64>, tile: u64)
    requires
        strip.tidy(),
        strip.drag is None,
        strip.contains(tile),
        strip.clamped() == strip,
        strip.focused matches Some(focused) ==> strip.contains(focused),
        forall|other: u64| #[trigger]
            mapped.contains(other) <==> strip.contains(other) && other != tile,
    ensures
        ({
            let begun = Strip { drag: strip.snapshot(tile), ..strip };
            let after = begun.reconciled(mapped).drag_cancelled();
            &&& after.columns == strip.columns
            &&& forall|other: u64| #[trigger]
                strip.contains(other) ==> after.weight_of(other) == strip.weight_of(other)
            &&& after.focused == strip.focused
            &&& after.viewport_x == strip.viewport_x
            &&& after.user_positioned_viewport == strip.user_positioned_viewport
            &&& after.drag is None
        }),
{
    let begun = Strip { drag: strip.snapshot(tile), ..strip };
    let during = begun.reconciled(mapped);
    let after = during.drag_cancelled();
    assert(begun.tiles() == strip.tiles());
    assert(begun.tidy());
    assert forall|other: u64| #[trigger]
        mapped.contains(other) <==> begun.contains(other) && other != tile by {
        assert(begun.contains(other) == strip.contains(other));
        assert(mapped.contains(other) <==> strip.contains(other) && other != tile);
    }
    law_reconciliation_takes_away_what_is_gone(begun, mapped, tile);
    assert(begun.without(tile).columns == strip.without(tile).columns);
    law_cancelled_drag_restores_the_strip(strip, during, tile);
    law_reconciled(begun, mapped);
    let drag = strip.snapshot(tile)->0;
    let quiet = Strip { drag: None, ..during };
    assert(during.contains(tile) <==> mapped.contains(tile));
    assert(!strip.contains(tile) || !mapped.contains(tile));
    assert(quiet.position(tile) == during.position(tile));
    assert(quiet.without(tile) == quiet);
    let back = quiet.restored(drag, tile);
    assert(after.weights == back.weights);
    assert forall|other: u64| #[trigger] strip.contains(other) implies after.weight_of(other)
        == strip.weight_of(other) by {
        if other != tile {
            assert(mapped.contains(other));
            assert(begun.contains(other) == strip.contains(other));
            law_reconciliation_keeps_weights(begun, mapped, other);
            assert(begun.weight_of(other) == strip.weight_of(other));
            lemma_weight_set(quiet, tile, drag.source_weight, other);
            assert(quiet.weight_of(other) == during.weight_of(other));
            assert(back.weight_of(other) == quiet.weight_of(other));
        }
    }
}

} // verus!
