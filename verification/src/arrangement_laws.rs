//! What holds of the tiles on the strip, whatever they are moved to: none gets lost, none occurs
//! twice, and no column is left empty.

use vstd::prelude::*;

use crate::columns::{lemma_find_from, ColumnDropTarget, ColumnWidth};
use crate::laws::{lemma_contains_tiles, lemma_position_unique};
use crate::rows::is_weight;
use crate::strip::{peer_column, single_column, tiles_of, ColumnView, DragView, Strip};
use crate::strip_laws::lemma_weight_set;

verus! {

/// How often a tile is in a list.
pub open spec fn times(items: Seq<u64>, tile: u64) -> nat {
    items.to_multiset().count(tile)
}

/// How often a tile is in columns.
pub open spec fn times_in(columns: Seq<ColumnView>, tile: u64) -> nat
    decreases columns.len(),
{
    if columns.len() == 0 {
        0
    } else {
        times_in(columns.drop_last(), tile) + times(columns.last().tiles, tile)
    }
}

/// Whether no column is empty.
pub open spec fn none_empty(columns: Seq<ColumnView>) -> bool {
    forall|i: int| 0 <= i < columns.len() ==> (#[trigger] columns[i]).tiles.len() > 0
}

/// The tiles of two lists together.
proof fn lemma_times_sum(first: Seq<u64>, second: Seq<u64>, tile: u64)
    ensures
        times(first + second, tile) == times(first, tile) + times(second, tile),
{
    broadcast use vstd::multiset::group_multiset_axioms;

    vstd::seq_lib::lemma_multiset_commutative(first, second);
}

/// The tiles of a list with one less or one more.
proof fn lemma_times(items: Seq<u64>, at: int, item: u64, tile: u64)
    ensures
        times(seq![], tile) == 0,
        times(seq![item], tile) == if tile == item {
            1nat
        } else {
            0
        },
        0 <= at < items.len() ==> times(items, tile) == times(items.remove(at), tile) + if tile
            == items[at] {
            1nat
        } else {
            0
        },
        0 <= at <= items.len() ==> times(items.insert(at, item), tile) == times(items, tile)
            + if tile == item {
            1nat
        } else {
            0
        },
        times(items, tile) > 0 <==> items.contains(tile),
{
    broadcast use vstd::multiset::group_multiset_axioms;
    broadcast use vstd::seq_lib::group_to_multiset_ensures;

    let none: Seq<u64> = seq![];
    assert(none.push(item) =~= seq![item]);
    assert(!none.contains(tile));
    assert(times(none, tile) == 0);
    vstd::seq_lib::to_multiset_build(none, item);
    if 0 <= at < items.len() {
        vstd::seq_lib::to_multiset_remove(items, at);
        assert(items.contains(items[at]));
        vstd::seq_lib::to_multiset_contains(items, items[at]);
    }
    if 0 <= at <= items.len() {
        vstd::seq_lib::to_multiset_insert(items, at, item);
    }
    vstd::seq_lib::to_multiset_contains(items, tile);
}

/// Columns with one more.
proof fn lemma_times_insert(columns: Seq<ColumnView>, at: int, column: ColumnView, tile: u64)
    requires
        0 <= at <= columns.len(),
    ensures
        times_in(columns.insert(at, column), tile) == times_in(columns, tile) + times(
            column.tiles,
            tile,
        ),
    decreases columns.len(),
{
    let more = columns.insert(at, column);
    if at == columns.len() {
        assert(more.drop_last() =~= columns);
        assert(more.last() == column);
    } else {
        lemma_times_insert(columns.drop_last(), at, column, tile);
        assert(more.drop_last() =~= columns.drop_last().insert(at, column));
        assert(more.last() == columns.last());
    }
}

/// Columns with one less.
proof fn lemma_times_remove(columns: Seq<ColumnView>, at: int, tile: u64)
    requires
        0 <= at < columns.len(),
    ensures
        times_in(columns, tile) == times_in(columns.remove(at), tile) + times(
            columns[at].tiles,
            tile,
        ),
    decreases columns.len(),
{
    let less = columns.remove(at);
    if at == columns.len() - 1 {
        assert(less =~= columns.drop_last());
    } else {
        lemma_times_remove(columns.drop_last(), at, tile);
        assert(less.drop_last() =~= columns.drop_last().remove(at));
        assert(less.last() == columns.last());
    }
}

/// Columns with another one in a place.
proof fn lemma_times_update(columns: Seq<ColumnView>, at: int, column: ColumnView, tile: u64)
    requires
        0 <= at < columns.len(),
    ensures
        times_in(columns.update(at, column), tile) + times(columns[at].tiles, tile) == times_in(
            columns,
            tile,
        ) + times(column.tiles, tile),
{
    lemma_times_remove(columns, at, tile);
    lemma_times_insert(columns.remove(at), at, column, tile);
    assert(columns.remove(at).insert(at, column) =~= columns.update(at, column));
}

/// The tiles of columns, counted in the list of them all.
proof fn lemma_times_all(columns: Seq<ColumnView>, tile: u64)
    ensures
        times_in(columns, tile) == times(tiles_of(columns, columns.len() as int), tile),
    decreases columns.len(),
{
    if columns.len() == 0 {
        lemma_times(seq![], 0, 0, tile);
    } else {
        let count = columns.len() as int;
        lemma_times_all(columns.drop_last(), tile);
        lemma_tiles_of_first(columns, count - 1);
        lemma_times_sum(tiles_of(columns, count - 1), columns.last().tiles, tile);
    }
}

/// The tiles of the first columns.
pub proof fn lemma_tiles_of_first(columns: Seq<ColumnView>, count: int)
    requires
        0 <= count < columns.len(),
    ensures
        tiles_of(columns.drop_last(), count) == tiles_of(columns, count),
    decreases count,
{
    if count > 0 {
        lemma_tiles_of_first(columns, count - 1);
    }
}

/// A strip is tidy if no column is empty and every tile is there at most once.
pub proof fn lemma_tidy(strip: Strip)
    ensures
        strip.tidy() <==> none_empty(strip.columns) && forall|tile: u64| #[trigger]
            times_in(strip.columns, tile) <= 1,
        forall|tile: u64| #[trigger] strip.contains(tile) <==> times_in(strip.columns, tile) > 0,
{
    let all = strip.tiles();
    assert forall|tile: u64| #[trigger] strip.contains(tile) <==> times_in(strip.columns, tile)
        > 0 by {
        lemma_contains_tiles(strip, tile);
        lemma_times_all(strip.columns, tile);
        lemma_times(all, 0, 0, tile);
    }
    if all.no_duplicates() {
        all.lemma_multiset_has_no_duplicates();
        assert forall|tile: u64| #[trigger] times_in(strip.columns, tile) <= 1 by {
            lemma_times_all(strip.columns, tile);
            if times(all, tile) > 1 {
                assert(all.to_multiset().contains(tile));
            }
        }
    }
    if forall|tile: u64| #[trigger] times_in(strip.columns, tile) <= 1 {
        assert forall|tile: u64| all.to_multiset().contains(tile) implies all.to_multiset().count(
            tile,
        ) == 1 by {
            lemma_times_all(strip.columns, tile);
            assert(times_in(strip.columns, tile) <= 1);
        }
        all.lemma_multiset_has_no_duplicates_conv();
    }
}

/// Strips on which every tile occurs as often have the same tiles.
proof fn lemma_same_tiles(strip: Strip, other: Strip)
    requires
        forall|tile: u64| #[trigger]
            times_in(other.columns, tile) == times_in(strip.columns, tile),
    ensures
        other.tiles().to_multiset() == strip.tiles().to_multiset(),
{
    let first = strip.tiles().to_multiset();
    let second = other.tiles().to_multiset();
    assert forall|tile: u64| #[trigger] first.count(tile) == second.count(tile) by {
        lemma_times_all(strip.columns, tile);
        lemma_times_all(other.columns, tile);
        assert(times_in(other.columns, tile) == times_in(strip.columns, tile));
    }
    assert(first =~= second);
}

/// The place of a tile that is on the strip.
pub proof fn lemma_place(strip: Strip, tile: u64)
    requires
        strip.contains(tile),
    ensures
        ({
            let (column, row) = strip.position(tile)->0;
            &&& 0 <= column < strip.columns.len()
            &&& 0 <= row < strip.columns[column].tiles.len()
            &&& strip.columns[column].tiles[row] == tile
        }),
{
    lemma_find_from(strip.columns, tile, 0);
}

/// Taking a tile off the strip takes it off once, and leaves no empty column.
proof fn lemma_without(strip: Strip, tile: u64, other: u64)
    requires
        none_empty(strip.columns),
    ensures
        none_empty(strip.without(tile).columns),
        strip.contains(tile) ==> times_in(strip.columns, other) == times_in(
            strip.without(tile).columns,
            other,
        ) + if other == tile {
            1nat
        } else {
            0
        },
        !strip.contains(tile) ==> strip.without(tile) == strip,
{
    if strip.contains(tile) {
        lemma_place(strip, tile);
        let (column, row) = strip.position(tile)->0;
        let tiles = strip.columns[column].tiles.remove(row);
        lemma_times(strip.columns[column].tiles, row, tile, other);
        let after = strip.without(tile).columns;
        if tiles.len() == 0 {
            assert(tiles =~= seq![]);
            lemma_times(seq![], 0, 0, other);
            lemma_times_remove(strip.columns, column, other);
            assert forall|i: int| 0 <= i < after.len() implies (#[trigger] after[i]).tiles.len()
                > 0 by {
                if i < column {
                    assert(after[i] == strip.columns[i]);
                } else {
                    assert(after[i] == strip.columns[i + 1]);
                }
            }
        } else {
            let rest = ColumnView { tiles, width: strip.columns[column].width };
            lemma_times_update(strip.columns, column, rest, other);
            assert forall|i: int| 0 <= i < after.len() implies (#[trigger] after[i]).tiles.len()
                > 0 by {
                if i != column {
                    assert(after[i] == strip.columns[i]);
                }
            }
        }
    }
}

/// A column of its own for a tile.
proof fn lemma_with_column(strip: Strip, at: int, column: ColumnView, tile: u64, other: u64)
    requires
        none_empty(strip.columns),
        0 <= at <= strip.columns.len(),
        column.tiles == seq![tile],
    ensures
        none_empty(strip.with_column(at, column).columns),
        times_in(strip.with_column(at, column).columns, other) == times_in(strip.columns, other)
            + if other == tile {
            1nat
        } else {
            0
        },
{
    lemma_times_insert(strip.columns, at, column, other);
    lemma_times(seq![], 0, tile, other);
    let after = strip.with_column(at, column).columns;
    assert forall|i: int| 0 <= i < after.len() implies (#[trigger] after[i]).tiles.len() > 0 by {
        if i < at {
            assert(after[i] == strip.columns[i]);
        } else if i > at {
            assert(after[i] == strip.columns[i - 1]);
        }
    }
}

/// One more tile in a column.
proof fn lemma_with_row(strip: Strip, at: int, row: int, column: ColumnView, tile: u64, other: u64)
    requires
        none_empty(strip.columns),
        0 <= at < strip.columns.len(),
        0 <= row <= strip.columns[at].tiles.len(),
        column.tiles == strip.columns[at].tiles.insert(row, tile),
    ensures
        none_empty(strip.columns.update(at, column)),
        times_in(strip.columns.update(at, column), other) == times_in(strip.columns, other)
            + if other == tile {
            1nat
        } else {
            0
        },
{
    lemma_times_update(strip.columns, at, column, other);
    lemma_times(strip.columns[at].tiles, row, tile, other);
    let after = strip.columns.update(at, column);
    assert forall|i: int| 0 <= i < after.len() implies (#[trigger] after[i]).tiles.len() > 0 by {
        if i != at {
            assert(after[i] == strip.columns[i]);
        }
    }
}

/// A column that a tile shared is one of the columns.
pub proof fn lemma_peer(columns: Seq<ColumnView>, peers: Seq<u64>, source: u64, start: int)
    ensures
        match peer_column(columns, peers, source, start) {
            Some(column) => 0 <= column < columns.len(),
            None => true,
        },
    decreases peers.len() - start,
{
    if 0 <= start < peers.len() {
        lemma_find_from(columns, peers[start], 0);
        lemma_peer(columns, peers, source, start + 1);
    }
}

/// Putting a tile back adds it once.
proof fn lemma_restored(strip: Strip, drag: DragView, tile: u64, other: u64)
    requires
        none_empty(strip.columns),
        0 <= drag.source_column,
        0 <= drag.source_tile,
    ensures
        none_empty(strip.restored(drag, tile).columns),
        times_in(strip.restored(drag, tile).columns, other) == times_in(strip.columns, other)
            + if other == tile {
            1nat
        } else {
            0
        },
{
    lemma_peer(strip.columns, drag.source_tiles, drag.source, 0);
    match peer_column(strip.columns, drag.source_tiles, drag.source, 0) {
        Some(column) => {
            let rows = strip.columns[column].tiles.len() as int;
            let row = if drag.source_tile < rows {
                drag.source_tile
            } else {
                rows
            };
            lemma_with_row(
                strip,
                column,
                row,
                ColumnView {
                    tiles: strip.columns[column].tiles.insert(row, tile),
                    width: drag.source_width,
                },
                tile,
                other,
            );
        },
        None => {
            let count = strip.columns.len() as int;
            let index = if drag.source_column < count {
                drag.source_column
            } else {
                count
            };
            lemma_with_column(
                strip,
                index,
                ColumnView { tiles: seq![tile], width: drag.source_width },
                tile,
                other,
            );
        },
    }
}

/// Dropping a tile adds it once.
proof fn lemma_dropped(strip: Strip, drag: DragView, tile: u64, target: ColumnDropTarget, other: u64)
    requires
        none_empty(strip.columns),
        0 <= drag.source_column,
        0 <= drag.source_tile,
    ensures
        none_empty(strip.dropped(drag, tile, target).columns),
        times_in(strip.dropped(drag, tile, target).columns, other) == times_in(
            strip.columns,
            other,
        ) + if other == tile {
            1nat
        } else {
            0
        },
{
    let fallback = if drag.source_column < strip.columns.len() {
        drag.source_column
    } else {
        strip.columns.len() as int
    };
    let column = ColumnView {
        tiles: seq![tile],
        width: if drag.source_tiles.len() == 1 {
            drag.source_width
        } else {
            ColumnWidth::spec_default()
        },
    };
    lemma_restored(strip, drag, tile, other);
    match target {
        ColumnDropTarget::Above(anchor) | ColumnDropTarget::Below(anchor) => {
            if strip.contains(anchor) {
                lemma_place(strip, anchor);
                let (index, found) = strip.position(anchor)->0;
                let row = if target is Above {
                    found
                } else {
                    found + 1
                };
                lemma_with_row(
                    strip,
                    index,
                    row,
                    ColumnView {
                        tiles: strip.columns[index].tiles.insert(row, tile),
                        width: strip.columns[index].width,
                    },
                    tile,
                    other,
                );
            }
        },
        ColumnDropTarget::Before(anchor) | ColumnDropTarget::After(anchor) => {
            if strip.contains(anchor) {
                lemma_place(strip, anchor);
                let (found, _) = strip.position(anchor)->0;
                lemma_with_column(
                    strip,
                    if target is Before {
                        found
                    } else {
                        found + 1
                    },
                    column,
                    tile,
                    other,
                );
            } else {
                lemma_with_column(strip, fallback, column, tile, other);
            }
        },
        ColumnDropTarget::First => {
            lemma_with_column(strip, 0, column, tile, other);
        },
        ColumnDropTarget::Last => {
            lemma_with_column(strip, strip.columns.len() as int, column, tile, other);
        },
        _ => {},
    }
}

/// Moving a tile sideways, out of its column or along with it, loses no tile, doubles none and
/// leaves no column empty.
pub proof fn law_sideways_move_keeps_tiles(strip: Strip, tile: u64, delta: int)
    requires
        strip.tidy(),
        strip.moved_sideways(tile, delta) is Some,
        delta != 0,
    ensures
        strip.moved_sideways(tile, delta)->0.tidy(),
        strip.moved_sideways(tile, delta)->0.tiles().to_multiset() == strip.tiles().to_multiset(),
        strip.moved_sideways(tile, delta)->0.focused == Some(tile),
{
    let after = strip.moved_sideways(tile, delta)->0;
    lemma_tidy(strip);
    lemma_tidy(after);
    lemma_place(strip, tile);
    let (column, row) = strip.position(tile)->0;
    let tiles = strip.columns[column].tiles;
    if tiles.len() > 1 {
        let rest = Strip {
            columns: strip.columns.update(
                column,
                ColumnView { tiles: tiles.remove(row), width: strip.columns[column].width },
            ),
            ..strip
        };
        let at = if delta < 0 {
            column
        } else {
            column + 1
        };
        assert(rest.columns == strip.without(tile).columns);
        assert forall|other: u64| #[trigger]
            times_in(after.columns, other) == times_in(strip.columns, other) by {
            lemma_without(strip, tile, other);
            lemma_with_column(rest, at, single_column(tile), tile, other);
        }
        lemma_without(strip, tile, tile);
        lemma_with_column(rest, at, single_column(tile), tile, tile);
    } else {
        let to = column + delta;
        let half = strip.columns.update(column, strip.columns[to]);
        assert forall|other: u64| #[trigger]
            times_in(after.columns, other) == times_in(strip.columns, other) by {
            lemma_times_update(strip.columns, column, strip.columns[to], other);
            lemma_times_update(half, to, strip.columns[column], other);
        }
        assert(none_empty(after.columns)) by {
            assert forall|i: int| 0 <= i < after.columns.len() implies (
            #[trigger] after.columns[i]).tiles.len() > 0 by {
                if i == to {
                    assert(after.columns[i] == strip.columns[column]);
                } else if i == column {
                    assert(after.columns[i] == strip.columns[to]);
                } else {
                    assert(after.columns[i] == strip.columns[i]);
                }
            }
        }
    }
    lemma_same_tiles(strip, after);
    assert forall|other: u64| #[trigger] times_in(after.columns, other) <= 1 by {
        assert(times_in(strip.columns, other) <= 1);
    }
}

/// Moving a tile up or down, within its column or into another one, loses no tile, doubles none
/// and leaves no column empty.
pub proof fn law_vertical_move_keeps_tiles(strip: Strip, tile: u64, delta: int)
    requires
        strip.tidy(),
        delta != 0,
    ensures
        strip.moved_vertically(tile, delta).1.tidy(),
        strip.moved_vertically(tile, delta).1.tiles().to_multiset()
            == strip.tiles().to_multiset(),
        !(strip.moved_vertically(tile, delta).0 is Moved) ==> strip.moved_vertically(tile, delta).1
            == strip,
{
    let (result, after) = strip.moved_vertically(tile, delta);
    lemma_tidy(strip);
    lemma_tidy(after);
    if result is Moved {
        lemma_place(strip, tile);
        let (column, row) = strip.position(tile)->0;
        let tiles = strip.columns[column].tiles;
        if tiles.len() > 1 {
            let to = row + delta;
            let turned = tiles.update(row, tiles[to]).update(to, tiles[row]);
            let changed = ColumnView { tiles: turned, width: strip.columns[column].width };
            assert forall|other: u64| #[trigger]
                times_in(after.columns, other) == times_in(strip.columns, other) by {
                lemma_times_update(strip.columns, column, changed, other);
                lemma_times_swap(tiles, row, to, other);
            }
            assert(none_empty(after.columns)) by {
                assert forall|i: int| 0 <= i < after.columns.len() implies (
                #[trigger] after.columns[i]).tiles.len() > 0 by {
                    if i != column {
                        assert(after.columns[i] == strip.columns[i]);
                    }
                }
            }
        } else {
            let rest = Strip { columns: strip.columns.remove(column), ..strip };
            let destination = if column > 0 {
                column - 1
            } else {
                0
            };
            let end = if delta < 0 {
                0
            } else {
                rest.columns[destination].tiles.len() as int
            };
            let joined = ColumnView {
                tiles: rest.columns[destination].tiles.insert(end, tile),
                width: rest.columns[destination].width,
            };
            assert(none_empty(rest.columns)) by {
                assert forall|i: int| 0 <= i < rest.columns.len() implies (
                #[trigger] rest.columns[i]).tiles.len() > 0 by {
                    if i < column {
                        assert(rest.columns[i] == strip.columns[i]);
                    } else {
                        assert(rest.columns[i] == strip.columns[i + 1]);
                    }
                }
            }
            assert(tiles =~= seq![tile]);
            assert forall|other: u64| #[trigger]
                times_in(after.columns, other) == times_in(strip.columns, other) by {
                lemma_times_remove(strip.columns, column, other);
                lemma_times(seq![], 0, tile, other);
                lemma_with_row(rest, destination, end, joined, tile, other);
            }
            lemma_with_row(rest, destination, end, joined, tile, tile);
        }
        assert forall|other: u64| #[trigger] times_in(after.columns, other) <= 1 by {
            assert(times_in(strip.columns, other) <= 1);
        }
    }
    lemma_same_tiles(strip, after);
}

/// A list in which two items changed places.
proof fn lemma_times_swap(items: Seq<u64>, first: int, second: int, tile: u64)
    requires
        0 <= first < items.len(),
        0 <= second < items.len(),
        first != second,
    ensures
        times(items.update(first, items[second]).update(second, items[first]), tile) == times(
            items,
            tile,
        ),
{
    let half = items.update(first, items[second]);
    lemma_times_one(items, first, items[second], tile);
    lemma_times_one(half, second, items[first], tile);
}

/// A list with another item in a place.
proof fn lemma_times_one(items: Seq<u64>, at: int, item: u64, tile: u64)
    requires
        0 <= at < items.len(),
    ensures
        times(items.update(at, item), tile) + (if tile == items[at] {
            1nat
        } else {
            0
        }) == times(items, tile) + if tile == item {
            1nat
        } else {
            0
        },
{
    lemma_times(items, at, item, tile);
    lemma_times(items.remove(at), at, item, tile);
    assert(items.remove(at).insert(at, item) =~= items.update(at, item));
}

/// A new window takes a column of its own, next to the right of the focused one or else at the
/// end; it is there once, and every other tile is where it was in relation to the others. That
/// holds of a window that is on the strip already as well, and doing it again changes no column.
pub proof fn law_new_toplevel_opens_right_of_the_focus(strip: Strip, tile: u64, focused: Option<u64>)
    requires
        strip.tidy(),
    ensures
        ({
            let rest = strip.without(tile);
            let after = strip.with_new_toplevel(tile, focused);
            let at = match focused {
                Some(anchor) => match rest.position(anchor) {
                    Some((column, _)) => column + 1,
                    None => rest.columns.len() as int,
                },
                None => rest.columns.len() as int,
            };
            &&& after.tidy()
            &&& after.columns == rest.columns.insert(at, single_column(tile))
            &&& after.position(tile) == Some((at, 0int))
            &&& after.tiles().to_multiset() == rest.tiles().to_multiset().insert(tile)
            &&& after.focused == strip.focused
            &&& (focused matches Some(anchor) ==> anchor != tile && strip.contains(anchor) ==> (
            after.position(anchor) matches Some((column, _)) && column == at - 1))
            &&& after.with_new_toplevel(tile, focused).columns == after.columns
        }),
{
    let rest = strip.without(tile);
    let after = strip.with_new_toplevel(tile, focused);
    let at = match focused {
        Some(anchor) => match rest.position(anchor) {
            Some((column, _)) => column + 1,
            None => rest.columns.len() as int,
        },
        None => rest.columns.len() as int,
    };
    lemma_tidy(strip);
    lemma_tidy(rest);
    lemma_tidy(after);
    lemma_without(strip, tile, tile);
    assert(times_in(strip.columns, tile) <= 1);
    assert(strip.contains(tile) <==> times_in(strip.columns, tile) > 0);
    match focused {
        Some(anchor) => {
            if rest.contains(anchor) {
                lemma_place(rest, anchor);
            }
        },
        None => {},
    }
    let grown = rest.with_column(at, single_column(tile));
    assert(after.columns == grown.columns);
    assert(times_in(rest.columns, tile) == 0);
    assert forall|other: u64| #[trigger] times_in(after.columns, other) <= 1 by {
        lemma_without(strip, tile, other);
        lemma_with_column(rest, at, single_column(tile), tile, other);
        assert(times_in(strip.columns, other) <= 1);
    }
    lemma_with_column(rest, at, single_column(tile), tile, tile);
    let first = rest.tiles().to_multiset().insert(tile);
    let second = after.tiles().to_multiset();
    assert forall|other: u64| #[trigger] first.count(other) == second.count(other) by {
        broadcast use vstd::multiset::group_multiset_axioms;

        lemma_with_column(rest, at, single_column(tile), tile, other);
        lemma_times_all(rest.columns, other);
        lemma_times_all(after.columns, other);
    }
    assert(first =~= second);
    assert(after.columns[at] == single_column(tile));
    lemma_found_in(after, at, 0, tile);
    let again = after.without(tile);
    assert(single_column(tile).tiles.remove(0).len() == 0);
    assert(again.columns =~= rest.columns);
    assert(again.with_column(at, single_column(tile)).columns == after.columns);
    match focused {
        Some(anchor) => {
            assert(again.position(anchor) == rest.position(anchor));
            if anchor != tile && strip.contains(anchor) {
                lemma_without(strip, tile, anchor);
                assert(times_in(rest.columns, anchor) == times_in(strip.columns, anchor));
                assert(strip.contains(anchor) <==> times_in(strip.columns, anchor) > 0);
                assert(rest.contains(anchor) <==> times_in(rest.columns, anchor) > 0);
                let (column, row) = rest.position(anchor)->0;
                assert(after.columns[column] == rest.columns[column]);
                lemma_found_in(after, column, row, anchor);
            }
        },
        None => {},
    }
}

/// Dropping a dragged tile puts it on the strip once, whatever it is called by then; no other tile
/// gets lost, none is doubled and no column is left empty.
pub proof fn law_drop_keeps_tiles(strip: Strip, tile: u64, target: ColumnDropTarget, drag: DragView)
    requires
        strip.tidy(),
        strip.drag == Some(drag),
        0 <= drag.source_column,
        0 <= drag.source_tile,
        !(target is Discard),
    ensures
        ({
            let after = strip.drag_finished(Some(tile), target);
            &&& after.tidy()
            &&& after.drag is None
            &&& after.focused == Some(tile)
            &&& forall|other: u64| #[trigger]
                after.contains(other) <==> other == tile || strip.contains(other) && other
                    != drag.source
        }),
{
    let after = strip.drag_finished(Some(tile), target);
    let settled = Strip { drag: None, ..strip };
    let lifted = settled.without(drag.source);
    let rest = if tile != drag.source {
        lifted.without(tile)
    } else {
        lifted
    };
    let dropped = rest.dropped(drag, tile, target);
    lemma_tidy(strip);
    lemma_tidy(settled);
    lemma_tidy(lifted);
    lemma_tidy(rest);
    lemma_tidy(after);
    assert(settled.columns == strip.columns);
    lemma_without(settled, drag.source, tile);
    lemma_without(lifted, tile, tile);
    lemma_dropped(rest, drag, tile, target, tile);
    assert(dropped.drag is None && dropped.columns == after.columns) by {
        lemma_drop_shape(rest, drag, tile, target);
        let last = Strip { focused: Some(tile), ..dropped };
        lemma_reveal_shape(last, tile);
    }
    assert forall|other: u64|
        times_in(after.columns, other) <= 1 && (#[trigger] times_in(after.columns, other) > 0
            <==> other == tile || strip.contains(other) && other != drag.source) by {
        lemma_without(settled, drag.source, other);
        lemma_without(lifted, tile, other);
        lemma_dropped(rest, drag, tile, target, other);
        assert(times_in(strip.columns, other) <= 1);
        assert(strip.contains(other) <==> times_in(strip.columns, other) > 0);
        assert(settled.contains(drag.source) <==> times_in(settled.columns, drag.source) > 0);
        assert(lifted.contains(tile) <==> times_in(lifted.columns, tile) > 0);
    }
    assert forall|other: u64| #[trigger]
        after.contains(other) <==> other == tile || strip.contains(other) && other
            != drag.source by {
        assert(times_in(after.columns, other) > 0 <==> other == tile || strip.contains(other)
            && other != drag.source);
    }
    assert(after.contains(tile));
    lemma_reveal_focus(Strip { focused: Some(tile), ..dropped }, tile);
}

/// Dropping changes columns and weights only.
pub proof fn lemma_drop_shape(strip: Strip, drag: DragView, tile: u64, target: ColumnDropTarget)
    ensures
        strip.dropped(drag, tile, target) == (Strip {
            columns: strip.dropped(drag, tile, target).columns,
            weights: strip.dropped(drag, tile, target).weights,
            ..strip
        }),
{
}

/// Bringing a tile into view changes no columns.
pub proof fn lemma_reveal_shape(strip: Strip, tile: u64)
    ensures
        strip.revealed(tile).columns == strip.columns,
        strip.revealed(tile).weights == strip.weights,
        strip.revealed(tile).drag == strip.drag,
{
}

/// A focused tile that is brought into view stays focused.
proof fn lemma_reveal_focus(strip: Strip, tile: u64)
    requires
        strip.focused == Some(tile),
    ensures
        strip.revealed(tile).focused == Some(tile),
{
}

/// A tile that stands in one column only is found there.
pub proof fn lemma_found_in(strip: Strip, column: int, row: int, tile: u64)
    requires
        0 <= column < strip.columns.len(),
        0 <= row < strip.columns[column].tiles.len(),
        strip.columns[column].tiles[row] == tile,
        none_empty(strip.columns),
        forall|other: u64| #[trigger] times_in(strip.columns, other) <= 1,
    ensures
        strip.position(tile) == Some((column, row)),
{
    lemma_tidy(strip);
    lemma_position_unique(strip, column, row);
}

/// The column that a dragged tile shared with others is found by one of them.
proof fn lemma_peer_found(strip: Strip, peers: Seq<u64>, source: u64, column: int, start: int)
    requires
        0 <= start <= peers.len(),
        forall|i: int|
            0 <= i < peers.len() && #[trigger] peers[i] != source ==> (strip.position(
                peers[i],
            ) matches Some((found, _)) && found == column),
        exists|i: int| start <= i < peers.len() && #[trigger] peers[i] != source,
    ensures
        peer_column(strip.columns, peers, source, start) == Some(column),
    decreases peers.len() - start,
{
    if peers[start] != source {
        assert(strip.position(peers[start]) is Some);
    } else {
        lemma_peer_found(strip, peers, source, column, start + 1);
    }
}

/// A dragged tile that shared its column with nothing finds no other tile.
proof fn lemma_no_peer(columns: Seq<ColumnView>, peers: Seq<u64>, source: u64, start: int)
    requires
        forall|i: int| 0 <= i < peers.len() ==> #[trigger] peers[i] == source,
    ensures
        peer_column(columns, peers, source, start) is None,
    decreases peers.len() - start,
{
    if 0 <= start < peers.len() {
        assert(peers[start] == source);
        lemma_no_peer(columns, peers, source, start + 1);
    }
}

/// A tile that was taken off the strip is put back where it was.
proof fn lemma_put_back(strip: Strip, rest: Strip, tile: u64, drag: DragView)
    requires
        strip.tidy(),
        strip.snapshot(tile) == Some(drag),
        rest.columns == strip.without(tile).columns,
    ensures
        rest.restored(drag, tile).columns == strip.columns,
{
    lemma_tidy(strip);
    lemma_place(strip, tile);
    let (column, row) = strip.position(tile)->0;
    let tiles = strip.columns[column].tiles;
    let left = tiles.remove(row);
    let after = rest.restored(drag, tile).columns;
    assert forall|other: u64| #[trigger] times_in(rest.columns, other) <= 1 by {
        lemma_without(strip, tile, other);
        assert(times_in(strip.columns, other) <= 1);
    }
    lemma_without(strip, tile, tile);
    if left.len() == 0 {
        assert(tiles =~= seq![tile]);
        lemma_no_peer(rest.columns, tiles, tile, 0);
        assert(after =~= strip.columns);
    } else {
        assert forall|i: int| 0 <= i < tiles.len() && #[trigger] tiles[i] != tile implies (
        rest.position(tiles[i]) matches Some((found, _)) && found == column) by {
            let at = if i < row {
                i
            } else {
                i - 1
            };
            assert(rest.columns[column].tiles[at] == tiles[i]);
            lemma_found_in(rest, column, at, tiles[i]);
        }
        let other = if row == 0 {
            1
        } else {
            0int
        };
        assert(tiles[other] != tile) by {
            if tiles[other] == tile {
                lemma_position_unique(strip, column, other);
            }
        }
        lemma_peer_found(rest, tiles, tile, column, 0);
        assert(left.insert(row, tile) =~= tiles);
        assert(after =~= strip.columns);
    }
}

/// Taking back a drag restores what it began with: the columns with their tiles and widths, the
/// focus, the weight of the tile and the place of the viewport, whether or not the tile has been
/// taken off the strip in between.
pub proof fn law_cancelled_drag_restores_the_strip(strip: Strip, during: Strip, tile: u64)
    requires
        strip.tidy(),
        strip.contains(tile),
        during.drag == strip.snapshot(tile),
        during.columns == strip.columns || during.columns == strip.without(tile).columns,
        during.viewport_width == strip.viewport_width,
        during.gap == strip.gap,
    ensures
        ({
            let after = during.drag_cancelled();
            &&& after.columns == strip.columns
            &&& after.drag is None
            &&& after.focused == match strip.focused {
                Some(focused) => if strip.contains(focused) {
                    Some(focused)
                } else {
                    None
                },
                None => None,
            }
            &&& after.viewport_x == strip.clamped().viewport_x
            &&& after.user_positioned_viewport == strip.user_positioned_viewport
            &&& after.weight_of(tile) == strip.weight_of(tile)
        }),
{
    let drag = strip.snapshot(tile)->0;
    let quiet = Strip { drag: None, ..during };
    let rest = quiet.without(tile);
    lemma_tidy(strip);
    lemma_tidy(quiet);
    lemma_without(strip, tile, tile);
    if during.columns != strip.columns {
        assert(times_in(quiet.columns, tile) == 0);
        assert(!quiet.contains(tile));
        assert(rest == quiet);
    } else {
        assert(quiet.position(tile) == strip.position(tile));
    }
    assert(rest.columns == strip.without(tile).columns);
    lemma_put_back(strip, rest, tile, drag);
    let back = rest.restored(drag, tile);
    let after = during.drag_cancelled();
    assert(back.columns == strip.columns);
    assert(after.columns == strip.columns);
    lemma_restored_weight(rest, drag, tile);
    assert(after.weights == back.weights);
    match strip.focused {
        Some(focused) => {
            assert(back.position(focused) == strip.position(focused));
        },
        None => {},
    }
    let placed = Strip {
        focused: after.focused,
        viewport_x: drag.viewport_x,
        user_positioned_viewport: drag.user_positioned_viewport,
        ..back
    };
    lemma_same_clamp(placed, strip);
}

/// The weight of a tile that is put back.
proof fn lemma_restored_weight(strip: Strip, drag: DragView, tile: u64)
    requires
        is_weight(drag.source_weight),
    ensures
        strip.restored(drag, tile).weight_of(tile) == drag.source_weight,
{
    lemma_weight_set(strip, tile, drag.source_weight, tile);
}

/// Where a viewport is brought back to depends on the columns and its own place alone.
proof fn lemma_same_clamp(first: Strip, second: Strip)
    requires
        first.columns == second.columns,
        first.viewport_x == second.viewport_x,
        first.user_positioned_viewport == second.user_positioned_viewport,
        first.viewport_width == second.viewport_width,
        first.gap == second.gap,
    ensures
        first.clamped().viewport_x == second.clamped().viewport_x,
{
}

/// A tile that is stacked with another window leaves the strip, and nothing else does.
pub proof fn law_stacked_tile_leaves_the_strip(strip: Strip, tile: Option<u64>, drag: DragView)
    requires
        strip.tidy(),
        strip.drag == Some(drag),
    ensures
        ({
            let after = strip.drag_finished(tile, ColumnDropTarget::Discard);
            &&& after.tidy()
            &&& after.drag is None
            &&& forall|other: u64| #[trigger]
                after.contains(other) <==> strip.contains(other) && other != drag.source
        }),
{
    let after = strip.drag_finished(tile, ColumnDropTarget::Discard);
    let settled = Strip { drag: None, ..strip };
    let rest = settled.without(drag.source);
    lemma_tidy(strip);
    lemma_tidy(settled);
    lemma_tidy(after);
    lemma_without(settled, drag.source, drag.source);
    assert(after.columns == rest.columns);
    assert forall|other: u64|
        times_in(after.columns, other) <= 1 && (#[trigger] times_in(after.columns, other) > 0
            <==> strip.contains(other) && other != drag.source) by {
        lemma_without(settled, drag.source, other);
        assert(times_in(strip.columns, other) <= 1);
        assert(strip.contains(other) <==> times_in(strip.columns, other) > 0);
        assert(settled.contains(drag.source) <==> times_in(settled.columns, drag.source) > 0);
    }
    assert forall|other: u64| #[trigger]
        after.contains(other) <==> strip.contains(other) && other != drag.source by {
        assert(times_in(after.columns, other) > 0 <==> strip.contains(other) && other
            != drag.source);
    }
}

} // verus!
