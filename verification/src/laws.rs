//! What holds of the scrolling strip whatever is done to it.

use vstd::prelude::*;

use crate::columns::{lemma_find_from, lemma_weight_index_from};
use crate::rows::WEIGHT_ONE;
use crate::strip::{
    completed_weights, distinct, kept_columns, kept_tiles, kept_weights, single_column,
    single_columns, survivors, tiles_of, unit_weights, unknown, weight_index_from, ColumnView, Strip,
};
use crate::strip_laws::law_viewport_stays_on_the_strip;

verus! {

/// The items that are among `allowed`.
pub open spec fn within(items: Seq<u64>, allowed: Seq<u64>) -> Seq<u64>
    decreases items.len(),
{
    if items.len() == 0 {
        seq![]
    } else {
        let rest = within(items.drop_last(), allowed);
        if allowed.contains(items.last()) {
            rest.push(items.last())
        } else {
            rest
        }
    }
}

/// An item is in a list with one more item if it is in the list or is that item.
proof fn lemma_push_contains(items: Seq<u64>, last: u64, item: u64)
    ensures
        items.push(last).contains(item) <==> items.contains(item) || item == last,
{
    let more = items.push(last);
    if items.contains(item) {
        let i = items.index_of(item);
        assert(more[i] == item);
    }
    if item == last {
        assert(more[items.len() as int] == item);
    }
    if more.contains(item) && item != last {
        let i = more.index_of(item);
        assert(items[i] == item);
    }
}

/// An item is in two lists put together if it is in one of them.
pub proof fn lemma_sum_contains(first: Seq<u64>, second: Seq<u64>, item: u64)
    ensures
        (first + second).contains(item) <==> first.contains(item) || second.contains(item),
{
    let both = first + second;
    if first.contains(item) {
        let i = first.index_of(item);
        assert(both[i] == item);
    }
    if second.contains(item) {
        let i = second.index_of(item);
        assert(both[first.len() + i] == item);
    }
    if both.contains(item) {
        let i = both.index_of(item);
        if i < first.len() {
            assert(first[i] == item);
        } else {
            assert(second[i - first.len()] == item);
        }
    }
}

/// A list with one more item has no repetitions if the item is new.
proof fn lemma_push_distinct(items: Seq<u64>, last: u64)
    requires
        items.no_duplicates(),
        !items.contains(last),
    ensures
        items.push(last).no_duplicates(),
{
    let more = items.push(last);
    assert forall|i: int, j: int| 0 <= i < more.len() && 0 <= j < more.len() && i
        != j implies more[i] != more[j] by {
        if i < items.len() && j < items.len() {
            assert(items[i] != items[j]);
        } else if i < items.len() {
            assert(items.contains(items[i]));
        } else {
            assert(items.contains(items[j]));
        }
    }
}

/// The tiles of some columns and one more.
proof fn lemma_tiles_drop_last(columns: Seq<ColumnView>, count: int)
    requires
        0 <= count < columns.len(),
    ensures
        tiles_of(columns.drop_last(), count) == tiles_of(columns, count),
    decreases count,
{
    if count > 0 {
        lemma_tiles_drop_last(columns, count - 1);
    }
}

/// The tiles of two strips of columns put together.
proof fn lemma_tiles_sum(first: Seq<ColumnView>, second: Seq<ColumnView>)
    ensures
        tiles_of(first + second, (first + second).len() as int) == tiles_of(
            first,
            first.len() as int,
        ) + tiles_of(second, second.len() as int),
    decreases second.len(),
{
    let all = first + second;
    if second.len() == 0 {
        assert(all =~= first);
        assert(tiles_of(second, 0) =~= seq![]);
        assert(tiles_of(first, first.len() as int) + seq![] =~= tiles_of(
            first,
            first.len() as int,
        ));
    } else {
        lemma_tiles_sum(first, second.drop_last());
        assert(first + second.drop_last() =~= all.drop_last());
        lemma_tiles_drop_last(all, all.len() - 1);
        lemma_tiles_drop_last(second, second.len() - 1);
        assert(tiles_of(all, all.len() as int) =~= tiles_of(first, first.len() as int) + tiles_of(
            second,
            second.len() as int,
        ));
    }
}

/// Columns of their own hold one tile each.
proof fn lemma_single_tiles(tiles: Seq<u64>)
    ensures
        tiles_of(single_columns(tiles), tiles.len() as int) == tiles,
    decreases tiles.len(),
{
    let columns = single_columns(tiles);
    if tiles.len() > 0 {
        lemma_single_tiles(tiles.drop_last());
        assert(single_columns(tiles.drop_last()) =~= columns.drop_last());
        lemma_tiles_drop_last(columns, columns.len() - 1);
        assert(tiles_of(columns, tiles.len() as int) =~= tiles);
    } else {
        assert(tiles_of(columns, 0) =~= tiles);
    }
}

/// Where a tile of the strip stands in the list of all tiles.
proof fn lemma_tile_index(columns: Seq<ColumnView>, count: int, column: int, row: int)
    requires
        0 <= column < count <= columns.len(),
        0 <= row < columns[column].tiles.len(),
    ensures
        tiles_of(columns, column).len() + row < tiles_of(columns, count).len(),
        tiles_of(columns, count)[tiles_of(columns, column).len() + row]
            == columns[column].tiles[row],
    decreases count,
{
    if column < count - 1 {
        lemma_tile_index(columns, count - 1, column, row);
    }
}

/// A strip holds a tile if it is in the list of all tiles.
pub proof fn lemma_contains_tiles(strip: Strip, tile: u64)
    ensures
        strip.contains(tile) <==> strip.tiles().contains(tile),
{
    lemma_find_from(strip.columns, tile, 0);
    match strip.position(tile) {
        Some((column, row)) => {
            lemma_tile_index(strip.columns, strip.columns.len() as int, column, row);
        },
        None => {
            if strip.tiles().contains(tile) {
                lemma_tile_found(strip.columns, strip.columns.len() as int, tile);
            }
        },
    }
}

/// A tile in the list of all tiles stands in one of the columns.
proof fn lemma_tile_found(columns: Seq<ColumnView>, count: int, tile: u64)
    requires
        0 <= count <= columns.len(),
        tiles_of(columns, count).contains(tile),
    ensures
        exists|column: int, row: int|
            0 <= column < count && 0 <= row < columns[column].tiles.len()
                && #[trigger] columns[column].tiles[row] == tile,
    decreases count,
{
    if count > 0 {
        lemma_sum_contains(tiles_of(columns, count - 1), columns[count - 1].tiles, tile);
        if tiles_of(columns, count - 1).contains(tile) {
            lemma_tile_found(columns, count - 1, tile);
        } else {
            let row = columns[count - 1].tiles.index_of(tile);
            assert(columns[count - 1].tiles[row] == tile);
        }
    }
}

/// Where no tile occurs twice, a tile stands at one place only.
pub proof fn lemma_position_unique(strip: Strip, column: int, row: int)
    requires
        strip.tidy(),
        0 <= column < strip.columns.len(),
        0 <= row < strip.columns[column].tiles.len(),
    ensures
        strip.position(strip.columns[column].tiles[row]) == Some((column, row)),
{
    let tile = strip.columns[column].tiles[row];
    let count = strip.columns.len() as int;
    lemma_find_from(strip.columns, tile, 0);
    match strip.position(tile) {
        Some((found, place)) => {
            lemma_tile_index(strip.columns, count, column, row);
            lemma_tile_index(strip.columns, count, found, place);
            let all = strip.tiles();
            let first = tiles_of(strip.columns, column).len() + row;
            let second = tiles_of(strip.columns, found).len() + place;
            assert(all[first] == all[second]);
            assert(first == second);
            if found < column {
                lemma_tiles_before(strip.columns, found, column);
            }
        },
        None => {
            assert(strip.columns[column].tiles[row] != tile);
        },
    }
}

/// The tiles of a column stand before those of the columns right of it.
proof fn lemma_tiles_before(columns: Seq<ColumnView>, left: int, right: int)
    requires
        0 <= left < right <= columns.len(),
    ensures
        tiles_of(columns, left).len() + columns[left].tiles.len() <= tiles_of(columns, right).len(),
    decreases right,
{
    if left < right - 1 {
        lemma_tiles_before(columns, left, right - 1);
    }
}

/// The items without repetitions are the same items.
pub proof fn lemma_distinct(items: Seq<u64>)
    ensures
        distinct(items).no_duplicates(),
        forall|item: u64| #[trigger] distinct(items).contains(item) <==> items.contains(item),
    decreases items.len(),
{
    if items.len() > 0 {
        let rest = distinct(items.drop_last());
        lemma_distinct(items.drop_last());
        assert(items =~= items.drop_last().push(items.last()));
        assert forall|item: u64| #[trigger] distinct(items).contains(item) <==> items.contains(
            item,
        ) by {
            lemma_push_contains(items.drop_last(), items.last(), item);
            lemma_push_contains(rest, items.last(), item);
            assert(rest.contains(item) <==> items.drop_last().contains(item));
        }
        if !rest.contains(items.last()) {
            lemma_push_distinct(rest, items.last());
        }
    }
}

/// What stays of one column.
proof fn lemma_kept_tiles(tiles: Seq<u64>, wanted: Seq<u64>, seen: Seq<u64>)
    ensures
        kept_tiles(tiles, wanted, seen).no_duplicates(),
        forall|item: u64| #[trigger]
            kept_tiles(tiles, wanted, seen).contains(item) <==> tiles.contains(item)
                && wanted.contains(item) && !seen.contains(item),
    decreases tiles.len(),
{
    if tiles.len() > 0 {
        let rest = kept_tiles(tiles.drop_last(), wanted, seen);
        lemma_kept_tiles(tiles.drop_last(), wanted, seen);
        assert(tiles =~= tiles.drop_last().push(tiles.last()));
        assert forall|item: u64| #[trigger]
            kept_tiles(tiles, wanted, seen).contains(item) <==> tiles.contains(item)
                && wanted.contains(item) && !seen.contains(item) by {
            lemma_push_contains(tiles.drop_last(), tiles.last(), item);
            lemma_push_contains(rest, tiles.last(), item);
            assert(rest.contains(item) <==> tiles.drop_last().contains(item) && wanted.contains(
                item,
            ) && !seen.contains(item));
        }
        if wanted.contains(tiles.last()) && !seen.contains(tiles.last()) && !rest.contains(
            tiles.last(),
        ) {
            lemma_push_distinct(rest, tiles.last());
        }
    }
}

/// What stays of the strip, and in which columns.
proof fn lemma_survivors(columns: Seq<ColumnView>, wanted: Seq<u64>)
    ensures
        survivors(columns, wanted).no_duplicates(),
        forall|item: u64| #[trigger]
            survivors(columns, wanted).contains(item) <==> tiles_of(
                columns,
                columns.len() as int,
            ).contains(item) && wanted.contains(item),
        tiles_of(kept_columns(columns, wanted), kept_columns(columns, wanted).len() as int)
            == survivors(columns, wanted),
        forall|i: int|
            0 <= i < kept_columns(columns, wanted).len() ==> (#[trigger] kept_columns(
                columns,
                wanted,
            )[i]).tiles.len() > 0,
    decreases columns.len(),
{
    let count = columns.len() as int;
    if count == 0 {
        assert(tiles_of(kept_columns(columns, wanted), 0) =~= survivors(columns, wanted));
    } else {
        let before = columns.drop_last();
        let rest = survivors(before, wanted);
        let tiles = columns.last().tiles;
        let kept = kept_tiles(tiles, wanted, rest);
        lemma_survivors(before, wanted);
        lemma_kept_tiles(tiles, wanted, rest);
        lemma_tiles_drop_last(columns, count - 1);
        let all = survivors(columns, wanted);
        assert forall|item: u64| #[trigger]
            all.contains(item) <==> tiles_of(columns, count).contains(item) && wanted.contains(
                item,
            ) by {
            lemma_sum_contains(rest, kept, item);
            lemma_sum_contains(tiles_of(columns, count - 1), tiles, item);
            assert(rest.contains(item) <==> tiles_of(before, count - 1).contains(item)
                && wanted.contains(item));
            assert(kept.contains(item) <==> tiles.contains(item) && wanted.contains(item)
                && !rest.contains(item));
        }
        assert forall|i: int, j: int| 0 <= i < all.len() && 0 <= j < all.len() && i
            != j implies all[i] != all[j] by {
            if i < rest.len() && j < rest.len() {
                assert(rest[i] != rest[j]);
            } else if i >= rest.len() && j >= rest.len() {
                assert(kept[i - rest.len()] != kept[j - rest.len()]);
            } else if i < rest.len() {
                assert(rest.contains(rest[i]));
                assert(kept.contains(kept[j - rest.len()]));
            } else {
                assert(rest.contains(rest[j]));
                assert(kept.contains(kept[i - rest.len()]));
            }
        }
        let kept_before = kept_columns(before, wanted);
        if kept.len() == 0 {
            assert(all =~= rest);
        } else {
            let column = ColumnView { tiles: kept, width: columns.last().width };
            let after = kept_before.push(column);
            assert(after.drop_last() =~= kept_before);
            lemma_tiles_drop_last(after, kept_before.len() as int);
        }
    }
}

/// The unknown items are those that are not known, each as often as before.
proof fn lemma_unknown(items: Seq<u64>, known: Seq<u64>)
    requires
        items.no_duplicates(),
    ensures
        unknown(items, known).no_duplicates(),
        forall|item: u64| #[trigger]
            unknown(items, known).contains(item) <==> items.contains(item) && !known.contains(item),
    decreases items.len(),
{
    if items.len() > 0 {
        let rest = unknown(items.drop_last(), known);
        assert(items.drop_last().no_duplicates());
        lemma_unknown(items.drop_last(), known);
        assert(items =~= items.drop_last().push(items.last()));
        assert(!items.drop_last().contains(items.last()));
        assert forall|item: u64| #[trigger]
            unknown(items, known).contains(item) <==> items.contains(item) && !known.contains(
                item,
            ) by {
            lemma_push_contains(items.drop_last(), items.last(), item);
            lemma_push_contains(rest, items.last(), item);
            assert(rest.contains(item) <==> items.drop_last().contains(item) && !known.contains(
                item,
            ));
        }
        if !known.contains(items.last()) {
            lemma_push_distinct(rest, items.last());
        }
    }
}

/// Reconciliation leaves a strip of exactly the mapped tiles, each once and none in an empty
/// column: first the known ones in the order they had, then the others as they were mapped.
#[verifier::spinoff_prover]
pub proof fn law_reconciled(strip: Strip, mapped: Seq<u64>)
    ensures
        strip.reconciled(mapped).tidy(),
        strip.reconciled(mapped).tiles() == survivors(strip.columns, distinct(mapped)) + unknown(
            distinct(mapped),
            survivors(strip.columns, distinct(mapped)),
        ),
        forall|tile: u64| #[trigger]
            strip.reconciled(mapped).contains(tile) <==> mapped.contains(tile),
{
    let after = strip.reconciled(mapped);
    let wanted = distinct(mapped);
    let kept = survivors(strip.columns, wanted);
    let fresh = unknown(wanted, kept);
    let columns = kept_columns(strip.columns, wanted) + single_columns(fresh);
    lemma_distinct(mapped);
    lemma_survivors(strip.columns, wanted);
    lemma_unknown(wanted, kept);
    lemma_tiles_sum(kept_columns(strip.columns, wanted), single_columns(fresh));
    lemma_single_tiles(fresh);
    assert(after.columns == columns);
    let all = kept + fresh;
    assert(after.tiles() == all);
    assert forall|i: int, j: int| 0 <= i < all.len() && 0 <= j < all.len() && i != j implies all[i]
        != all[j] by {
        if i < kept.len() && j < kept.len() {
            assert(kept[i] != kept[j]);
        } else if i >= kept.len() && j >= kept.len() {
            assert(fresh[i - kept.len()] != fresh[j - kept.len()]);
        } else if i < kept.len() {
            assert(kept.contains(kept[i]));
            assert(fresh.contains(fresh[j - kept.len()]));
        } else {
            assert(kept.contains(kept[j]));
            assert(fresh.contains(fresh[i - kept.len()]));
        }
    }
    assert forall|i: int| 0 <= i < columns.len() implies (#[trigger] columns[i]).tiles.len() > 0 by {
        let known = kept_columns(strip.columns, wanted);
        if i < known.len() {
            assert(columns[i] == known[i]);
        } else {
            assert(columns[i] == single_column(fresh[i - known.len()]));
        }
    }
    assert forall|tile: u64| #[trigger] after.contains(tile) <==> mapped.contains(tile) by {
        lemma_contains_tiles(after, tile);
        lemma_sum_contains(kept, fresh, tile);
        assert(kept.contains(tile) <==> tiles_of(
            strip.columns,
            strip.columns.len() as int,
        ).contains(tile) && wanted.contains(tile));
        assert(fresh.contains(tile) <==> wanted.contains(tile) && !kept.contains(tile));
        assert(wanted.contains(tile) <==> mapped.contains(tile));
    }
}

/// What stays of a column in which, and left of which, no tile occurs twice.
proof fn lemma_kept_in_order(tiles: Seq<u64>, wanted: Seq<u64>, seen: Seq<u64>)
    requires
        tiles.no_duplicates(),
        forall|i: int| 0 <= i < tiles.len() ==> !seen.contains(#[trigger] tiles[i]),
    ensures
        kept_tiles(tiles, wanted, seen) == within(tiles, wanted),
    decreases tiles.len(),
{
    if tiles.len() > 0 {
        let before = tiles.drop_last();
        assert forall|i: int| 0 <= i < before.len() implies !seen.contains(#[trigger] before[i]) by {
            assert(before[i] == tiles[i]);
        }
        lemma_kept_in_order(before, wanted, seen);
        lemma_kept_tiles(before, wanted, seen);
        let last = tiles.last();
        assert(!seen.contains(tiles[tiles.len() - 1]));
        if kept_tiles(before, wanted, seen).contains(last) {
            assert(before.contains(last));
            let i = before.index_of(last);
            assert(tiles[i] == last);
        }
    }
}

/// The wanted items of two lists put together.
proof fn lemma_within_sum(first: Seq<u64>, second: Seq<u64>, allowed: Seq<u64>)
    ensures
        within(first + second, allowed) == within(first, allowed) + within(second, allowed),
    decreases second.len(),
{
    if second.len() == 0 {
        assert(first + second =~= first);
        assert(within(first, allowed) + within(second, allowed) =~= within(first, allowed));
    } else {
        lemma_within_sum(first, second.drop_last(), allowed);
        assert((first + second).drop_last() =~= first + second.drop_last());
        assert(within(first + second, allowed) =~= within(first, allowed) + within(
            second,
            allowed,
        ));
    }
}

/// On a strip where no tile occurs twice, reconciliation keeps the order of the tiles that
/// stay.
pub proof fn law_order_is_stable(strip: Strip, mapped: Seq<u64>)
    requires
        strip.tidy(),
    ensures
        survivors(strip.columns, distinct(mapped)) == within(strip.tiles(), mapped),
{
    lemma_distinct(mapped);
    lemma_survivors_in_order(strip.columns, distinct(mapped));
    lemma_within_same(strip.tiles(), distinct(mapped), mapped);
}

/// Lists with the same items allow the same items.
proof fn lemma_within_same(items: Seq<u64>, first: Seq<u64>, second: Seq<u64>)
    requires
        forall|item: u64| #[trigger] first.contains(item) <==> second.contains(item),
    ensures
        within(items, first) == within(items, second),
    decreases items.len(),
{
    if items.len() > 0 {
        lemma_within_same(items.drop_last(), first, second);
        assert(first.contains(items.last()) <==> second.contains(items.last()));
    }
}

/// What stays of the last of some columns in which no tile occurs twice.
proof fn lemma_last_kept(columns: Seq<ColumnView>, wanted: Seq<u64>)
    requires
        columns.len() > 0,
        tiles_of(columns, columns.len() as int).no_duplicates(),
    ensures
        tiles_of(columns.drop_last(), columns.len() - 1).no_duplicates(),
        tiles_of(columns.drop_last(), columns.len() - 1) == tiles_of(columns, columns.len() - 1),
        columns.last().tiles.no_duplicates(),
        forall|i: int|
            0 <= i < columns.last().tiles.len() ==> !tiles_of(
                columns,
                columns.len() - 1,
            ).contains(#[trigger] columns.last().tiles[i]),
        kept_tiles(columns.last().tiles, wanted, survivors(columns.drop_last(), wanted)) == within(
            columns.last().tiles,
            wanted,
        ),
{
    let count = columns.len() as int;
    let before = columns.drop_last();
    let tiles = columns.last().tiles;
    let all = tiles_of(columns, count);
    let left = tiles_of(columns, count - 1);
    lemma_tiles_drop_last(columns, count - 1);
    assert forall|i: int, j: int| 0 <= i < left.len() && 0 <= j < left.len() && i
        != j implies left[i] != left[j] by {
        assert(all[i] == left[i] && all[j] == left[j]);
    }
    assert forall|i: int, j: int| 0 <= i < tiles.len() && 0 <= j < tiles.len() && i
        != j implies tiles[i] != tiles[j] by {
        assert(all[left.len() + i] == tiles[i] && all[left.len() + j] == tiles[j]);
    }
    assert forall|i: int| 0 <= i < tiles.len() implies !left.contains(#[trigger] tiles[i]) by {
        if left.contains(tiles[i]) {
            let j = left.index_of(tiles[i]);
            assert(all[j] == left[j]);
            assert(all[left.len() + i] == tiles[i]);
        }
    }
    lemma_survivors(before, wanted);
    let seen = survivors(before, wanted);
    assert forall|i: int| 0 <= i < tiles.len() implies !seen.contains(#[trigger] tiles[i]) by {
        assert(!left.contains(tiles[i]));
        assert(seen.contains(tiles[i]) <==> left.contains(tiles[i]) && wanted.contains(tiles[i]));
    }
    lemma_kept_in_order(tiles, wanted, seen);
}

/// What stays of columns in which no tile occurs twice.
proof fn lemma_survivors_in_order(columns: Seq<ColumnView>, wanted: Seq<u64>)
    requires
        tiles_of(columns, columns.len() as int).no_duplicates(),
    ensures
        survivors(columns, wanted) == within(tiles_of(columns, columns.len() as int), wanted),
    decreases columns.len(),
{
    if columns.len() > 0 {
        lemma_last_kept(columns, wanted);
        lemma_survivors_in_order(columns.drop_last(), wanted);
        lemma_within_sum(
            tiles_of(columns, columns.len() - 1),
            columns.last().tiles,
            wanted,
        );
    }
}

/// Items that are all allowed.
proof fn lemma_within_all(items: Seq<u64>, allowed: Seq<u64>)
    requires
        forall|i: int| 0 <= i < items.len() ==> allowed.contains(#[trigger] items[i]),
    ensures
        within(items, allowed) == items,
    decreases items.len(),
{
    if items.len() > 0 {
        let before = items.drop_last();
        assert forall|i: int| 0 <= i < before.len() implies allowed.contains(
            #[trigger] before[i],
        ) by {
            assert(before[i] == items[i]);
        }
        lemma_within_all(before, allowed);
        assert(allowed.contains(items[items.len() - 1]));
        assert(before.push(items.last()) =~= items);
    }
}

/// Items that are all allowed but one.
proof fn lemma_within_but(items: Seq<u64>, allowed: Seq<u64>, at: int)
    requires
        0 <= at < items.len(),
        !allowed.contains(items[at]),
        forall|i: int| 0 <= i < items.len() && i != at ==> allowed.contains(#[trigger] items[i]),
    ensures
        within(items, allowed) == items.remove(at),
    decreases items.len(),
{
    let before = items.drop_last();
    if at == items.len() - 1 {
        assert forall|i: int| 0 <= i < before.len() implies allowed.contains(
            #[trigger] before[i],
        ) by {
            assert(before[i] == items[i]);
        }
        lemma_within_all(before, allowed);
        assert(items.remove(at) =~= before);
    } else {
        assert forall|i: int| 0 <= i < before.len() && i != at implies allowed.contains(
            #[trigger] before[i],
        ) by {
            assert(before[i] == items[i]);
        }
        lemma_within_but(before, allowed, at);
        assert(allowed.contains(items[items.len() - 1]));
        assert(items.remove(at) =~= before.remove(at).push(items.last()));
    }
}

/// Columns whose tiles all stay.
proof fn lemma_all_columns_kept(columns: Seq<ColumnView>, wanted: Seq<u64>)
    requires
        tiles_of(columns, columns.len() as int).no_duplicates(),
        forall|i: int| 0 <= i < columns.len() ==> (#[trigger] columns[i]).tiles.len() > 0,
        forall|tile: u64| #[trigger]
            tiles_of(columns, columns.len() as int).contains(tile) ==> wanted.contains(tile),
    ensures
        kept_columns(columns, wanted) == columns,
    decreases columns.len(),
{
    if columns.len() > 0 {
        let count = columns.len() as int;
        let before = columns.drop_last();
        let tiles = columns.last().tiles;
        lemma_last_kept(columns, wanted);
        assert forall|tile: u64| #[trigger]
            tiles_of(before, count - 1).contains(tile) implies wanted.contains(tile) by {
            lemma_sum_contains(tiles_of(columns, count - 1), tiles, tile);
        }
        assert forall|i: int| 0 <= i < before.len() implies (
        #[trigger] before[i]).tiles.len() > 0 by {
            assert(before[i] == columns[i]);
        }
        lemma_all_columns_kept(before, wanted);
        assert forall|i: int| 0 <= i < tiles.len() implies wanted.contains(#[trigger] tiles[i]) by {
            lemma_sum_contains(tiles_of(columns, count - 1), tiles, tiles[i]);
            assert(tiles.contains(tiles[i]));
        }
        lemma_within_all(tiles, wanted);
        assert(columns[count - 1].tiles.len() > 0);
        assert(before.push(columns.last()) =~= columns);
    }
}

/// Columns whose tiles all stay but one.
proof fn lemma_other_columns_kept(columns: Seq<ColumnView>, wanted: Seq<u64>, column: int, row: int)
    requires
        tiles_of(columns, columns.len() as int).no_duplicates(),
        forall|i: int| 0 <= i < columns.len() ==> (#[trigger] columns[i]).tiles.len() > 0,
        0 <= column < columns.len(),
        0 <= row < columns[column].tiles.len(),
        !wanted.contains(columns[column].tiles[row]),
        forall|tile: u64| #[trigger]
            tiles_of(columns, columns.len() as int).contains(tile) && tile
                != columns[column].tiles[row] ==> wanted.contains(tile),
    ensures
        kept_columns(columns, wanted) == columns_without(columns, column, row),
    decreases columns.len(),
{
    let count = columns.len() as int;
    let gone = columns[column].tiles[row];
    let before = columns.drop_last();
    let tiles = columns.last().tiles;
    lemma_last_kept(columns, wanted);
    assert forall|i: int| 0 <= i < before.len() implies (#[trigger] before[i]).tiles.len() > 0 by {
        assert(before[i] == columns[i]);
    }
    assert forall|tile: u64| #[trigger]
        tiles_of(before, count - 1).contains(tile) && tile != gone implies wanted.contains(
        tile,
    ) by {
        lemma_sum_contains(tiles_of(columns, count - 1), tiles, tile);
    }
    assert(columns[count - 1].tiles.len() > 0);
    if column == count - 1 {
        assert(columns.last() == columns[column]);
        assert forall|tile: u64| #[trigger]
            tiles_of(before, count - 1).contains(tile) implies wanted.contains(tile) by {
            assert(!tiles_of(columns, count - 1).contains(tiles[row]));
            lemma_sum_contains(tiles_of(columns, count - 1), tiles, tile);
        }
        lemma_all_columns_kept(before, wanted);
        assert forall|i: int| 0 <= i < tiles.len() && i != row implies wanted.contains(
            #[trigger] tiles[i],
        ) by {
            lemma_sum_contains(tiles_of(columns, count - 1), tiles, tiles[i]);
            assert(tiles.contains(tiles[i]));
            assert(tiles[i] != tiles[row]);
        }
        lemma_within_but(tiles, wanted, row);
        assert(kept_columns(columns, wanted) =~= columns_without(columns, column, row));
    } else {
        assert(before[column] == columns[column]);
        lemma_other_columns_kept(before, wanted, column, row);
        assert forall|i: int| 0 <= i < tiles.len() implies wanted.contains(#[trigger] tiles[i]) by {
            lemma_sum_contains(tiles_of(columns, count - 1), tiles, tiles[i]);
            assert(tiles.contains(tiles[i]));
            lemma_tile_index(columns, count - 1, column, row);
            let left = tiles_of(columns, count - 1);
            assert(left.contains(left[tiles_of(columns, column).len() + row]));
        }
        lemma_within_all(tiles, wanted);
        assert(columns_without(before, column, row).push(columns.last()) =~= columns_without(
            columns,
            column,
            row,
        ));
    }
}

/// Columns without the tile at a place, and without its column if that was all it held.
pub open spec fn columns_without(columns: Seq<ColumnView>, column: int, row: int) -> Seq<ColumnView> {
    let tiles = columns[column].tiles.remove(row);
    if tiles.len() == 0 {
        columns.remove(column)
    } else {
        columns.update(column, ColumnView { tiles, width: columns[column].width })
    }
}

/// Items that are all known.
proof fn lemma_none_unknown(items: Seq<u64>, known: Seq<u64>)
    requires
        forall|i: int| 0 <= i < items.len() ==> known.contains(#[trigger] items[i]),
    ensures
        unknown(items, known).len() == 0,
    decreases items.len(),
{
    if items.len() > 0 {
        let before = items.drop_last();
        assert forall|i: int| 0 <= i < before.len() implies known.contains(#[trigger] before[i]) by {
            assert(before[i] == items[i]);
        }
        lemma_none_unknown(before, known);
        assert(known.contains(items[items.len() - 1]));
    }
}

/// The weight that is recorded for `tile`.
pub open spec fn recorded_weight(weights: Seq<(u64, u128)>, tile: u64) -> Option<u128> {
    match weight_index_from(weights, tile, 0) {
        Some(index) => Some(weights[index].1),
        None => None,
    }
}

/// Whether a weight is recorded once at most for each tile.
spec fn weighed_once(weights: Seq<(u64, u128)>) -> bool {
    forall|i: int, j: int|
        0 <= i < j < weights.len() ==> (#[trigger] weights[i]).0 != (#[trigger] weights[j]).0
}

/// What is recorded after one more weight was noted at the end.
proof fn lemma_push_weight(weights: Seq<(u64, u128)>, last: (u64, u128), tile: u64)
    ensures
        recorded_weight(weights.push(last), tile) == match recorded_weight(weights, tile) {
            Some(weight) => Some(weight),
            None => if last.0 == tile {
                Some(last.1)
            } else {
                None
            },
        },
        weighed_once(weights) && recorded_weight(weights, last.0) is None ==> weighed_once(
            weights.push(last),
        ),
{
    let more = weights.push(last);
    lemma_weight_index_from(weights, tile, 0);
    lemma_weight_index_from(weights, last.0, 0);
    lemma_weight_index_from(more, tile, 0);
    assert(more[weights.len() as int] == last);
    assert forall|i: int| 0 <= i < weights.len() implies #[trigger] more[i] == weights[i] by {}
    match weight_index_from(weights, tile, 0) {
        Some(index) => {
            assert(more[index].0 == tile);
            let found = weight_index_from(more, tile, 0)->0;
            if found < index {
                assert(weights[found].0 == tile);
            }
            assert(found == index);
        },
        None => {
            match weight_index_from(more, tile, 0) {
                Some(found) => {
                    if found < weights.len() {
                        assert(weights[found].0 == tile);
                    }
                },
                None => {},
            }
        },
    }
}

/// The weights of tiles that stay are kept, and no others.
proof fn lemma_kept_weights(weights: Seq<(u64, u128)>, tiles: Seq<u64>)
    ensures
        weighed_once(kept_weights(weights, tiles)),
        forall|tile: u64| #[trigger]
            recorded_weight(kept_weights(weights, tiles), tile) == if tiles.contains(tile) {
                recorded_weight(weights, tile)
            } else {
                None
            },
    decreases weights.len(),
{
    if weights.len() > 0 {
        let before = weights.drop_last();
        let rest = kept_weights(before, tiles);
        let last = weights.last();
        lemma_kept_weights(before, tiles);
        assert(before.push(last) =~= weights);
        lemma_push_weight(rest, last, last.0);
        assert forall|tile: u64| #[trigger]
            recorded_weight(kept_weights(weights, tiles), tile) == if tiles.contains(tile) {
                recorded_weight(weights, tile)
            } else {
                None
            } by {
            lemma_push_weight(before, last, tile);
            lemma_push_weight(rest, last, tile);
            assert(recorded_weight(rest, tile) == if tiles.contains(tile) {
                recorded_weight(before, tile)
            } else {
                None
            });
            assert(recorded_weight(rest, last.0) == if tiles.contains(last.0) {
                recorded_weight(before, last.0)
            } else {
                None
            });
        }
    } else {
        assert forall|tile: u64| #[trigger]
            recorded_weight(kept_weights(weights, tiles), tile) is None && recorded_weight(
                weights,
                tile,
            ) is None by {}
    }
}

/// Tiles without a weight get one, and the others keep theirs.
proof fn lemma_completed_weights(weights: Seq<(u64, u128)>, tiles: Seq<u64>)
    ensures
        weighed_once(weights) ==> weighed_once(completed_weights(weights, tiles)),
        forall|tile: u64| #[trigger]
            recorded_weight(completed_weights(weights, tiles), tile) == match recorded_weight(
                weights,
                tile,
            ) {
                Some(weight) => Some(weight),
                None => if tiles.contains(tile) {
                    Some(WEIGHT_ONE)
                } else {
                    None
                },
            },
    decreases tiles.len(),
{
    if tiles.len() > 0 {
        let before = tiles.drop_last();
        let rest = completed_weights(weights, before);
        let last = tiles.last();
        lemma_completed_weights(weights, before);
        lemma_push_weight(rest, (last, WEIGHT_ONE), last);
        assert forall|tile: u64| #[trigger]
            recorded_weight(completed_weights(weights, tiles), tile) == match recorded_weight(
                weights,
                tile,
            ) {
                Some(weight) => Some(weight),
                None => if tiles.contains(tile) {
                    Some(WEIGHT_ONE)
                } else {
                    None
                },
            } by {
            lemma_push_weight(rest, (last, WEIGHT_ONE), tile);
            assert(before.push(last) =~= tiles);
            lemma_push_contains(before, last, tile);
            assert(recorded_weight(rest, tile) == match recorded_weight(weights, tile) {
                Some(weight) => Some(weight),
                None => if before.contains(tile) {
                    Some(WEIGHT_ONE)
                } else {
                    None
                },
            });
            assert(recorded_weight(rest, last) is None ==> recorded_weight(weights, last) is None);
        }
    }
}

/// New tiles get a weight of one, and the others keep theirs.
proof fn lemma_unit_weights(weights: Seq<(u64, u128)>, tiles: Seq<u64>)
    requires
        forall|i: int|
            0 <= i < tiles.len() ==> recorded_weight(weights, #[trigger] tiles[i]) is None,
        tiles.no_duplicates(),
    ensures
        weighed_once(weights) ==> weighed_once(weights + unit_weights(tiles)),
        forall|tile: u64| #[trigger]
            recorded_weight(weights + unit_weights(tiles), tile) == match recorded_weight(
                weights,
                tile,
            ) {
                Some(weight) => Some(weight),
                None => if tiles.contains(tile) {
                    Some(WEIGHT_ONE)
                } else {
                    None
                },
            },
    decreases tiles.len(),
{
    if tiles.len() > 0 {
        let before = tiles.drop_last();
        let last = tiles.last();
        let rest = weights + unit_weights(before);
        assert forall|i: int| 0 <= i < before.len() implies recorded_weight(
            weights,
            #[trigger] before[i],
        ) is None by {
            assert(before[i] == tiles[i]);
        }
        lemma_unit_weights(weights, before);
        assert(weights + unit_weights(tiles) =~= rest.push((last, WEIGHT_ONE)));
        assert(recorded_weight(weights, tiles[tiles.len() - 1]) is None);
        assert(!before.contains(last)) by {
            if before.contains(last) {
                let i = before.index_of(last);
                assert(tiles[i] == tiles[tiles.len() - 1]);
            }
        }
        assert(recorded_weight(rest, last) is None);
        lemma_push_weight(rest, (last, WEIGHT_ONE), last);
        assert forall|tile: u64| #[trigger]
            recorded_weight(weights + unit_weights(tiles), tile) == match recorded_weight(
                weights,
                tile,
            ) {
                Some(weight) => Some(weight),
                None => if tiles.contains(tile) {
                    Some(WEIGHT_ONE)
                } else {
                    None
                },
            } by {
            lemma_push_weight(rest, (last, WEIGHT_ONE), tile);
            assert(before.push(last) =~= tiles);
            lemma_push_contains(before, last, tile);
            assert(recorded_weight(rest, tile) == match recorded_weight(weights, tile) {
                Some(weight) => Some(weight),
                None => if before.contains(tile) {
                    Some(WEIGHT_ONE)
                } else {
                    None
                },
            });
        }
    } else {
        assert(weights + unit_weights(tiles) =~= weights);
    }
}

/// Weights of which each is of one of the tiles, and each tile has one, are left as they are.
proof fn lemma_weights_complete(weights: Seq<(u64, u128)>, tiles: Seq<u64>)
    requires
        weighed_once(weights),
        forall|i: int| 0 <= i < weights.len() ==> tiles.contains((#[trigger] weights[i]).0),
    ensures
        kept_weights(weights, tiles) == weights,
    decreases weights.len(),
{
    if weights.len() > 0 {
        let before = weights.drop_last();
        let last = weights.last();
        assert forall|i: int| 0 <= i < before.len() implies tiles.contains(
            (#[trigger] before[i]).0,
        ) by {
            assert(before[i] == weights[i]);
        }
        assert(weighed_once(before)) by {
            assert forall|i: int, j: int| 0 <= i < j < before.len() implies (
            #[trigger] before[i]).0 != (#[trigger] before[j]).0 by {
                assert(weights[i].0 != weights[j].0);
            }
        }
        lemma_weights_complete(before, tiles);
        lemma_weight_index_from(before, last.0, 0);
        match weight_index_from(before, last.0, 0) {
            Some(index) => {
                assert(weights[index].0 != weights[weights.len() - 1].0);
            },
            None => {},
        }
        assert(tiles.contains(weights[weights.len() - 1].0));
        assert(before.push(last) =~= weights);
    }
}

/// Tiles that all have a weight need no other.
proof fn lemma_nothing_to_complete(weights: Seq<(u64, u128)>, tiles: Seq<u64>)
    requires
        forall|i: int|
            0 <= i < tiles.len() ==> recorded_weight(weights, #[trigger] tiles[i]) is Some,
    ensures
        completed_weights(weights, tiles) == weights,
    decreases tiles.len(),
{
    if tiles.len() > 0 {
        let before = tiles.drop_last();
        assert forall|i: int| 0 <= i < before.len() implies recorded_weight(
            weights,
            #[trigger] before[i],
        ) is Some by {
            assert(before[i] == tiles[i]);
        }
        lemma_nothing_to_complete(weights, before);
        assert(recorded_weight(weights, tiles[tiles.len() - 1]) is Some);
    }
}

/// What reconciliation leaves of the weights: those of the tiles that stay, and one for each
/// other tile.
proof fn lemma_reconciled_weights(strip: Strip, mapped: Seq<u64>)
    ensures
        weighed_once(strip.reconciled(mapped).weights),
        forall|tile: u64| #[trigger]
            recorded_weight(strip.reconciled(mapped).weights, tile) == if mapped.contains(tile) {
                match recorded_weight(strip.weights, tile) {
                    Some(weight) if strip.tiles().contains(tile) => Some(weight),
                    _ => Some(WEIGHT_ONE),
                }
            } else {
                None
            },
{
    let after = strip.reconciled(mapped);
    let wanted = distinct(mapped);
    let kept = survivors(strip.columns, wanted);
    let fresh = unknown(wanted, kept);
    lemma_distinct(mapped);
    lemma_survivors(strip.columns, wanted);
    lemma_unknown(wanted, kept);
    law_reconciled(strip, mapped);
    let first = kept_weights(strip.weights, kept);
    let second = completed_weights(first, kept);
    lemma_kept_weights(strip.weights, kept);
    lemma_completed_weights(first, kept);
    assert forall|i: int| 0 <= i < fresh.len() implies recorded_weight(
        second,
        #[trigger] fresh[i],
    ) is None by {
        assert(fresh.contains(fresh[i]));
        assert(!kept.contains(fresh[i]));
        assert(recorded_weight(first, fresh[i]) is None);
    }
    lemma_unit_weights(second, fresh);
    assert forall|tile: u64| #[trigger]
        recorded_weight(after.weights, tile) == if mapped.contains(tile) {
            match recorded_weight(strip.weights, tile) {
                Some(weight) if strip.tiles().contains(tile) => Some(weight),
                _ => Some(WEIGHT_ONE),
            }
        } else {
            None
        } by {
        assert(wanted.contains(tile) <==> mapped.contains(tile));
        assert(kept.contains(tile) <==> strip.tiles().contains(tile) && wanted.contains(tile));
        assert(fresh.contains(tile) <==> wanted.contains(tile) && !kept.contains(tile));
        assert(recorded_weight(first, tile) == if kept.contains(tile) {
            recorded_weight(strip.weights, tile)
        } else {
            None
        });
        assert(recorded_weight(second, tile) == match recorded_weight(first, tile) {
            Some(weight) => Some(weight),
            None => if kept.contains(tile) {
                Some(WEIGHT_ONE)
            } else {
                None
            },
        });
        if after.columns.len() == 0 {
            assert(after.tiles() =~= seq![]);
            lemma_contains_tiles(after, tile);
            assert(after.contains(tile) <==> mapped.contains(tile));
        } else {
            assert(after.weights == second + unit_weights(fresh));
        }
    }
    if after.columns.len() == 0 {
        assert(after.weights =~= seq![]);
    } else {
        assert(after.weights == second + unit_weights(fresh));
    }
}

/// Reconciliation keeps the weight of every tile that stays, and gives a weight of one to every
/// other.
pub proof fn law_reconciliation_keeps_weights(strip: Strip, mapped: Seq<u64>, tile: u64)
    requires
        mapped.contains(tile),
    ensures
        strip.reconciled(mapped).weight_of(tile) == if strip.contains(tile) {
            strip.weight_of(tile)
        } else {
            WEIGHT_ONE
        },
{
    lemma_reconciled_weights(strip, mapped);
    lemma_contains_tiles(strip, tile);
    assert(recorded_weight(strip.reconciled(mapped).weights, tile) is Some);
}

/// Reconciliation once more with the same tiles changes nothing: not the columns, their tiles
/// and widths, not the weights, not the focus and not the viewport.
pub proof fn law_reconciling_again_changes_nothing(strip: Strip, mapped: Seq<u64>)
    requires
        strip.measurable(),
        strip.reconciled(mapped).measurable(),
    ensures
        strip.reconciled(mapped).reconciled(mapped) == strip.reconciled(mapped),
{
    let once = strip.reconciled(mapped);
    let twice = once.reconciled(mapped);
    let wanted = distinct(mapped);
    let kept = survivors(once.columns, wanted);
    law_reconciled(strip, mapped);
    law_reconciliation_keeps_known_columns(once, mapped);
    if once.columns.len() > 0 {
        lemma_distinct(mapped);
        lemma_survivors(once.columns, wanted);
        lemma_reconciled_weights(strip, mapped);
        assert forall|tile: u64| #[trigger] kept.contains(tile) <==> mapped.contains(tile) by {
            lemma_contains_tiles(once, tile);
            assert(once.contains(tile) <==> mapped.contains(tile));
            assert(wanted.contains(tile) <==> mapped.contains(tile));
        }
        assert forall|i: int| 0 <= i < once.weights.len() implies kept.contains(
            (#[trigger] once.weights[i]).0,
        ) by {
            let tile = once.weights[i].0;
            lemma_weight_index_from(once.weights, tile, 0);
            assert(recorded_weight(once.weights, tile) is Some);
        }
        lemma_weights_complete(once.weights, kept);
        assert forall|i: int| 0 <= i < kept.len() implies recorded_weight(
            once.weights,
            #[trigger] kept[i],
        ) is Some by {
            assert(kept.contains(kept[i]));
        }
        lemma_nothing_to_complete(once.weights, kept);
        assert forall|i: int| 0 <= i < wanted.len() implies kept.contains(#[trigger] wanted[i]) by {
            assert(wanted.contains(wanted[i]));
        }
        lemma_none_unknown(wanted, kept);
        let fresh = unknown(wanted, kept);
        assert(once.weights + unit_weights(fresh) =~= once.weights);
        let unclamped = Strip { viewport_x: strip.viewport_x, ..once };
        lemma_reconciled_focus(strip, mapped);
        assert(once == unclamped.clamped());
        law_viewport_stays_on_the_strip(unclamped);
        assert(twice == once.clamped());
    }
}

/// After reconciliation the focus is on a tile that is there, or nowhere.
pub proof fn lemma_reconciled_focus(strip: Strip, mapped: Seq<u64>)
    ensures
        strip.reconciled(mapped).focused matches Some(tile) ==> mapped.contains(tile),
        strip.reconciled(mapped).columns.len() > 0 ==> strip.reconciled(mapped).focused
            == match strip.focused {
            Some(tile) => if strip.contains(tile) && mapped.contains(tile) {
                Some(tile)
            } else {
                None
            },
            None => None,
        },
{
    let wanted = distinct(mapped);
    lemma_distinct(mapped);
    lemma_survivors(strip.columns, wanted);
    match strip.focused {
        Some(tile) => {
            lemma_contains_tiles(strip, tile);
            assert(wanted.contains(tile) <==> mapped.contains(tile));
            assert(survivors(strip.columns, wanted).contains(tile) <==> strip.tiles().contains(tile)
                && wanted.contains(tile));
        },
        None => {},
    }
}

/// Reconciliation with the tiles that are on the strip already, in whatever order, leaves the
/// columns as they are: their order, their tiles and their widths.
pub proof fn law_reconciliation_keeps_known_columns(strip: Strip, mapped: Seq<u64>)
    requires
        strip.tidy(),
        forall|tile: u64| #[trigger] mapped.contains(tile) <==> strip.contains(tile),
    ensures
        strip.reconciled(mapped).columns == strip.columns,
{
    let wanted = distinct(mapped);
    let kept = survivors(strip.columns, wanted);
    lemma_distinct(mapped);
    lemma_survivors(strip.columns, wanted);
    assert forall|tile: u64| #[trigger] strip.tiles().contains(tile) implies wanted.contains(
        tile,
    ) by {
        lemma_contains_tiles(strip, tile);
        assert(mapped.contains(tile) <==> strip.contains(tile));
        assert(wanted.contains(tile) <==> mapped.contains(tile));
    }
    lemma_all_columns_kept(strip.columns, wanted);
    assert forall|i: int| 0 <= i < wanted.len() implies kept.contains(#[trigger] wanted[i]) by {
        let tile = wanted[i];
        assert(wanted.contains(tile));
        lemma_contains_tiles(strip, tile);
        assert(mapped.contains(tile) <==> strip.contains(tile));
    }
    lemma_none_unknown(wanted, kept);
    let fresh = unknown(wanted, kept);
    assert(single_columns(fresh) =~= seq![]);
    assert(strip.columns + single_columns(fresh) =~= strip.columns);
}

/// Reconciliation with the tiles that are on the strip but one takes just that one away.
pub proof fn law_reconciliation_takes_away_what_is_gone(strip: Strip, mapped: Seq<u64>, gone: u64)
    requires
        strip.tidy(),
        strip.contains(gone),
        forall|tile: u64| #[trigger]
            mapped.contains(tile) <==> strip.contains(tile) && tile != gone,
    ensures
        strip.reconciled(mapped).columns == strip.without(gone).columns,
{
    let wanted = distinct(mapped);
    let kept = survivors(strip.columns, wanted);
    lemma_distinct(mapped);
    lemma_survivors(strip.columns, wanted);
    lemma_find_from(strip.columns, gone, 0);
    let (column, row) = strip.position(gone)->0;
    assert forall|tile: u64| #[trigger]
        strip.tiles().contains(tile) && tile != gone implies wanted.contains(tile) by {
        lemma_contains_tiles(strip, tile);
        assert(mapped.contains(tile) <==> strip.contains(tile) && tile != gone);
        assert(wanted.contains(tile) <==> mapped.contains(tile));
    }
    assert(!wanted.contains(gone)) by {
        assert(wanted.contains(gone) <==> mapped.contains(gone));
    }
    lemma_other_columns_kept(strip.columns, wanted, column, row);
    assert forall|i: int| 0 <= i < wanted.len() implies kept.contains(#[trigger] wanted[i]) by {
        let tile = wanted[i];
        assert(wanted.contains(tile));
        lemma_contains_tiles(strip, tile);
        assert(mapped.contains(tile) <==> strip.contains(tile) && tile != gone);
    }
    lemma_none_unknown(wanted, kept);
    let fresh = unknown(wanted, kept);
    assert(single_columns(fresh) =~= seq![]);
    assert(kept_columns(strip.columns, wanted) + single_columns(fresh) =~= kept_columns(
        strip.columns,
        wanted,
    ));
}

} // verus!
