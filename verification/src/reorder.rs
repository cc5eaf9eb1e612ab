//! Changes to the order of the strip: reconciliation with the mapped tiles, moves, and drags.

use vstd::prelude::*;

use crate::actions::ResizeDirection;
use crate::columns::{
    column_views, contains_item, copy_items, lemma_find_from, Column, ColumnDropTarget, ColumnModel,
    ColumnResizeAnchor, ColumnWidth, PendingDrag, TileMove, MIN_TILE_HEIGHT, VIEWPORT_LIMIT,
};
use crate::geometry::add_saturating;
use crate::rows::{lemma_height_inside, weighted_vertical_tile_rows, WEIGHT_ONE};
use crate::strip::{
    completed_weights, distinct, kept_columns, kept_tiles, kept_weights, peer_column, single_column,
    single_columns, survivors, unit_weights, unknown, valid_widths, weight_index_from,
    without_weight, ColumnView, Strip,
};
use crate::units::SUBPIXEL;

verus! {

/// The index of the weight recorded for a tile.
fn weight_entry(weights: &Vec<(u64, u128)>, tile: u64) -> (found: bool)
    ensures
        found == (weight_index_from(weights@, tile, 0) is Some),
{
    let mut i: usize = 0;
    while i < weights.len()
        invariant
            i <= weights@.len(),
            weight_index_from(weights@, tile, 0) == weight_index_from(weights@, tile, i as int),
        decreases weights@.len() - i,
    {
        if weights[i].0 == tile {
            return true;
        }
        i += 1;
    }
    false
}

/// `items` without repetitions.
fn distinct_items(items: &[u64]) -> (result: Vec<u64>)
    ensures
        result@ == distinct(items@),
{
    let mut result: Vec<u64> = Vec::new();
    let mut i: usize = 0;
    while i < items.len()
        invariant
            i <= items@.len(),
            result@ == distinct(items@.take(i as int)),
        decreases items@.len() - i,
    {
        assert(items@.take(i as int + 1).drop_last() =~= items@.take(i as int));
        if !contains_item(&result, items[i]) {
            result.push(items[i]);
        }
        i += 1;
    }
    assert(items@.take(items@.len() as int) =~= items@);
    result
}

/// The items that are not in `known`.
fn unknown_items(items: &Vec<u64>, known: &Vec<u64>) -> (result: Vec<u64>)
    ensures
        result@ == unknown(items@, known@),
{
    let mut result: Vec<u64> = Vec::new();
    let mut i: usize = 0;
    while i < items.len()
        invariant
            i <= items@.len(),
            result@ == unknown(items@.take(i as int), known@),
        decreases items@.len() - i,
    {
        assert(items@.take(i as int + 1).drop_last() =~= items@.take(i as int));
        if !contains_item(known, items[i]) {
            result.push(items[i]);
        }
        i += 1;
    }
    assert(items@.take(items@.len() as int) =~= items@);
    result
}

/// The columns with only the wanted tiles, each once, and all those tiles in strip order.
fn surviving_columns(columns: &Vec<Column>, wanted: &Vec<u64>) -> (result: (Vec<Column>, Vec<u64>))
    ensures
        column_views(result.0@) == kept_columns(column_views(columns@), wanted@),
        result.1@ == survivors(column_views(columns@), wanted@),
{
    let ghost views = column_views(columns@);
    let mut kept: Vec<Column> = Vec::new();
    let mut tiles_kept: Vec<u64> = Vec::new();
    let mut i: usize = 0;
    while i < columns.len()
        invariant
            i <= columns@.len(),
            views == column_views(columns@),
            column_views(kept@) =~~= kept_columns(views.take(i as int), wanted@),
            tiles_kept@ == survivors(views.take(i as int), wanted@),
        decreases columns@.len() - i,
    {
        let ghost seen = tiles_kept@;
        let column: &Column = &columns[i];
        let ghost all = column.tiles@;
        let mut tiles: Vec<u64> = Vec::new();
        let mut j: usize = 0;
        while j < column.tiles.len()
            invariant
                j <= column.tiles@.len(),
                all == column.tiles@,
                tiles@ == kept_tiles(all.take(j as int), wanted@, seen),
                tiles_kept@ == seen + tiles@,
            decreases column.tiles@.len() - j,
        {
            let tile: u64 = column.tiles[j];
            proof {
                assert(all.take(j as int + 1).drop_last() =~= all.take(j as int));
                lemma_contains_sum(seen, tiles@, tile);
            }
            if contains_item(wanted, tile) && !contains_item(&tiles_kept, tile) {
                tiles.push(tile);
                tiles_kept.push(tile);
                assert(tiles_kept@ =~= seen + tiles@);
            }
            j += 1;
        }
        proof {
            assert(all.take(all.len() as int) =~= all);
            assert(views.take(i as int + 1).drop_last() =~= views.take(i as int));
            assert(views.take(i as int + 1).last() == column@);
        }
        if tiles.len() > 0 {
            kept.push(Column { tiles, width: column.width });
        }
        i += 1;
    }
    assert(views.take(views.len() as int) =~= views);
    (kept, tiles_kept)
}

/// A sum of two sequences holds what either holds.
proof fn lemma_contains_sum(a: Seq<u64>, b: Seq<u64>, item: u64)
    ensures
        (a + b).contains(item) == (a.contains(item) || b.contains(item)),
{
    if a.contains(item) {
        let i = a.index_of(item);
        assert((a + b)[i] == item);
    }
    if b.contains(item) {
        let i = b.index_of(item);
        assert((a + b)[a.len() + i] == item);
    }
    if (a + b).contains(item) {
        let i = (a + b).index_of(item);
        if i < a.len() {
            assert(a[i] == item);
        } else {
            assert(b[i - a.len()] == item);
        }
    }
}

/// The recorded weights of `tiles`, one for each of them that had any.
fn surviving_weights(weights: &Vec<(u64, u128)>, tiles: &Vec<u64>) -> (result: Vec<(u64, u128)>)
    ensures
        result@ == kept_weights(weights@, tiles@),
{
    let mut result: Vec<(u64, u128)> = Vec::new();
    let mut i: usize = 0;
    while i < weights.len()
        invariant
            i <= weights@.len(),
            result@ == kept_weights(weights@.take(i as int), tiles@),
        decreases weights@.len() - i,
    {
        assert(weights@.take(i as int + 1).drop_last() =~= weights@.take(i as int));
        let (tile, weight) = weights[i];
        if contains_item(tiles, tile) && !weight_entry(&result, tile) {
            result.push((tile, weight));
        }
        i += 1;
    }
    assert(weights@.take(weights@.len() as int) =~= weights@);
    result
}

/// Records a weight of one for each of `tiles` that has none.
fn complete_weights(weights: &mut Vec<(u64, u128)>, tiles: &Vec<u64>)
    ensures
        final(weights)@ == completed_weights(old(weights)@, tiles@),
{
    let ghost before = weights@;
    let mut i: usize = 0;
    while i < tiles.len()
        invariant
            i <= tiles@.len(),
            weights@ == completed_weights(before, tiles@.take(i as int)),
        decreases tiles@.len() - i,
    {
        assert(tiles@.take(i as int + 1).drop_last() =~= tiles@.take(i as int));
        if !weight_entry(weights, tiles[i]) {
            weights.push((tiles[i], WEIGHT_ONE));
        }
        i += 1;
    }
    assert(tiles@.take(tiles@.len() as int) =~= tiles@);
}

/// Surviving columns keep valid widths.
proof fn lemma_kept_columns_valid(columns: Seq<ColumnView>, wanted: Seq<u64>)
    requires
        valid_widths(columns),
    ensures
        valid_widths(kept_columns(columns, wanted)),
        kept_columns(columns, wanted).len() <= columns.len(),
    decreases columns.len(),
{
    if columns.len() > 0 {
        assert(columns.last() == columns[columns.len() - 1]);
        assert(forall|i: int|
            0 <= i < columns.drop_last().len() ==> (#[trigger] columns.drop_last()[i])
                == columns[i]);
        lemma_kept_columns_valid(columns.drop_last(), wanted);
    }
}

impl ColumnModel {
    /// Makes the strip hold exactly the tiles `mapped`. Known tiles keep their columns and
    /// their order; the others follow at the end in columns of their own.
    pub fn reconcile(&mut self, mapped: &[u64])
        requires
            old(self)@.wf(),
        ensures
            final(self)@ == old(self)@.reconciled(mapped@),
            final(self)@.wf(),
    {
        let ghost before = self@;
        let wanted: Vec<u64> = distinct_items(mapped);
        let (columns, kept) = surviving_columns(&self.columns, &wanted);
        proof {
            lemma_kept_columns_valid(before.columns, wanted@);
        }
        let mut weights: Vec<(u64, u128)> = surviving_weights(&self.tile_weights, &kept);
        complete_weights(&mut weights, &kept);
        let fresh: Vec<u64> = unknown_items(&wanted, &kept);
        let ghost first_columns = column_views(columns@);
        let ghost first_weights = weights@;
        self.columns = columns;
        self.tile_weights = weights;
        let keep_focus: bool = match self.focused {
            Some(focused) => contains_item(&kept, focused),
            None => true,
        };
        if !keep_focus {
            self.focused = None;
        }
        let ghost focused = self.focused;
        let mut i: usize = 0;
        while i < fresh.len()
            invariant
                i <= fresh@.len(),
                self@ =~~= (Strip {
                    columns: first_columns + single_columns(fresh@.take(i as int)),
                    weights: first_weights + unit_weights(fresh@.take(i as int)),
                    focused,
                    ..before
                }),
                valid_widths(self@.columns),
            decreases fresh@.len() - i,
        {
            let tile: u64 = fresh[i];
            let ghost columns_so_far = self@.columns;
            let ghost weights_so_far = self@.weights;
            self.tile_weights.push((tile, WEIGHT_ONE));
            self.columns.push(Column::single(tile));
            proof {
                let longer = fresh@.take(i as int + 1);
                assert(longer =~= fresh@.take(i as int).push(tile));
                assert(single_columns(longer) =~= single_columns(fresh@.take(i as int)).push(
                    single_column(tile),
                ));
                assert(unit_weights(longer) =~= unit_weights(fresh@.take(i as int)).push(
                    (tile, WEIGHT_ONE),
                ));
                assert(self@.columns =~= columns_so_far.push(single_column(tile)));
                assert(self@.weights =~= weights_so_far.push((tile, WEIGHT_ONE)));
                assert(self@.columns =~= first_columns + single_columns(longer));
                assert(self@.weights =~= first_weights + unit_weights(longer));
            }
            i += 1;
        }
        assert(fresh@.take(fresh@.len() as int) =~= fresh@);
        if self.columns.len() == 0 {
            self.focused = None;
            self.tile_weights.clear();
            self.viewport_x = 0;
            self.user_positioned_viewport = false;
            assert(self@ =~~= before.reconciled(mapped@));
        } else {
            self.clamp_viewport();
        }
    }

    /// Takes a tile off the strip, and its column too if that was all it held. Returns
    /// whether the strip held the tile.
    pub fn remove_tile(&mut self, tile: u64) -> (found: bool)
        requires
            old(self)@.wf(),
        ensures
            final(self)@ == old(self)@.without(tile),
            found == old(self)@.contains(tile),
            final(self)@.wf(),
    {
        let ghost before = self@;
        proof {
            lemma_find_from(self@.columns, tile, 0);
        }
        let (column, row) = match self.tile_position(tile) {
            Some(position) => position,
            None => {
                return false;
            },
        };
        self.columns[column].tiles.remove(row);
        let mut weights: Vec<(u64, u128)> = Vec::new();
        let mut i: usize = 0;
        while i < self.tile_weights.len()
            invariant
                i <= self.tile_weights@.len(),
                weights@ == without_weight(self.tile_weights@.take(i as int), tile),
            decreases self.tile_weights@.len() - i,
        {
            assert(self.tile_weights@.take(i as int + 1).drop_last() =~= self.tile_weights@.take(
                i as int,
            ));
            if self.tile_weights[i].0 != tile {
                weights.push(self.tile_weights[i]);
            }
            i += 1;
        }
        assert(self.tile_weights@.take(self.tile_weights@.len() as int) =~= self.tile_weights@);
        self.tile_weights = weights;
        if self.columns[column].tiles.len() == 0 {
            self.columns.remove(column);
        }
        assert(self@ =~~= before.without(tile));
        true
    }

    /// Puts a new tile in a column of its own right of the focused column, or at the end of
    /// the strip.
    pub fn insert_new_toplevel(&mut self, tile: u64, focused: Option<u64>)
        requires
            old(self)@.wf(),
        ensures
            final(self)@ == old(self)@.with_new_toplevel(tile, focused),
            final(self)@.wf(),
    {
        self.remove_tile(tile);
        let ghost rest = self@;
        let count: usize = self.columns.len();
        let insertion: usize = match focused {
            Some(anchor) => match self.tile_position(anchor) {
                Some((column, _)) => column + 1,
                None => count,
            },
            None => count,
        };
        self.columns.insert(insertion, Column::single(tile));
        assert(self@ =~~= rest.with_column(insertion as int, single_column(tile)));
        self.set_tile_weight(tile, WEIGHT_ONE);
        self.clamp_viewport();
    }

    /// What to remember of a tile when it is dragged.
    pub fn drag_snapshot(&self, current: u64) -> (snapshot: Option<PendingDrag>)
        requires
            self@.wf(),
        ensures
            match snapshot {
                Some(drag) => self@.snapshot(current) == Some(drag@),
                None => self@.snapshot(current) is None,
            },
    {
        match self.tile_position(current) {
            Some((column, row)) => {
                let source: &Column = &self.columns[column];
                Some(
                    PendingDrag {
                        source: current,
                        source_column: column,
                        source_tile: row,
                        source_width: source.width,
                        source_tiles: copy_items(&source.tiles),
                        source_weight: self.tile_weight(current),
                        focused: self.focused,
                        viewport_x: self.viewport_x,
                        user_positioned_viewport: self.user_positioned_viewport,
                    },
                )
            },
            None => None,
        }
    }

    /// Remembers a tile and where it came from, before a drag takes it off the strip. Fails if
    /// a drag is pending, or the tile is not on the strip.
    pub fn begin_drag(&mut self, current: u64) -> (begun: bool)
        requires
            old(self)@.wf(),
        ensures
            begun == (old(self)@.drag is None && old(self)@.contains(current)),
            final(self)@ == if begun {
                Strip { drag: old(self)@.snapshot(current), ..old(self)@ }
            } else {
                old(self)@
            },
            final(self)@.wf(),
    {
        if self.pending_drag.is_some() {
            return false;
        }
        proof {
            lemma_find_from(self@.columns, current, 0);
        }
        match self.drag_snapshot(current) {
            Some(drag) => {
                self.pending_drag = Some(drag);
                assert(self@ =~~= (Strip { drag: old(self)@.snapshot(current), ..old(self)@ }));
                true
            },
            None => false,
        }
    }

    /// The column of the first tile that shared a column with a dragged one and is still on
    /// the strip.
    fn surviving_peer(&self, drag: &PendingDrag) -> (column: Option<usize>)
        ensures
            match column {
                Some(c) => peer_column(self@.columns, drag@.source_tiles, drag@.source, 0) == Some(
                    c as int,
                ) && c < self.columns@.len(),
                None => peer_column(self@.columns, drag@.source_tiles, drag@.source, 0) is None,
            },
    {
        let mut i: usize = 0;
        while i < drag.source_tiles.len()
            invariant
                i <= drag.source_tiles@.len(),
                peer_column(self@.columns, drag@.source_tiles, drag@.source, 0) == peer_column(
                    self@.columns,
                    drag@.source_tiles,
                    drag@.source,
                    i as int,
                ),
            decreases drag.source_tiles@.len() - i,
        {
            let peer: u64 = drag.source_tiles[i];
            let position = self.tile_position(peer);
            if peer != drag.source {
                if let Some((column, _)) = position {
                    return Some(column);
                }
            }
            i += 1;
        }
        None
    }

    /// Puts `tile` where the dragged tile came from: among the peers it had, or else in a
    /// column of its own.
    pub fn restore_dragged_tile(&mut self, pending: &PendingDrag, tile: u64)
        requires
            old(self)@.wf(),
            pending.source_width.valid(),
        ensures
            final(self)@ == old(self)@.restored(pending@, tile),
            final(self)@.wf(),
    {
        let ghost before = self@;
        match self.surviving_peer(pending) {
            Some(column) => {
                let count: usize = self.columns[column].tiles.len();
                let row: usize = if pending.source_tile < count { pending.source_tile } else { count };
                self.columns[column].width = pending.source_width;
                self.columns[column].tiles.insert(row, tile);
                let ghost placed = Strip {
                    columns: before.columns.update(
                        column as int,
                        ColumnView {
                            tiles: before.columns[column as int].tiles.insert(row as int, tile),
                            width: pending.source_width,
                        },
                    ),
                    ..before
                };
                assert(self@ =~~= placed);
            },
            None => {
                let count: usize = self.columns.len();
                let index: usize = if pending.source_column < count {
                    pending.source_column
                } else {
                    count
                };
                self.columns.insert(index, Column::with_width(tile, pending.source_width));
                assert(self@ =~~= before.with_column(
                    index as int,
                    ColumnView { tiles: seq![tile], width: pending.source_width },
                ));
            },
        }
        self.set_tile_weight(tile, pending.source_weight);
    }

    /// Takes back the pending drag, if there is one: the tile returns to where it came from,
    /// and focus and viewport to what they were.
    pub fn cancel_drag(&mut self)
        requires
            old(self)@.wf(),
        ensures
            final(self)@ == old(self)@.drag_cancelled(),
            final(self)@.wf(),
    {
        let ghost before = self@;
        match self.pending_drag.take() {
            Some(pending) => {
                assert(self@ =~~= (Strip { drag: None, ..before }));
                assert(before.drag == Some(pending@));
                self.remove_tile(pending.source);
                self.restore_dragged_tile(&pending, pending.source);
                let ghost rest = self@;
                let keep: bool = match pending.focused {
                    Some(tile) => self.contains(tile),
                    None => true,
                };
                self.focused = if keep { pending.focused } else { None };
                self.viewport_x = pending.viewport_x;
                self.user_positioned_viewport = pending.user_positioned_viewport;
                assert(self@ =~~= (Strip {
                    focused: match pending.focused {
                        Some(tile) => if rest.contains(tile) {
                            Some(tile)
                        } else {
                            None
                        },
                        None => None,
                    },
                    viewport_x: pending.viewport_x as int,
                    user_positioned_viewport: pending.user_positioned_viewport,
                    ..rest
                }));
                self.clamp_viewport();
            },
            None => {
                assert(self@ =~~= before);
            },
        }
    }

    /// Inserts `tile` into a new column, and gives it a weight of one.
    fn drop_in_column(&mut self, index: usize, tile: u64, width: ColumnWidth)
        requires
            old(self)@.wf(),
            width.valid(),
            index <= old(self).columns@.len(),
        ensures
            final(self)@ == old(self)@.with_column(
                index as int,
                ColumnView { tiles: seq![tile], width },
            ).weighted(tile, WEIGHT_ONE),
            final(self)@.wf(),
    {
        let ghost before = self@;
        self.columns.insert(index, Column::with_width(tile, width));
        assert(self@ =~~= before.with_column(
            index as int,
            ColumnView { tiles: seq![tile], width },
        ));
        self.set_tile_weight(tile, WEIGHT_ONE);
    }

    /// Inserts `tile` into the column of another one, in its row or below it, with the weight
    /// it was dragged with from there or else the mean weight there.
    fn drop_in_row(&mut self, column: usize, row: usize, drag: &PendingDrag, tile: u64, anchor: u64)
        requires
            old(self)@.wf(),
            column < old(self).columns@.len(),
            row <= old(self).columns@[column as int].tiles@.len(),
        ensures
            final(self)@ == old(self)@.with_tile(column as int, row as int, tile).weighted(
                tile,
                if drag@.source_tiles.contains(anchor) {
                    drag@.source_weight
                } else {
                    old(self)@.mean_weight(column as int)
                },
            ),
            final(self)@.wf(),
    {
        let ghost before = self@;
        let weight: u128 = if contains_item(&drag.source_tiles, anchor) {
            drag.source_weight
        } else {
            self.mean_column_weight(column)
        };
        self.columns[column].tiles.insert(row, tile);
        assert(self@ =~~= before.with_tile(column as int, row as int, tile));
        self.set_tile_weight(tile, weight);
    }

    /// Places `tile` at `target`, after a drag that `drag` remembers.
    fn place_dropped(&mut self, drag: &PendingDrag, tile: u64, target: ColumnDropTarget)
        requires
            old(self)@.wf(),
            drag.source_width.valid(),
        ensures
            final(self)@ == old(self)@.dropped(drag@, tile, target),
            final(self)@.wf(),
    {
        let count: usize = self.columns.len();
        let fallback: usize = if drag.source_column < count { drag.source_column } else { count };
        let width: ColumnWidth = if drag.source_tiles.len() == 1 {
            drag.source_width
        } else {
            ColumnWidth::default()
        };
        match target {
            ColumnDropTarget::Above(anchor) => match self.tile_position(anchor) {
                Some((column, row)) => self.drop_in_row(column, row, drag, tile, anchor),
                None => self.restore_dragged_tile(drag, tile),
            },
            ColumnDropTarget::Below(anchor) => match self.tile_position(anchor) {
                Some((column, row)) => {
                    let rows: usize = self.columns[column].tiles.len();
                    assert(row < rows);
                    self.drop_in_row(column, row + 1, drag, tile, anchor)
                },
                None => self.restore_dragged_tile(drag, tile),
            },
            ColumnDropTarget::Before(anchor) => {
                let index: usize = match self.tile_position(anchor) {
                    Some((column, _)) => column,
                    None => fallback,
                };
                self.drop_in_column(index, tile, width);
            },
            ColumnDropTarget::After(anchor) => {
                let index: usize = match self.tile_position(anchor) {
                    Some((column, _)) => column + 1,
                    None => fallback,
                };
                self.drop_in_column(index, tile, width);
            },
            ColumnDropTarget::First => self.drop_in_column(0, tile, width),
            ColumnDropTarget::Last => self.drop_in_column(count, tile, width),
            ColumnDropTarget::Original | ColumnDropTarget::Discard => self.restore_dragged_tile(
                drag,
                tile,
            ),
        }
    }

    /// Commits a drop of `final_tile` at `target`. The tile may be another one than the one
    /// that was dragged. Without a tile to drop the drag is taken back; discarding only takes
    /// the dragged tile away.
    pub fn finish_drag(&mut self, final_tile: Option<u64>, target: ColumnDropTarget)
        requires
            old(self)@.wf(),
        ensures
            final(self)@ == old(self)@.drag_finished(final_tile, target),
            final(self)@.wf(),
    {
        let ghost before = self@;
        if let ColumnDropTarget::Discard = target {
            let pending: Option<PendingDrag> = self.pending_drag.take();
            let ghost settled = Strip { drag: None, ..before };
            assert(self@ =~~= settled);
            if let Some(drag) = &pending {
                self.remove_tile(drag.source);
            }
            let ghost rest = self@;
            let keep: bool = match final_tile {
                Some(tile) => self.contains(tile),
                None => true,
            };
            self.focused = if keep { final_tile } else { None };
            assert(self@ =~~= (Strip { focused: self.focused, ..rest }));
            self.clamp_viewport();
            return;
        }
        let tile: u64 = match final_tile {
            Some(tile) => tile,
            None => {
                self.cancel_drag();
                return;
            },
        };
        let pending: Option<PendingDrag> = self.pending_drag.take();
        let ghost settled = Strip { drag: None, ..before };
        assert(self@ =~~= settled);
        proof {
            lemma_find_from(self@.columns, tile, 0);
        }
        let drag: PendingDrag = match pending {
            Some(drag) => drag,
            None => match self.drag_snapshot(tile) {
                Some(drag) => drag,
                None => {
                    let mut tiles: Vec<u64> = Vec::new();
                    tiles.push(tile);
                    assert(tiles@ =~= seq![tile]);
                    PendingDrag {
                        source: tile,
                        source_column: self.columns.len(),
                        source_tile: 0,
                        source_width: ColumnWidth::default(),
                        source_tiles: tiles,
                        source_weight: WEIGHT_ONE,
                        focused: self.focused,
                        viewport_x: self.viewport_x,
                        user_positioned_viewport: self.user_positioned_viewport,
                    }
                },
            },
        };
        self.remove_tile(drag.source);
        if tile != drag.source {
            self.remove_tile(tile);
        }
        self.place_dropped(&drag, tile, target);
        let ghost placed = self@;
        self.focused = Some(tile);
        assert(self@ =~~= (Strip { focused: Some(tile), ..placed }));
        self.ensure_visible(tile);
    }

    /// The tile in the same row of the column `delta` columns further right, or else the last
    /// one there.
    pub fn adjacent_column(&self, current: u64, delta: isize) -> (tile: Option<u64>)
        ensures
            tile == self@.beside(current, delta as int),
    {
        let (column, row) = match self.tile_position(current) {
            Some(position) => position,
            None => {
                return None;
            },
        };
        let count: usize = self.columns.len();
        let target: usize = match shifted(column, delta) {
            Some(target) => target,
            None => {
                return None;
            },
        };
        if target >= count {
            return None;
        }
        let tiles: &Vec<u64> = &self.columns[target].tiles;
        if row < tiles.len() {
            Some(tiles[row])
        } else if tiles.len() > 0 {
            Some(tiles[tiles.len() - 1])
        } else {
            None
        }
    }

    /// The tile `delta` rows further down in the same column.
    pub fn adjacent_tile(&self, current: u64, delta: isize) -> (tile: Option<u64>)
        ensures
            tile == self@.below(current, delta as int),
    {
        let (column, row) = match self.tile_position(current) {
            Some(position) => position,
            None => {
                return None;
            },
        };
        let count: usize = self.columns[column].tiles.len();
        let target: usize = match shifted(row, delta) {
            Some(target) => target,
            None => {
                return None;
            },
        };
        if target < count {
            Some(self.columns[column].tiles[target])
        } else {
            None
        }
    }

    /// The pair of neighbouring rows that a tile is the upper (`delta` 1) or the lower
    /// (`delta` -1) one of.
    pub fn row_pair(&self, current: u64, delta: isize) -> (pair: Option<(u64, u64)>)
        ensures
            pair == self@.rows_at(current, delta as int),
    {
        if delta == -1 {
            match self.adjacent_tile(current, -1) {
                Some(upper) => Some((upper, current)),
                None => None,
            }
        } else if delta == 1 {
            match self.adjacent_tile(current, 1) {
                Some(lower) => Some((current, lower)),
                None => None,
            }
        } else {
            None
        }
    }

    /// Moves a tile sideways: out of a shared column into one of its own next to it, or else
    /// by `delta` places together with its column. Returns whether it could move.
    pub fn move_by(&mut self, current: u64, delta: isize) -> (moved: bool)
        requires
            old(self)@.wf(),
        ensures
            match old(self)@.moved_sideways(current, delta as int) {
                Some(after) => moved && final(self)@ == after,
                None => !moved && final(self)@ == old(self)@,
            },
            final(self)@.wf(),
    {
        let ghost before = self@;
        let (column, row) = match self.tile_position(current) {
            Some(position) => position,
            None => {
                return false;
            },
        };
        let count: usize = self.columns.len();
        if self.columns[column].tiles.len() > 1 {
            self.columns[column].tiles.remove(row);
            let ghost rest = Strip {
                columns: before.columns.update(
                    column as int,
                    ColumnView {
                        tiles: before.columns[column as int].tiles.remove(row as int),
                        width: before.columns[column as int].width,
                    },
                ),
                ..before
            };
            assert(self@ =~~= rest);
            let insertion: usize = if delta < 0 { column } else { column + 1 };
            self.columns.insert(insertion, Column::single(current));
            let ghost extracted = rest.with_column(insertion as int, single_column(current));
            assert(self@ =~~= extracted);
            self.set_tile_weight(current, WEIGHT_ONE);
            self.focused = Some(current);
            assert(self@ =~~= (Strip {
                focused: Some(current),
                ..extracted.weighted(current, WEIGHT_ONE)
            }));
            return true;
        }
        let target: usize = match shifted(column, delta) {
            Some(target) => target,
            None => {
                return false;
            },
        };
        if target >= count {
            return false;
        }
        swap_columns(&mut self.columns, column, target);
        self.focused = Some(current);
        assert(self@ =~~= (Strip {
            columns: before.columns.update(column as int, before.columns[target as int]).update(
                target as int,
                before.columns[column as int],
            ),
            focused: Some(current),
            ..before
        }));
        true
    }

    /// Moves a tile up or down: within a shared column, or else into the neighbouring column
    /// on the left, or on the right of the first column.
    pub fn move_tile_vertical(&mut self, current: u64, delta: isize) -> (result: TileMove)
        requires
            old(self)@.wf(),
        ensures
            (result, final(self)@) == old(self)@.moved_vertically(current, delta as int),
            final(self)@.wf(),
    {
        let ghost before = self@;
        let (column, row) = match self.tile_position(current) {
            Some(position) => position,
            None => {
                return TileMove::Unavailable;
            },
        };
        if self.columns[column].tiles.len() > 1 {
            let target: usize = match shifted(row, delta) {
                Some(target) => target,
                None => {
                    return TileMove::Edge;
                },
            };
            if target >= self.columns[column].tiles.len() {
                return TileMove::Edge;
            }
            let other: u64 = self.columns[column].tiles[target];
            self.columns[column].tiles.set(row, other);
            self.columns[column].tiles.set(target, current);
            self.focused = Some(current);
            let ghost tiles = before.columns[column as int].tiles;
            assert(self@ =~~= (Strip {
                columns: before.columns.update(
                    column as int,
                    ColumnView {
                        tiles: tiles.update(row as int, tiles[target as int]).update(
                            target as int,
                            tiles[row as int],
                        ),
                        width: before.columns[column as int].width,
                    },
                ),
                focused: Some(current),
                ..before
            }));
            return TileMove::Moved;
        }
        if self.columns.len() < 2 {
            return TileMove::Edge;
        }
        self.columns.remove(column);
        let ghost rest = Strip { columns: before.columns.remove(column as int), ..before };
        assert(self@ =~~= rest);
        let destination: usize = if column > 0 { column - 1 } else { 0 };
        let insertion: usize = if delta < 0 {
            0
        } else {
            self.columns[destination].tiles.len()
        };
        let weight: u128 = self.mean_column_weight(destination);
        self.columns[destination].tiles.insert(insertion, current);
        let ghost merged = rest.with_tile(destination as int, insertion as int, current);
        assert(self@ =~~= merged);
        self.set_tile_weight(current, weight);
        self.focused = Some(current);
        assert(self@ =~~= (Strip { focused: Some(current), ..merged.weighted(current, weight) }));
        TileMove::Moved
    }

    /// Gives the column of a tile the next preset width, and focuses the tile.
    pub fn cycle_column_width(&mut self, current: u64, direction: ResizeDirection) -> (changed: bool)
        requires
            old(self)@.wf(),
        ensures
            match old(self)@.width_cycled(current, direction) {
                Some(after) => changed && final(self)@ == after,
                None => !changed && final(self)@ == old(self)@,
            },
            final(self)@.wf(),
    {
        let ghost before = self@;
        let column: usize = match self.tile_position(current) {
            Some((column, _)) => column,
            None => {
                return false;
            },
        };
        let width: ColumnWidth = self.columns[column].width.cycled(direction);
        self.columns[column].width = width;
        self.focused = Some(current);
        assert(self@ =~~= (Strip {
            focused: Some(current),
            ..before.with_width(column as int, width)
        }));
        true
    }

    /// Resizes the column of a tile by `delta` pixels while its edge at `anchor` stays in
    /// place. Returns whether the width changed, and by how many pixels.
    pub fn resize_column_by_pixels(&mut self, current: u64, delta: i32, anchor: ColumnResizeAnchor) -> (result:
        Option<(bool, i32)>)
        requires
            old(self)@.wf(),
        ensures
            match old(self)@.column_resized(current, delta as int, anchor) {
                Some((changed, applied, after)) => result == Some((changed, applied as i32))
                    && i32::MIN <= applied <= i32::MAX && final(self)@ == after,
                None => result is None && final(self)@ == old(self)@,
            },
            final(self)@.wf(),
    {
        let ghost before = self@;
        let column: usize = match self.tile_position(current) {
            Some((column, _)) => column,
            None => {
                return None;
            },
        };
        if self.viewport_width <= 0 {
            return None;
        }
        let old: ColumnWidth = self.columns[column].width;
        let old_width: i32 = self.column_width(column);
        let sum: i64 = old_width as i64 + delta as i64;
        let requested: i32 = if sum > i32::MAX as i64 {
            i32::MAX
        } else if sum > 1 {
            sum as i32
        } else {
            1
        };
        assert(requested == before.requested_width(column as int, delta as int));
        let width: ColumnWidth = ColumnWidth::limited(requested, self.viewport_width);
        if width.is_same(old) {
            return Some((false, 0));
        }
        self.columns[column].width = width;
        let ghost resized = before.with_width(column as int, width);
        assert(self@ =~~= resized);
        let applied: i32 = self.column_width(column) - old_width;
        if let ColumnResizeAnchor::Right = anchor {
            let moved: i128 = self.viewport_x + SUBPIXEL * applied as i128;
            self.viewport_x = if moved > VIEWPORT_LIMIT {
                VIEWPORT_LIMIT
            } else if moved < -VIEWPORT_LIMIT {
                -VIEWPORT_LIMIT
            } else {
                moved
            };
        }
        self.user_positioned_viewport = true;
        self.focused = Some(current);
        assert(self@ =~~= (Strip {
            viewport_x: self.viewport_x as int,
            user_positioned_viewport: true,
            focused: Some(current),
            ..resized
        }));
        Some((true, applied))
    }

    /// Moves the separator between two neighbouring rows down by `delta` pixels, as far as
    /// both rows allow. Returns whether it moved; `None` if the tiles are not neighbours.
    pub fn resize_rows_by_pixels(&mut self, upper: u64, lower: u64, delta: i32) -> (result: Option<
        bool,
    >)
        requires
            old(self)@.wf(),
        ensures
            match old(self)@.rows_resized(upper, lower, delta as int) {
                Some((changed, after)) => result == Some(changed) && final(self)@ == after,
                None => result is None && final(self)@ == old(self)@,
            },
            final(self)@.wf(),
    {
        let ghost before = self@;
        let (column, upper_row) = match self.tile_position(upper) {
            Some(position) => position,
            None => {
                return None;
            },
        };
        let (lower_column, lower_row) = match self.tile_position(lower) {
            Some(position) => position,
            None => {
                return None;
            },
        };
        let count: usize = self.columns[column].tiles.len();
        if lower_column != column || lower_row != upper_row + 1 || self.column_height <= 0 {
            return None;
        }
        let weights: Vec<u128> = self.column_weights(column);
        let rows: Vec<(i32, i32)> = weighted_vertical_tile_rows(
            self.column_height,
            self.gap,
            weights.as_slice(),
        );
        let upper_height: i32 = rows[upper_row].1;
        let lower_height: i32 = rows[lower_row].1;
        proof {
            lemma_height_inside(
                self.column_height as int,
                self.gap as int,
                weights@,
                upper_row as int,
            );
            lemma_height_inside(
                self.column_height as int,
                self.gap as int,
                weights@,
                lower_row as int,
            );
        }
        let pair_height: i32 = add_saturating(upper_height, lower_height);
        if pair_height <= 1 {
            return Some(false);
        }
        let minimum: i32 = if pair_height >= 2 * MIN_TILE_HEIGHT {
            MIN_TILE_HEIGHT
        } else if pair_height / 4 > 1 {
            pair_height / 4
        } else {
            1
        };
        let sum: i64 = upper_height as i64 + delta as i64;
        let most: i64 = pair_height as i64 - minimum as i64;
        let new_upper: i32 = if sum < minimum as i64 {
            minimum
        } else if sum > most {
            most as i32
        } else {
            sum as i32
        };
        assert(new_upper == Strip::moved_separator(
            upper_height as int,
            lower_height as int,
            delta as int,
        ));
        if new_upper == upper_height {
            return Some(false);
        }
        let new_lower: i32 = pair_height - new_upper;
        let mut row: usize = 0;
        while row < count
            invariant
                row <= count,
                column < before.columns.len(),
                count == before.columns[column as int].tiles.len(),
                rows@.len() == count,
                self.columns@.len() == before.columns.len(),
                self@ =~~= (Strip {
                    weights: before.weights_fixed(
                        column as int,
                        upper_row as int,
                        new_upper as int,
                        new_lower as int,
                        row as int,
                    ),
                    ..before
                }),
                lower_row == upper_row + 1,
                forall|k: int|
                    0 <= k < count ==> (#[trigger] rows@[k]).1 == before.height_of(
                        column as int,
                        k,
                    ),
            decreases count - row,
        {
            let height: i32 = if row == upper_row {
                new_upper
            } else if row == lower_row {
                new_lower
            } else {
                rows[row].1
            };
            let pixels: u128 = if height > 1 { height as u128 } else { 1 };
            assert(pixels * WEIGHT_ONE <= i32::MAX * WEIGHT_ONE) by (nonlinear_arith)
                requires
                    pixels <= i32::MAX,
            ;
            assert(self@.columns[column as int].tiles[row as int] == self.columns@[column as int].tiles@[row as int]);
            let tile: u64 = self.columns[column].tiles[row];
            self.set_tile_weight(tile, pixels * WEIGHT_ONE);
            row += 1;
        }
        Some(true)
    }
}

/// `index` moved by `delta`, if that is an index at all.
fn shifted(index: usize, delta: isize) -> (result: Option<usize>)
    ensures
        match result {
            Some(target) => target == index + delta,
            None => index + delta < 0 || index + delta > usize::MAX,
        },
{
    if delta >= 0 {
        index.checked_add(delta as usize)
    } else {
        let magnitude: usize = (-(delta + 1)) as usize + 1;
        index.checked_sub(magnitude)
    }
}

/// Exchanges two columns.
fn swap_columns(columns: &mut Vec<Column>, first: usize, second: usize)
    requires
        first < old(columns)@.len(),
        second < old(columns)@.len(),
    ensures
        final(columns)@ == old(columns)@.update(first as int, old(columns)@[second as int]).update(
            second as int,
            old(columns)@[first as int],
        ),
{
    let ghost before = columns@;
    if first != second {
        let low: usize = if first < second { first } else { second };
        let high: usize = if first < second { second } else { first };
        let upper: Column = columns.remove(high);
        let lower: Column = columns.remove(low);
        columns.insert(low, upper);
        columns.insert(high, lower);
    }
    assert(columns@ =~= before.update(first as int, before[second as int]).update(
        second as int,
        before[first as int],
    ));
}

} // verus!
