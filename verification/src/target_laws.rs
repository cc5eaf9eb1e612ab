//! What a key or the pointer means on the strip: which tile, which side, which edge.

use vstd::prelude::*;

use id_tree::NodeId;

use crate::actions::{Direction, FocusDirection, ResizeEdge};
use crate::column_laws::{
    law_a_dropped_tile_stands_where_it_was_dropped, law_a_tile_moves_to_its_side,
    law_a_tile_moves_up_or_down,
};
use crate::columns::{ColumnDropTarget, ColumnResizeAnchor};
use crate::laws::lemma_position_unique;
use crate::layout::{LayoutView, ScrollingResizeTarget};
use crate::navigation::StackMove;
use crate::scrolling::FocusNavigation;
use crate::strip::{DragView, Strip};
use crate::tree::{visits, TreeModel};
use crate::units::{Float64, SUBPIXEL};
use crate::zones::TargetZone;

verus! {

/// The keys for left and right lead the focus to the column on that side, those for up and down
/// to the tile in the row above or below, and each of them to the edge of the strip if there is
/// none. The focus only ever goes to a window.
pub proof fn law_keys_lead_along_the_strip(
    strip: Strip,
    tree: TreeModel,
    tile: u64,
    column: int,
    row: int,
)
    requires
        strip.tidy(),
        strip.stands_at(tile, column, row),
    ensures
        ({
            let left = strip.navigated(tree, tile, FocusDirection::Left);
            let right = strip.navigated(tree, tile, FocusDirection::Right);
            let up = strip.navigated(tree, tile, FocusDirection::Up);
            let down = strip.navigated(tree, tile, FocusDirection::Down);
            let count = strip.columns.len();
            let rows = strip.columns[column].tiles.len();
            &&& left is Edge <==> column == 0
            &&& left matches FocusNavigation::Target(next) ==> strip.columns[column
                - 1].tiles.contains(next) && tree.shows_window(next)
            &&& right is Edge <==> column + 1 == count
            &&& right matches FocusNavigation::Target(next) ==> strip.columns[column
                + 1].tiles.contains(next) && tree.shows_window(next)
            &&& up is Edge <==> row == 0
            &&& up matches FocusNavigation::Target(next) ==> next
                == strip.columns[column].tiles[row - 1] && tree.shows_window(next)
            &&& row > 0 && tree.shows_window(strip.columns[column].tiles[row - 1]) ==> up is Target
            &&& down is Edge <==> row + 1 == rows
            &&& down matches FocusNavigation::Target(next) ==> next
                == strip.columns[column].tiles[row + 1] && tree.shows_window(next)
            &&& row + 1 < rows && tree.shows_window(strip.columns[column].tiles[row + 1])
                ==> down is Target
        }),
{
    lemma_position_unique(strip, column, row);
    assert(strip.columns[column].tiles.len() > 0);
    if column > 0 {
        let tiles = strip.columns[column - 1].tiles;
        assert(tiles.len() > 0);
        assert(tiles.contains(tiles[tiles.len() - 1]));
        if row < tiles.len() {
            assert(tiles.contains(tiles[row]));
        }
    }
    if column + 1 < strip.columns.len() {
        let tiles = strip.columns[column + 1].tiles;
        assert(tiles.len() > 0);
        assert(tiles.contains(tiles[tiles.len() - 1]));
        if row < tiles.len() {
            assert(tiles.contains(tiles[row]));
        }
    }
}

/// A tile that the keys move to the left or to the right is then in a column on that side of where
/// it was: a column of its own next to the tiles that it shared one with, or in exchange with the
/// next column. Those for up and down move it within its column, or to the end of another that it
/// comes from. Where it cannot go further up or down, the caller may move it on; to the sides it
/// just stays.
pub proof fn law_keys_move_a_tile_their_way(
    strip: Strip,
    tile: u64,
    column: int,
    row: int,
)
    requires
        strip.tidy(),
        strip.stands_at(tile, column, row),
    ensures
        ({
            let tiles = strip.columns[column].tiles;
            let count = strip.columns.len() as int;
            let left = strip.stepped(tile, Direction::Left);
            let right = strip.stepped(tile, Direction::Right);
            let (up, above) = strip.shifted(tile, Direction::Up);
            let (down, below) = strip.shifted(tile, Direction::Down);
            &&& tiles.len() > 1 ==> {
                &&& left is Some
                &&& left->0.columns[column].tiles == seq![tile]
                &&& left->0.columns[column + 1].tiles == tiles.remove(row)
                &&& right is Some
                &&& right->0.columns[column].tiles == tiles.remove(row)
                &&& right->0.columns[column + 1].tiles == seq![tile]
                &&& up is Edge <==> row == 0
                &&& down is Edge <==> row + 1 == tiles.len()
                &&& row > 0 ==> up is Moved && above.columns[column].tiles[row - 1] == tile
                    && above.columns[column].tiles[row] == tiles[row - 1]
                &&& row + 1 < tiles.len() ==> down is Moved && below.columns[column].tiles[row + 1]
                    == tile && below.columns[column].tiles[row] == tiles[row + 1]
            }
            &&& tiles.len() == 1 ==> {
                &&& left is Some <==> column > 0
                &&& column > 0 ==> left->0.columns[column - 1] == strip.columns[column]
                    && left->0.columns[column] == strip.columns[column - 1]
                &&& right is Some <==> column + 1 < count
                &&& column + 1 < count ==> right->0.columns[column + 1] == strip.columns[column]
                    && right->0.columns[column] == strip.columns[column + 1]
                &&& up is Edge <==> count == 1
                &&& down is Edge <==> count == 1
                &&& column > 0 ==> above.columns[column - 1].tiles == seq![tile]
                    + strip.columns[column - 1].tiles
                &&& column > 0 ==> below.columns[column - 1].tiles == strip.columns[column
                    - 1].tiles.push(tile)
            }
        }),
{
    lemma_position_unique(strip, column, row);
    assert(strip.columns[column].tiles.len() > 0);
    law_a_tile_moves_to_its_side(strip, tile, column, row, -1);
    law_a_tile_moves_to_its_side(strip, tile, column, row, 1);
    law_a_tile_moves_up_or_down(strip, tile, column, row, -1);
    law_a_tile_moves_up_or_down(strip, tile, column, row, 1);
}

/// A tile that is moved up or down at the end of its column is handed on, and nothing changes
/// here; to the left or to the right the key is always taken.
pub proof fn law_only_the_ends_of_a_column_hand_on(
    layout: LayoutView,
    after: LayoutView,
    tile: u64,
    column: int,
    row: int,
    direction: Direction,
    eased: Seq<crate::queue::EasedArea>,
    result: crate::navigation::MoveResult,
    configures: Seq<crate::classic::Configure>,
)
    requires
        layout.scroll.strip.tidy(),
        layout.scroll.strip.stands_at(tile, column, row),
        layout.moves_tile(after, tile, direction, eased, result, configures),
    ensures
        ({
            let rows = layout.scroll.strip.columns[column].tiles.len();
            let alone = rows == 1 && layout.scroll.strip.columns.len() == 1;
            let ends = alone || rows > 1 && (direction is Up && row == 0 || direction is Down && row
                + 1 == rows);
            &&& direction is Left || direction is Right ==> result is Handled
            &&& (direction is Up || direction is Down) && ends ==> result is MoveFurther && after
                == layout && configures.len() == 0
            &&& (direction is Up || direction is Down) && !ends ==> result is Handled
        }),
{
    let strip = layout.scroll.strip;
    lemma_position_unique(strip, column, row);
    assert(strip.columns[column].tiles.len() > 0);
    law_a_tile_moves_up_or_down(strip, tile, column, row, -1);
    law_a_tile_moves_up_or_down(strip, tile, column, row, 1);
}

/// The pointer that takes a tile by its left edge moves that edge and leaves the right one, and by
/// its right edge the other way around; by its upper edge it moves the separator to the tile
/// above, by its lower edge that to the tile below.
pub proof fn law_an_edge_is_what_moves(
    layout: LayoutView,
    tile: u64,
    column: int,
    row: int,
)
    requires
        layout.scroll.strip.tidy(),
        layout.scroll.strip.stands_at(tile, column, row),
    ensures
        ({
            let tiles = layout.scroll.strip.columns[column].tiles;
            let none = ResizeEdge { top: false, bottom: false, left: false, right: false };
            let left = layout.resize_target(tile, ResizeEdge { left: true, ..none });
            let right = layout.resize_target(tile, ResizeEdge { right: true, ..none });
            let top = layout.resize_target(tile, ResizeEdge { top: true, ..none });
            let bottom = layout.resize_target(tile, ResizeEdge { bottom: true, ..none });
            &&& left == Some(
                ScrollingResizeTarget::Column { tile, anchor: ColumnResizeAnchor::Right },
            )
            &&& right == Some(
                ScrollingResizeTarget::Column { tile, anchor: ColumnResizeAnchor::Left },
            )
            &&& top is Some <==> row > 0
            &&& row > 0 ==> top == Some(
                ScrollingResizeTarget::Rows { upper: tiles[row - 1], lower: tile },
            )
            &&& bottom is Some <==> row + 1 < tiles.len()
            &&& row + 1 < tiles.len() ==> bottom == Some(
                ScrollingResizeTarget::Rows { upper: tile, lower: tiles[row + 1] },
            )
            &&& layout.resize_target(tile, none) is None
        }),
{
    lemma_position_unique(layout.scroll.strip, column, row);
}

/// How far a coordinate is from a boundary.
pub open spec fn away(boundary: int, at: Float64) -> int {
    let difference = SUBPIXEL * boundary - at.spec_subpixels();
    if difference >= 0 {
        difference
    } else {
        -difference
    }
}

/// The pointer is at an edge of a column if it is no further from it than the gap and a pixel: at
/// the right edge of the column on the left, which moves with this one's right edge held, or at
/// the right edge of its own, which moves with the left edge held. Of two such edges it is at the
/// nearer one.
pub proof fn law_the_nearer_column_edge_is_taken(
    strip: Strip,
    tree: TreeModel,
    tile: u64,
    column: int,
    row: int,
    x: Float64,
)
    requires
        strip.tidy(),
        strip.stands_at(tile, column, row),
        x.finite(),
        0 <= strip.gap < i32::MAX,
        tree.tile_geometry(strip.columns[column].tiles[0]) is Some,
        column > 0 ==> tree.tile_geometry(strip.columns[column - 1].tiles[0]) is Some,
    ensures
        ({
            let own = tree.tile_geometry(strip.columns[column].tiles[0])->0.spec_right();
            let before = tree.tile_geometry(strip.columns[column - 1].tiles[0])->0.spec_right();
            let reach = SUBPIXEL * (if strip.gap > 1 {
                strip.gap + 1
            } else {
                2
            });
            let near = away(own as int, x) <= reach;
            let left = column > 0 && away(before as int, x) <= reach;
            match strip.column_edge(tree, tile, x) {
                None => !near && !left,
                Some((anchor, boundary)) => if anchor is Right {
                    &&& left
                    &&& boundary == before
                    &&& near ==> away(before as int, x) <= away(own as int, x) + SUBPIXEL
                } else {
                    &&& near
                    &&& boundary == own
                    &&& left ==> away(own as int, x) < away(before as int, x) + SUBPIXEL
                },
            }
        }),
{
    lemma_position_unique(strip, column, row);
    let own = tree.tile_geometry(strip.columns[column].tiles[0])->0.spec_right();
    assert(strip.column_geometry(tree, column, 0) == tree.tile_geometry(
        strip.columns[column].tiles[0],
    ));
    lemma_rounded(away(own as int, x));
    if column > 0 {
        let before = tree.tile_geometry(strip.columns[column - 1].tiles[0])->0.spec_right();
        assert(strip.columns[column - 1].tiles.len() > 0);
        assert(strip.column_geometry(tree, column - 1, 0) == tree.tile_geometry(
            strip.columns[column - 1].tiles[0],
        ));
        lemma_rounded(away(before as int, x));
    }
}

/// A distance in whole pixels is off by half a pixel at most.
proof fn lemma_rounded(distance: int)
    requires
        distance >= 0,
    ensures
        ({
            let rounded = crate::units::round_ratio(distance, SUBPIXEL as int);
            -SUBPIXEL < 2 * (SUBPIXEL * rounded - distance) <= SUBPIXEL
        }),
{
    let rounded = crate::units::round_ratio(distance, SUBPIXEL as int);
    assert(rounded == (2 * distance + 1_048_576) / 2_097_152);
    assert(2_097_152 * rounded <= 2 * distance + 1_048_576 < 2_097_152 * rounded + 2_097_152)
        by (nonlinear_arith)
        requires
            rounded == (2 * distance + 1_048_576) / 2_097_152,
    ;
}

/// The pointer is at a separator between rows if it is over the tile's column and no further from
/// the separator than the gap and a pixel: that to the tile above lies at the end of that tile, that
/// to the tile below at the end of this one.
pub proof fn law_the_separator_under_the_pointer_is_taken(
    strip: Strip,
    tree: TreeModel,
    tile: u64,
    column: int,
    row: int,
    x: Float64,
    y: Float64,
)
    requires
        strip.tidy(),
        strip.stands_at(tile, column, row),
        y.finite(),
        0 <= strip.gap < i32::MAX,
        tree.tile_geometry(tile) is Some,
        row > 0 ==> tree.tile_geometry(strip.columns[column].tiles[row - 1]) is Some,
    ensures
        ({
            let tiles = strip.columns[column].tiles;
            let area = tree.tile_geometry(tile)->0;
            let above = tree.tile_geometry(tiles[row - 1])->0.spec_bottom();
            let reach = SUBPIXEL * (if strip.gap > 1 {
                strip.gap + 1
            } else {
                2
            });
            let over = area.loc.x <= x.spec_pixel() < area.spec_right();
            let up = row > 0 && away(above as int, y) <= reach;
            let down = row + 1 < tiles.len() && away(area.spec_bottom() as int, y) <= reach;
            match strip.row_edge(tree, tile, x, y) {
                None => !over || !up && !down,
                Some((upper, lower, boundary)) => {
                    &&& over
                    &&& lower == tile && up && upper == tiles[row - 1] && boundary == above
                        || upper == tile && down && lower == tiles[row + 1] && boundary
                        == area.spec_bottom()
                    &&& up && !down ==> lower == tile
                    &&& down && !up ==> upper == tile
                    &&& up && away(above as int, y) + SUBPIXEL < away(area.spec_bottom() as int, y)
                        ==> lower == tile
                    &&& down && away(area.spec_bottom() as int, y) + SUBPIXEL < away(
                        above as int,
                        y,
                    ) ==> upper == tile
                },
            }
        }),
{
    lemma_position_unique(strip, column, row);
    let tiles = strip.columns[column].tiles;
    let area = tree.tile_geometry(tile)->0;
    lemma_rounded(away(area.spec_bottom() as int, y));
    if row > 0 {
        lemma_rounded(away(tree.tile_geometry(tiles[row - 1])->0.spec_bottom() as int, y));
    }
}

/// A window that is dropped on a side of another one stands on that side of it in the strip: left
/// and right in a column of its own, above and below in the same column.
pub proof fn law_a_split_is_dropped_on_its_side(
    tree: TreeModel,
    strip: Strip,
    drag: DragView,
    tile: u64,
    anchor: u64,
    column: int,
    row: int,
    direction: Direction,
    target: ColumnDropTarget,
)
    requires
        strip.tidy(),
        strip.stands_at(anchor, column, row),
        drag.source_column >= 0,
        drag.source_tile >= 0,
        tree.drops_to(Some(TargetZone::WindowSplit(anchor, direction)), target),
    ensures
        ({
            let after = strip.dropped(drag, tile, target);
            match direction {
                Direction::Left => after.columns[column].tiles == seq![tile] && after.columns[column
                    + 1] == strip.columns[column],
                Direction::Right => after.columns[column] == strip.columns[column]
                    && after.columns[column + 1].tiles == seq![tile],
                Direction::Up => after.columns[column].tiles[row] == tile
                    && after.columns[column].tiles[row + 1] == anchor,
                Direction::Down => after.columns[column].tiles[row] == anchor
                    && after.columns[column].tiles[row + 1] == tile,
            }
        }),
{
    law_a_dropped_tile_stands_where_it_was_dropped(strip, drag, tile, anchor, column, row);
}

/// A window that is dropped at an edge of a group goes beside the group's tile at that end: before
/// the first of them on the left, above the first of them at the top, behind the last one on the
/// right and below the last one at the bottom. A group without tiles leaves it the end of the strip
/// on that side. Dropped elsewhere, the window goes back, or to the end, or leaves the strip.
pub proof fn law_a_group_edge_is_its_end(
    tree: TreeModel,
    group: u64,
    direction: Direction,
    target: ColumnDropTarget,
)
    requires
        tree.has_key(group),
        tree.drops_to(Some(TargetZone::GroupEdge(group, direction)), target),
    ensures
        exists|order: Seq<NodeId>| #[trigger]
            visits(tree.nodes, seq![tree.node_keyed(group)], order) && {
                let tiles = tree.tile_keys(order);
                if tiles.len() == 0 {
                    target == if direction is Left || direction is Up {
                        ColumnDropTarget::First
                    } else {
                        ColumnDropTarget::Last
                    }
                } else {
                    match direction {
                        Direction::Left => target == ColumnDropTarget::Before(tiles[0]),
                        Direction::Up => target == ColumnDropTarget::Above(tiles[0]),
                        Direction::Right => target == ColumnDropTarget::After(
                            tiles[tiles.len() - 1],
                        ),
                        Direction::Down => target == ColumnDropTarget::Below(
                            tiles[tiles.len() - 1],
                        ),
                    }
                }
            },
{
    let id = tree.node_keyed(group);
    let tile = choose|tile: Option<u64>| #[trigger]
        tree.boundary_tile(tree.found(group), crate::moves::leading(direction), tile) && target
            == crate::zones::edge_target(direction, tile);
    let order = choose|order: Seq<NodeId>| #[trigger]
        tree.ends_with(id, order, crate::moves::leading(direction), tile);
    assert(visits(tree.nodes, seq![id], order));
}

/// A window that is dropped between two children of a group goes behind the last tile of the
/// first of them, or before the first tile of the second one if that has none: to the right or to
/// the left of it in a group that is split into columns, below or above it in one that is split
/// into rows.
pub proof fn law_between_children_is_between_tiles(
    tree: TreeModel,
    group: u64,
    index: usize,
    target: ColumnDropTarget,
)
    requires
        tree.has_key(group),
        tree.data(tree.node_keyed(group)) is Group,
        tree.drops_to(Some(TargetZone::GroupInterior(group, index)), target),
        index + 1 < tree.children(tree.node_keyed(group)).len(),
    ensures
        exists|before: Seq<NodeId>, behind: Seq<NodeId>|
            #![trigger tree.tile_keys(before), tree.tile_keys(behind)]
            {
                let id = tree.node_keyed(group);
                let first = tree.tile_keys(before);
                let second = tree.tile_keys(behind);
                let columns = tree.data(id)->Group_orientation is Vertical;
                &&& visits(tree.nodes, seq![tree.children(id)[index as int]], before)
                &&& visits(tree.nodes, seq![tree.children(id)[index + 1]], behind)
                &&& if first.len() > 0 {
                    let last = first[first.len() - 1];
                    target == if columns {
                        ColumnDropTarget::After(last)
                    } else {
                        ColumnDropTarget::Below(last)
                    }
                } else if second.len() > 0 {
                    target == if columns {
                        ColumnDropTarget::Before(second[0])
                    } else {
                        ColumnDropTarget::Above(second[0])
                    }
                } else {
                    target is Last
                }
            },
{
    let id = tree.node_keyed(group);
    let (previous, next) = choose|previous: Option<u64>, next: Option<u64>|
        #![trigger tree.boundary_tile(tree.nth_child(id, index as int), false, previous), tree.boundary_tile(tree.nth_child(id, index + 1), true, next)]
        tree.boundary_tile(tree.nth_child(id, index as int), false, previous)
            && tree.boundary_tile(tree.nth_child(id, index + 1), true, next) && target
            == crate::zones::interior_target(tree.data(id).spec_orientation(), previous, next);
    let before = choose|order: Seq<NodeId>| #[trigger]
        tree.ends_with(tree.children(id)[index as int], order, false, previous);
    let behind = choose|order: Seq<NodeId>| #[trigger]
        tree.ends_with(tree.children(id)[index + 1], order, true, next);
    assert(visits(tree.nodes, seq![tree.children(id)[index as int]], before));
    assert(visits(tree.nodes, seq![tree.children(id)[index + 1]], behind));
    let first = tree.tile_keys(before);
    let second = tree.tile_keys(behind);
}

/// A window in a stack is moved within the stack as long as the stack says so, and out of it when it
/// says so; everything else moves in the tree, and on the strip all of it is moved as a tile.
pub proof fn law_a_stack_moves_its_windows_first(
    layout: LayoutView,
    after: LayoutView,
    node: u64,
    direction: Direction,
    stack: StackMove,
    key: u64,
    eased: Seq<crate::queue::EasedArea>,
    result: crate::navigation::MoveResult,
    configures: Seq<crate::classic::Configure>,
)
    requires
        layout.engine is Classic,
        layout.moves_from(after, node, true, direction, stack, key, eased, result, configures),
    ensures
        stack is Handled ==> result is Done && after == layout && configures.len() == 0,
        stack is MoveOut ==> result == crate::navigation::MoveResult::ShiftFocus(key)
            && after.queue.trees.len() == layout.queue.trees.len() + 1,
        !(stack is Handled) && !(stack is MoveOut) ==> !(result is ShiftFocus),
{
}

} // verus!
