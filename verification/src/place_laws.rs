//! Where columns, tiles and windows stand on the screen.

use vstd::prelude::*;

use id_tree::NodeId;

use crate::actions::Direction;
use crate::classic::{lemma_child, outer_zone};
use crate::columns::ColumnWidth;
use crate::data::sum;
use crate::doubles::lemma_proportional;
use crate::geometry::{Point, Rectangle};
use crate::laws::lemma_position_unique;
use crate::placement::viewport_area;
use crate::rows::{law_rows_are_stacked, law_rows_cover_the_column, row_gap, ROWS_LIMIT};
use crate::strip::Strip;
use crate::tree::TreeModel;
use crate::units::SUBPIXEL;

verus! {

/// The columns stand side by side from the left end of the strip, a gap apart, and the strip ends
/// with the last one. The center of a column is halfway between its edges.
pub proof fn law_columns_stand_side_by_side(strip: Strip, column: int)
    requires
        0 <= column < strip.columns.len(),
    ensures
        strip.left_edge(0) == 0,
        strip.right_edge(column) - strip.left_edge(column) == SUBPIXEL * strip.width_of(column),
        strip.left_edge(column + 1) - strip.right_edge(column) == SUBPIXEL * strip.gap,
        2 * strip.center(column) == strip.left_edge(column) + strip.right_edge(column),
        strip.width() == strip.right_edge(strip.columns.len() - 1),
{
    let last = strip.columns.len() - 1;
    assert((column + 1) * strip.gap == column * strip.gap + strip.gap) by (nonlinear_arith);
    assert(strip.widths_before(last + 1) == strip.widths_before(last) + strip.width_of(last));
    assert(strip.widths_before(column + 1) == strip.widths_before(column) + strip.width_of(column));
}

/// A column is as wide as its share of the viewport, to the nearest pixel but for an error that
/// shows only in viewports of more than a million pixels, and never narrower than a pixel.
pub proof fn law_a_column_has_its_share(width: ColumnWidth, viewport_width: int)
    requires
        width.valid(),
        width.num <= width.den,
        0 < viewport_width <= 1_000_000,
        width.den <= 1_000_000,
    ensures
        ({
            let pixels = width.spec_pixels(viewport_width);
            let share = width.num * viewport_width;
            &&& 1 <= pixels <= viewport_width
            &&& 2 * (share - pixels * width.den) <= width.den
            &&& pixels > 1 ==> 2 * (pixels * width.den - share) <= width.den
        }),
{
    let num = width.num as int;
    let den = width.den as int;
    lemma_proportional(num, den, viewport_width);
    let found = crate::doubles::proportional(num, den, viewport_width);
    assert(0 <= num * viewport_width <= 1_000_000 * 1_000_000) by (nonlinear_arith)
        requires
            0 <= num <= 1_000_000,
            0 <= viewport_width <= 1_000_000,
    ;
    let pixels = width.spec_pixels(viewport_width);
    assert(den * found == found * den) by (nonlinear_arith);
    if found < 1 {
        assert(pixels == 1 && found * den == 0) by (nonlinear_arith)
            requires
                found == 0,
                pixels == 1,
        ;
    }
}

/// A tile begins where its column begins on the screen, to the nearest pixel, and is as wide as
/// the column. The first tile of a column begins at the top, each one a gap below the one above
/// it, and the last one ends at the bottom.
pub proof fn law_tiles_fill_their_column(
    strip: Strip,
    tile: u64,
    next: u64,
    column: int,
    row: int,
    origin: Point,
)
    requires
        strip.tidy(),
        strip.wf(),
        0 <= column < strip.columns.len(),
        0 <= row < strip.columns[column].tiles.len(),
        strip.columns[column].tiles[row] == tile,
        row + 1 < strip.columns[column].tiles.len() ==> strip.columns[column].tiles[row + 1] == next,
        strip.columns[column].tiles.len() <= ROWS_LIMIT,
        0 <= strip.column_height,
        origin.y + strip.column_height <= i32::MAX,
        strip.column_height <= i32::MAX,
        SUBPIXEL * i32::MIN <= SUBPIXEL * origin.x + strip.left_edge(column) - strip.viewport_x
            <= SUBPIXEL * i32::MAX,
    ensures
        ({
            let area = strip.tile_area(tile, origin);
            let there = SUBPIXEL * origin.x + strip.left_edge(column) - strip.viewport_x;
            let count = strip.columns[column].tiles.len();
            &&& -SUBPIXEL <= 2 * (SUBPIXEL * area.loc.x - there) <= SUBPIXEL
            &&& area.size.w == strip.width_of(column)
            &&& row == 0 ==> area.loc.y == origin.y
            &&& row + 1 == count ==> area.loc.y + area.size.h == origin.y + strip.column_height
            &&& row + 1 < count ==> {
                let below = strip.tile_area(next, origin);
                &&& below.loc.x == area.loc.x
                &&& below.size.w == area.size.w
                &&& below.loc.y == area.loc.y + area.size.h + row_gap(
                    strip.column_height,
                    strip.gap,
                    count as int,
                )
                &&& strip.gap * (count - 1) <= strip.column_height ==> below.loc.y == area.loc.y
                    + area.size.h + strip.gap
            }
        }),
{
    lemma_position_unique(strip, column, row);
    let weights = strip.column_weights(column);
    let height = strip.column_height;
    let gap = strip.gap;
    let count = strip.columns[column].tiles.len() as int;
    law_rows_cover_the_column(height, gap, weights);
    lemma_offset_inside(height, gap, weights, row);
    if row + 1 < count {
        lemma_position_unique(strip, column, row + 1);
        lemma_offset_inside(height, gap, weights, row + 1);
        law_rows_are_stacked(height, gap, weights, row);
        if gap * (count - 1) <= height {
            assert(gap <= height / (count - 1)) by (nonlinear_arith)
                requires
                    gap * (count - 1) <= height,
                    count > 1,
                    gap >= 0,
            ;
        }
    }
    assert(strip.columns[column].width.valid());
}

/// A row ends within its column.
proof fn lemma_offset_inside(height: int, gap: int, weights: Seq<u128>, row: int)
    requires
        0 <= row < weights.len() <= ROWS_LIMIT,
        0 <= height <= i32::MAX,
    ensures
        0 <= crate::rows::row_offset(height, gap, weights, row),
        0 <= crate::rows::row_height(height, gap, weights, row),
        crate::rows::row_offset(height, gap, weights, row) + crate::rows::row_height(
            height,
            gap,
            weights,
            row,
        ) <= height,
    decreases weights.len() - row,
{
    law_rows_cover_the_column(height, gap, weights);
    lemma_offset_positive(height, gap, weights, row);
    if row + 1 < weights.len() {
        lemma_offset_inside(height, gap, weights, row + 1);
        law_rows_are_stacked(height, gap, weights, row);
    } else {
        crate::rows::lemma_height_inside(height, gap, weights, row);
    }
}

/// No row begins above its column.
proof fn lemma_offset_positive(height: int, gap: int, weights: Seq<u128>, row: int)
    requires
        0 <= row < weights.len(),
    ensures
        0 <= crate::rows::row_offset(height, gap, weights, row),
    decreases row,
{
    if row > 0 {
        lemma_offset_positive(height, gap, weights, row - 1);
        law_rows_are_stacked(height, gap, weights, row - 1);
    }
}

/// The viewport leaves the outer and the inner gap free on all four sides of the usable area.
pub proof fn law_the_viewport_leaves_a_margin(usable: Rectangle, outer: i32, inner: i32)
    requires
        outer >= 0,
        inner >= 0,
        usable.size.w > 2 * (outer + inner),
        usable.size.h > 2 * (outer + inner),
        usable.loc.x + usable.size.w <= i32::MAX,
        usable.loc.y + usable.size.h <= i32::MAX,
    ensures
        ({
            let area = viewport_area(usable, (outer, inner));
            let margin = outer + inner;
            &&& area.loc.x == usable.loc.x + margin
            &&& area.loc.y == usable.loc.y + margin
            &&& area.loc.x + area.size.w == usable.loc.x + usable.size.w - margin
            &&& area.loc.y + area.size.h == usable.loc.y + usable.size.h - margin
        }),
{
}

/// The area that a tree covers leaves the outer gap free on all four sides.
pub proof fn law_a_tree_leaves_a_margin(zone: Rectangle, outer: i32)
    requires
        outer >= 0,
        zone.size.w >= 2 * outer,
        zone.size.h >= 2 * outer,
        zone.loc.x + zone.size.w <= i32::MAX,
        zone.loc.y + zone.size.h <= i32::MAX,
    ensures
        ({
            let area = outer_zone(zone, outer);
            &&& area.loc.x == zone.loc.x + outer
            &&& area.loc.y == zone.loc.y + outer
            &&& area.loc.x + area.size.w == zone.loc.x + zone.size.w - outer
            &&& area.loc.y + area.size.h == zone.loc.y + zone.size.h - outer
        }),
{
}

/// Two children of one group have the same neighbours across it.
proof fn lemma_same_neighbours(tree: TreeModel, parent: NodeId, i: int, j: int, direction: Direction)
    requires
        tree.regular(),
        tree.has(parent),
        0 <= i < tree.children(parent).len(),
        0 <= j < tree.children(parent).len(),
        tree.data(parent).spec_orientation() != crate::surgery::along(direction),
        tree.adjacent(tree.children(parent)[i], direction),
    ensures
        tree.adjacent(tree.children(parent)[j], direction),
{
    let first = tree.children(parent)[i];
    let second = tree.children(parent)[j];
    lemma_child(tree, parent, i);
    lemma_child(tree, parent, j);
    let level = choose|level: nat| #[trigger] tree.neighbour_at(first, level, direction);
    assert(tree.ancestor(first, 0) == Some(first));
    assert(tree.ancestor(first, 1) == tree.ancestor(parent, 0));
    assert(level != 0);
    assert(tree.ancestor(first, level) == tree.ancestor(parent, (level - 1) as nat));
    assert(tree.ancestor(second, level) == tree.ancestor(parent, (level - 1) as nat));
    assert(tree.ancestor(first, level + 1) == tree.ancestor(parent, level));
    assert(tree.ancestor(second, level + 1) == tree.ancestor(parent, level));
    assert(tree.neighbour_at(second, level, direction));
}

/// A child that is not the last one has a neighbour behind it, and one that is not the first one
/// has a neighbour before it.
pub proof fn lemma_neighbours_inside(tree: TreeModel, parent: NodeId, index: int, direction: Direction)
    requires
        tree.regular(),
        tree.has(parent),
        0 <= index < tree.children(parent).len(),
        tree.data(parent).spec_orientation() == crate::surgery::along(direction),
        if direction is Left || direction is Up {
            index > 0
        } else {
            index < tree.children(parent).len() - 1
        },
    ensures
        tree.adjacent(tree.children(parent)[index], direction),
{
    let child = tree.children(parent)[index];
    lemma_child(tree, parent, index);
    assert(tree.ancestor(child, 0) == Some(child));
    assert(tree.ancestor(child, 1) == tree.ancestor(parent, 0));
    assert(tree.neighbour_at(child, 0, direction));
}

/// A child of the topmost group has no neighbour across it, and none beyond its ends.
pub proof fn lemma_no_neighbours_outside(tree: TreeModel, root: NodeId, index: int, direction: Direction)
    requires
        tree.regular(),
        tree.has(root),
        tree.parent(root) is None,
        0 <= index < tree.children(root).len(),
        tree.data(root).spec_orientation() == crate::surgery::along(direction)
            ==> if direction is Left || direction is Up {
            index == 0
        } else {
            index == tree.children(root).len() - 1
        },
    ensures
        !tree.adjacent(tree.children(root)[index], direction),
{
    let child = tree.children(root)[index];
    lemma_child(tree, root, index);
    assert forall|level: nat| !#[trigger] tree.neighbour_at(child, level, direction) by {
        assert(tree.ancestor(child, 0) == Some(child));
        assert(tree.ancestor(child, 1) == tree.ancestor(root, 0));
        if level > 0 {
            assert(tree.ancestor(child, level + 1) == tree.ancestor(root, level));
        }
    }
}

/// The extents up to a child, one after the other.
pub proof fn lemma_sum_up_to(sizes: Seq<i32>, index: int)
    requires
        0 <= index < sizes.len(),
    ensures
        sum(sizes.take(index + 1)) == sum(sizes.take(index)) + sizes[index],
        sum(sizes.take(0)) == 0,
        sizes.take(sizes.len() as int) == sizes,
{
    assert(sizes.take(index + 1).drop_last() =~= sizes.take(index));
    assert(sizes.take(sizes.len() as int) =~= sizes);
}

/// Two neighbouring children of a group that is laid out stand side by side, or one above the
/// other: the second one begins where the first one ends, and both reach as far across. Between
/// two windows the gap is left free, half of it by either.
pub proof fn law_neighbours_stand_side_by_side(
    tree: TreeModel,
    after: TreeModel,
    zone: Rectangle,
    inner: i32,
    parent: NodeId,
    i: int,
)
    requires
        tree.regular(),
        tree.laid_out(after, zone, inner),
        tree.has(parent),
        tree.data(parent) is Group,
        0 <= i,
        i + 1 < tree.children(parent).len(),
        tree.data(tree.children(parent)[i]) is Mapped == (tree.data(
            tree.children(parent)[i + 1],
        ) is Mapped),
        inner >= 0,
        ({
            let group = after.data(parent);
            let start = sum(group->sizes.take(i));
            let area = group.geometry();
            let from = if group->Group_orientation is Vertical {
                area.loc.x
            } else {
                area.loc.y
            };
            &&& group->sizes.len() == tree.children(parent).len()
            &&& 0 <= start
            &&& group->sizes[i] >= 2 * inner
            &&& group->sizes[i + 1] >= 2 * inner
            &&& area.size.w >= 2 * inner
            &&& area.size.h >= 2 * inner
            &&& area.loc.x + area.size.w <= i32::MAX
            &&& area.loc.y + area.size.h <= i32::MAX
            &&& from + start + group->sizes[i] + group->sizes[i + 1] <= i32::MAX
        }),
    ensures
        ({
            let first = after.data(tree.children(parent)[i]).geometry();
            let second = after.data(tree.children(parent)[i + 1]).geometry();
            let gap = if tree.data(tree.children(parent)[i]) is Mapped {
                2 * (inner as int / 2)
            } else {
                0
            };
            if tree.data(parent)->Group_orientation is Vertical {
                &&& second.loc.x == first.loc.x + first.size.w + gap
                &&& second.loc.y == first.loc.y
                &&& second.size.h == first.size.h
            } else {
                &&& second.loc.y == first.loc.y + first.size.h + gap
                &&& second.loc.x == first.loc.x
                &&& second.size.w == first.size.w
            }
        }),
{
    let a = tree.children(parent)[i];
    let b = tree.children(parent)[i + 1];
    lemma_child(tree, parent, i);
    lemma_child(tree, parent, i + 1);
    assert(after.has(parent) && after.has(a) && after.has(b));
    assert(after.children(parent) == tree.children(parent));
    assert(after.place(parent, a) == i && after.place(parent, b) == i + 1);
    lemma_sum_up_to(after.data(parent)->sizes, i);
    if tree.data(parent)->Group_orientation is Vertical {
        lemma_neighbours_inside(tree, parent, i, Direction::Right);
        lemma_neighbours_inside(tree, parent, i + 1, Direction::Left);
        if tree.adjacent(a, Direction::Up) {
            lemma_same_neighbours(tree, parent, i, i + 1, Direction::Up);
        } else if tree.adjacent(b, Direction::Up) {
            lemma_same_neighbours(tree, parent, i + 1, i, Direction::Up);
        }
        if tree.adjacent(a, Direction::Down) {
            lemma_same_neighbours(tree, parent, i, i + 1, Direction::Down);
        } else if tree.adjacent(b, Direction::Down) {
            lemma_same_neighbours(tree, parent, i + 1, i, Direction::Down);
        }
    } else {
        lemma_neighbours_inside(tree, parent, i, Direction::Down);
        lemma_neighbours_inside(tree, parent, i + 1, Direction::Up);
        if tree.adjacent(a, Direction::Left) {
            lemma_same_neighbours(tree, parent, i, i + 1, Direction::Left);
        } else if tree.adjacent(b, Direction::Left) {
            lemma_same_neighbours(tree, parent, i + 1, i, Direction::Left);
        }
        if tree.adjacent(a, Direction::Right) {
            lemma_same_neighbours(tree, parent, i, i + 1, Direction::Right);
        } else if tree.adjacent(b, Direction::Right) {
            lemma_same_neighbours(tree, parent, i + 1, i, Direction::Right);
        }
    }
}

/// A window that is alone fills the area but for the gap, which it leaves free on all four sides.
pub proof fn law_a_lone_window_fills_the_area(
    tree: TreeModel,
    after: TreeModel,
    zone: Rectangle,
    inner: i32,
    window: NodeId,
)
    requires
        tree.regular(),
        tree.laid_out(after, zone, inner),
        tree.has(window),
        tree.parent(window) is None,
        tree.data(window) is Mapped,
        0 <= inner,
        zone.size.w >= 2 * inner,
        zone.size.h >= 2 * inner,
        zone.loc.x + zone.size.w <= i32::MAX,
        zone.loc.y + zone.size.h <= i32::MAX,
    ensures
        ({
            let area = after.data(window).geometry();
            &&& area.loc.x == zone.loc.x + inner
            &&& area.loc.y == zone.loc.y + inner
            &&& area.size.w == zone.size.w - 2 * inner
            &&& area.size.h == zone.size.h - 2 * inner
        }),
{
    assert(after.has(window));
    assert forall|level: nat, direction: Direction| !#[trigger] tree.neighbour_at(
        window,
        level,
        direction,
    ) by {
        assert(tree.ancestor(window, level + 1) is None);
    }
}

/// The windows of the topmost group begin at the area's edge but for the gap, the first one before
/// all others and the last one at the far end.
pub proof fn law_windows_reach_the_edges(
    tree: TreeModel,
    after: TreeModel,
    zone: Rectangle,
    inner: i32,
    root: NodeId,
    i: int,
)
    requires
        tree.regular(),
        tree.laid_out(after, zone, inner),
        tree.has(root),
        tree.parent(root) is None,
        tree.data(root) is Group,
        0 <= i < tree.children(root).len(),
        tree.data(tree.children(root)[i]) is Mapped,
        inner >= 0,
        zone.size.w >= 2 * inner,
        zone.size.h >= 2 * inner,
        zone.loc.x + zone.size.w <= i32::MAX,
        zone.loc.y + zone.size.h <= i32::MAX,
        ({
            let group = after.data(root);
            &&& group->sizes.len() == tree.children(root).len()
            &&& group->sizes[i] >= 2 * inner
            &&& 0 <= sum(group->sizes.take(i))
            &&& sum(group->sizes) == if group->Group_orientation is Vertical {
                zone.size.w as int
            } else {
                zone.size.h as int
            }
        }),
    ensures
        ({
            let area = after.data(tree.children(root)[i]).geometry();
            let last = tree.children(root).len() - 1;
            if tree.data(root)->Group_orientation is Vertical {
                &&& area.loc.y == zone.loc.y + inner
                &&& area.size.h == zone.size.h - 2 * inner
                &&& i == 0 ==> area.loc.x == zone.loc.x + inner
                &&& i == last ==> area.loc.x + area.size.w == zone.loc.x + zone.size.w - inner
            } else {
                &&& area.loc.x == zone.loc.x + inner
                &&& area.size.w == zone.size.w - 2 * inner
                &&& i == 0 ==> area.loc.y == zone.loc.y + inner
                &&& i == last ==> area.loc.y + area.size.h == zone.loc.y + zone.size.h - inner
            }
        }),
{
    let child = tree.children(root)[i];
    let last = tree.children(root).len() - 1;
    lemma_child(tree, root, i);
    assert(after.has(root) && after.has(child));
    assert(after.children(root) == tree.children(root));
    assert(after.place(root, child) == i);
    lemma_sum_up_to(after.data(root)->sizes, i);
    if tree.data(root)->Group_orientation is Vertical {
        lemma_no_neighbours_outside(tree, root, i, Direction::Up);
        lemma_no_neighbours_outside(tree, root, i, Direction::Down);
        if i == 0 {
            lemma_no_neighbours_outside(tree, root, i, Direction::Left);
        }
        if i == last {
            lemma_no_neighbours_outside(tree, root, i, Direction::Right);
        }
    } else {
        lemma_no_neighbours_outside(tree, root, i, Direction::Left);
        lemma_no_neighbours_outside(tree, root, i, Direction::Right);
        if i == 0 {
            lemma_no_neighbours_outside(tree, root, i, Direction::Up);
        }
        if i == last {
            lemma_no_neighbours_outside(tree, root, i, Direction::Down);
        }
    }
}

/// The tiles of a tree are taken in the order in which its nodes are visited: those of the first
/// part of the way, and behind them those of the rest.
pub proof fn law_tiles_come_in_order(tree: TreeModel, first: Seq<NodeId>, second: Seq<NodeId>, id: NodeId)
    ensures
        tree.tile_keys(first + second) == tree.tile_keys(first) + tree.tile_keys(second),
        tree.data(id) is Mapped ==> tree.tile_keys(seq![id]) == seq![tree.key(id)],
        tree.data(id) is Group ==> tree.tile_keys(seq![id]).len() == 0,
        tree.data(id) is Placeholder ==> tree.tile_keys(seq![id]).len() == if tree.data(
            id,
        )->type_ is GrabbedWindow {
            1int
        } else {
            0int
        },
    decreases second.len(),
{
    let one = seq![id];
    assert(one.drop_last() =~= seq![]);
    assert(tree.tile_keys(one.drop_last()) =~= seq![]);
    assert(tree.data(id) is Mapped ==> tree.tile_keys(one) =~= seq![tree.key(id)]);
    let all = first + second;
    if second.len() == 0 {
        assert(all =~= first);
        assert(tree.tile_keys(first) + tree.tile_keys(second) =~= tree.tile_keys(first));
    } else {
        law_tiles_come_in_order(tree, first, second.drop_last(), id);
        assert(all.drop_last() =~= first + second.drop_last());
        assert(all.last() == second.last());
        assert(tree.tile_keys(all) =~= tree.tile_keys(first) + tree.tile_keys(second));
    }
}

/// The active window of a tree is the first one on the way that is active.
pub proof fn law_the_first_active_window_counts(tree: TreeModel, order: Seq<NodeId>)
    ensures
        match tree.first_active(order) {
            Some(key) => exists|k: int|
                {
                    &&& 0 <= k < order.len()
                    &&& tree.key(#[trigger] order[k]) == key
                    &&& tree.data(order[k]) is Mapped
                    &&& tree.data(order[k])->mapped.activated
                    &&& forall|j: int|
                        0 <= j < k && tree.data(#[trigger] order[j]) is Mapped ==> !tree.data(
                            order[j],
                        )->mapped.activated
                },
            None => forall|j: int|
                0 <= j < order.len() && tree.data(#[trigger] order[j]) is Mapped ==> !tree.data(
                    order[j],
                )->mapped.activated,
        },
    decreases order.len(),
{
    if order.len() > 0 {
        let before = order.drop_last();
        law_the_first_active_window_counts(tree, before);
        assert forall|j: int| 0 <= j < before.len() implies #[trigger] order[j] == before[j] by {}
        match tree.first_active(before) {
            Some(key) => {
                let k = choose|k: int|
                    {
                        &&& 0 <= k < before.len()
                        &&& tree.key(#[trigger] before[k]) == key
                        &&& tree.data(before[k]) is Mapped
                        &&& tree.data(before[k])->mapped.activated
                        &&& forall|j: int|
                            0 <= j < k && tree.data(#[trigger] before[j]) is Mapped ==> !tree.data(
                                before[j],
                            )->mapped.activated
                    };
                assert(tree.key(order[k]) == key);
                assert forall|j: int|
                    0 <= j < k && tree.data(#[trigger] order[j]) is Mapped implies !tree.data(
                    order[j],
                )->mapped.activated by {
                    assert(before[j] == order[j]);
                }
            },
            None => {
                let last = order.len() - 1;
                assert forall|j: int|
                    0 <= j < last && tree.data(#[trigger] order[j]) is Mapped implies !tree.data(
                    order[j],
                )->mapped.activated by {
                    assert(before[j] == order[j]);
                }
                if tree.first_active(order) is Some {
                    assert(tree.key(order[last]) == tree.first_active(order)->0);
                }
            },
        }
    }
}

} // verus!
