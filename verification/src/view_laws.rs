//! Where nodes and windows stand in an overview.

use vstd::prelude::*;

use id_tree::NodeId;

use crate::actions::Direction;
use crate::classic::lemma_child;
use crate::data::{sum, DataView, PillIndicator};
use crate::extent_laws::{lemma_nearest_part, LONGEST_SIDE};
use crate::fitting::swap_area;
use crate::geometry::{Rectangle, Size};
use crate::groupview::{view_sizes, DecorationKey, NodeArea, ViewMode};
use crate::place_laws::{
    lemma_neighbours_inside, lemma_no_neighbours_outside, lemma_sum_up_to,
};
use crate::rendering::{DrawState, Fading, Shown};
use crate::tree::TreeModel;

verus! {

/// In an overview the children of a group share its area side by side, or one above the other, as
/// they do on the screen: the first one begins where the area begins, and each of the others where
/// the one before it ends.
pub proof fn law_an_overview_keeps_the_order(data: DataView, area: Rectangle, index: int)
    requires
        data is Group,
        0 <= index,
        index + 1 < data->sizes.len(),
        ({
            let columns = data->Group_orientation is Vertical;
            let (from, to, start) = if columns {
                (data.geometry().size.w as int, area.size.w as int, area.loc.x)
            } else {
                (data.geometry().size.h as int, area.size.h as int, area.loc.y)
            };
            let sizes = view_sizes(data->sizes, from, to);
            &&& 0 <= sum(sizes.take(index))
            &&& 0 <= sizes[index]
            &&& start + sum(sizes.take(index)) + sizes[index] <= i32::MAX
            &&& sum(sizes.take(index)) + sizes[index] <= i32::MAX
        }),
    ensures
        ({
            let first = data.view_part(area, 0);
            let one = data.view_part(area, index);
            let next = data.view_part(area, index + 1);
            &&& first.loc == area.loc
            &&& if data->Group_orientation is Vertical {
                &&& next.loc.x == one.loc.x + one.size.w
                &&& next.loc.y == one.loc.y == area.loc.y
                &&& next.size.h == one.size.h == area.size.h
            } else {
                &&& next.loc.y == one.loc.y + one.size.h
                &&& next.loc.x == one.loc.x == area.loc.x
                &&& next.size.w == one.size.w == area.size.w
            }
        }),
{
    let columns = data->Group_orientation is Vertical;
    let (from, to) = if columns {
        (data.geometry().size.w as int, area.size.w as int)
    } else {
        (data.geometry().size.h as int, area.size.h as int)
    };
    let sizes = view_sizes(data->sizes, from, to);
    lemma_sum_up_to(sizes, index);
}

/// Between two children in an overview the gap is left free, half of it by either; at the ends of
/// a group and across it nothing is. Where a window is dragged over, the gap is that for
/// placeholders.
pub proof fn law_an_overview_leaves_gaps(
    tree: TreeModel,
    parent: NodeId,
    index: int,
    given: Rectangle,
    mode: ViewMode,
)
    requires
        tree.regular(),
        tree.has(parent),
        0 <= index < tree.children(parent).len(),
        !tree.beside_placeholder(tree.children(parent)[index]),
        0 <= mode.gap,
        mode.gap <= given.size.w,
        mode.gap <= given.size.h,
        given.loc.x + given.size.w <= i32::MAX,
        given.loc.y + given.size.h <= i32::MAX,
    ensures
        ({
            let area = tree.framed(tree.children(parent)[index], given, false, mode);
            let half = mode.gap as int / 2;
            let before = if index > 0 {
                half
            } else {
                0
            };
            let behind = if index + 1 < tree.children(parent).len() {
                half
            } else {
                0
            };
            if tree.data(parent)->Group_orientation is Vertical {
                &&& area.loc.x == given.loc.x + before
                &&& area.loc.x + area.size.w == given.loc.x + given.size.w - behind
                &&& area.loc.y == given.loc.y
                &&& area.size.h == given.size.h
            } else {
                &&& area.loc.y == given.loc.y + before
                &&& area.loc.y + area.size.h == given.loc.y + given.size.h - behind
                &&& area.loc.x == given.loc.x
                &&& area.size.w == given.size.w
            }
        }),
{
    lemma_child(tree, parent, index);
}

/// The bar that shows where a window would go at an edge of a group is sixteen pixels thick and
/// lies along that edge. What is in the group makes room for it, forty-eight pixels on that side.
pub proof fn law_a_bar_lies_along_its_edge(area: Rectangle)
    requires
        area.size.w >= 48,
        area.size.h >= 48,
        area.loc.x + area.size.w <= i32::MAX,
        area.loc.y + area.size.h <= i32::MAX,
    ensures
        ({
            let left = area.pill_at(Direction::Left);
            let right = area.pill_at(Direction::Right);
            let top = area.pill_at(Direction::Up);
            let bottom = area.pill_at(Direction::Down);
            &&& left.loc == area.loc && left.size.w == 16 && left.size.h == area.size.h
            &&& right.loc.x + right.size.w == area.loc.x + area.size.w && right.size.w == 16
                && right.loc.y == area.loc.y && right.size.h == area.size.h
            &&& top.loc == area.loc && top.size.h == 16 && top.size.w == area.size.w
            &&& bottom.loc.y + bottom.size.h == area.loc.y + area.size.h && bottom.size.h == 16
                && bottom.loc.x == area.loc.x && bottom.size.w == area.size.w
        }),
        ({
            let left = area.beside_pill(Direction::Left);
            let right = area.beside_pill(Direction::Right);
            let top = area.beside_pill(Direction::Up);
            let bottom = area.beside_pill(Direction::Down);
            &&& left.loc.x == area.loc.x + 48 && left.loc.x + left.size.w == area.loc.x
                + area.size.w && left.loc.y == area.loc.y && left.size.h == area.size.h
            &&& right.loc == area.loc && right.size.w == area.size.w - 48 && right.size.h
                == area.size.h
            &&& top.loc.y == area.loc.y + 48 && top.loc.y + top.size.h == area.loc.y + area.size.h
                && top.loc.x == area.loc.x && top.size.w == area.size.w
            &&& bottom.loc == area.loc && bottom.size.h == area.size.h - 48 && bottom.size.w
                == area.size.w
        }),
{
}

/// What waits to be swapped is shown in the upper right corner of what has the focus, no larger than
/// it is and no larger than 360 by 240 pixels.
pub proof fn law_what_waits_is_shown_in_the_corner(size: Size, focused: Rectangle)
    requires
        0 < size.w <= LONGEST_SIDE,
        0 < size.h <= LONGEST_SIDE,
        0 <= focused.size.w <= LONGEST_SIDE,
        -LONGEST_SIDE <= focused.loc.x <= LONGEST_SIDE,
    ensures
        ({
            let area = swap_area(size, focused);
            &&& area.loc.x + area.size.w == focused.loc.x + focused.size.w
            &&& area.loc.y == focused.loc.y
            &&& 0 <= area.size.w <= 360
            &&& 0 <= area.size.h <= 240
            &&& area.size.w <= size.w
            &&& area.size.h <= size.h
            &&& size.w <= 360 && size.h <= 240 ==> area.size == size
        }),
{
    let factor = crate::fitting::spec_swap_factor(size);
    let num = factor.num as int;
    let den = factor.den as int;
    let w = size.w as int;
    let h = size.h as int;
    lemma_swap_factor(size);
    lemma_shrunk(num, den, w, 360);
    lemma_shrunk(num, den, h, 240);
}

/// The factor that brings both sides of what is swapped below their limits.
proof fn lemma_swap_factor(size: Size)
    requires
        0 < size.w <= LONGEST_SIDE,
        0 < size.h <= LONGEST_SIDE,
    ensures
        ({
            let factor = crate::fitting::spec_swap_factor(size);
            &&& 0 < factor.num <= factor.den <= LONGEST_SIDE
            &&& factor.num * size.w <= 360 * factor.den
            &&& factor.num * size.h <= 240 * factor.den
            &&& size.w <= 360 && size.h <= 240 ==> factor.num == factor.den
        }),
{
    let w = size.w as int;
    let h = size.h as int;
    let factor = crate::fitting::spec_swap_factor(size);
    let num = factor.num as int;
    let den = factor.den as int;
    if w > 360 && h > 240 {
        assert(num == 240 && den == h && 240 * w < 360 * h || num == 360 && den == w && 240 * w
            >= 360 * h);
        assert(num * w <= 360 * den && num * h <= 240 * den) by (nonlinear_arith)
            requires
                num == 240 && den == h && 240 * w < 360 * h || num == 360 && den == w && 240 * w
                    >= 360 * h,
                w > 0,
                h > 0,
        ;
    } else if w > 360 {
        assert(num == 360 && den == w);
        assert(num * w <= 360 * den && num * h <= 240 * den) by (nonlinear_arith)
            requires
                num == 360,
                den == w,
                w > 360,
                0 < h <= 240,
        ;
    } else if h > 240 {
        assert(num == 240 && den == h);
        assert(num * w <= 360 * den && num * h <= 240 * den) by (nonlinear_arith)
            requires
                num == 240,
                den == h,
                h > 240,
                0 < w <= 360,
        ;
    } else {
        assert(num == 1 && den == 1);
        assert(num * w <= 360 * den && num * h <= 240 * den) by (nonlinear_arith)
            requires
                num == 1,
                den == 1,
                w <= 360,
                h <= 240,
        ;
    }
}

/// What is scaled down is no larger than it was, and no larger than its part of the limit.
proof fn lemma_shrunk(num: int, den: int, length: int, limit: int)
    requires
        0 < num <= den <= LONGEST_SIDE,
        0 <= length <= LONGEST_SIDE,
        num * length <= limit * den,
    ensures
        0 <= crate::data::scaled(num, den, length) <= length,
        crate::data::scaled(num, den, length) <= limit,
        num == den ==> crate::data::scaled(num, den, length) == length,
{
    lemma_nearest_part(num, den, length);
    let part = crate::data::scaled(num, den, length) as int;
    assert(part <= limit) by (nonlinear_arith)
        requires
            2 * (den * part - num * length) <= den,
            num * length <= limit * den,
            den > 0,
    ;
    if num == den {
        assert(part == length) by (nonlinear_arith)
            requires
                -den <= 2 * (den * part - num * length) <= den,
                num == den,
                den > 0,
        ;
    }
}

/// An area that is shrunk into a smaller one fits into it: it is as high or as wide, whichever
/// comes first, and keeps its shape.
pub proof fn law_a_shrunk_area_fits(from: Rectangle, into: Rectangle)
    requires
        0 < into.size.w <= from.size.w <= LONGEST_SIDE,
        0 < into.size.h <= from.size.h <= LONGEST_SIDE,
    ensures
        ({
            let area = from.spec_fitted(into);
            let wide = into.size.w * from.size.h > into.size.h * from.size.w;
            &&& 0 <= area.size.w <= into.size.w
            &&& 0 <= area.size.h <= into.size.h
            &&& wide ==> area.size.h == into.size.h && area.loc.y == into.loc.y
            &&& !wide ==> area.size.w == into.size.w && area.loc.x == into.loc.x
            &&& wide ==> -from.size.h <= 2 * (from.size.h * area.size.w - into.size.h
                * from.size.w) <= from.size.h
            &&& !wide ==> -from.size.w <= 2 * (from.size.w * area.size.h - into.size.w
                * from.size.h) <= from.size.w
        }),
{
    let (w, h) = (from.size.w as int, from.size.h as int);
    let (to_w, to_h) = (into.size.w as int, into.size.h as int);
    if to_w * h > to_h * w {
        lemma_nearest_part(to_h, h, w);
        lemma_nearest_part(to_h, h, h);
        let part = crate::data::scaled(to_h, h, w) as int;
        let same = crate::data::scaled(to_h, h, h) as int;
        assert(part <= to_w) by (nonlinear_arith)
            requires
                2 * (h * part - to_h * w) <= h,
                to_w * h > to_h * w,
                h > 0,
        ;
        assert(same == to_h) by (nonlinear_arith)
            requires
                -h <= 2 * (h * same - to_h * h) <= h,
                h > 0,
        ;
    } else {
        lemma_nearest_part(to_w, w, h);
        lemma_nearest_part(to_w, w, w);
        let part = crate::data::scaled(to_w, w, h) as int;
        let same = crate::data::scaled(to_w, w, w) as int;
        assert(part <= to_h) by (nonlinear_arith)
            requires
                2 * (w * part - to_w * h) <= w,
                to_w * h <= to_h * w,
                w > 0,
        ;
        assert(same == to_w) by (nonlinear_arith)
            requires
                -w <= 2 * (w * same - to_w * w) <= w,
                w > 0,
        ;
    }
}

/// A window that is drawn fading out is one that was there and is not any more, unless everything
/// fades because something is swapped; a maximized one never is.
pub proof fn law_what_is_gone_fades(
    tree: TreeModel,
    order: Seq<NodeId>,
    next: TreeModel,
    areas: Seq<NodeArea>,
    swapping: bool,
    fading: Fading,
)
    requires
        tree.fading_of(order, next, areas, swapping).contains(fading),
    ensures
        !swapping ==> forall|id: NodeId| #[trigger]
            next.has(id) ==> !(next.data(id) is Mapped && next.data(id)->mapped.id
                == fading.window),
        exists|k: int|
            {
                let data = tree.data(order[k]);
                &&& 0 <= k < order.len()
                &&& tree.data(#[trigger] order[k]) is Mapped
                &&& data->mapped.id == fading.window
                &&& !data->mapped.maximized
                &&& fading.original == data.geometry()
                &&& fading.minimize == data->minimize_rect
            },
    decreases order.len(),
{
    let rest = tree.fading_of(order.drop_last(), next, areas, swapping);
    if rest.contains(fading) {
        law_what_is_gone_fades(tree, order.drop_last(), next, areas, swapping, fading);
        let k = choose|k: int|
            {
                let data = tree.data(order.drop_last()[k]);
                &&& 0 <= k < order.drop_last().len()
                &&& tree.data(#[trigger] order.drop_last()[k]) is Mapped
                &&& data->mapped.id == fading.window
                &&& !data->mapped.maximized
                &&& fading.original == data.geometry()
                &&& fading.minimize == data->minimize_rect
            };
        assert(order[k] == order.drop_last()[k]);
    } else {
        let all = tree.fading_of(order, next, areas, swapping);
        let at = all.index_of(fading);
        assert(all[at] == fading);
        if at < rest.len() {
            assert(rest[at] == fading);
        }
        assert(tree.data(order[order.len() - 1]) is Mapped);
        if !swapping {
            assert(!next.has_window(fading.window));
        }
    }
}

/// A node is drawn with a frame if it has the focus or waits to be exchanged, a group always four
/// pixels thick. What is exchanged is drawn above the rest, what moves apart from what does not.
/// In an overview everything is scaled to fit; elsewhere what moves or is being resized is
/// stretched, and all else is cut off where its area ends.
pub proof fn law_a_node_is_drawn_by_its_part(
    tree: TreeModel,
    shown: Shown,
    geometry: Rectangle,
    committed: Size,
    live: Seq<u64>,
    state: DrawState,
)
    ensures
        ({
            let drawing = tree.drawing_of(shown, geometry, committed, live, state);
            let focused = state.focused == Some(shown.key);
            let waits = state.swap is Some && state.swap->0.node == shown.key;
            let moves = shown.from is Some && shown.from->0 != shown.target;
            &&& !focused && !waits ==> drawing.indicator is None && drawing.backdrop is None
                && drawing.resize_edges is None && !drawing.swap_indicator && !drawing.overlay
            &&& focused && shown.group ==> drawing.indicator == Some(4u8) && drawing.backdrop
                == Some(true)
            &&& focused && !shown.group && state.indicator_thickness > 0 ==> drawing.indicator
                == Some(state.indicator_thickness) && drawing.backdrop is None
            &&& focused && !shown.group && state.indicator_thickness == 0
                ==> drawing.indicator is None
            &&& !state.resizing ==> drawing.resize_edges is None
            &&& state.is_overview ==> drawing.constraint is Fit && drawing.max_size is None
                && !drawing.from_source
            &&& !state.is_overview && (moves || live.contains(shown.key))
                ==> drawing.constraint is Stretch
            &&& !state.is_overview && !moves && !live.contains(shown.key)
                ==> drawing.constraint is CutOff
            &&& !state.is_overview && live.contains(shown.key) ==> drawing.max_size == Some(
                committed,
            ) && drawing.from_source
            &&& state.swap is None ==> !(drawing.layer is Swap) && (drawing.layer is Moving
                <==> moves)
            &&& waits && state.swap->0.whole ==> drawing.layer is Swap
            &&& !state.is_overview ==> drawing.outer_gap == 4
        }),
{
}

/// A node that can be resized shows the edges where something lies next to it.
pub proof fn law_edges_with_neighbours_can_move(tree: TreeModel, root: NodeId, index: int)
    requires
        tree.regular(),
        tree.keyed(),
        tree.has(root),
        tree.parent(root) is None,
        tree.data(root) is Group,
        0 <= index < tree.children(root).len(),
        tree.children(root).len() > 1,
    ensures
        ({
            let child = tree.children(root)[index];
            let edges = tree.edges_of(tree.key(child));
            let last = tree.children(root).len() - 1;
            let columns = tree.data(root)->Group_orientation is Vertical;
            &&& edges is Some
            &&& edges->0.left == (columns && index > 0)
            &&& edges->0.right == (columns && index < last)
            &&& edges->0.top == (!columns && index > 0)
            &&& edges->0.bottom == (!columns && index < last)
        }),
{
    let child = tree.children(root)[index];
    lemma_child(tree, root, index);
    let key = tree.key(child);
    assert(tree.has_key(key));
    let found = tree.node_keyed(key);
    assert(tree.has(found) && tree.key(found) == key);
    assert(found == child);
    lemma_sides(tree, root, index, Direction::Left);
    lemma_sides(tree, root, index, Direction::Right);
    lemma_sides(tree, root, index, Direction::Up);
    lemma_sides(tree, root, index, Direction::Down);
}

/// Whether something lies next to a child of the topmost group.
proof fn lemma_sides(tree: TreeModel, root: NodeId, index: int, direction: Direction)
    requires
        tree.regular(),
        tree.has(root),
        tree.parent(root) is None,
        tree.data(root) is Group,
        0 <= index < tree.children(root).len(),
    ensures
        tree.adjacent(tree.children(root)[index], direction) == (tree.data(root)->Group_orientation
            == crate::surgery::along(direction) && if direction is Left || direction is Up {
            index > 0
        } else {
            index < tree.children(root).len() - 1
        }),
{
    if tree.data(root)->Group_orientation == crate::surgery::along(direction)
        && if direction is Left || direction is Up {
        index > 0
    } else {
        index < tree.children(root).len() - 1
    } {
        lemma_neighbours_inside(tree, root, index, direction);
    } else {
        lemma_no_neighbours_outside(tree, root, index, direction);
    }
}

/// Where a window would go between two children of a group, they make room for the bar that shows
/// it, thirty-two pixels either, and all others stay as they are.
pub proof fn law_children_make_room_for_a_bar(data: DataView, area: Rectangle, index: int, pill: usize)
    requires
        data is Group,
        0 <= index,
        data->pill_indicator == Some(PillIndicator::Inner(pill)),
        data.view_part(area, index).size.w >= 32,
        data.view_part(area, index).size.h >= 32,
        data.view_part(area, index).loc.x + 32 <= i32::MAX,
        data.view_part(area, index).loc.y + 32 <= i32::MAX,
    ensures
        ({
            let part = data.view_part(area, index);
            let slot = data.view_slot(area, index, true);
            let columns = data->Group_orientation is Vertical;
            &&& data.view_slot(area, index, false) == part
            &&& index == pill ==> slot.loc == part.loc && if columns {
                slot.size.w == part.size.w - 32 && slot.size.h == part.size.h
            } else {
                slot.size.h == part.size.h - 32 && slot.size.w == part.size.w
            }
            &&& index == pill + 1 ==> if columns {
                slot.loc.x == part.loc.x + 32 && slot.loc.y == part.loc.y && slot.size.w
                    == part.size.w - 32 && slot.size.h == part.size.h
            } else {
                slot.loc.y == part.loc.y + 32 && slot.loc.x == part.loc.x && slot.size.h
                    == part.size.h - 32 && slot.size.w == part.size.w
            }
            &&& index != pill && index != pill + 1 ==> slot == part
        }),
{
}

/// A window in an overview has a backdrop unless it is inside of the group that has the focus;
/// without a focus it has one where a window is dragged about. The backdrop of the window with the
/// focus stands out, and so does that of a window that a dragged one would be stacked onto.
pub proof fn law_the_backdrop_shows_the_focus(
    tree: TreeModel,
    id: NodeId,
    framed: Rectangle,
    mode: ViewMode,
)
    requires
        tree.keyed(),
        tree.has(id),
        !tree.is_potential(id, mode),
    ensures
        ({
            let drawn = tree.window_decorations(id, framed, mode);
            let key = tree.key(id);
            let onto = mode.mouse && mode.stack_zone == Some(key);
            &&& mode.focused is None && !mode.mouse ==> drawn.len() == 0
            &&& mode.focused is None && mode.mouse ==> drawn.len() == 1 && drawn[0].percent == if onto {
                40int
            } else {
                15int
            }
            &&& mode.focused == Some(key) ==> drawn.len() == 1 && drawn[0].percent == 40
            &&& drawn.len() > 0 ==> !drawn[0].outline && drawn[0].key == DecorationKey::Overview(key)
                && drawn[0].accent == onto
        }),
{
    if mode.focused == Some(tree.key(id)) {
        let found = tree.node_keyed(tree.key(id));
        assert(tree.has(found) && tree.key(found) == tree.key(id));
    }
}

} // verus!
