//! Which place the pointer points to when something is dragged.

use vstd::prelude::*;

use id_tree::NodeId;

use crate::actions::Direction;
use crate::geometry::{Orientation, Point, Rectangle};
use crate::groupview::NodeArea;
use crate::hover::{area_from, edge_at, window_zone, PointerPosition};
use crate::tree::TreeModel;
use crate::units::SUBPIXEL;
use crate::zones::TargetZone;

verus! {

impl PointerPosition {
    /// Whether this is a position on a screen.
    pub open spec fn on_screen(self) -> bool {
        &&& self.x.finite()
        &&& self.y.finite()
        &&& -0x1000_0000_0000_0000 <= self.x.spec_subpixels() <= 0x1000_0000_0000_0000
        &&& -0x1000_0000_0000_0000 <= self.y.spec_subpixels() <= 0x1000_0000_0000_0000
    }
}

/// The lesser of two numbers.
pub open spec fn lesser(first: int, second: int) -> int {
    if first < second {
        first
    } else {
        second
    }
}

/// The side of an area that a position is taken to be at is the nearest one, measured against the
/// size of the area: a position in the left half is never at the right side, one in the upper half
/// never at the lower side, and a side is taken only if the position is nearer to it, or to the one
/// across from it, than to the two others.
pub proof fn law_the_nearest_side_is_taken(area: Rectangle, position: PointerPosition)
    requires
        position.on_screen(),
        area.size.w > 0,
        area.size.h > 0,
    ensures
        ({
            let x = position.x.spec_subpixels() - SUBPIXEL * area.loc.x;
            let y = position.y.spec_subpixels() - SUBPIXEL * area.loc.y;
            let w = SUBPIXEL * area.size.w;
            let h = SUBPIXEL * area.size.h;
            let side = area.nearest_side(position);
            let sideways = lesser(x, w - x) * area.size.h;
            let upright = lesser(y, h - y) * area.size.w;
            &&& side is Left ==> x < w - x
            &&& side is Right ==> x >= w - x
            &&& side is Up ==> y < h - y
            &&& side is Down ==> y >= h - y
            &&& (side is Left || side is Right) <==> sideways < upright
        }),
{
    let x = position.x.spec_subpixels() - SUBPIXEL * area.loc.x;
    let y = position.y.spec_subpixels() - SUBPIXEL * area.loc.y;
    let across = lesser(x, SUBPIXEL * area.size.w - x);
    let along = lesser(y, SUBPIXEL * area.size.h - y);
    assert(area.loc.x * SUBPIXEL == SUBPIXEL * area.loc.x && area.loc.y * SUBPIXEL == SUBPIXEL
        * area.loc.y);
}

/// A position on the right border of an area, halfway up, is at its right side, and likewise at the
/// other borders.
pub proof fn law_a_border_is_a_side(area: Rectangle, position: PointerPosition)
    requires
        position.on_screen(),
        area.size.w > 0,
        area.size.h > 0,
    ensures
        ({
            let x = position.x.spec_subpixels() - SUBPIXEL * area.loc.x;
            let y = position.y.spec_subpixels() - SUBPIXEL * area.loc.y;
            let w = SUBPIXEL * area.size.w;
            let h = SUBPIXEL * area.size.h;
            let side = area.nearest_side(position);
            &&& x == 0 && 0 < y < h ==> side is Left
            &&& x == w && 0 < y < h ==> side is Right
            &&& y == 0 && 0 <= x <= w ==> side is Up
            &&& y == h && 0 <= x <= w ==> side is Down
        }),
{
    law_the_nearest_side_is_taken(area, position);
    let x = position.x.spec_subpixels() - SUBPIXEL * area.loc.x;
    let y = position.y.spec_subpixels() - SUBPIXEL * area.loc.y;
    let w = SUBPIXEL * area.size.w;
    let h = SUBPIXEL * area.size.h;
    let across = lesser(x, w - x);
    let along = lesser(y, h - y);
    if (x == 0 || x == w) && 0 < y < h {
        assert(across * area.size.h == 0) by (nonlinear_arith)
            requires
                across == 0,
        ;
        assert(along * area.size.w > 0) by (nonlinear_arith)
            requires
                along > 0,
                area.size.w > 0,
        ;
    }
    if (y == 0 || y == h) && 0 <= x <= w {
        assert(along * area.size.w == 0) by (nonlinear_arith)
            requires
                along == 0,
        ;
        assert(across * area.size.h >= 0) by (nonlinear_arith)
            requires
                across >= 0,
                area.size.h > 0,
        ;
    }
}

/// Mirroring an area and a position exchanges left and right, or up and down, off the middle, and
/// leaves the other two sides.
pub proof fn law_mirrored_positions_are_at_mirrored_sides(
    area: Rectangle,
    position: PointerPosition,
    other: Rectangle,
    mirrored: PointerPosition,
)
    requires
        position.on_screen(),
        mirrored.on_screen(),
        area.size.w > 0,
        area.size.h > 0,
        other.size == area.size,
        other.loc.x == -(area.loc.x + area.size.w),
        other.loc.y == area.loc.y,
        mirrored.x.spec_subpixels() == -position.x.spec_subpixels(),
        mirrored.y.spec_subpixels() == position.y.spec_subpixels(),
        2 * (position.x.spec_subpixels() - SUBPIXEL * area.loc.x) != SUBPIXEL * area.size.w,
    ensures
        area.nearest_side(position) is Left <==> other.nearest_side(mirrored) is Right,
        area.nearest_side(position) is Right <==> other.nearest_side(mirrored) is Left,
        area.nearest_side(position) is Up <==> other.nearest_side(mirrored) is Up,
        area.nearest_side(position) is Down <==> other.nearest_side(mirrored) is Down,
{
    law_the_nearest_side_is_taken(area, position);
    law_the_nearest_side_is_taken(other, mirrored);
    let x = position.x.spec_subpixels() - SUBPIXEL * area.loc.x;
    let z = mirrored.x.spec_subpixels() - SUBPIXEL * other.loc.x;
    let w = SUBPIXEL * area.size.w;
    assert(z == w - x);
    assert(lesser(z, w - z) == lesser(x, w - x));
}

/// Something dragged onto the middle third of a window makes a stack of it; anywhere else on the
/// window it splits it, on the side that the pointer is nearest to.
pub proof fn law_the_middle_of_a_window_stacks(window: u64, area: Rectangle, position: PointerPosition)
    requires
        area.size.w >= 0,
        area.size.h >= 0,
        area.loc.x + area.size.w <= i32::MAX,
        area.loc.y + area.size.h <= i32::MAX,
    ensures
        ({
            let pixel = position.spec_pixel();
            let zone = window_zone(window, area, position);
            let w = (2 * area.size.w + 3) / 6;
            let h = (2 * area.size.h + 3) / 6;
            let middle = area.loc.x + w <= pixel.x < area.loc.x + 2 * w && area.loc.y + h <= pixel.y
                < area.loc.y + 2 * h;
            &&& middle ==> zone == TargetZone::WindowStack(window, area)
            &&& !middle ==> zone == TargetZone::WindowSplit(window, area.nearest_side(position))
        }),
{
}

/// The pointer is at an edge of a group if it is within 32 pixels of it, and stays there within 80
/// pixels once it is. In a corner, left goes before all others, and up goes before right and down.
pub proof fn law_edges_reach_in(
    key: u64,
    area: Rectangle,
    pixel: Point,
    hovered: Option<TargetZone>,
    side: Direction,
)
    requires
        area.size.w >= 160,
        area.size.h >= 160,
        area.loc.x + area.size.w <= i32::MAX,
        area.loc.y + area.size.h <= i32::MAX,
        area.loc.x <= pixel.x < area.loc.x + area.size.w,
        area.loc.y <= pixel.y < area.loc.y + area.size.h,
        hovered == Some(TargetZone::GroupEdge(key, side)) || !(hovered matches Some(
            TargetZone::GroupEdge(same, _),
        ) && same == key),
    ensures
        ({
            let held = hovered == Some(TargetZone::GroupEdge(key, side));
            let reach = |edge: Direction|
                if held && edge == side {
                    80int
                } else {
                    32
                };
            let left = pixel.x - area.loc.x < reach(Direction::Left);
            let up = pixel.y - area.loc.y < reach(Direction::Up);
            let right = area.loc.x + area.size.w - pixel.x <= reach(Direction::Right);
            let down = area.loc.y + area.size.h - pixel.y <= reach(Direction::Down);
            edge_at(key, area, pixel, hovered) == if left {
                Some(Direction::Left)
            } else if up {
                Some(Direction::Up)
            } else if right {
                Some(Direction::Right)
            } else if down {
                Some(Direction::Down)
            } else {
                None
            }
        }),
{
}

/// The first of some nodes that begins beyond the pointer.
proof fn lemma_behind_among(
    tree: TreeModel,
    nodes: Seq<NodeId>,
    orientation: Orientation,
    areas: Seq<NodeArea>,
    pixel: Point,
)
    ensures
        match tree.behind_among(nodes, orientation, areas, pixel) {
            Some(place) => 0 <= place < nodes.len() && tree.is_behind(
                nodes[place],
                orientation,
                areas,
                pixel,
            ) && forall|k: int|
                0 <= k < place ==> !tree.is_behind(#[trigger] nodes[k], orientation, areas, pixel),
            None => forall|k: int|
                0 <= k < nodes.len() ==> !tree.is_behind(
                    #[trigger] nodes[k],
                    orientation,
                    areas,
                    pixel,
                ),
        },
    decreases nodes.len(),
{
    if nodes.len() > 0 {
        let rest = nodes.drop_last();
        lemma_behind_among(tree, rest, orientation, areas, pixel);
        assert forall|k: int| 0 <= k < rest.len() implies #[trigger] nodes[k] == rest[k] by {}
    }
}

/// Between the children of a group, the pointer points behind the last child before it: it is not
/// before the beginning of the child that it is told to be behind, unless that is the first one,
/// and it is before the beginning of the next one.
pub proof fn law_the_pointer_is_between_two_children(
    tree: TreeModel,
    group: NodeId,
    areas: Seq<NodeArea>,
    pixel: Point,
)
    requires
        tree.children(group).len() >= 2,
        forall|k: int|
            0 <= k < tree.children(group).len() ==> area_from(
                areas,
                tree.key(#[trigger] tree.children(group)[k]),
                0,
            ) is Some,
    ensures
        ({
            let index = tree.interior_index(group, areas, pixel);
            let ids = tree.children(group);
            let start = |k: int|
                if tree.data(group)->orientation == Orientation::Vertical {
                    area_from(areas, tree.key(ids[k]), 0)->0.loc.x as int
                } else {
                    area_from(areas, tree.key(ids[k]), 0)->0.loc.y as int
                };
            let at = if tree.data(group)->orientation == Orientation::Vertical {
                pixel.x as int
            } else {
                pixel.y as int
            };
            &&& 0 <= index < ids.len()
            &&& (exists|k: int| 1 <= k < ids.len() && at < #[trigger] start(k)) && start(0) <= at
                ==> index + 1 < ids.len() && start(index) <= at < start(index + 1)
            &&& (forall|k: int| 0 <= k < ids.len() ==> #[trigger] start(k) <= at) ==> index == 0
            &&& at < start(0) ==> index == 0
        }),
{
    let ids = tree.children(group);
    let orientation = tree.data(group).spec_orientation();
    lemma_behind_among(tree, ids, orientation, areas, pixel);
    let start = |k: int|
        if tree.data(group)->orientation == Orientation::Vertical {
            area_from(areas, tree.key(ids[k]), 0)->0.loc.x as int
        } else {
            area_from(areas, tree.key(ids[k]), 0)->0.loc.y as int
        };
    let at = if tree.data(group)->orientation == Orientation::Vertical {
        pixel.x as int
    } else {
        pixel.y as int
    };
    assert forall|k: int| 0 <= k < ids.len() implies tree.is_behind(
        #[trigger] ids[k],
        orientation,
        areas,
        pixel,
    ) == (at < start(k)) by {
        assert(area_from(areas, tree.key(tree.children(group)[k]), 0) is Some);
    }
    match tree.behind_among(ids, orientation, areas, pixel) {
        Some(place) => {
            assert(tree.is_behind(ids[place], orientation, areas, pixel));
            assert(at < start(place));
            if place > 0 {
                assert(!tree.is_behind(ids[place - 1], orientation, areas, pixel));
                assert(!tree.is_behind(ids[0], orientation, areas, pixel));
                assert(start(place - 1) <= at);
            }
        },
        None => {
            assert forall|k: int| 0 <= k < ids.len() implies #[trigger] start(k) <= at by {
                assert(!tree.is_behind(ids[k], orientation, areas, pixel));
            }
        },
    }
}

} // verus!
