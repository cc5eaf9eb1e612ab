//! What lies under the pointer, and how long it takes to act.

use vstd::prelude::*;

use id_tree::NodeId;

use crate::classic::Configure;
use crate::geometry::{Orientation, Point};
use crate::groupview::NodeArea;
use crate::hover::{area_from, OverviewState, PointerPosition};
use crate::layout::{Hover, LayoutView};
use crate::lineage::{lemma_below_parent, lemma_below_self, lemma_below_trans};
use crate::lookups::{KeyboardFocusView, WindowArea};
use crate::pointer::{bounds_from, candidates, can_be_at, Beneath, WindowBounds};
use crate::tree::TreeModel;
use crate::zones::TargetZone;

verus! {

/// The area with a key is one of those that are given.
proof fn lemma_area_from(areas: Seq<NodeArea>, key: u64, from: int)
    requires
        0 <= from,
        area_from(areas, key, from) is Some,
    ensures
        exists|k: int|
            0 <= k < areas.len() && (#[trigger] areas[k]).key == key && area_from(areas, key, from)
                == Some(areas[k].geometry),
    decreases areas.len() - from,
{
    if areas[from].key != key {
        lemma_area_from(areas, key, from + 1);
    }
}

impl TreeModel {
    /// Whether a node has an area that the pixel lies in.
    pub open spec fn lies_at(self, id: NodeId, areas: Seq<NodeArea>, pixel: Point) -> bool {
        exists|k: int|
            0 <= k < areas.len() && (#[trigger] areas[k]).key == self.key(id)
                && areas[k].geometry.loc.x <= pixel.x < areas[k].geometry.loc.x
                + areas[k].geometry.size.w && areas[k].geometry.loc.y <= pixel.y
                < areas[k].geometry.loc.y + areas[k].geometry.size.h
    }
}

/// A node at a pixel has an area there.
proof fn lemma_lies_at(tree: TreeModel, id: NodeId, areas: Seq<NodeArea>, pixel: Point)
    requires
        tree.is_at(id, areas, pixel),
    ensures
        tree.lies_at(id, areas, pixel),
{
    lemma_area_from(areas, tree.key(id), 0);
}

/// The first node at a pixel is one of the list, and no earlier one is at it.
proof fn lemma_at_among(tree: TreeModel, nodes: Seq<NodeId>, areas: Seq<NodeArea>, pixel: Point)
    ensures
        match tree.at_among(nodes, areas, pixel) {
            Some(id) => nodes.contains(id) && tree.is_at(id, areas, pixel),
            None => forall|k: int|
                0 <= k < nodes.len() ==> !tree.is_at(#[trigger] nodes[k], areas, pixel),
        },
    decreases nodes.len(),
{
    if nodes.len() > 0 {
        lemma_at_among(tree, nodes.drop_last(), areas, pixel);
        let last = nodes[nodes.len() - 1];
        match tree.at_among(nodes.drop_last(), areas, pixel) {
            Some(id) => {
                let at = nodes.drop_last().index_of(id);
                assert(nodes.drop_last()[at] == id);
                assert(nodes[at] == id);
            },
            None => {
                assert(nodes.contains(last));
                if !tree.is_at(last, areas, pixel) {
                    assert forall|k: int| 0 <= k < nodes.len() implies !tree.is_at(
                        #[trigger] nodes[k],
                        areas,
                        pixel,
                    ) by {
                        if k < nodes.len() - 1 {
                            assert(nodes.drop_last()[k] == nodes[k]);
                        }
                    }
                }
            },
        }
    }
}

/// A way down through the areas at a pixel stays at it.
proof fn lemma_descent(
    tree: TreeModel,
    path: Seq<NodeId>,
    top: NodeId,
    areas: Seq<NodeArea>,
    pixel: Point,
    steps: int,
)
    requires
        tree.forest(),
        tree.has(top),
        tree.is_at(top, areas, pixel),
        tree.descends(path, top, areas, pixel),
        0 <= steps < path.len(),
    ensures
        tree.has(path[steps]),
        tree.below(path[steps], top),
        tree.is_at(path[steps], areas, pixel),
    decreases steps,
{
    if steps == 0 {
        lemma_below_self(tree, top);
    } else {
        lemma_descent(tree, path, top, areas, pixel, steps - 1);
        let above = path[steps - 1];
        let next = path[steps];
        assert(tree.next_under(above, areas, pixel) == Some(next));
        lemma_at_among(tree, tree.children(above), areas, pixel);
        let at = tree.children(above).index_of(next);
        assert(tree.children(above)[at] == next);
        assert(tree.has(tree.children(above)[at]));
        lemma_below_self(tree, above);
        lemma_below_parent(tree, next, above);
        lemma_below_trans(tree, next, above, top);
    }
}

/// The pointer marks a zone of the innermost node whose area it is in: none of that node's
/// children has an area there, unless the node keeps room for a window that is dragged.
pub proof fn law_the_zone_is_under_the_pointer(
    tree: TreeModel,
    top: NodeId,
    areas: Seq<NodeArea>,
    position: PointerPosition,
    hovered: Option<TargetZone>,
    target: TargetZone,
)
    requires
        tree.forest(),
        tree.has(top),
        tree.zone_from(top, areas, position, hovered, Some(target)),
    ensures
        exists|found: NodeId|
            {
                let key = tree.key(found);
                &&& tree.has(found)
                &&& tree.below(found, top)
                &&& #[trigger] tree.lies_at(found, areas, position.spec_pixel())
                &&& tree.data(found) is Mapped ==> match target {
                    TargetZone::WindowStack(window, _) => window == key,
                    TargetZone::WindowSplit(window, _) => window == key,
                    _ => false,
                }
                &&& tree.data(found) is Placeholder ==> target == TargetZone::InitialPlaceholder(key)
                &&& tree.data(found) is Group && !tree.keeps_room(found) ==> {
                    &&& match target {
                        TargetZone::GroupEdge(group, _) => group == key,
                        TargetZone::GroupInterior(group, _) => group == key,
                        _ => false,
                    }
                    &&& forall|k: int|
                        0 <= k < tree.children(found).len() ==> !tree.is_at(
                            #[trigger] tree.children(found)[k],
                            areas,
                            position.spec_pixel(),
                        )
                }
                &&& tree.data(found) is Group && tree.keeps_room(found) ==> target is WindowStack
                    || target is WindowSplit
            },
{
    let pixel = position.spec_pixel();
    let found = choose|found: NodeId| #[trigger]
        tree.innermost(found, top, areas, pixel) && Some(target) == Some(
            tree.zone_in(found, areas, position, hovered),
        );
    let path = choose|path: Seq<NodeId>| #[trigger]
        tree.descends(path, top, areas, pixel) && path.last() == found;
    lemma_descent(tree, path, top, areas, pixel, path.len() - 1);
    lemma_lies_at(tree, found, areas, pixel);
    lemma_at_among(tree, tree.children(found), areas, pixel);
}

/// The pointer has to stay in another zone for a while before it is followed: for half a second
/// over the place that a window was taken from, for a bit less than a sixth of one elsewhere. If
/// it comes back before that, nothing happens.
pub proof fn law_the_pointer_is_followed_after_a_while(
    layout: LayoutView,
    after: LayoutView,
    root: NodeId,
    hover: Hover,
    target: TargetZone,
    now: u64,
    base: u64,
    configures: Option<Seq<Configure>>,
)
    requires
        layout.hover == Some(hover),
        layout.sees(after, root, target, now, base, configures),
    ensures
        ({
            let wait: int = if hover.zone is InitialPlaceholder {
                500
            } else {
                150
            };
            let marked = Hover { since: None, zone: target };
            &&& hover.zone == target ==> after == (LayoutView { hover: Some(marked), ..layout })
                && configures is None
            &&& hover.zone != target && hover.since is None ==> after == (LayoutView {
                hover: Some(Hover { since: Some(now), zone: hover.zone }),
                ..layout
            }) && configures is None
            &&& hover.zone != target ==> (hover.since matches Some(since) ==> {
                &&& now <= since + wait ==> after == layout && configures is None
                &&& now > since + wait ==> after.hover == Some(marked)
                &&& now > since + wait && layout.engine is Classic && configures is Some ==> {
                    let count = layout.queue.trees.len() as int;
                    let onto = target is WindowStack || target is WindowSplit;
                    let off = hover.zone is WindowStack || hover.zone is WindowSplit;
                    &&& after.queue.trees.len() == count + 1
                    &&& after.queue.trees[count].duration == if onto && !off {
                        400int
                    } else {
                        200int
                    }
                }
            })
        }),
{
}

/// The first tile at a pixel is one of the list.
proof fn lemma_tile_among(tree: TreeModel, nodes: Seq<NodeId>, pixel: Point)
    ensures
        match tree.tile_among(nodes, pixel) {
            Some(id) => nodes.contains(id) && tree.data(id).geometry().holds(pixel),
            None => forall|k: int|
                0 <= k < nodes.len() ==> !tree.data(#[trigger] nodes[k]).geometry().holds(pixel),
        },
    decreases nodes.len(),
{
    if nodes.len() > 0 {
        lemma_tile_among(tree, nodes.drop_last(), pixel);
        let last = nodes[nodes.len() - 1];
        match tree.tile_among(nodes.drop_last(), pixel) {
            Some(id) => {
                let at = nodes.drop_last().index_of(id);
                assert(nodes.drop_last()[at] == id);
                assert(nodes[at] == id);
            },
            None => {
                assert(nodes.contains(last));
                if !tree.data(last).geometry().holds(pixel) {
                    assert forall|k: int| 0 <= k < nodes.len() implies !tree.data(
                        #[trigger] nodes[k],
                    ).geometry().holds(pixel) by {
                        if k < nodes.len() - 1 {
                            assert(nodes.drop_last()[k] == nodes[k]);
                        }
                    }
                }
            },
        }
    }
}

/// A way down through the tiles at a pixel stays at it.
proof fn lemma_way_in(tree: TreeModel, path: Seq<NodeId>, top: NodeId, pixel: Point, steps: int)
    requires
        tree.forest(),
        tree.has(top),
        tree.data(top).geometry().holds(pixel),
        tree.goes_in(path, top, pixel),
        0 <= steps < path.len(),
    ensures
        tree.has(path[steps]),
        tree.below(path[steps], top),
        tree.data(path[steps]).geometry().holds(pixel),
    decreases steps,
{
    if steps == 0 {
        lemma_below_self(tree, top);
    } else {
        lemma_way_in(tree, path, top, pixel, steps - 1);
        let above = path[steps - 1];
        let next = path[steps];
        assert(tree.inner_tile(above, pixel) == Some(next));
        lemma_tile_among(tree, tree.children(above), pixel);
        let at = tree.children(above).index_of(next);
        assert(tree.children(above)[at] == next);
        assert(tree.has(tree.children(above)[at]));
        lemma_below_self(tree, above);
        lemma_below_parent(tree, next, above);
        lemma_below_trans(tree, next, above, top);
    }
}

/// The first child that begins behind a pixel.
proof fn lemma_tile_behind(
    tree: TreeModel,
    nodes: Seq<NodeId>,
    orientation: Orientation,
    pixel: Point,
)
    ensures
        ({
            let begins = |k: int|
                if orientation is Vertical {
                    tree.data(nodes[k]).geometry().loc.x - pixel.x
                } else {
                    tree.data(nodes[k]).geometry().loc.y - pixel.y
                };
            match tree.tile_behind(nodes, orientation, pixel) {
                Some(place) => {
                    &&& 0 <= place < nodes.len()
                    &&& begins(place) > 0
                    &&& forall|k: int| 0 <= k < place ==> #[trigger] begins(k) <= 0
                },
                None => forall|k: int| 0 <= k < nodes.len() ==> #[trigger] begins(k) <= 0,
            }
        }),
    decreases nodes.len(),
{
    if nodes.len() > 0 {
        let rest = nodes.drop_last();
        lemma_tile_behind(tree, rest, orientation, pixel);
        let begins = |k: int|
            if orientation is Vertical {
                tree.data(nodes[k]).geometry().loc.x - pixel.x
            } else {
                tree.data(nodes[k]).geometry().loc.y - pixel.y
            };
        let before = |k: int|
            if orientation is Vertical {
                tree.data(rest[k]).geometry().loc.x - pixel.x
            } else {
                tree.data(rest[k]).geometry().loc.y - pixel.y
            };
        assert forall|k: int| 0 <= k < rest.len() implies #[trigger] begins(k) == before(k) by {
            assert(rest[k] == nodes[k]);
        }
    }
}

/// Where no window has a surface, the pointer is over the tile whose area it is in, or over the gap
/// between two children of a group: the first of them begins before the pointer and the second
/// one behind it, and it is over neither.
pub proof fn law_the_gap_under_the_pointer_is_found(
    layout: LayoutView,
    root: NodeId,
    position: PointerPosition,
    focus: Option<KeyboardFocusView>,
    beneath: Beneath,
)
    requires
        layout.newest().forest(),
        layout.newest().has(root),
        layout.engine is Classic,
        forall|id: NodeId| #[trigger]
            layout.newest().has(id) ==> layout.newest().children(id).len() <= usize::MAX,
        layout.beneath_from(root, position, focus, Some(beneath)),
    ensures
        exists|found: NodeId|
            {
                let tree = layout.newest();
                let pixel = position.spec_pixel();
                let area = tree.data(found).geometry();
                let ids = tree.children(found);
                &&& tree.has(found)
                &&& #[trigger] layout.newest().below(found, root)
                &&& area.loc.x <= pixel.x < area.loc.x + area.size.w
                &&& area.loc.y <= pixel.y < area.loc.y + area.size.h
                &&& match beneath {
                    Beneath::Tile(tile) => tree.data(found) is Mapped && tile.window == tree.data(
                        found,
                    )->mapped.id && tile.geometry == area,
                    Beneath::Fork(fork, _) => {
                        let first = tree.data(ids[fork.left_up_idx as int]).geometry();
                        let second = tree.data(ids[fork.left_up_idx + 1]).geometry();
                        &&& tree.data(found) is Group
                        &&& fork.node == tree.key(found)
                        &&& fork.orientation == tree.data(found)->Group_orientation
                        &&& fork.scrolling_resize is None
                        &&& fork.left_up_idx + 1 < ids.len()
                        &&& fork.orientation is Vertical ==> first.loc.x <= pixel.x < second.loc.x
                        &&& fork.orientation is Horizontal ==> first.loc.y <= pixel.y < second.loc.y
                        &&& !first.holds(pixel)
                        &&& !second.holds(pixel)
                    },
                }
            },
{
    let tree = layout.newest();
    let pixel = position.spec_pixel();
    let (found, tile) = choose|found: NodeId, tile: Option<u64>|
        #[trigger] tree.innermost_tile(found, root, pixel) && #[trigger] layout.focused_tile(
            focus,
            tile,
        ) && Some(beneath) == layout.is_beneath(found, tile, position);
    let path = choose|path: Seq<NodeId>| #[trigger]
        tree.goes_in(path, root, pixel) && path.last() == found;
    lemma_way_in(tree, path, root, pixel, path.len() - 1);
    let ids = tree.children(found);
    if tree.data(found) is Group {
        lemma_tile_behind(tree, ids, tree.data(found).spec_orientation(), pixel);
        lemma_tile_among(tree, ids, pixel);
        let place = tree.tile_behind(ids, tree.data(found).spec_orientation(), pixel)->0;
        let begins = |k: int|
            if tree.data(found).spec_orientation() is Vertical {
                tree.data(ids[k]).geometry().loc.x - pixel.x
            } else {
                tree.data(ids[k]).geometry().loc.y - pixel.y
            };
        assert(begins(place) > 0 && begins(place - 1) <= 0);
    }
}

/// The windows with a surface that may be at a pixel are those whose bounds, taken from the corner
/// of their tile, have it inside; tiles that are drawn in full have to have it inside as well.
pub proof fn law_only_windows_at_the_pixel_are_asked(
    areas: Seq<WindowArea>,
    bounds: Seq<WindowBounds>,
    pixel: Point,
    tiled: bool,
    skipping: bool,
    area: WindowArea,
)
    requires
        candidates(areas, bounds, pixel, tiled, skipping).contains(area),
    ensures
        areas.contains(area),
        tiled ==> area.geometry.loc.x <= pixel.x < area.geometry.loc.x + area.geometry.size.w
            && area.geometry.loc.y <= pixel.y < area.geometry.loc.y + area.geometry.size.h,
        exists|k: int|
            {
                let known = bounds[k];
                &&& 0 <= k < bounds.len()
                &&& (#[trigger] bounds[k]).window == area.window
                &&& skipping ==> !known.maximized
                &&& i32::MIN <= pixel.x - area.geometry.loc.x <= i32::MAX && i32::MIN <= pixel.y
                    - area.geometry.loc.y <= i32::MAX ==> {
                    &&& known.bbox.loc.x <= pixel.x - area.geometry.loc.x < known.bbox.loc.x
                        + known.bbox.size.w
                    &&& known.bbox.loc.y <= pixel.y - area.geometry.loc.y < known.bbox.loc.y
                        + known.bbox.size.h
                }
            },
    decreases areas.len(),
{
    let rest = candidates(areas.drop_last(), bounds, pixel, tiled, skipping);
    let last = areas[areas.len() - 1];
    if rest.contains(area) {
        law_only_windows_at_the_pixel_are_asked(
            areas.drop_last(),
            bounds,
            pixel,
            tiled,
            skipping,
            area,
        );
        let at = areas.drop_last().index_of(area);
        assert(areas.drop_last()[at] == area);
        assert(areas[at] == area);
    } else {
        let found = candidates(areas, bounds, pixel, tiled, skipping);
        let at = found.index_of(area);
        assert(found[at] == area);
        assert(at == rest.len()) by {
            if at < rest.len() {
                assert(rest[at] == area);
            }
        }
        assert(area == last && areas.contains(last));
        assert(can_be_at(area, bounds, pixel, tiled, skipping));
        lemma_bounds_from(bounds, area.window, 0);
    }
}

/// The bounds of a window are among those that are given.
proof fn lemma_bounds_from(bounds: Seq<WindowBounds>, window: u64, from: int)
    requires
        0 <= from,
        bounds_from(bounds, window, from) is Some,
    ensures
        exists|k: int|
            0 <= k < bounds.len() && (#[trigger] bounds[k]).window == window && bounds_from(
                bounds,
                window,
                from,
            ) == Some(bounds[k]),
    decreases bounds.len() - from,
{
    if bounds[from].window != window {
        lemma_bounds_from(bounds, window, from + 1);
    }
}

/// Without a pointer, or outside of an overview, nothing is marked. An overview that is led by keys
/// keeps what is marked. An empty workspace makes room as soon as the pointer drags a window over
/// it.
pub proof fn law_only_a_pointer_in_an_overview_marks(
    layout: LayoutView,
    after: LayoutView,
    position: Option<PointerPosition>,
    overview: OverviewState,
    now: u64,
    base: u64,
    configures: Option<Seq<Configure>>,
)
    requires
        layout.hovers(after, position, overview, now, base, configures),
    ensures
        layout.newest().root is Some && (!overview.active || position is None) ==> after == (
        LayoutView { hover: None, ..layout }) && configures is None,
        layout.newest().root is Some && overview.active && position is Some && !overview.by_pointer
            ==> after == layout && configures is None,
        layout.newest().root is None ==> (configures is Some <==> overview.by_pointer
            && position is Some),
        layout.newest().root is None && configures is None ==> after == layout,
{
}

} // verus!
