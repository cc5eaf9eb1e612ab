//! What comes of an action: how long it takes, where things end up and what has the focus.

use vstd::prelude::*;

use id_tree::NodeId;

use crate::actions::{ResizeDirection, ResizeEdge};
use crate::balance::lemma_sound;
use crate::classic::Configure;
use crate::data::{DataView, Window};
use crate::geometry::{Orientation, Rectangle, Size};
use crate::growth_laws::lemma_added;
use crate::layout::{LayoutView, LiveView, ScrollingResizeTarget};
use crate::lookups::{KeyboardFocusView, WindowArea};
use crate::neighbours::TreeResize;
use crate::queue::EasedArea;
use crate::reshape::RestoreView;
use crate::strip_actions::ResizingChange;
use crate::surgery::new_group_item;
use crate::transfers::{exchanged_between, merging_orientation};
use crate::tree::{visits, NodeView, TreeModel};
use crate::tree_actions::focus_order;

verus! {

/// A change of the tree takes a fifth of a second to be shown, one of a window that comes back
/// from being minimized or goes there a bit longer, and a change by the pointer no time at all.
pub proof fn law_changes_take_their_time(
    layout: LayoutView,
    after: LayoutView,
    window: Window,
    stack: Option<Seq<u64>>,
    from: Option<Rectangle>,
    key: u64,
    eased: Seq<EasedArea>,
    configures: Seq<Configure>,
)
    requires
        layout.engine is Classic,
        layout.maps(after, window, stack, None, from, key, eased, configures),
    ensures
        ({
            let count = layout.queue.trees.len() as int;
            &&& after.queue.trees.len() == count + 1
            &&& after.queue.trees[count].duration == if from is Some {
                320int
            } else {
                200int
            }
            &&& after.queue.trees[count].blocker is None
            &&& forall|i: int|
                0 <= i < count ==> #[trigger] after.queue.trees[i] == layout.queue.trees[i]
            &&& after.queue.animation_start == layout.queue.animation_start
        }),
{
}

/// A window that is taken away leaves in a fifth of a second, one that is minimized in a bit more
/// than that; it stays where it was in what is shown until then, and shrinks to the place that it
/// goes to.
pub proof fn law_a_window_leaves_in_time(
    layout: LayoutView,
    after: LayoutView,
    key: u64,
    to: Option<Rectangle>,
    eased: Seq<EasedArea>,
    configures: Seq<Configure>,
)
    requires
        layout.engine is Classic,
        layout.queue.trees.len() > 0,
        layout.unmaps_to(after, key, to, eased, configures),
    ensures
        ({
            let count = layout.queue.trees.len() as int;
            let shown = layout.queue.trees[count - 1].tree;
            let leaving = after.queue.trees[count - 1].tree;
            &&& after.queue.trees.len() == count + 1
            &&& after.queue.trees[count].duration == if to is Some {
                320int
            } else {
                200int
            }
            &&& to is None ==> leaving == shown
            &&& to is Some && shown.has_key(key) && shown.data(shown.node_keyed(key)) is Mapped
                ==> leaving.data(shown.node_keyed(key))->minimize_rect == to && leaving.data(
                shown.node_keyed(key),
            ).geometry() == shown.data(shown.node_keyed(key)).geometry()
        }),
{
}

/// The separator that an edge of a node moves is the one on that side of it: before the node for
/// its left or upper edge, behind it for its right or lower edge, and only where the group is
/// split that way.
pub proof fn law_a_separator_is_at_the_edge(
    tree: TreeModel,
    parent: NodeId,
    index: int,
    edge: ResizeEdge,
)
    requires
        0 <= index < tree.children(parent).len(),
        tree.children(parent).no_duplicates(),
    ensures
        ({
            let ids = tree.children(parent);
            let columns = tree.data(parent)->Group_orientation is Vertical;
            let start = if columns {
                edge.left
            } else {
                edge.top
            };
            let end = if columns {
                edge.right
            } else {
                edge.bottom
            };
            match tree.separator(parent, ids[index], edge) {
                Some(place) => {
                    &&& 0 <= place
                    &&& place + 1 < ids.len()
                    &&& ids[place + 1] == ids[index] && start || ids[place] == ids[index] && end
                    &&& start && index > 0 ==> place == index - 1
                },
                None => (start ==> index == 0) && (end ==> index == ids.len() - 1),
            }
        }),
{
    let ids = tree.children(parent);
    assert(ids.contains(ids[index]));
    assert(ids.index_of(ids[index]) == index);
}

/// Of two trees that become one, the second stands beside the first: behind it in columns if the
/// screen is at least as wide as it is high, below it otherwise. If one of them is empty, the
/// other one is all there is.
pub proof fn law_merged_trees_stand_side_by_side(
    tree: TreeModel,
    after: TreeModel,
    source: TreeModel,
    output: Size,
    key: u64,
)
    requires
        tree.settled(),
        tree.merged(after, source, merging_orientation(output), key),
    ensures
        tree.root is None ==> after == source,
        source.root is None && tree.root is Some ==> after == tree,
        tree.root is Some && source.root is Some ==> exists|id: NodeId, group: NodeId|
            {
                &&& #[trigger] after.stands_beside(tree.root->0, id, group, false)
                &&& !tree.has(id)
                &&& after.nodes[id].item == source.nodes[source.root->0].item
                &&& after.root == Some(group)
                &&& after.data(group)->Group_orientation == if output.w >= output.h {
                    Orientation::Vertical
                } else {
                    Orientation::Horizontal
                }
            },
{
    lemma_sound(tree);
    if tree.root is Some && source.root is Some {
        let root = tree.root->0;
        let from = source.root->0;
        let item = source.nodes[from].item;
        let group_item = new_group_item(key, merging_orientation(output));
        let id = choose|id: NodeId|
            !tree.has(id) && #[trigger] tree.received(
                after,
                id,
                source,
                from,
                group_item,
                tree.root,
                None,
            );
        let (mid, ids) = choose|mid: TreeModel, ids: Map<NodeId, NodeId>| #[trigger]
            tree.opened_for(mid, id, item, group_item, Some(root), None) && #[trigger] mid.grafted(
                after,
                id,
                source,
                from,
                ids,
            );
        let group = choose|group: NodeId|
            !tree.has(group) && group != id && mid == #[trigger] tree.added_beside(
                id,
                item,
                group,
                group_item,
                root,
                None,
            );
        assert(tree.has(root));
        lemma_added(tree, id, item, group, group_item, root, None);
        assert(mid.has(group) && mid.has(id) && mid.has(root));
        assert(after.stands_beside(root, id, group, false));
    }
}

/// When a stack is taken apart, each of its windows gets the focus once, and the one that was on
/// top of it last, so that it has the focus in the end.
pub proof fn law_the_top_of_a_stack_is_focused_last(
    node: u64,
    base: u64,
    count: int,
    focused: Option<usize>,
)
    requires
        0 <= count,
        base + 2 * count <= u64::MAX,
        node < base,
    ensures
        ({
            let order = focus_order(node, base, count, focused);
            &&& order.len() == count + 1
            &&& order[count] == match focused {
                Some(i) => if i < count {
                    base + 2 * i
                } else {
                    node as int
                },
                None => node as int,
            }
            &&& order.no_duplicates()
            &&& forall|i: int| 0 <= i < order.len() ==> (#[trigger] order[i] == node || base
                <= order[i] < base + 2 * count)
        }),
{
    let new_keys = Seq::new(count as nat, |i: int| (base + 2 * i) as u64);
    let all = seq![node] + new_keys;
    assert(all.no_duplicates());
    match focused {
        Some(i) => {
            if i < count {
                let rest = all.remove(i + 1);
                assert(rest.no_duplicates());
                let order = rest.reverse().push(new_keys[i as int]);
                assert forall|a: int, b: int|
                    0 <= a < order.len() && 0 <= b < order.len() && a != b implies order[a]
                    != order[b] by {
                    if a < rest.len() && b < rest.len() {
                        assert(rest[rest.len() - 1 - a] != rest[rest.len() - 1 - b]);
                    }
                }
            }
        },
        None => {},
    }
}

/// The focus on a node is that on its window, and on a group that of all its children, in their
/// order.
pub proof fn law_a_group_remembers_its_children(tree: TreeModel, key: u64, index: int)
    requires
        tree.has_key(key),
    ensures
        ({
            let id = tree.node_keyed(key);
            match tree.focus_at(key) {
                Some(KeyboardFocusView::Window(window)) => tree.data(id) is Mapped && tree.data(
                    id,
                )->mapped.id == window,
                Some(KeyboardFocusView::Group { node, focus_stack }) => {
                    &&& tree.data(id) is Group
                    &&& node == key
                    &&& focus_stack.len() == tree.children(id).len()
                    &&& 0 <= index < focus_stack.len() ==> focus_stack[index] == tree.key(
                        tree.children(id)[index],
                    )
                },
                None => tree.data(id) is Placeholder,
            }
        }),
{
}

/// Whether a node of the tree shows this window there.
pub open spec fn shows_there(tree: TreeModel, id: NodeId, area: WindowArea, active: bool) -> bool {
    &&& tree.data(id) is Mapped
    &&& tree.data(id)->mapped.id == area.window
    &&& tree.data(id)->mapped.activated == active
    &&& tree.data(id).geometry() == area.geometry
}

/// Whether these are all windows along a way through the tree, the active ones before the others.
pub open spec fn lists_in_order(
    tree: TreeModel,
    root: NodeId,
    order: Seq<NodeId>,
    first: int,
    windows: Seq<WindowArea>,
) -> bool {
    &&& visits(tree.nodes, seq![root], order)
    &&& 0 <= first <= windows.len()
    &&& forall|i: int|
        0 <= i < windows.len() ==> exists|k: int|
            0 <= k < order.len() && shows_there(
                tree,
                #[trigger] order[k],
                #[trigger] windows[i],
                i < first,
            )
    &&& forall|k: int|
        0 <= k < order.len() && tree.data(#[trigger] order[k]) is Mapped ==> exists|i: int|
            0 <= i < windows.len() && (#[trigger] windows[i]).window == tree.data(
                order[k],
            )->mapped.id
}

/// The windows along a way through the tree that are active, or those that are not.
proof fn lemma_areas_of(tree: TreeModel, order: Seq<NodeId>, active: bool)
    ensures
        forall|i: int|
            0 <= i < tree.areas_of(order, active).len() ==> exists|k: int|
                0 <= k < order.len() && shows_there(
                    tree,
                    #[trigger] order[k],
                    #[trigger] tree.areas_of(order, active)[i],
                    active,
                ),
        forall|k: int|
            0 <= k < order.len() && tree.data(#[trigger] order[k]) is Mapped && tree.data(
                order[k],
            )->mapped.activated == active ==> exists|i: int|
                0 <= i < tree.areas_of(order, active).len() && shows_there(
                    tree,
                    order[k],
                    #[trigger] tree.areas_of(order, active)[i],
                    active,
                ),
    decreases order.len(),
{
    if order.len() > 0 {
        let before = order.drop_last();
        lemma_areas_of(tree, before, active);
        let rest = tree.areas_of(before, active);
        let areas = tree.areas_of(order, active);
        assert forall|i: int| 0 <= i < areas.len() implies exists|k: int|
            0 <= k < order.len() && shows_there(tree, #[trigger] order[k], #[trigger] areas[i], active) by {
            if i < rest.len() {
                assert(areas[i] == rest[i]);
                let k = choose|k: int|
                    0 <= k < before.len() && shows_there(
                        tree,
                        #[trigger] before[k],
                        rest[i],
                        active,
                    );
                assert(order[k] == before[k]);
                assert(shows_there(tree, order[k], areas[i], active));
            } else {
                assert(shows_there(tree, order[order.len() - 1], areas[i], active));
            }
        }
        assert forall|k: int|
            0 <= k < order.len() && tree.data(#[trigger] order[k]) is Mapped && tree.data(
                order[k],
            )->mapped.activated == active implies exists|i: int|
            0 <= i < areas.len() && shows_there(tree, order[k], #[trigger] areas[i], active) by {
            if k < before.len() {
                assert(before[k] == order[k]);
                let i = choose|i: int|
                    0 <= i < rest.len() && shows_there(
                        tree,
                        before[k],
                        #[trigger] rest[i],
                        active,
                    );
                assert(areas[i] == rest[i]);
            } else {
                assert(shows_there(tree, order[k], areas[areas.len() - 1], active));
            }
        }
    }
}

/// The windows of a tree are listed with the active ones first, each with the area that it has.
pub proof fn law_active_windows_come_first(tree: TreeModel, root: NodeId, windows: Seq<WindowArea>)
    requires
        tree.root == Some(root),
        tree.lists(windows),
    ensures
        exists|order: Seq<NodeId>, first: int| #[trigger]
            lists_in_order(tree, root, order, first, windows),
{
    let order = choose|order: Seq<NodeId>| #[trigger]
        visits(tree.nodes, seq![root], order) && windows == tree.areas_of(order, true)
            + tree.areas_of(order, false);
    lemma_areas_of(tree, order, true);
    lemma_areas_of(tree, order, false);
    let active = tree.areas_of(order, true);
    let others = tree.areas_of(order, false);
    let first = active.len() as int;
    assert forall|i: int| 0 <= i < windows.len() implies exists|k: int|
        0 <= k < order.len() && shows_there(
            tree,
            #[trigger] order[k],
            #[trigger] windows[i],
            i < first,
        ) by {
        if i < first {
            assert(windows[i] == active[i]);
        } else {
            assert(windows[i] == others[i - first]);
        }
    }
    assert forall|k: int|
        0 <= k < order.len() && tree.data(#[trigger] order[k]) is Mapped implies exists|i: int|
        0 <= i < windows.len() && (#[trigger] windows[i]).window == tree.data(order[k])->mapped.id by {
        if tree.data(order[k])->mapped.activated {
            let i = choose|i: int|
                0 <= i < active.len() && shows_there(tree, order[k], #[trigger] active[i], true);
            assert(windows[i] == active[i]);
        } else {
            let i = choose|i: int|
                0 <= i < others.len() && shows_there(tree, order[k], #[trigger] others[i], false);
            assert(windows[first + i] == others[i]);
        }
    }
    assert(lists_in_order(tree, root, order, first, windows));
}

/// A window that was one of two comes back beside the one that it shared a group with, before or
/// behind it as it was, split the same way and with the same extents.
pub proof fn law_a_window_returns_beside_its_sibling(
    tree: TreeModel,
    after: TreeModel,
    id: NodeId,
    item: NodeView,
    sibling: NodeId,
    key: u64,
    state: RestoreView,
)
    requires
        tree.settled(),
        tree.has(sibling),
        !tree.has(id),
        state.idx <= 1,
        tree.restored_beside(after, id, item, sibling, key, state),
    ensures
        exists|group: NodeId, first: bool|
            {
                &&& #[trigger] after.stands_beside(sibling, id, group, first)
                &&& first == (state.idx == 0)
                &&& !tree.has(group)
                &&& after.nodes[id].item == item
                &&& after.data(group)->Group_orientation == state.orientation
                &&& after.data(group)->sizes == state.sizes
                &&& after.parent(group) == tree.parent(sibling)
            },
{
    lemma_sound(tree);
    let group_item = new_group_item(key, state.orientation);
    let group = choose|group: NodeId|
        !tree.has(group) && group != id && after == (#[trigger] tree.added_beside(
            id,
            item,
            group,
            group_item,
            sibling,
            Some(state.idx as int),
        )).with_data(group, DataView::restored_group(state.orientation, state.sizes));
    lemma_added(tree, id, item, group, group_item, sibling, Some(state.idx as int));
    assert(after.stands_beside(sibling, id, group, state.idx == 0));
}

/// What is remembered of the place of a window: the group and the place in it if the group stays,
/// and the other window and the place beside it if it does not.
pub proof fn law_the_place_is_remembered(tree: TreeModel, id: NodeId, group: NodeId, at: int)
    requires
        tree.settled(),
        tree.has(group),
        0 <= at < tree.children(group).len() <= usize::MAX,
        tree.children(group)[at] == id,
    ensures
        ({
            let ids = tree.children(group);
            let state = tree.place_of(id);
            &&& state is Some
            &&& state->0.idx == at
            &&& state->0.orientation == tree.data(group)->Group_orientation
            &&& state->0.sizes == tree.data(group)->sizes
            &&& ids.len() > 2 ==> state->0.parent == Some(tree.key(group)) && state->0.sibling is None
            &&& ids.len() == 2 ==> state->0.parent is None && state->0.sibling == Some(
                tree.key(ids[1 - at]),
            )
        }),
{
    lemma_sound(tree);
    crate::classic::lemma_child(tree, group, at);
    crate::moves::lemma_place(tree, group, id);
}

/// Nodes of two trees that are swapped have each other's contents and places: what was in the one
/// tree is now where the other one's was, among the same siblings.
pub proof fn law_swapped_nodes_change_places(
    first: TreeModel,
    second: TreeModel,
    one: TreeModel,
    two: TreeModel,
    node: u64,
    other: u64,
)
    requires
        first.has_key(node),
        second.has_key(other),
        first.forest(),
        second.forest(),
        exchanged_between(first, second, one, two, node, other),
    ensures
        ({
            let here = first.node_keyed(node);
            let there = second.node_keyed(other);
            &&& one.has(here)
            &&& one.data(here) == second.data(there)
            &&& one.children(here).len() == second.children(there).len()
            &&& one.parent(here) == first.parent(here)
            &&& one.root == first.root
            &&& two.has(there)
            &&& two.parent(there) == second.parent(there)
            &&& two.root == second.root
            &&& exists|copy: TreeModel| #[trigger]
                first.copied(copy) && two.data(there) == copy.data(copy.node_keyed(node))
        }),
{
    let here = first.node_keyed(node);
    let there = second.node_keyed(other);
    lemma_replaced(first, one, here, second, there);
    let copy = choose|copy: TreeModel| #[trigger]
        first.copied(copy) && second.replaced_by(two, there, copy, copy.node_keyed(node));
    lemma_replaced(second, two, there, copy, copy.node_keyed(node));
}

/// A node that another branch is put in place of.
proof fn lemma_replaced(tree: TreeModel, after: TreeModel, node: NodeId, source: TreeModel, from: NodeId)
    requires
        tree.forest(),
        tree.has(node),
        tree.replaced_by(after, node, source, from),
    ensures
        after.has(node),
        after.data(node) == source.data(from),
        after.children(node).len() == source.children(from).len(),
        after.parent(node) == tree.parent(node),
        after.root == tree.root,
{
    let ids = choose|ids: Map<NodeId, NodeId>| #[trigger]
        tree.cleared(node).with_data(node, source.data(from)).grafted(
            after,
            node,
            source,
            from,
            ids,
        );
    let bare = tree.cleared(node).with_data(node, source.data(from));
    assert(tree.cleared(node).has(node)) by {
        assert forall|k: int| 0 <= k < tree.children(node).len() implies !tree.below(
            node,
            #[trigger] tree.children(node)[k],
        ) by {
            assert(tree.has(tree.children(node)[k]) && tree.parent(tree.children(node)[k]) == Some(
                node,
            ));
            crate::lineage::lemma_parent_not_below(tree, tree.children(node)[k], node);
        }
    }
    assert(bare.has(node));
    assert(bare.children(node).len() == 0);
}

/// Which windows are told that they are being resized: those among the tiles of a drag that begins,
/// and that it is over, those of the drag before it. Tiles without a window are told nothing.
pub proof fn law_windows_are_told_of_a_resize(
    layout: LayoutView,
    tree: TreeModel,
    target: ScrollingResizeTarget,
    tiles: Seq<u64>,
    change: ResizingChange,
)
    requires
        layout.told(tree, target, tiles).contains(change),
    ensures
        tree.shows_window(change.tile),
        change.resizing ==> tiles.contains(change.tile),
        !change.resizing ==> layout.live is Some && layout.live->0.tiles.contains(change.tile),
        layout.live matches Some(live) ==> live.finishing || live.target != target,
{
    let told = layout.told(tree, target, tiles);
    let at = told.index_of(change);
    assert(told[at] == change);
    lemma_changes(tree, tiles, true);
    match layout.live {
        Some(live) => {
            lemma_changes(tree, live.tiles, false);
            let over = tree.resizing_changes(live.tiles, false);
            let begun = tree.resizing_changes(tiles, true);
            if at < over.len() {
                assert(over[at] == change);
            } else {
                assert(begun[at - over.len()] == change);
            }
        },
        None => {
            let begun = tree.resizing_changes(tiles, true);
            assert(begun[at] == change);
        },
    }
}

/// Windows that are told the same.
proof fn lemma_changes(tree: TreeModel, tiles: Seq<u64>, resizing: bool)
    ensures
        forall|i: int|
            0 <= i < tree.resizing_changes(tiles, resizing).len() ==> tree.shows_window(
                (#[trigger] tree.resizing_changes(tiles, resizing)[i]).tile,
            ) && tree.resizing_changes(tiles, resizing)[i].resizing == resizing && tiles.contains(
                tree.resizing_changes(tiles, resizing)[i].tile,
            ),
    decreases tiles.len(),
{
    if tiles.len() > 0 {
        let before = tiles.drop_last();
        lemma_changes(tree, before, resizing);
        let rest = tree.resizing_changes(before, resizing);
        let all = tree.resizing_changes(tiles, resizing);
        assert forall|i: int| 0 <= i < all.len() implies tree.shows_window((#[trigger] all[i]).tile)
            && all[i].resizing == resizing && tiles.contains(all[i].tile) by {
            if i < rest.len() {
                assert(all[i] == rest[i]);
                let at = before.index_of(rest[i].tile);
                assert(before[at] == rest[i].tile);
                assert(tiles[at] == rest[i].tile);
            } else {
                assert(tiles[tiles.len() - 1] == all[i].tile);
            }
        }
    }
}

/// A resize waits for the windows that it would change: as long as one of them has not taken the
/// size it was given, nothing happens. It is shown at once, in no time.
pub proof fn law_a_resize_waits_for_its_windows(
    layout: LayoutView,
    after: LayoutView,
    node: u64,
    direction: ResizeDirection,
    edges: ResizeEdge,
    amount: i32,
    configures: Seq<Configure>,
)
    requires
        layout.engine is Classic,
        layout.resizes(after, Some(node), direction, edges, amount, configures),
    ensures
        after == layout && configures.len() == 0 || exists|
            copy: TreeModel,
            tree: TreeModel,
            group: NodeId,
        |
            {
                &&& layout.newest().copied(copy)
                &&& #[trigger] copy.resized_as(
                    copy.node_keyed(node),
                    direction,
                    edges,
                    amount as int,
                    TreeResize::Resized(group),
                    tree,
                )
                &&& forall|other: NodeId|
                    tree.has(other) && #[trigger] tree.below(other, group) && tree.data(
                        other,
                    ) is Mapped ==> tree.data(other)->mapped.latest_size_committed
                &&& after.queue.trees.len() == layout.queue.trees.len() + 1
                &&& after.queue.trees[layout.queue.trees.len() as int].duration == 0
            },
{
    let (copy, tree, resized) = choose|copy: TreeModel, tree: TreeModel, resized: TreeResize|
        layout.newest().copied(copy) && #[trigger] copy.resized_as(
            copy.node_keyed(node),
            direction,
            edges,
            amount as int,
            resized,
            tree,
        ) && match resized {
            TreeResize::Resized(group) => if tree.committed_below(group) {
                layout.appended(after, tree, 0, configures)
            } else {
                after == layout && configures.len() == 0
            },
            _ => after == layout && configures.len() == 0,
        };
    match resized {
        TreeResize::Resized(group) => {
            if tree.committed_below(group) {
                assert forall|other: NodeId|
                    tree.has(other) && #[trigger] tree.below(other, group) && tree.data(
                        other,
                    ) is Mapped implies tree.data(other)->mapped.latest_size_committed by {
                    assert(!tree.uncommitted(other));
                }
            }
        },
        _ => {},
    }
}

/// Whether a window still has to take the size that it was given in a resize.
pub open spec fn is_behind(tree: TreeModel, tile: u64) -> bool {
    tree.shows_window(tile) && {
        let window = tree.data(tree.node_keyed(tile))->mapped;
        !window.latest_size_committed || window.resizing
    }
}

/// The tiles whose windows are behind, in their order.
proof fn lemma_pending(tree: TreeModel, tiles: Seq<u64>)
    ensures
        forall|i: int|
            0 <= i < tree.pending_tiles(tiles).len() ==> tiles.contains(
                #[trigger] tree.pending_tiles(tiles)[i],
            ) && is_behind(tree, tree.pending_tiles(tiles)[i]),
        forall|i: int|
            0 <= i < tiles.len() && is_behind(tree, #[trigger] tiles[i]) ==> tree.pending_tiles(
                tiles,
            ).contains(tiles[i]),
    decreases tiles.len(),
{
    if tiles.len() > 0 {
        let before = tiles.drop_last();
        lemma_pending(tree, before);
        let rest = tree.pending_tiles(before);
        let all = tree.pending_tiles(tiles);
        let last = tiles[tiles.len() - 1];
        assert forall|i: int| 0 <= i < all.len() implies tiles.contains(#[trigger] all[i])
            && is_behind(tree, all[i]) by {
            if i < rest.len() {
                assert(all[i] == rest[i]);
                let at = before.index_of(rest[i]);
                assert(before[at] == rest[i]);
                assert(tiles[at] == rest[i]);
            } else {
                assert(all[i] == last);
                assert(tiles.contains(last));
            }
        }
        assert forall|i: int| 0 <= i < tiles.len() && is_behind(tree, #[trigger] tiles[i]) implies all.contains(
            tiles[i],
        ) by {
            if i < before.len() {
                assert(before[i] == tiles[i]);
                assert(rest.contains(tiles[i]));
                let at = rest.index_of(tiles[i]);
                assert(rest[at] == tiles[i]);
                assert(all[at] == tiles[i]);
            } else {
                assert(all[all.len() - 1] == tiles[i]);
            }
        }
    }
}

/// A resize by the pointer that is over waits until the last of its windows has taken its size, and
/// keeps count of those that have not. One that goes on is left alone, and one whose column or
/// rows are gone is forgotten.
pub proof fn law_a_resize_ends_when_its_windows_are_done(layout: LayoutView, live: LiveView, tile: u64)
    requires
        layout.live == Some(live),
    ensures
        ({
            let after = layout.live_updated();
            let tree = layout.newest();
            let there = layout.target_exists(live.target);
            &&& !there ==> after.live is None
            &&& there && !live.finishing ==> after == layout
            &&& there && live.finishing ==> {
                &&& live.tiles.contains(tile) && is_behind(tree, tile) ==> after.live is Some
                    && after.live->0.tiles.contains(tile)
                &&& (after.live matches Some(left) ==> left.finishing && left.target == live.target
                    && left.tiles.len() > 0 && (left.tiles.contains(tile) ==> is_behind(tree, tile)))
                &&& (forall|i: int|
                    0 <= i < live.tiles.len() ==> !is_behind(tree, #[trigger] live.tiles[i]))
                    ==> after.live is None
            }
            &&& after.queue == layout.queue
            &&& after.scroll == layout.scroll
        }),
{
    let tree = layout.newest();
    lemma_pending(tree, live.tiles);
    let pending = tree.pending_tiles(live.tiles);
    if live.tiles.contains(tile) {
        let at = live.tiles.index_of(tile);
        assert(live.tiles[at] == tile);
    }
    if pending.contains(tile) {
        let at = pending.index_of(tile);
        assert(pending[at] == tile);
    }
    if pending.len() > 0 {
        assert(live.tiles.contains(pending[0]) && is_behind(tree, pending[0]));
        let at = live.tiles.index_of(pending[0]);
        assert(live.tiles[at] == pending[0]);
    }
}

} // verus!
