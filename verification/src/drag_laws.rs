//! What a dragged window leaves behind, marks on its way, and becomes where it is dropped.

use vstd::prelude::*;

use id_tree::NodeId;

use crate::actions::Direction;
use crate::balance::lemma_sound;
use crate::classic::Configure;
use crate::data::{PillIndicator, PlaceholderType, Window};
use crate::drop_laws::{
    law_a_dropped_window_stands_on_its_side, law_a_window_dropped_at_an_edge_is_at_that_end,
    law_a_window_dropped_inside_stands_between, law_the_last_one_takes_the_place, lemma_dropped,
};
use crate::geometry::Size;
use crate::hover::drop_zone_item;
use crate::layout::LayoutView;
use crate::lineage::{
    lemma_below_cases, lemma_below_has, lemma_below_self, lemma_parent_not_below,
};
use crate::moves::far_place;
use crate::queue::EasedArea;
use crate::surgery::{along, new_group_item, new_window};
use crate::tree::TreeModel;
use crate::tree_laws::lemma_not_below_grown;
use crate::zones::TargetZone;

verus! {

/// A group over which a window is dragged shows a bar where the window would go: along the edge
/// that the pointer is at, or behind the child that it is behind. When the pointer leaves, the bar
/// is taken away again. Nothing else in the tree changes.
pub proof fn law_a_bar_is_shown_while_the_pointer_is_there(
    tree: TreeModel,
    after: TreeModel,
    group: u64,
    zone: TargetZone,
    base: u64,
)
    requires
        tree.has_key(group),
        tree.data(tree.node_keyed(group)) is Group,
        zone matches TargetZone::GroupEdge(key, _) ==> key == group,
        zone matches TargetZone::GroupInterior(key, _) ==> key == group,
        zone is GroupEdge || zone is GroupInterior,
        tree.marked(after, zone, base),
    ensures
        ({
            let id = tree.node_keyed(group);
            let back = tree.unmarked(zone);
            &&& zone matches TargetZone::GroupEdge(_, direction) ==> after.data(id)->pill_indicator
                == Some(PillIndicator::Outer(direction))
            &&& zone matches TargetZone::GroupInterior(_, index) ==> after.data(id)->pill_indicator
                == Some(PillIndicator::Inner(index))
            &&& after.data(id)->sizes == tree.data(id)->sizes
            &&& after.data(id)->Group_orientation == tree.data(id)->Group_orientation
            &&& after.children(id) == tree.children(id)
            &&& forall|other: NodeId| other != id ==> #[trigger] after.nodes[other]
                == tree.nodes[other]
            &&& back.data(id)->pill_indicator is None
            &&& back.data(id)->sizes == tree.data(id)->sizes
            &&& back.children(id) == tree.children(id)
            &&& forall|other: NodeId| other != id ==> #[trigger] back.nodes[other]
                == tree.nodes[other]
        }),
{
}

/// A window that is dropped takes the place that the pointer marked: on a side of a window it
/// stands there beside it, at an edge of a group it is at that end, between two children of a
/// group it stands between them, over the place that it was taken from it has that place again,
/// and onto a window the two are one stack.
pub proof fn law_a_dropped_window_goes_where_it_was_dropped(
    tree: TreeModel,
    after: TreeModel,
    id: NodeId,
    zone: TargetZone,
    window: Window,
    stack: Window,
    output: Size,
    base: u64,
)
    requires
        tree.settled(),
        tree.takes_drop(after, id, Some(zone), window, stack, output, base),
    ensures
        match zone {
            TargetZone::WindowSplit(key, direction) => tree.has_key(key) ==> exists|
                group: NodeId,
                first: bool,
            |
                #[trigger] after.stands_beside(tree.node_keyed(key), id, group, first) && first == (
                direction is Left || direction is Up),
            TargetZone::GroupEdge(key, direction) => tree.has_key(key) && tree.data(
                tree.node_keyed(key),
            ) is Group && (direction is Left || direction is Right) == tree.data(
                tree.node_keyed(key),
            )->Group_orientation is Vertical ==> {
                let ids = after.children(tree.node_keyed(key));
                &&& ids.len() > 0
                &&& direction is Left || direction is Up ==> ids[0] == id
                &&& direction is Right || direction is Down ==> ids[ids.len() - 1] == id
            },
            TargetZone::GroupInterior(key, index) => tree.has_key(key) && tree.data(
                tree.node_keyed(key),
            ) is Group && index < tree.children(tree.node_keyed(key)).len()
                ==> after.children(tree.node_keyed(key))[index + 1] == id && after.children(
                tree.node_keyed(key),
            )[index as int] == tree.children(tree.node_keyed(key))[index as int],
            TargetZone::InitialPlaceholder(key) => tree.has_key(key) && !(tree.data(
                tree.node_keyed(key),
            ) is Group) ==> {
                &&& id == tree.node_keyed(key)
                &&& after.data(id) is Mapped
                &&& after.data(id)->mapped == window
                &&& after.data(id).geometry() == tree.data(id).geometry()
                &&& after.parent(id) == tree.parent(id)
                &&& forall|other: NodeId| other != id ==> #[trigger] after.nodes[other]
                    == tree.nodes[other]
            },
            TargetZone::WindowStack(key, _) => tree.shows_window(key) ==> {
                &&& id == tree.node_keyed(key)
                &&& after.data(id) is Mapped
                &&& after.data(id)->mapped == stack
                &&& after.data(id).geometry() == tree.data(id).geometry()
                &&& after.parent(id) == tree.parent(id)
                &&& forall|other: NodeId| other != id ==> #[trigger] after.nodes[other]
                    == tree.nodes[other]
            },
            TargetZone::Initial => true,
        },
{
    let item = new_window(base, window, None);
    let group_key = (base + 1) as u64;
    match zone {
        TargetZone::WindowSplit(key, direction) => {
            if tree.has_key(key) {
                law_a_dropped_window_stands_on_its_side(
                    tree,
                    after,
                    id,
                    item,
                    tree.node_keyed(key),
                    direction,
                    group_key,
                );
            }
        },
        TargetZone::GroupEdge(key, direction) => {
            if tree.has_group(key) {
                law_a_window_dropped_at_an_edge_is_at_that_end(
                    tree,
                    after,
                    id,
                    item,
                    tree.node_keyed(key),
                    direction,
                    group_key,
                );
            }
        },
        TargetZone::GroupInterior(key, index) => {
            if tree.has_group(key) && index < tree.children(tree.node_keyed(key)).len() {
                law_a_window_dropped_inside_stands_between(
                    tree,
                    id,
                    item,
                    tree.node_keyed(key),
                    index as int,
                );
            }
        },
        _ => {},
    }
}

/// A window that is taken by the pointer leaves a placeholder of its size in its place, and
/// everything else stays where it is.
pub proof fn law_a_taken_window_leaves_its_place(
    layout: LayoutView,
    after: LayoutView,
    key: u64,
    type_: PlaceholderType,
    eased: Seq<EasedArea>,
)
    requires
        layout.engine is Classic,
        layout.queue.trees.len() > 0,
        layout.newest().has_key(key),
        !(layout.newest().data(layout.newest().node_keyed(key)) is Group),
        layout.lifts(after, Some(key), type_, eased, Some(key)),
    ensures
        ({
            let tree = layout.newest();
            let left = after.newest();
            let id = tree.node_keyed(key);
            &&& left.data(id) is Placeholder
            &&& left.data(id)->type_ == type_
            &&& left.data(id).geometry() == tree.data(id).geometry()
            &&& left.key(id) == key
            &&& left.parent(id) == tree.parent(id)
            &&& forall|other: NodeId| other != id ==> #[trigger] left.nodes[other]
                == tree.nodes[other]
            &&& left.root == tree.root
            &&& type_ is GrabbedWindow ==> after.hover is Some && after.hover->0.zone
                == TargetZone::InitialPlaceholder(key)
            &&& !(type_ is GrabbedWindow) ==> after.hover == layout.hover
        }),
{
}

/// The room that a window made for a dragged one is taken back when the pointer leaves: the window
/// stands where it stood before, in the group that it was in.
pub proof fn law_room_is_taken_back(
    tree: TreeModel,
    after: TreeModel,
    window: u64,
    id: NodeId,
    direction: Direction,
    base: u64,
)
    requires
        tree.settled(),
        tree.keyed(),
        tree.has_key(window),
        !tree.has(id),
        tree.dropped_beside(
            after,
            id,
            drop_zone_item(base),
            tree.node_keyed(window),
            direction,
            (base + 1) as u64,
        ),
        after.settled(),
        after.keyed(),
        tree.data(tree.node_keyed(window)) is Mapped,
    ensures
        ({
            let node = tree.node_keyed(window);
            let back = after.unmarked(TargetZone::WindowSplit(window, direction));
            &&& back.has(node)
            &&& !back.has(id)
            &&& back.data(node) == tree.data(node)
            &&& back.parent(node) == tree.parent(node)
            &&& tree.parent(node) is None ==> back.root == Some(node)
            &&& tree.parent(node) matches Some(parent) ==> back.children(parent) == tree.children(
                parent,
            )
        }),
{
    let node = tree.node_keyed(window);
    let group = lemma_room_made(tree, after, window, id, direction, base);
    law_the_last_one_takes_the_place(after, id, group, node);
}

/// The group that a window and the room beside it are in.
#[verifier::spinoff_prover]
#[verifier::rlimit(50)]
proof fn lemma_room_made(
    tree: TreeModel,
    after: TreeModel,
    window: u64,
    id: NodeId,
    direction: Direction,
    base: u64,
) -> (group: NodeId)
    requires
        tree.settled(),
        tree.keyed(),
        tree.has_key(window),
        !tree.has(id),
        tree.dropped_beside(
            after,
            id,
            drop_zone_item(base),
            tree.node_keyed(window),
            direction,
            (base + 1) as u64,
        ),
        after.keyed(),
        tree.data(tree.node_keyed(window)) is Mapped,
    ensures
        ({
            let node = tree.node_keyed(window);
            &&& after.unmarked(TargetZone::WindowSplit(window, direction)) == after.unmapped(id)
            &&& after.has(id)
            &&& after.has(node)
            &&& after.parent(id) == Some(group)
            &&& after.children(group) == seq![id, node] || after.children(group) == seq![node, id]
            &&& after.data(node) == tree.data(node)
            &&& after.parent(group) == tree.parent(node)
            &&& !after.below(node, id)
            &&& after.below(id, id)
            &&& node != group
            &&& tree.parent(node) matches Some(parent) ==> after.children(parent).update(
                after.children(parent).index_of(group),
                node,
            ) == tree.children(parent)
        }),
{
    let node = tree.node_keyed(window);
    let item = drop_zone_item(base);
    let group_item = new_group_item((base + 1) as u64, along(direction));
    lemma_sound(tree);
    let group = choose|group: NodeId|
        !tree.has(group) && group != id && after == (#[trigger] tree.grown(id, item, node).grouped(
            node,
            id,
            group,
            group_item,
        )).at_sibling(id, far_place(direction));
    lemma_dropped(tree, id, item, node, group, group_item, far_place(direction));
    assert(tree.has(node) && after.has(node) && after.has(id));
    assert(after.nodes[node].item == tree.nodes[node].item);
    lemma_room(tree, after, window, id, node, group, far_place(direction) == 0, direction);
    lemma_not_below_room(tree, after, id, node, group);
    match tree.parent(node) {
        Some(parent) => {
            assert(tree.has(parent));
            lemma_put_back(tree, tree.children(parent), parent, node, group);
        },
        None => {},
    }
    group
}

/// A window is not below the room beside it.
proof fn lemma_not_below_room(tree: TreeModel, after: TreeModel, id: NodeId, node: NodeId, group: NodeId)
    requires
        tree.forest(),
        tree.has(node),
        !tree.has(id),
        node != group,
        id != group,
        after.has(node),
        after.parent(node) == Some(group),
        after.parent(group) == tree.parent(node),
        forall|other: NodeId| #[trigger]
            tree.has(other) && other != node ==> after.has(other) && after.parent(other)
                == tree.parent(other),
    ensures
        !after.below(node, id),
        after.below(id, id),
{
    lemma_below_self(after, id);
    if after.below(node, id) {
        lemma_below_cases(after, node, id);
        lemma_below_cases(after, group, id);
        match tree.parent(node) {
            Some(parent) => {
                assert(tree.has(parent));
                lemma_above_is_old(tree, after, parent, node, id);
            },
            None => {},
        }
    }
}

/// What stands above a node of the tree is not new.
proof fn lemma_above_is_old(tree: TreeModel, after: TreeModel, low: NodeId, moved: NodeId, id: NodeId)
    requires
        tree.forest(),
        tree.has(low),
        tree.has(moved),
        tree.parent(moved) == Some(low),
        !tree.has(id),
        forall|other: NodeId| #[trigger]
            tree.has(other) && other != moved ==> after.has(other) && after.parent(other)
                == tree.parent(other),
    ensures
        !after.below(low, id),
{
    lemma_parent_not_below(tree, moved, low);
    assert forall|other: NodeId| #[trigger]
        tree.has(other) && tree.below(low, other) implies after.has(other) && after.parent(other)
        == tree.parent(other) by {
        assert(other != moved);
    }
    if after.below(low, id) {
        lemma_not_below_grown(tree, after, low, id);
        lemma_below_has(tree, low, id);
    }
}

/// A list in which one was replaced, with the other replaced by it again.
proof fn lemma_put_back(tree: TreeModel, ids: Seq<NodeId>, parent: NodeId, node: NodeId, group: NodeId)
    requires
        tree.forest(),
        tree.has(node),
        tree.has(parent),
        tree.parent(node) == Some(parent),
        ids == tree.children(parent),
        !tree.has(group),
    ensures
        ({
            let there = ids.update(ids.index_of(node), group);
            there.update(there.index_of(group), node) == ids
        }),
{
    assert(ids.contains(node));
    let at = ids.index_of(node);
    let there = ids.update(at, group);
    assert(there[at] == group);
    assert(there.contains(group));
    assert(there.index_of(group) == at) by {
        let found = there.index_of(group);
        assert(there[found] == group);
        if found != at {
            assert(ids[found] == group);
            assert(tree.has(tree.children(parent)[found]));
        }
    }
    assert(there.update(at, node) =~= ids);
}

/// The room beside a window is found again.
proof fn lemma_room(
    tree: TreeModel,
    after: TreeModel,
    window: u64,
    id: NodeId,
    node: NodeId,
    group: NodeId,
    first: bool,
    direction: Direction,
)
    requires
        tree.has(node),
        tree.key(node) == window,
        tree.data(node) is Mapped,
        after.has(node),
        after.has(id),
        after.keyed(),
        after.nodes[node].item == tree.nodes[node].item,
        after.data(id) is Placeholder,
        after.data(id)->type_ is DropZone,
        after.stands_beside(node, id, group, first),
    ensures
        after.unmarked(TargetZone::WindowSplit(window, direction)) == after.unmapped(id),
{
    assert(after.key(node) == window);
    assert(after.has_key(window));
    let found = after.node_keyed(window);
    assert(after.has(found) && after.key(found) == window);
    assert(found == node);
    let ids = after.children(group);
    assert(ids.len() == 2);
    let rest = ids.drop_last();
    assert(rest.len() == 1 && rest[0] == ids[0]);
    assert(rest.drop_last().len() == 0);
    assert(after.drop_zone_among(rest.drop_last()) is None);
    assert(ids.last() == ids[1] && rest.last() == ids[0]);
    assert(after.is_drop_zone(id) && !after.is_drop_zone(node));
    assert(after.drop_zone_among(rest) == if first {
        Some(id)
    } else {
        None
    });
    assert(after.drop_zone_among(ids) == Some(id));
}

/// A drag begins over the place that the window was taken from, if that is in the tree.
pub proof fn law_a_drag_begins_where_it_was_taken_from(
    layout: LayoutView,
    after: LayoutView,
    root: NodeId,
    target: TargetZone,
    now: u64,
    base: u64,
    configures: Option<Seq<Configure>>,
)
    requires
        layout.hover is None,
        layout.sees(after, root, target, now, base, configures),
    ensures
        configures is None,
        after.queue == layout.queue,
        after.hover is Some,
        after.hover->0.since is None,
        match after.hover->0.zone {
            TargetZone::InitialPlaceholder(key) => exists|id: NodeId|
                {
                    let tree = layout.newest();
                    &&& #[trigger] layout.newest().has(id)
                    &&& tree.key(id) == key
                    &&& tree.data(id) is Placeholder
                    &&& tree.data(id)->type_ is GrabbedWindow
                },
            TargetZone::Initial => true,
            _ => false,
        },
{
    let tree = layout.newest();
    let zone = choose|zone: TargetZone| #[trigger]
        tree.drag_starts_at(root, zone) && after == layout.with_hover(
            Some(crate::layout::Hover { since: None, zone }),
        );
    let order = choose|order: Seq<NodeId>| #[trigger] tree.drag_starts_along(root, order, zone);
    lemma_grabbed_in(tree, order);
}

/// The first node on a way that a window was taken from.
proof fn lemma_grabbed_in(tree: TreeModel, order: Seq<NodeId>)
    ensures
        tree.grabbed_in(order) matches Some(id) ==> tree.is_grabbed(id),
    decreases order.len(),
{
    if order.len() > 0 {
        lemma_grabbed_in(tree, order.drop_last());
    }
}

} // verus!
