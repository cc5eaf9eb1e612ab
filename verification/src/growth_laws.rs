//! Where a new window stands in a tree.

use vstd::prelude::*;

use id_tree::NodeId;

use crate::actions::Direction;
use crate::balance::lemma_sound;
use crate::classic::{lemma_below_root, Configure};
use crate::data::{DataView, Window};
use crate::geometry::{Orientation, Size};
use crate::lineage::{
    lemma_ancestor_rank, lemma_below_parent, lemma_below_self, lemma_below_trans,
    lemma_parent_not_below, lemma_same_ancestors,
};
use crate::layout::LayoutView;
use crate::lookups::KeyboardFocusView;
use crate::moves::far_place;
use crate::queue::ANIMATION_DURATION;
use crate::surgery::{along, new_group_item, new_window};
use crate::tree::{without_id, NodeView, TreeModel};
use crate::tree_laws::lemma_enclosed_below;

verus! {

/// A new root leaves the tree in order below it.
proof fn lemma_rooted_forest(tree: TreeModel, id: NodeId, item: NodeView, root: NodeId)
    requires
        tree.forest(),
        tree.connected(),
        tree.root == Some(root),
        !tree.has(id),
    ensures
        ({
            let after = tree.rooted(id, item);
            &&& after.forest()
            &&& after.nodes.dom() == tree.nodes.dom().insert(id)
            &&& after.nodes[id].item == item
            &&& after.parent(id) is None
            &&& after.children(id) == seq![root]
            &&& after.parent(root) == Some(id)
            &&& forall|other: NodeId| #[trigger]
                tree.has(other) ==> after.nodes[other].item == tree.nodes[other].item
                    && after.children(other) == tree.children(other) && (other != root
                    ==> after.parent(other) == tree.parent(other))
        }),
{
    let after = tree.rooted(id, item);
    assert(tree.has(root) && id != root);
    assert(after.nodes.dom() =~= tree.nodes.dom().insert(id));
    assert(after.children(id) =~= seq![root]);
    let rank = choose|rank: Map<NodeId, nat>| tree.ranked(rank);
    let deeper = Map::new(
        |node: NodeId| true,
        |node: NodeId|
            if node == id {
                0nat
            } else {
                rank[node] + 1
            },
    );
    assert(after.ranked(deeper)) by {
        assert forall|node: NodeId| #[trigger] after.has(node) implies match after.parent(node) {
            Some(parent) => deeper[parent] < deeper[node],
            None => true,
        } by {
            if node != id && node != root {
                assert(tree.has(node));
                match tree.parent(node) {
                    Some(parent) => {
                        assert(tree.has(parent));
                    },
                    None => {},
                }
            }
        }
    }
    assert forall|node: NodeId, i: int|
        #![trigger after.children(node)[i]]
        after.has(node) && 0 <= i < after.children(node).len() implies after.has(
        after.children(node)[i],
    ) && after.parent(after.children(node)[i]) == Some(node) by {
        if node != id {
            assert(tree.has(node));
            assert(tree.children(node)[i] == after.children(node)[i]);
            assert(tree.has(tree.children(node)[i]));
        }
    }
    assert forall|node: NodeId| #[trigger] after.has(node) implies after.children(
        node,
    ).no_duplicates() && match after.parent(node) {
        Some(parent) => after.has(parent) && after.children(parent).contains(node),
        None => true,
    } by {
        if node == root {
            assert(after.children(id)[0] == root);
        } else if node != id {
            assert(tree.has(node));
        }
    }
}

/// What stands above a node and is not touched still stands above it.
pub proof fn lemma_still_below(tree: TreeModel, after: TreeModel, id: NodeId, top: NodeId)
    requires
        tree.forest(),
        tree.has(id),
        forall|node: NodeId| #[trigger]
            tree.has(node) && tree.below(id, node) && node != top ==> after.has(node)
                && after.parent(node) == tree.parent(node),
        tree.below(id, top),
    ensures
        after.below(id, top),
{
    let steps = choose|steps: nat| #[trigger] tree.ancestor(id, steps) == Some(top);
    let rank = choose|rank: Map<NodeId, nat>| tree.ranked(rank);
    assert forall|k: nat| k < steps implies match #[trigger] tree.ancestor(id, k) {
        Some(node) => tree.has(node) == after.has(node) && (tree.has(node) ==> tree.parent(node)
            == after.parent(node)),
        None => true,
    } by {
        lemma_ancestor_rank(tree, rank, id, k);
        match tree.ancestor(id, k) {
            Some(node) => {
                assert(tree.below(id, node));
                assert(tree.has(node));
                if node == top {
                    crate::lineage::lemma_ancestor_add(tree, id, k, (steps - k) as nat);
                    lemma_ancestor_rank(tree, rank, top, (steps - k) as nat);
                    assert(k + (steps - k) as nat == steps);
                }
            },
            None => {},
        }
    }
    lemma_same_ancestors(tree, after, id, steps);
}

impl TreeModel {
    /// Whether the tree has a new node next to one that it had, in a group that stands where that
    /// one stood, in this order.
    pub open spec fn paired(
        self,
        after: TreeModel,
        anchor: NodeId,
        id: NodeId,
        group: NodeId,
        first: bool,
    ) -> bool {
        &&& after.nodes.dom() == self.nodes.dom().insert(id).insert(group)
        &&& after.parent(id) == Some(group)
        &&& after.parent(anchor) == Some(group)
        &&& after.children(group) == if first {
            seq![id, anchor]
        } else {
            seq![anchor, id]
        }
        &&& after.children(id).len() == 0
        &&& after.parent(group) == self.parent(anchor)
        &&& after.root == if self.parent(anchor) is None {
            Some(group)
        } else {
            self.root
        }
        &&& forall|other: NodeId| #[trigger]
            self.has(other) ==> after.nodes[other].item == self.nodes[other].item && (other
                != anchor ==> after.parent(other) == self.parent(other)) && after.children(other)
                == if self.parent(anchor) == Some(other) {
                self.children(other).update(self.children(other).index_of(anchor), group)
            } else {
                self.children(other)
            }
    }

    /// Whether two nodes are all that is in a group, in this order.
    pub open spec fn stands_beside(self, anchor: NodeId, id: NodeId, group: NodeId, first: bool) -> bool {
        &&& self.parent(id) == Some(group)
        &&& self.parent(anchor) == Some(group)
        &&& self.children(group) == if first {
            seq![id, anchor]
        } else {
            seq![anchor, id]
        }
    }
}

/// A root with one branch that joins a node in it leaves the branch as the tree.
proof fn lemma_lowered(closed: TreeModel, id: NodeId, group: NodeId, anchor: NodeId, top: NodeId)
    requires
        closed.has(id),
        closed.has(group),
        closed.has(top),
        id != group,
        id != top,
        id != anchor,
        closed.below(group, id),
        closed.branch(group, id) == top,
        closed.parent(top) == Some(id),
        closed.children(id) == seq![top],
        closed.children(group) == seq![anchor],
    ensures
        ({
            let after = closed.moved_to_parent(id, group);
            &&& after.nodes.dom() == closed.nodes.dom()
            &&& after.root == Some(top)
            &&& after.children(group) == seq![anchor, id]
            &&& after.children(id).len() == 0
            &&& after.parent(id) == Some(group)
            &&& after.parent(top) is None
            &&& forall|other: NodeId| #[trigger]
                closed.has(other) ==> after.nodes[other].item == closed.nodes[other].item && (other
                    != id && other != top ==> after.parent(other) == closed.parent(other)) && (other
                    != id && other != group ==> after.children(other) == closed.children(other))
        }),
{
    let ids = closed.children(id);
    assert(ids[0] == top);
    assert(ids.contains(top));
    assert(without_id(ids, top) =~= seq![]) by {
        let found = ids.index_of(top);
        assert(ids[found] == top);
    }
    let after = closed.moved_to_parent(id, group);
    assert(after.nodes.dom() =~= closed.nodes.dom());
    assert(after.children(group) =~= seq![anchor, id]);
}

/// The second of two children, put before the first or left where it is.
proof fn lemma_ordered(tree: TreeModel, id: NodeId, group: NodeId, anchor: NodeId, place: int)
    requires
        tree.has(id),
        tree.has(group),
        id != anchor,
        tree.parent(id) == Some(group),
        tree.children(group) == seq![anchor, id],
        0 <= place <= 1,
    ensures
        tree.at_sibling(id, place) == tree.with_children(
            group,
            if place == 0 {
                seq![id, anchor]
            } else {
                seq![anchor, id]
            },
        ),
{
    let pair = tree.children(group);
    assert(pair[1] == id && pair[0] == anchor);
    assert(pair.contains(id));
    assert(pair.index_of(id) == 1) by {
        let found = pair.index_of(id);
        assert(pair[found] == id);
    }
    assert(without_id(pair, id) =~= seq![anchor]);
    assert(seq![anchor].insert(0, id) =~= seq![id, anchor]);
    assert(seq![anchor].insert(1, id) =~= seq![anchor, id]);
}

/// The branch of a new root in which another node is enclosed.
proof fn lemma_branch_below_new_root(
    tree: TreeModel,
    topped: TreeModel,
    closed: TreeModel,
    id: NodeId,
    group: NodeId,
    group_item: NodeView,
    anchor: NodeId,
    root: NodeId,
)
    requires
        tree.forest(),
        tree.connected(),
        tree.root == Some(root),
        tree.has(anchor),
        !tree.has(id),
        !tree.has(group),
        group != id,
        topped.nodes.dom() == tree.nodes.dom().insert(id),
        topped.parent(id) is None,
        topped.children(id) == seq![root],
        topped.parent(root) == Some(id),
        forall|other: NodeId| #[trigger]
            tree.has(other) ==> topped.children(other) == tree.children(other) && (other != root
                ==> topped.parent(other) == tree.parent(other)),
        topped.capped(closed, anchor, group, group_item),
    ensures
        ({
            let top = if anchor == root {
                group
            } else {
                root
            };
            &&& closed.has(id)
            &&& closed.has(group)
            &&& closed.has(top)
            &&& closed.below(group, id)
            &&& closed.branch(group, id) == top
            &&& closed.parent(top) == Some(id)
            &&& closed.children(id) == seq![top]
        }),
{
    let rank = choose|rank: Map<NodeId, nat>| tree.ranked(rank);
    let above = topped.parent(anchor)->0;
    assert(tree.has(root));
    assert(tree.has(anchor));
    assert(topped.has(anchor) && topped.has(id) && topped.has(root));
    let top = if anchor == root {
        group
    } else {
        root
    };
    assert(closed.below(group, top)) by {
        if anchor == root {
            lemma_below_self(closed, group);
        } else {
            lemma_parent_not_below(tree, anchor, above);
            lemma_below_root(tree, above, rank);
            assert forall|node: NodeId| #[trigger]
                tree.has(node) && tree.below(above, node) && node != root implies closed.has(node)
                && closed.parent(node) == tree.parent(node) by {
                assert(topped.has(node));
            }
            lemma_still_below(tree, closed, above, root);
            lemma_below_parent(closed, group, root);
        }
    }
    assert(closed.parent(top) == Some(id));
    assert(closed.below(group, id)) by {
        lemma_below_self(closed, id);
        lemma_below_parent(closed, top, id);
        lemma_below_trans(closed, group, top, id);
    }
    assert(closed.branch(group, id) == top) by {
        let child = closed.branch(group, id);
        assert(closed.has(child) && closed.parent(child) == Some(id));
        if child != group {
            assert(topped.has(child));
            if child != root && child != anchor {
                assert(child != id);
                assert(tree.has(child));
                assert(tree.parent(child) == Some(id));
                assert(tree.has(tree.parent(child)->0));
            }
        }
    }
    assert(closed.children(id) == seq![top]) by {
        assert(topped.has(id));
        if anchor == root {
            let ids = topped.children(id);
            assert(ids[0] == root);
            assert(ids.index_of(root) == 0) by {
                let found = ids.index_of(root);
                assert(ids[found] == root);
            }
            assert(ids.update(0, group) =~= seq![group]);
        }
    }
}

/// A new node that joins another one stands next to it, in a group that takes its place.
pub proof fn lemma_added(
    tree: TreeModel,
    id: NodeId,
    item: NodeView,
    group: NodeId,
    group_item: NodeView,
    anchor: NodeId,
    place: Option<int>,
)
    requires
        tree.forest(),
        tree.connected(),
        tree.has(anchor),
        !tree.has(id),
        !tree.has(group),
        group != id,
        place matches Some(place) ==> 0 <= place <= 1,
    ensures
        ({
            let after = tree.added_beside(id, item, group, group_item, anchor, place);
            &&& tree.paired(after, anchor, id, group, place == Some(0int))
            &&& after.nodes[id].item == item
            &&& after.nodes[group].item == group_item
        }),
{
    let rank = choose|rank: Map<NodeId, nat>| tree.ranked(rank);
    lemma_below_root(tree, anchor, rank);
    let root = tree.root->0;
    lemma_rooted_forest(tree, id, item, root);
    let topped = tree.rooted(id, item);
    let above = topped.parent(anchor)->0;
    assert(tree.has(anchor));
    assert(topped.parent(anchor) == Some(above));
    lemma_enclosed_below(topped, anchor, group, group_item, above);
    let closed = topped.enclosed(anchor, group, group_item);
    lemma_branch_below_new_root(tree, topped, closed, id, group, group_item, anchor, root);
    let top = if anchor == root {
        group
    } else {
        root
    };
    lemma_lowered(closed, id, group, anchor, top);
    let grouped = closed.moved_to_parent(id, group);
    assert(topped.grouped(anchor, id, group, group_item) == grouped) by {
        reveal(TreeModel::grouped);
    }
    let after = tree.added_beside(id, item, group, group_item, anchor, place);
    match place {
        Some(place) => {
            lemma_ordered(grouped, id, group, anchor, place);
        },
        None => {},
    }
    lemma_paired(tree, topped, closed, grouped, after, id, group, group_item, anchor, root, place == Some(0int));
}

/// What the steps of adding a node come to.
proof fn lemma_paired(
    tree: TreeModel,
    topped: TreeModel,
    closed: TreeModel,
    grouped: TreeModel,
    after: TreeModel,
    id: NodeId,
    group: NodeId,
    group_item: NodeView,
    anchor: NodeId,
    root: NodeId,
    first: bool,
)
    requires
        tree.root == Some(root),
        tree.has(root),
        tree.parent(root) is None,
        tree.connected(),
        tree.has(anchor),
        !tree.has(id),
        !tree.has(group),
        group != id,
        topped.nodes.dom() == tree.nodes.dom().insert(id),
        topped.parent(root) == Some(id),
        forall|other: NodeId| #[trigger]
            tree.has(other) ==> topped.nodes[other].item == tree.nodes[other].item
                && topped.children(other) == tree.children(other) && (other != root
                ==> topped.parent(other) == tree.parent(other)),
        topped.capped(closed, anchor, group, group_item),
        ({
            let top = if anchor == root {
                group
            } else {
                root
            };
            &&& grouped.nodes.dom() == closed.nodes.dom()
            &&& grouped.root == Some(top)
            &&& grouped.children(group) == seq![anchor, id]
            &&& grouped.children(id).len() == 0
            &&& grouped.parent(id) == Some(group)
            &&& grouped.parent(top) is None
            &&& forall|other: NodeId| #[trigger]
                closed.has(other) ==> grouped.nodes[other].item == closed.nodes[other].item && (
                other != id && other != top ==> grouped.parent(other) == closed.parent(other)) && (
                other != id && other != group ==> grouped.children(other) == closed.children(other))
        }),
        after == grouped.with_children(
            group,
            if first {
                seq![id, anchor]
            } else {
                seq![anchor, id]
            },
        ) || !first && after == grouped,
    ensures
        tree.paired(after, anchor, id, group, first),
        after.nodes[id].item == topped.nodes[id].item,
        after.nodes[group].item == group_item,
{
    assert(tree.has(anchor));
    assert(tree.parent(anchor) is None ==> anchor == root);
    assert(closed.has(group) && closed.has(anchor) && closed.has(id) && topped.has(id));
    assert(after.nodes.dom() =~= tree.nodes.dom().insert(id).insert(group));
    assert forall|other: NodeId| #[trigger] tree.has(other) implies after.nodes[other].item
        == tree.nodes[other].item && (other != anchor ==> after.parent(other) == tree.parent(
        other,
    )) && after.children(other) == if tree.parent(anchor) == Some(other) {
        tree.children(other).update(tree.children(other).index_of(anchor), group)
    } else {
        tree.children(other)
    } by {
        assert(topped.has(other) && closed.has(other));
    }
}

/// A new window takes its place beside another one: beside the one it is given, or else beside
/// everything in the tree. They share what the other one had, in columns or in rows: as the
/// direction says that it came from, or else so that the longer side is split. A window that comes
/// from the left or from above stands behind the other one, one that comes from the right or from
/// below before it; without a direction it stands behind. Nothing else in the tree changes.
pub proof fn law_a_new_window_stands_beside_another(
    tree: TreeModel,
    after: TreeModel,
    id: NodeId,
    item: NodeView,
    key: u64,
    output: Size,
    node: Option<NodeId>,
    direction: Option<Direction>,
)
    requires
        tree.settled(),
        !tree.has(id),
        node matches Some(node) ==> tree.has(node),
        tree.mapped_as(after, id, item, key, output, node, direction),
    ensures
        after.nodes[id].item == item,
        tree.root is None ==> after.root == Some(id) && after.children(id).len() == 0,
        tree.root matches Some(root) ==> {
            let split = if node is None {
                output
            } else {
                tree.data(node->0).geometry().size
            };
            exists|anchor: NodeId, group: NodeId, first: bool| #[trigger]
                tree.paired(after, anchor, id, group, first) && anchor == (if direction is None
                    && node is Some {
                    node->0
                } else {
                    root
                }) && first == (direction == Some(
                    Direction::Right,
                ) || direction == Some(Direction::Down)) && !tree.has(group) && after.data(group) is Group
                    && after.data(group)->Group_orientation == match direction {
                    Some(Direction::Left) | Some(Direction::Right) => Orientation::Vertical,
                    Some(Direction::Up) | Some(Direction::Down) => Orientation::Horizontal,
                    None => if split.w > split.h {
                        Orientation::Vertical
                    } else {
                        Orientation::Horizontal
                    },
                }
        },
{
    lemma_sound(tree);
    match tree.root {
        None => {
            if node is Some {
                let rank = choose|rank: Map<NodeId, nat>| tree.ranked(rank);
                lemma_below_root(tree, node->0, rank);
            }
        },
        Some(root) => {
            let anchor = if direction is None && node is Some {
                node->0
            } else {
                root
            };
            assert(tree.map_anchor(node, direction) == Some(anchor));
            let group_item = new_group_item(key, tree.map_orientation(output, node, direction));
            let group = choose|group: NodeId|
                !tree.has(group) && group != id && after == #[trigger] tree.with_mapped(
                    id,
                    item,
                    group,
                    group_item,
                    anchor,
                    direction,
                );
            let place = match direction {
                Some(Direction::Left) | Some(Direction::Up) => Some(1int),
                Some(Direction::Right) | Some(Direction::Down) => Some(0int),
                None => None,
            };
            lemma_added(tree, id, item, group, group_item, anchor, place);
            assert(after == tree.added_beside(id, item, group, group_item, anchor, place));
            assert(tree.paired(
                after,
                anchor,
                id,
                group,
                direction == Some(Direction::Right) || direction == Some(Direction::Down),
            ));
        },
    }
}

/// A window that leaves a stack stands on the side of it that it moves to, in columns if it moves
/// to the left or to the right and in rows otherwise.
pub proof fn law_a_window_leaves_a_stack_on_its_side(
    layout: LayoutView,
    after: LayoutView,
    node: u64,
    window: Window,
    direction: Direction,
    key: u64,
    configures: Seq<Configure>,
)
    requires
        layout.ready(),
        layout.newest().has_key(node),
        layout.moves_out(after, node, window, direction, key, configures),
    ensures
        exists|copy: TreeModel, tree: TreeModel, id: NodeId, group: NodeId, first: bool|
            {
                &&& layout.newest().copied(copy)
                &&& #[trigger] copy.paired(tree, copy.node_keyed(node), id, group, first)
                &&& first == (direction is Left || direction is Up)
                &&& tree.data(id) is Mapped
                &&& tree.data(id)->mapped == window
                &&& tree.data(group)->Group_orientation == if direction is Left || direction is Right {
                    Orientation::Vertical
                } else {
                    Orientation::Horizontal
                }
                &&& layout.appended(after, tree, 200, configures)
            },
{
    let (copy, id, group) = choose|copy: TreeModel, id: NodeId, group: NodeId|
        layout.newest().copied(copy) && !copy.has(id) && !copy.has(group) && group != id
            && layout.appended(
            after,
            #[trigger] copy.added_beside(
                id,
                new_window(key, window, None),
                group,
                new_group_item((key + 1) as u64, along(direction)),
                copy.node_keyed(node),
                Some(far_place(direction)),
            ),
            ANIMATION_DURATION,
            configures,
        );
    let tree = copy.added_beside(
        id,
        new_window(key, window, None),
        group,
        new_group_item((key + 1) as u64, along(direction)),
        copy.node_keyed(node),
        Some(far_place(direction)),
    );
    let newest = layout.newest();
    assert(newest.settled() && newest.keyed());
    crate::copies::law_copies_are_alike(newest, copy);
    lemma_sound(copy);
    assert(copy.has_key(node));
    lemma_added(
        copy,
        id,
        new_window(key, window, None),
        group,
        new_group_item((key + 1) as u64, along(direction)),
        copy.node_keyed(node),
        Some(far_place(direction)),
    );
    assert(copy.paired(
        tree,
        copy.node_keyed(node),
        id,
        group,
        direction is Left || direction is Up,
    ));
}

/// A branch that comes from another tree stands beside the node that has the focus, or beside
/// everything if none has it: before it if it comes from the right or from below, behind it
/// otherwise. They share what the other one had, in columns or in rows as the direction says, or
/// else so that the longer side is split. In an empty tree the branch is all there is.
pub proof fn law_a_branch_arrives_beside_the_focus(
    tree: TreeModel,
    after: TreeModel,
    source: TreeModel,
    from: NodeId,
    focus: Option<KeyboardFocusView>,
    direction: Option<Direction>,
    key: u64,
)
    requires
        tree.settled(),
        tree.takes_branch(after, source, from, focus, direction, key),
        forall|found: Option<NodeId>|
            focus is Some && #[trigger] tree.focused_node(focus->0, found) && found is Some
                ==> tree.has(found->0),
    ensures
        tree.root is None ==> exists|id: NodeId|
            after.root == Some(id) && (#[trigger] after.nodes[id]).item == source.nodes[from].item,
        tree.root matches Some(root) ==> exists|
            anchor: NodeId,
            id: NodeId,
            group: NodeId,
            first: bool,
        |
            {
                &&& #[trigger] after.stands_beside(anchor, id, group, first)
                &&& first == (direction == Some(Direction::Right) || direction == Some(
                    Direction::Down,
                ))
                &&& tree.has(anchor)
                &&& focus is None ==> anchor == root
                &&& focus is Some ==> tree.focused_node(focus->0, Some(anchor)) || anchor == root
                    && tree.focused_node(focus->0, None)
                &&& !tree.has(id)
                &&& !tree.has(group)
                &&& after.nodes[id].item == source.nodes[from].item
                &&& after.parent(group) == tree.parent(anchor)
                &&& after.data(group)->Group_orientation == match direction {
                    Some(Direction::Left) | Some(Direction::Right) => Orientation::Vertical,
                    Some(Direction::Up) | Some(Direction::Down) => Orientation::Horizontal,
                    None => if tree.data(anchor).geometry().size.w > tree.data(
                        anchor,
                    ).geometry().size.h {
                        Orientation::Vertical
                    } else {
                        Orientation::Horizontal
                    },
                }
            },
{
    lemma_sound(tree);
    let (anchor, id) = choose|anchor: Option<NodeId>, id: NodeId| #[trigger]
        tree.receives_at(focus, anchor) && !tree.has(id) && #[trigger] tree.received(
            after,
            id,
            source,
            from,
            new_group_item(key, tree.receiving_orientation(anchor, direction)),
            anchor,
            tree.receiving_place(anchor, direction),
        );
    let item = source.nodes[from].item;
    let group_item = new_group_item(key, tree.receiving_orientation(anchor, direction));
    let place = tree.receiving_place(anchor, direction);
    let (mid, ids) = choose|mid: TreeModel, ids: Map<NodeId, NodeId>| #[trigger]
        tree.opened_for(mid, id, item, group_item, anchor, place) && #[trigger] mid.grafted(
            after,
            id,
            source,
            from,
            ids,
        );
    match tree.root {
        None => {
            assert(mid == tree.rooted(id, item));
            assert(mid.has(id));
            assert(after.nodes[id].item == item);
        },
        Some(root) => {
            if focus is Some {
                let found = choose|found: Option<NodeId>| #[trigger]
                    tree.focused_node(focus->0, found) && anchor == match found {
                        Some(id) => Some(id),
                        None => Some(root),
                    };
                assert(found is Some ==> tree.has(found->0));
            }
            let beside = anchor->0;
            assert(tree.has(beside));
            let group = choose|group: NodeId|
                !tree.has(group) && group != id && mid == #[trigger] tree.added_beside(
                    id,
                    item,
                    group,
                    group_item,
                    beside,
                    place,
                );
            lemma_arrived(tree, mid, after, source, from, ids, beside, id, group, group_item, place);
        },
    }
}

/// A branch that is put in the place of a new node stands where that one stood.
proof fn lemma_arrived(
    tree: TreeModel,
    mid: TreeModel,
    after: TreeModel,
    source: TreeModel,
    from: NodeId,
    ids: Map<NodeId, NodeId>,
    anchor: NodeId,
    id: NodeId,
    group: NodeId,
    group_item: NodeView,
    place: Option<int>,
)
    requires
        tree.forest(),
        tree.connected(),
        tree.has(anchor),
        !tree.has(id),
        !tree.has(group),
        group != id,
        place matches Some(place) ==> 0 <= place <= 1,
        mid == tree.added_beside(id, source.nodes[from].item, group, group_item, anchor, place),
        mid.grafted(after, id, source, from, ids),
    ensures
        after.stands_beside(anchor, id, group, place == Some(0int)),
        after.parent(group) == tree.parent(anchor),
        after.nodes[id].item == source.nodes[from].item,
        after.nodes[group].item == group_item,
{
    lemma_added(tree, id, source.nodes[from].item, group, group_item, anchor, place);
    assert(mid.has(group) && mid.has(id) && mid.has(anchor));
}

/// The windows of a stack that is taken apart stand one behind the other: each of them beside the
/// one that came before it.
pub proof fn law_windows_spread_one_beside_the_other(
    trees: Seq<TreeModel>,
    ids: Seq<NodeId>,
    windows: Seq<Window>,
    output: Size,
    base: int,
    i: int,
)
    requires
        crate::reshape::spreads(trees, ids, windows, output, base),
        0 <= i < windows.len(),
        trees[i].settled(),
        trees[i].has(ids[i]),
        !trees[i].has(ids[i + 1]),
    ensures
        exists|group: NodeId|
            {
                &&& #[trigger] trees[i].paired(trees[i + 1], ids[i], ids[i + 1], group, false)
                &&& trees[i + 1].data(ids[i + 1]) is Mapped
                &&& trees[i + 1].data(ids[i + 1])->mapped == windows[i]
                &&& trees[i + 1].data(group)->Group_orientation == if trees[i].data(
                    ids[i],
                ).geometry().size.w > trees[i].data(ids[i]).geometry().size.h {
                    Orientation::Vertical
                } else {
                    Orientation::Horizontal
                }
            },
{
    let tree = trees[i];
    let after = trees[i + 1];
    let item = new_window((base + 2 * i) as u64, windows[i], None);
    let key = (base + 2 * i + 1) as u64;
    assert(tree.mapped_as(after, ids[i + 1], item, key, output, Some(ids[i]), None));
    lemma_sound(tree);
    let rank = choose|rank: Map<NodeId, nat>| tree.ranked(rank);
    lemma_below_root(tree, ids[i], rank);
    law_a_new_window_stands_beside_another(
        tree,
        after,
        ids[i + 1],
        item,
        key,
        output,
        Some(ids[i]),
        None,
    );
    let (anchor, group, first) = choose|anchor: NodeId, group: NodeId, first: bool| #[trigger]
        tree.paired(after, anchor, ids[i + 1], group, first) && anchor == ids[i] && first == false
            && after.data(group)->Group_orientation == if tree.data(ids[i]).geometry().size.w
            > tree.data(ids[i]).geometry().size.h {
            Orientation::Vertical
        } else {
            Orientation::Horizontal
        };
    assert(tree.paired(after, ids[i], ids[i + 1], group, false));
}

/// A group whose windows become a stack is one window then: it stands where the group stood, and
/// what was below the group is gone.
pub proof fn law_a_stacked_group_is_one_window(tree: TreeModel, node: NodeId, data: DataView, other: NodeId)
    requires
        tree.forest(),
        tree.has(node),
        tree.has(other),
        other != node,
    ensures
        ({
            let after = tree.with_window(node, data);
            &&& after.has(node)
            &&& after.data(node) == data
            &&& after.key(node) == tree.key(node)
            &&& after.children(node).len() == 0
            &&& after.parent(node) == tree.parent(node)
            &&& after.root == tree.root
            &&& after.has(other) <==> !tree.below(other, node)
            &&& !tree.below(other, node) ==> after.nodes[other] == tree.nodes[other]
        }),
{
    let count = tree.children(node).len() as int;
    assert forall|k: int| 0 <= k < count implies !tree.below(
        node,
        #[trigger] tree.children(node)[k],
    ) by {
        assert(tree.has(tree.children(node)[k]) && tree.parent(tree.children(node)[k]) == Some(
            node,
        ));
        lemma_parent_not_below(tree, tree.children(node)[k], node);
    }
    assert(tree.cleared(node).has(node));
    if tree.below(other, node) {
        crate::lineage::lemma_branch(tree, other, node);
        let child = tree.branch(other, node);
        assert(tree.has(child));
        let at = tree.children(node).index_of(child);
        assert(tree.children(node)[at] == child);
        assert(tree.below(other, tree.children(node)[at]));
        assert(!tree.cleared(node).has(other));
    } else {
        assert forall|k: int| 0 <= k < count implies !tree.below(
            other,
            #[trigger] tree.children(node)[k],
        ) by {
            let child = tree.children(node)[k];
            assert(tree.has(child) && tree.parent(child) == Some(node));
            if tree.below(other, child) {
                lemma_below_self(tree, node);
                lemma_below_parent(tree, child, node);
                lemma_below_trans(tree, other, child, node);
            }
        }
        assert(tree.cleared(node).has(other));
    }
}

} // verus!
