//! Where a dropped window stands in a tree, and what is left when one leaves.

use vstd::prelude::*;

use id_tree::NodeId;

use crate::actions::Direction;
use crate::balance::lemma_sound;
use crate::geometry::Orientation;
use crate::lineage::{
    lemma_below_cases, lemma_below_parent, lemma_below_self, lemma_below_trans,
    lemma_parent_not_below,
};
use crate::moves::far_place;
use crate::surgery::{along, new_group_item};
use crate::tree::{without_id, NodeView, TreeModel};
use crate::tree_laws::{lemma_forked_children, lemma_not_below_grown};

verus! {

/// The last of a list, taken away again.
proof fn lemma_pushed_back(ids: Seq<NodeId>, id: NodeId)
    requires
        !ids.contains(id),
    ensures
        without_id(ids.push(id), id) == ids,
{
    let more = ids.push(id);
    assert(more[ids.len() as int] == id);
    assert(more.contains(id));
    assert(more.index_of(id) == ids.len()) by {
        let found = more.index_of(id);
        assert(more[found] == id);
        if found < ids.len() {
            assert(ids[found] == id);
        }
    }
    assert(more.remove(ids.len() as int) =~= ids);
}

impl TreeModel {
    /// Whether a tree has a new leaf, the last child of another node.
    spec fn leafed(self, after: TreeModel, id: NodeId, parent: NodeId) -> bool {
        &&& after.nodes.dom() == self.nodes.dom().insert(id)
        &&& after.children(id).len() == 0
        &&& after.parent(id) == Some(parent)
        &&& after.children(parent) == self.children(parent).push(id)
        &&& after.root == self.root
        &&& forall|other: NodeId| #[trigger]
            self.has(other) ==> after.nodes[other].item == self.nodes[other].item && after.parent(
                other,
            ) == self.parent(other) && (other != parent ==> after.children(other)
                == self.children(other))
    }
}

/// Whose child everything is after a leaf was added.
proof fn lemma_leafed_children(tree: TreeModel, after: TreeModel, id: NodeId, parent: NodeId, node: NodeId)
    requires
        tree.forest(),
        tree.has(parent),
        !tree.has(id),
        tree.leafed(after, id, parent),
        after.has(node),
    ensures
        after.children(node).no_duplicates(),
        forall|i: int|
            0 <= i < after.children(node).len() ==> after.has(#[trigger] after.children(node)[i])
                && after.parent(after.children(node)[i]) == Some(node),
{
    if node != id {
        assert(tree.has(node));
        let ids = tree.children(node);
        assert(ids.no_duplicates());
        assert forall|i: int| 0 <= i < ids.len() implies tree.has(#[trigger] ids[i])
            && tree.parent(ids[i]) == Some(node) && after.has(ids[i]) && after.parent(ids[i])
            == Some(node) by {
            assert(tree.children(node)[i] == ids[i]);
            assert(tree.has(tree.children(node)[i]));
        }
        if node == parent {
            let more = after.children(node);
            assert forall|i: int| 0 <= i < more.len() implies after.has(#[trigger] more[i])
                && after.parent(more[i]) == Some(node) by {
                if i < ids.len() {
                    assert(more[i] == ids[i]);
                } else {
                    assert(more[i] == id);
                }
            }
        } else {
            assert forall|i: int| 0 <= i < after.children(node).len() implies after.has(
                #[trigger] after.children(node)[i],
            ) && after.parent(after.children(node)[i]) == Some(node) by {
                assert(after.children(node)[i] == ids[i]);
            }
        }
    }
}

/// Among whose children everything is after a leaf was added.
proof fn lemma_leafed_parent(tree: TreeModel, after: TreeModel, id: NodeId, parent: NodeId, node: NodeId)
    requires
        tree.forest(),
        tree.has(parent),
        !tree.has(id),
        tree.leafed(after, id, parent),
        after.has(node),
        after.parent(node) is Some,
    ensures
        after.has(after.parent(node)->0),
        after.children(after.parent(node)->0).contains(node),
{
    if node == id {
        let ids = after.children(parent);
        assert(ids[ids.len() - 1] == id);
    } else {
        assert(tree.has(node));
        let above = tree.parent(node)->0;
        assert(tree.has(above) && tree.children(above).contains(node));
        let at = tree.children(above).index_of(node);
        assert(tree.children(above)[at] == node);
        assert(after.children(above)[at] == node);
    }
}

/// A new leaf leaves the tree in order.
proof fn lemma_leafed_forest(tree: TreeModel, after: TreeModel, id: NodeId, parent: NodeId)
    requires
        tree.forest(),
        tree.connected(),
        tree.has(parent),
        !tree.has(id),
        tree.leafed(after, id, parent),
    ensures
        after.forest(),
        after.connected(),
{
    let rank = choose|rank: Map<NodeId, nat>| tree.ranked(rank);
    let deeper = Map::new(
        |node: NodeId| true,
        |node: NodeId|
            if node == id {
                rank[parent] + 1
            } else {
                rank[node]
            },
    );
    assert(after.ranked(deeper)) by {
        assert forall|node: NodeId| #[trigger] after.has(node) implies match after.parent(node) {
            Some(above) => deeper[above] < deeper[node],
            None => true,
        } by {
            if node != id {
                assert(tree.has(node));
                match tree.parent(node) {
                    Some(above) => {
                        assert(tree.has(above));
                    },
                    None => {},
                }
            }
        }
    }
    assert forall|node: NodeId, i: int|
        #![trigger after.children(node)[i]]
        after.has(node) && 0 <= i < after.children(node).len() implies after.has(
        after.children(node)[i],
    ) && after.parent(after.children(node)[i]) == Some(node) by {
        lemma_leafed_children(tree, after, id, parent, node);
    }
    assert forall|node: NodeId| #[trigger] after.has(node) implies after.children(
        node,
    ).no_duplicates() && match after.parent(node) {
        Some(above) => after.has(above) && after.children(above).contains(node),
        None => true,
    } by {
        lemma_leafed_children(tree, after, id, parent, node);
        if after.parent(node) is Some {
            lemma_leafed_parent(tree, after, id, parent, node);
        }
    }
    assert forall|node: NodeId| #[trigger]
        after.has(node) && after.parent(node) is None implies after.root == Some(node) by {
        assert(tree.has(node));
    }
    assert(match after.root {
        Some(root) => after.has(root) && after.parent(root) is None,
        None => true,
    }) by {
        match tree.root {
            Some(root) => {
                assert(tree.has(root));
            },
            None => {},
        }
    }
}

/// A new leaf leaves the tree in order, and everything else where it was.
proof fn lemma_grown_forest(tree: TreeModel, id: NodeId, item: NodeView, parent: NodeId)
    requires
        tree.forest(),
        tree.connected(),
        tree.has(parent),
        !tree.has(id),
    ensures
        ({
            let after = tree.grown(id, item, parent);
            &&& after.forest()
            &&& after.connected()
            &&& tree.leafed(after, id, parent)
            &&& after.nodes[id].item == item
            &&& !tree.children(parent).contains(id)
        }),
{
    let after = tree.grown(id, item, parent);
    assert(after.nodes.dom() =~= tree.nodes.dom().insert(id));
    assert(!tree.children(parent).contains(id)) by {
        if tree.children(parent).contains(id) {
            let at = tree.children(parent).index_of(id);
            assert(tree.has(tree.children(parent)[at]));
        }
    }
    lemma_leafed_forest(tree, after, id, parent);
}

/// A new node that was put below another one and then into a group with it stands beside it, in
/// the group that takes its place.
pub proof fn lemma_dropped(
    tree: TreeModel,
    id: NodeId,
    item: NodeView,
    anchor: NodeId,
    group: NodeId,
    group_item: NodeView,
    place: int,
)
    requires
        tree.forest(),
        tree.connected(),
        tree.has(anchor),
        !tree.has(id),
        !tree.has(group),
        group != id,
        0 <= place <= 1,
    ensures
        ({
            let after = tree.grown(id, item, anchor).grouped(
                anchor,
                id,
                group,
                group_item,
            ).at_sibling(id, place);
            &&& after.stands_beside(anchor, id, group, place == 0)
            &&& after.nodes.dom() == tree.nodes.dom().insert(id).insert(group)
            &&& after.nodes[id].item == item
            &&& after.nodes[group].item == group_item
            &&& after.parent(group) == tree.parent(anchor)
            &&& forall|other: NodeId| #[trigger]
                tree.has(other) ==> after.nodes[other].item == tree.nodes[other].item && (other
                    != anchor ==> after.parent(other) == tree.parent(other)) && after.children(
                    other,
                ) == if tree.parent(anchor) == Some(other) {
                    tree.children(other).update(tree.children(other).index_of(anchor), group)
                } else {
                    tree.children(other)
                }
        }),
{
    lemma_grown_forest(tree, id, item, anchor);
    let grown = tree.grown(id, item, anchor);
    assert(grown.has(id) && grown.has(anchor));
    assert(!grown.below(anchor, id)) by {
        lemma_parent_not_below(grown, id, anchor);
    }
    lemma_forked_children(grown, anchor, id, group, group_item, place);
    let after = grown.forked(anchor, id, group, group_item, place);
    lemma_pushed_back(tree.children(anchor), id);
    assert(after.nodes.dom() =~= tree.nodes.dom().insert(id).insert(group));
    assert(tree.parent(anchor) != Some(anchor)) by {
        let rank = choose|rank: Map<NodeId, nat>| tree.ranked(rank);
        assert(tree.has(anchor));
    }
    assert forall|other: NodeId| #[trigger] tree.has(other) implies after.nodes[other].item
        == tree.nodes[other].item && (other != anchor ==> after.parent(other) == tree.parent(
        other,
    )) && after.children(other) == if tree.parent(anchor) == Some(other) {
        tree.children(other).update(tree.children(other).index_of(anchor), group)
    } else {
        tree.children(other)
    } by {
        assert(grown.has(other));
    }
}

/// A window that is dropped on a side of another one stands on that side: in columns to the left or
/// to the right of it, in rows above or below it. The two share what the other one had, and nothing
/// else changes.
pub proof fn law_a_dropped_window_stands_on_its_side(
    tree: TreeModel,
    after: TreeModel,
    id: NodeId,
    item: NodeView,
    window: NodeId,
    direction: Direction,
    key: u64,
)
    requires
        tree.settled(),
        tree.has(window),
        !tree.has(id),
        tree.dropped_beside(after, id, item, window, direction, key),
    ensures
        exists|group: NodeId, first: bool|
            {
                &&& #[trigger] after.stands_beside(window, id, group, first)
                &&& first == (direction is Left || direction is Up)
                &&& !tree.has(group)
                &&& after.nodes[id].item == item
                &&& after.data(group)->Group_orientation == if direction is Left
                    || direction is Right {
                    Orientation::Vertical
                } else {
                    Orientation::Horizontal
                }
                &&& after.parent(group) == tree.parent(window)
                &&& tree.parent(window) matches Some(parent) ==> after.children(parent)
                    == tree.children(parent).update(tree.children(parent).index_of(window), group)
                &&& forall|other: NodeId|
                    tree.has(other) && tree.parent(window) != Some(other)
                        ==> #[trigger] after.children(other) == tree.children(other)
            },
{
    lemma_sound(tree);
    let group_item = new_group_item(key, along(direction));
    let group = choose|group: NodeId|
        !tree.has(group) && group != id && after == (#[trigger] tree.grown(id, item, window).grouped(
            window,
            id,
            group,
            group_item,
        )).at_sibling(id, far_place(direction));
    lemma_dropped(tree, id, item, window, group, group_item, far_place(direction));
    assert(tree.has(window));
    assert(after.stands_beside(window, id, group, far_place(direction) == 0));
}

/// A window that is dropped at an edge of a group is at that end of it: as its first child on the
/// left of columns and at the top of rows, as its last one at the other end. At an edge across the
/// group it stands beside all of the group on that side.
pub proof fn law_a_window_dropped_at_an_edge_is_at_that_end(
    tree: TreeModel,
    after: TreeModel,
    id: NodeId,
    item: NodeView,
    group: NodeId,
    direction: Direction,
    key: u64,
)
    requires
        tree.settled(),
        tree.has(group),
        tree.data(group) is Group,
        !tree.has(id),
        tree.dropped_at_edge(after, id, item, group, direction, key),
    ensures
        ({
            let sideways = direction is Left || direction is Right;
            let start = direction is Left || direction is Up;
            let columns = tree.data(group)->Group_orientation is Vertical;
            if sideways == columns {
                &&& after.children(group) == if start {
                    seq![id] + tree.children(group)
                } else {
                    tree.children(group).push(id)
                }
                &&& after.parent(id) == Some(group)
                &&& after.parent(group) == tree.parent(group)
                &&& after.data(group)->Group_orientation == tree.data(group)->Group_orientation
            } else {
                exists|outer: NodeId, first: bool|
                    {
                        &&& #[trigger] after.stands_beside(group, id, outer, first)
                        &&& first == start
                        &&& !tree.has(outer)
                        &&& after.data(outer)->Group_orientation == if sideways {
                            Orientation::Vertical
                        } else {
                            Orientation::Horizontal
                        }
                        &&& after.parent(outer) == tree.parent(group)
                        &&& after.children(group) == tree.children(group)
                    }
            }
        }),
        after.nodes[id].item == item,
{
    lemma_sound(tree);
    crate::balance::lemma_regular(tree);
    reveal(TreeModel::regular);
    let grown = tree.grown(id, item, group);
    if tree.data(group).spec_orientation() != along(direction) {
        let group_item = new_group_item(key, along(direction));
        let outer = choose|outer: NodeId|
            !tree.has(outer) && outer != id && after == (#[trigger] grown.grouped(
                group,
                id,
                outer,
                group_item,
            )).at_sibling(id, far_place(direction));
        lemma_dropped(tree, id, item, group, outer, group_item, far_place(direction));
        assert(tree.has(group));
        assert(tree.parent(group) != Some(group)) by {
            let rank = choose|rank: Map<NodeId, nat>| tree.ranked(rank);
        }
        assert(after.stands_beside(group, id, outer, far_place(direction) == 0));
    } else {
        lemma_grown_forest(tree, id, item, group);
        lemma_pushed_back(tree.children(group), id);
        let count = tree.children(group).len() as int;
        assert(tree.data(group)->sizes.len() == count);
        assert(tree.children(group).insert(0, id) =~= seq![id] + tree.children(group));
        assert(tree.children(group).insert(count, id) =~= tree.children(group).push(id));
    }
}

/// A window that is dropped between two children of a group stands between them, and the others
/// keep their order.
pub proof fn law_a_window_dropped_inside_stands_between(
    tree: TreeModel,
    id: NodeId,
    item: NodeView,
    group: NodeId,
    index: int,
)
    requires
        tree.settled(),
        tree.has(group),
        tree.data(group) is Group,
        !tree.has(id),
        0 <= index < tree.children(group).len(),
    ensures
        ({
            let after = tree.dropped_inside(id, item, group, index);
            let before = tree.children(group);
            &&& after.nodes[id].item == item
            &&& after.parent(id) == Some(group)
            &&& after.children(group).len() == before.len() + 1
            &&& after.children(group)[index] == before[index]
            &&& after.children(group)[index + 1] == id
            &&& index + 1 < before.len() ==> after.children(group)[index + 2] == before[index + 1]
            &&& after.children(group).remove(index + 1) == before
        }),
{
    lemma_sound(tree);
    crate::balance::lemma_regular(tree);
    reveal(TreeModel::regular);
    lemma_grown_forest(tree, id, item, group);
    lemma_pushed_back(tree.children(group), id);
    assert(tree.data(group)->sizes.len() == tree.children(group).len());
    let after = tree.dropped_inside(id, item, group, index);
    assert(after.children(group) == tree.children(group).insert(index + 1, id));
    assert(after.children(group).remove(index + 1) =~= tree.children(group));
}

/// What is left of a list of two, and where it was.
proof fn lemma_two(ids: Seq<NodeId>, id: NodeId, other: NodeId) -> (at: int)
    requires
        ids == seq![id, other] || ids == seq![other, id],
        ids.no_duplicates(),
    ensures
        0 <= at < ids.len(),
        ids[at] == other,
        without_id(ids, id) == seq![other],
        id != other,
{
    assert(ids[0] != ids[1]);
    let place = if ids == seq![id, other] {
        0
    } else {
        1
    };
    assert(ids[place] == id);
    assert(ids.contains(id));
    assert(ids.index_of(id) == place) by {
        let found = ids.index_of(id);
        assert(ids[found] == id);
    }
    assert(ids.remove(place) =~= seq![other]);
    1 - place
}

/// One of a list replaced by another: taken out, and the other put in at its place.
proof fn lemma_replaced_by(ids: Seq<NodeId>, old_id: NodeId, new_id: NodeId)
    requires
        ids.contains(old_id),
        ids.no_duplicates(),
        !ids.contains(new_id),
    ensures
        !without_id(ids, old_id).contains(new_id),
        without_id(ids, old_id).insert(ids.index_of(old_id), new_id) == ids.update(
            ids.index_of(old_id),
            new_id,
        ),
        without_id(ids, old_id).len() == ids.len() - 1,
{
    let at = ids.index_of(old_id);
    let rest = without_id(ids, old_id);
    if rest.contains(new_id) {
        let found = rest.index_of(new_id);
        assert(rest[found] == new_id);
        if found < at {
            assert(ids[found] == new_id);
        } else {
            assert(ids[found + 1] == new_id);
        }
    }
    assert(rest.insert(at, new_id) =~= ids.update(at, new_id));
}

impl TreeModel {
    /// Whether everything below a node is gone, and all else stays where it was but for two nodes
    /// and what those are children of.
    pub open spec fn thinned(self, after: TreeModel, id: NodeId, group: NodeId) -> bool {
        &&& forall|other: NodeId| #[trigger]
            after.has(other) ==> self.has(other) && !self.below(other, id) && after.key(other)
                == self.key(other)
        &&& forall|other: NodeId| #[trigger]
            self.has(other) && !self.below(other, id) && other != group ==> after.has(other)
                && after.data(other) == self.data(other)
    }
}

/// When a window leaves a group of more than two, the others stay in their order.
pub proof fn law_the_others_stay_in_order(tree: TreeModel, id: NodeId, group: NodeId)
    requires
        tree.settled(),
        tree.has(id),
        tree.parent(id) == Some(group),
        tree.children(group).len() > 2,
    ensures
        ({
            let after = tree.unmapped(id);
            &&& tree.thinned(after, id, group)
            &&& after.has(group)
            &&& after.children(group) == tree.children(group).remove(
                tree.children(group).index_of(id),
            )
            &&& after.parent(group) == tree.parent(group)
            &&& after.root == tree.root
            &&& after.data(group)->Group_orientation == tree.data(group)->Group_orientation
            &&& forall|other: NodeId| #[trigger]
                after.has(other) && other != group ==> after.parent(other) == tree.parent(other)
                    && after.children(other) == tree.children(other)
        }),
{
    crate::moves::lemma_place(tree, group, id);
    lemma_parent_not_below(tree, id, group);
    assert(tree.has(id) && tree.children(group).contains(id));
    let after = tree.unmapped(id);
    assert(tree.root != Some(id));
    assert(after.has(group));
}

/// When one of two leaves a group, the other one takes the place of the group.
#[verifier::spinoff_prover]
#[verifier::rlimit(40)]
pub proof fn law_the_last_one_takes_the_place(tree: TreeModel, id: NodeId, group: NodeId, other: NodeId)
    requires
        tree.settled(),
        tree.has(id),
        tree.parent(id) == Some(group),
        tree.children(group) == seq![id, other] || tree.children(group) == seq![other, id],
    ensures
        ({
            let after = tree.unmapped(id);
            &&& tree.thinned(after, id, group)
            &&& !after.has(group)
            &&& after.parent(other) == tree.parent(group)
            &&& tree.parent(group) is None ==> after.root == Some(other)
            &&& tree.parent(group) matches Some(parent) ==> after.root == tree.root
                && after.children(parent) == tree.children(parent).update(
                tree.children(parent).index_of(group),
                other,
            )
            &&& after.children(other) == tree.children(other)
        }),
{
    lemma_pair(tree, id, group, other);
    match tree.parent(group) {
        None => {
            lemma_last_is_root(tree, id, group, other);
        },
        Some(parent) => {
            lemma_last_moves_up(tree, id, group, other, parent);
        },
    }
}

/// Two nodes that are all that is in a group.
proof fn lemma_pair(tree: TreeModel, id: NodeId, group: NodeId, other: NodeId)
    requires
        tree.settled(),
        tree.has(id),
        tree.parent(id) == Some(group),
        tree.children(group) == seq![id, other] || tree.children(group) == seq![other, id],
    ensures
        tree.forest(),
        tree.connected(),
        tree.has(group),
        tree.has(other),
        tree.parent(other) == Some(group),
        tree.data(group)->sizes.len() == 2,
        without_id(tree.children(group), id) == seq![other],
        !tree.below(group, id),
        !tree.below(other, id),
        !tree.below(group, other),
        other != group,
{
    crate::moves::lemma_place(tree, group, id);
    assert(tree.children(group).no_duplicates());
    let at = lemma_two(tree.children(group), id, other);
    assert(tree.children(group)[at] == other);
    assert(tree.has(other) && tree.parent(other) == Some(group));
    lemma_parent_not_below(tree, id, group);
    lemma_parent_not_below(tree, other, group);
    lemma_below_self(tree, other);
    assert(!tree.below(other, id)) by {
        if tree.below(other, id) {
            lemma_below_cases(tree, other, id);
        }
    }
}

/// What is left when one of two leaves the topmost group.
proof fn lemma_last_is_root(tree: TreeModel, id: NodeId, group: NodeId, other: NodeId)
    requires
        tree.forest(),
        tree.connected(),
        tree.has(id),
        tree.has(group),
        tree.has(other),
        tree.parent(id) == Some(group),
        tree.parent(other) == Some(group),
        tree.parent(group) is None,
        tree.data(group)->sizes.len() == 2,
        without_id(tree.children(group), id) == seq![other],
        !tree.below(group, id),
        !tree.below(other, id),
        other != group,
    ensures
        ({
            let after = tree.unmapped(id);
            &&& tree.thinned(after, id, group)
            &&& !after.has(group)
            &&& after.parent(other) is None
            &&& after.root == Some(other)
            &&& after.children(other) == tree.children(other)
        }),
{
    let rest = tree.pruned(id);
    assert(rest.has(group) && rest.has(other));
    assert(rest.children(group)[0] == other);
    assert(tree.root == Some(group));
    let bare = rest.orphaned(group);
    assert(bare.has(other) && bare.parent(other) is None);
    let after = tree.unmapped(id);
    assert(after == bare.moved_to_root(other));
}

/// A node without a parent that is put among the children of another one.
proof fn lemma_put_in(bare: TreeModel, other: NodeId, parent: NodeId, ids: Seq<NodeId>, at: int)
    requires
        bare.has(other),
        bare.has(parent),
        other != parent,
        bare.parent(other) is None,
        !bare.below(parent, other),
        bare.children(parent) == ids,
        !ids.contains(other),
        0 <= at <= ids.len(),
    ensures
        ({
            let after = bare.moved_to_parent(other, parent).at_sibling(other, at);
            &&& after.nodes.dom() == bare.nodes.dom()
            &&& after.root == bare.root
            &&& after.parent(other) == Some(parent)
            &&& after.children(other) == bare.children(other)
            &&& after.children(parent) == ids.insert(at, other)
            &&& forall|node: NodeId| #[trigger]
                bare.has(node) ==> after.nodes[node].item == bare.nodes[node].item
        }),
{
    lemma_pushed_back(ids, other);
    let placed = bare.moved_to_parent(other, parent);
    assert(placed.children(parent) == ids.push(other));
    assert(placed.parent(other) == Some(parent));
    let after = placed.at_sibling(other, at);
    assert(after.nodes.dom() =~= bare.nodes.dom());
}

/// What is left when one of two leaves a group within another one.
proof fn lemma_last_moves_up(tree: TreeModel, id: NodeId, group: NodeId, other: NodeId, parent: NodeId)
    requires
        tree.forest(),
        tree.connected(),
        tree.has(id),
        tree.has(group),
        tree.has(other),
        tree.parent(id) == Some(group),
        tree.parent(other) == Some(group),
        tree.parent(group) == Some(parent),
        tree.data(group)->sizes.len() == 2,
        without_id(tree.children(group), id) == seq![other],
        !tree.below(group, id),
        !tree.below(other, id),
        !tree.below(group, other),
        other != group,
    ensures
        ({
            let after = tree.unmapped(id);
            &&& tree.thinned(after, id, group)
            &&& !after.has(group)
            &&& after.parent(other) == Some(parent)
            &&& after.root == tree.root
            &&& after.children(parent) == tree.children(parent).update(
                tree.children(parent).index_of(group),
                other,
            )
            &&& after.children(other) == tree.children(other)
        }),
{
    assert(tree.has(parent) && tree.children(parent).contains(group));
    lemma_parent_not_below(tree, group, parent);
    assert(tree.below(group, parent)) by {
        lemma_below_self(tree, parent);
        lemma_below_parent(tree, group, parent);
    }
    assert(!tree.below(parent, id)) by {
        if tree.below(parent, id) {
            lemma_below_trans(tree, group, parent, id);
        }
    }
    assert(!tree.below(parent, other)) by {
        if tree.below(parent, other) {
            lemma_below_trans(tree, group, parent, other);
        }
    }
    assert(parent != group && parent != other) by {
        lemma_below_self(tree, group);
        lemma_below_self(tree, other);
    }
    let rest = tree.pruned(id);
    let bare = rest.orphaned(group);
    lemma_freed(tree, rest, bare, id, group, other, parent);
    let ids = tree.children(parent);
    assert(ids.no_duplicates());
    lemma_replaced_by(ids, group, other);
    let at = ids.index_of(group);
    lemma_put_in(bare, other, parent, without_id(ids, group), at);
    let after = tree.unmapped(id);
    assert(rest.has(group) && rest.children(group)[0] == other);
    assert(rest.has(parent) && rest.children(parent) == ids);
    assert(after == bare.moved_to_parent(other, parent).at_sibling(other, at));
    assert(rest.has(other) && bare.children(other) == tree.children(other));
    assert forall|node: NodeId| #[trigger] after.has(node) implies tree.has(node) && !tree.below(
        node,
        id,
    ) && after.key(node) == tree.key(node) by {
        assert(bare.has(node));
        assert(rest.has(node));
    }
    assert forall|node: NodeId| #[trigger]
        tree.has(node) && !tree.below(node, id) && node != group implies after.has(node)
        && after.data(node) == tree.data(node) by {
        assert(rest.has(node));
        assert(bare.has(node));
    }
}

/// What is freed when a group is taken away from above its last child is not above where it was.
proof fn lemma_freed(
    tree: TreeModel,
    rest: TreeModel,
    bare: TreeModel,
    id: NodeId,
    group: NodeId,
    other: NodeId,
    parent: NodeId,
)
    requires
        tree.forest(),
        tree.has(parent),
        tree.has(group),
        tree.has(other),
        rest == tree.pruned(id),
        bare == rest.orphaned(group),
        tree.parent(id) == Some(group),
        tree.parent(other) == Some(group),
        tree.parent(group) == Some(parent),
        parent != group,
        !tree.below(parent, id),
        !tree.below(parent, other),
        !tree.below(parent, group),
        !tree.below(group, id),
        !tree.below(other, id),
    ensures
        !bare.below(parent, other),
        bare.has(parent),
        bare.has(other),
        bare.parent(other) is None,
        bare.children(parent) == without_id(tree.children(parent), group),
        !tree.children(parent).contains(other),
        !bare.has(group),
        bare.root == tree.root,
{
    assert(rest.has(parent) && rest.has(group) && rest.has(other));
    assert(rest.parent(group) == Some(parent));
    assert(rest.parent(other) == Some(group));
    assert(tree.root != Some(group) && tree.root != Some(id));
    assert(!bare.below(parent, other)) by {
        if bare.below(parent, other) {
            assert forall|node: NodeId| #[trigger]
                tree.has(node) && tree.below(parent, node) implies bare.has(node) && bare.parent(
                node,
            ) == tree.parent(node) by {
                assert(!tree.below(node, id)) by {
                    if tree.below(node, id) {
                        lemma_below_trans(tree, parent, node, id);
                    }
                }
                assert(node != group);
                assert(rest.has(node) && rest.parent(node) == tree.parent(node));
                assert(tree.parent(node) != Some(group)) by {
                    if tree.parent(node) == Some(group) {
                        lemma_below_self(tree, group);
                        lemma_below_parent(tree, node, group);
                        lemma_below_trans(tree, parent, node, group);
                    }
                }
            }
            lemma_not_below_grown(tree, bare, parent, other);
        }
    }
    assert(!tree.children(parent).contains(other)) by {
        if tree.children(parent).contains(other) {
            let at = tree.children(parent).index_of(other);
            assert(tree.has(tree.children(parent)[at]) && tree.parent(tree.children(parent)[at])
                == Some(parent));
        }
    }
}

} // verus!
