//! What holds of trees whatever is done to them.

use vstd::prelude::*;

use id_tree::NodeId;

use crate::actions::Direction;
use crate::balance::lemma_sound;
use crate::data::DataView;
use crate::geometry::Orientation;
use crate::lineage::{
    lemma_ancestor_rank, lemma_below_cases, lemma_below_parent, lemma_below_self, lemma_below_trans,
    lemma_parent_not_below, lemma_same_ancestors,
};
use crate::moves::{
    lemma_moved_in, lemma_next, lemma_next_group, lemma_outer, lemma_place, NodeMove,
};
use crate::surgery::new_group_item;
use crate::tree::{with_id_replaced, without_id, NodeView, TreeModel};

verus! {

/// What is above a node stays above it if the nodes that moved are not.
proof fn lemma_above_unmoved(
    tree: TreeModel,
    after: TreeModel,
    id: NodeId,
    top: NodeId,
    first: NodeId,
    second: NodeId,
)
    requires
        tree.forest(),
        tree.has(id),
        !tree.below(id, first),
        !tree.below(id, second),
        forall|node: NodeId| #[trigger] after.has(node) == tree.has(node),
        forall|node: NodeId| #[trigger]
            after.has(node) && node != first && node != second ==> after.parent(node)
                == tree.parent(node),
        after.below(id, top),
    ensures
        tree.below(id, top),
{
    let steps = choose|steps: nat| #[trigger] after.ancestor(id, steps) == Some(top);
    let rank = choose|rank: Map<NodeId, nat>| tree.ranked(rank);
    assert forall|k: nat| k < steps implies match #[trigger] tree.ancestor(id, k) {
        Some(node) => tree.has(node) == after.has(node) && (tree.has(node) ==> tree.parent(node)
            == after.parent(node)),
        None => true,
    } by {
        lemma_ancestor_rank(tree, rank, id, k);
        match tree.ancestor(id, k) {
            Some(node) => {
                assert(tree.below(id, node));
                assert(node != first && node != second);
                assert(after.has(node) == tree.has(node));
            },
            None => {},
        }
    }
    lemma_same_ancestors(tree, after, id, steps);
}

/// After two nodes were exchanged, neither is below the other.
proof fn lemma_still_apart(tree: TreeModel, first: NodeId, second: NodeId)
    requires
        tree.forest(),
        tree.has(first),
        tree.has(second),
        !tree.below(first, second),
        !tree.below(second, first),
        tree.parent(first) is Some,
        tree.parent(second) is Some,
        tree.parent(first) != tree.parent(second),
    ensures
        !tree.exchanged(first, second).below(first, second),
        !tree.exchanged(first, second).below(second, first),
{
    let after = tree.exchanged(first, second);
    let one = tree.parent(first)->0;
    let other = tree.parent(second)->0;
    lemma_parent_not_below(tree, first, one);
    lemma_parent_not_below(tree, second, other);
    lemma_below_self(tree, first);
    lemma_below_self(tree, second);
    assert(first != second);
    assert(first != other && second != one);
    if tree.below(other, first) {
        lemma_below_trans(tree, second, other, first);
    }
    if tree.below(one, second) {
        lemma_below_trans(tree, first, one, second);
    }
    assert forall|node: NodeId| #[trigger] after.has(node) == tree.has(node) by {}
    assert(after.parent(first) == Some(other));
    assert(after.parent(second) == Some(one));
    if after.below(first, second) {
        lemma_below_cases(after, first, second);
        lemma_above_unmoved(tree, after, other, second, first, second);
    }
    if after.below(second, first) {
        lemma_below_cases(after, second, first);
        lemma_above_unmoved(tree, after, one, first, first, second);
    }
}

/// An id that is in the place of another one can be replaced by it again.
proof fn lemma_replaced_back(ids: Seq<NodeId>, old_id: NodeId, new_id: NodeId)
    requires
        ids.contains(old_id),
        !ids.contains(new_id),
        ids.no_duplicates(),
    ensures
        with_id_replaced(with_id_replaced(ids, old_id, new_id), new_id, old_id) == ids,
{
    let place = ids.index_of(old_id);
    let changed = with_id_replaced(ids, old_id, new_id);
    assert(changed[place] == new_id);
    assert(changed.contains(new_id));
    let found = changed.index_of(new_id);
    assert(found == place) by {
        if found != place {
            assert(ids[found] == new_id);
        }
    }
    assert(with_id_replaced(changed, new_id, old_id) =~= ids);
}

/// Exchanging two nodes that are not below each other, twice, changes nothing.
pub proof fn law_exchanging_twice_changes_nothing(tree: TreeModel, first: NodeId, second: NodeId)
    requires
        tree.forest(),
        tree.has(first),
        tree.has(second),
        !tree.below(first, second),
        !tree.below(second, first),
    ensures
        tree.exchanged(first, second).exchanged(first, second) == tree,
{
    let after = tree.exchanged(first, second);
    lemma_below_self(tree, first);
    match (tree.parent(first), tree.parent(second)) {
        (Some(one), Some(other)) => {
            assert(tree.has(first) && tree.has(second));
            assert(tree.children(one).contains(first));
            assert(tree.children(other).contains(second));
            if one == other {
                let ids = tree.children(one);
                lemma_below_self(tree, second);
                let i = ids.index_of(first);
                let k = ids.index_of(second);
                let swapped = ids.update(i, second).update(k, first);
                assert(swapped[i] == second && swapped[k] == first);
                assert(swapped.contains(first) && swapped.contains(second));
                assert forall|j: int| 0 <= j < swapped.len() && swapped[j] == first implies j == k by {
                    if j != k && j != i {
                        assert(ids[j] == first);
                    }
                }
                assert forall|j: int| 0 <= j < swapped.len() && swapped[j] == second implies j == i by {
                    if j != k && j != i {
                        assert(ids[j] == second);
                    }
                }
                assert(swapped.index_of(first) == k && swapped.index_of(second) == i);
                assert(swapped.update(k, second).update(i, first) =~= ids);
                assert forall|node: NodeId| #[trigger] after.has(node) == tree.has(node) by {}
                lemma_parent_not_below(tree, first, one);
                if after.below(first, second) {
                    lemma_below_cases(after, first, second);
                    lemma_parent_not_below(tree, second, one);
                    lemma_above_unmoved(tree, after, one, second, first, second);
                }
                if after.below(second, first) {
                    lemma_below_cases(after, second, first);
                    lemma_parent_not_below(tree, second, one);
                    lemma_above_unmoved(tree, after, one, first, first, second);
                }
                assert(after.exchanged(first, second) =~~= tree);
            } else {
                lemma_still_apart(tree, first, second);
                assert(!tree.children(one).contains(second)) by {
                    if tree.children(one).contains(second) {
                        let i = tree.children(one).index_of(second);
                        assert(tree.parent(tree.children(one)[i]) == Some(one));
                    }
                }
                assert(!tree.children(other).contains(first)) by {
                    if tree.children(other).contains(first) {
                        let i = tree.children(other).index_of(first);
                        assert(tree.parent(tree.children(other)[i]) == Some(other));
                    }
                }
                lemma_replaced_back(tree.children(one), first, second);
                lemma_replaced_back(tree.children(other), second, first);
                lemma_parent_not_below(tree, first, one);
                lemma_parent_not_below(tree, second, other);
                lemma_below_self(tree, second);
                assert(first != other) by {
                    if first == other {
                        lemma_below_parent(tree, second, first);
                    }
                }
                assert(second != one) by {
                    if second == one {
                        lemma_below_parent(tree, first, second);
                    }
                }
                let back = after.exchanged(first, second);
                assert(back.nodes.dom() =~= tree.nodes.dom());
                assert(back.nodes =~= tree.nodes);
            }
        },
        _ => {},
    }
}

/// Where a node is below another one only if it was, when nothing above it moved but the new node
/// `group`.
pub proof fn lemma_not_below_grown(tree: TreeModel, after: TreeModel, id: NodeId, top: NodeId)
    requires
        tree.forest(),
        tree.has(id),
        forall|node: NodeId| #[trigger]
            tree.has(node) && tree.below(id, node) ==> after.has(node) && after.parent(node)
                == tree.parent(node),
        after.below(id, top),
    ensures
        tree.below(id, top),
{
    let steps = choose|steps: nat| #[trigger] after.ancestor(id, steps) == Some(top);
    let rank = choose|rank: Map<NodeId, nat>| tree.ranked(rank);
    assert forall|k: nat| k < steps implies match #[trigger] tree.ancestor(id, k) {
        Some(node) => tree.has(node) == after.has(node) && (tree.has(node) ==> tree.parent(node)
            == after.parent(node)),
        None => true,
    } by {
        lemma_ancestor_rank(tree, rank, id, k);
        match tree.ancestor(id, k) {
            Some(node) => {
                assert(tree.below(id, node));
                assert(tree.has(node));
            },
            None => {},
        }
    }
    lemma_same_ancestors(tree, after, id, steps);
}

/// A list with one id taken out and another put in where it was.
proof fn lemma_replaced_in_place(ids: Seq<NodeId>, old_id: NodeId, new_id: NodeId)
    requires
        ids.contains(old_id),
        ids.no_duplicates(),
        !ids.contains(new_id),
    ensures
        without_id(without_id(ids.push(new_id), old_id), new_id).insert(
            ids.index_of(old_id),
            new_id,
        ) == ids.update(ids.index_of(old_id), new_id),
        without_id(without_id(ids.push(new_id), old_id), new_id).len() == ids.len() - 1,
        without_id(ids.push(new_id), old_id).contains(new_id),
{
    let at = ids.index_of(old_id);
    let more = ids.push(new_id);
    assert(more[at] == old_id);
    assert(more.contains(old_id));
    assert(more.index_of(old_id) == at) by {
        let found = more.index_of(old_id);
        assert(more[found] == old_id);
        assert(ids[found] == old_id);
    }
    let rest = without_id(more, old_id);
    assert(rest == more.remove(at));
    let end = ids.len() - 1;
    assert(rest[end] == new_id);
    assert(rest.contains(new_id));
    assert(rest.index_of(new_id) == end) by {
        let found = rest.index_of(new_id);
        assert(rest[found] == new_id);
        if found < end {
            if found < at {
                assert(ids[found] == new_id);
            } else {
                assert(ids[found + 1] == new_id);
            }
        }
    }
    let bare = without_id(rest, new_id);
    assert(bare =~= ids.remove(at));
    assert(bare.insert(at, new_id) =~= ids.update(at, new_id));
}

impl TreeModel {
    /// Whether `after` is this tree with the new node `group` where `old_id` was, above it.
    pub open spec fn capped(self, after: TreeModel, old_id: NodeId, group: NodeId, item: NodeView) -> bool {
        &&& after.nodes.dom() == self.nodes.dom().insert(group)
        &&& after.nodes[group].item == item
        &&& after.parent(group) == self.parent(old_id)
        &&& after.children(group) == seq![old_id]
        &&& after.parent(old_id) == Some(group)
        &&& forall|other: NodeId| #[trigger]
            self.has(other) ==> after.nodes[other].item == self.nodes[other].item && (other
                != old_id ==> after.parent(other) == self.parent(other)) && after.children(other)
                == if self.parent(old_id) == Some(other) {
                self.children(other).update(self.children(other).index_of(old_id), group)
            } else {
                self.children(other)
            }
    }
}

/// A group that is put around a node stands where the node was.
pub proof fn lemma_enclosed_below(tree: TreeModel, old_id: NodeId, group: NodeId, item: NodeView, parent: NodeId)
    requires
        tree.forest(),
        tree.has(old_id),
        tree.parent(old_id) == Some(parent),
        !tree.has(group),
    ensures
        tree.capped(tree.enclosed(old_id, group, item), old_id, group, item),
{
    assert(tree.has(old_id));
    lemma_parent_not_below(tree, old_id, parent);
    let opened = tree.grown(group, item, parent);
    let ids = tree.children(parent);
    assert(ids.contains(old_id));
    assert(!ids.contains(group)) by {
        if ids.contains(group) {
            let i = ids.index_of(group);
            assert(tree.has(tree.children(parent)[i]));
        }
    }
    assert(!opened.below(group, old_id)) by {
        if opened.below(group, old_id) {
            lemma_below_cases(opened, group, old_id);
            lemma_not_below_grown(tree, opened, parent, old_id);
        }
    }
    lemma_replaced_in_place(ids, old_id, group);
    let moved = opened.moved_to_parent(old_id, group);
    assert(opened.children(parent) == ids.push(group));
    assert(moved.children(parent) == without_id(ids.push(group), old_id));
    assert(moved.children(group) =~= seq![old_id]);
    assert(moved.parent(group) == Some(parent));
    let closed = tree.enclosed(old_id, group, item);
    assert(closed.nodes.dom() =~= tree.nodes.dom().insert(group));
    assert(closed.children(parent) == ids.update(ids.index_of(old_id), group));
}

/// A group that is put around the root is the root.
pub proof fn lemma_enclosed_root(tree: TreeModel, old_id: NodeId, group: NodeId, item: NodeView)
    requires
        tree.forest(),
        tree.has(old_id),
        tree.root == Some(old_id),
        !tree.has(group),
    ensures
        tree.capped(tree.enclosed(old_id, group, item), old_id, group, item),
{
    assert(tree.parent(old_id) is None);
    let opened = tree.rooted(group, item);
    assert(opened.parent(group) is None && opened.has(group));
    assert(!opened.below(group, old_id)) by {
        if opened.below(group, old_id) {
            lemma_below_cases(opened, group, old_id);
        }
    }
    let ids = opened.children(group);
    assert(ids =~= seq![old_id]);
    assert(ids[0] == old_id);
    assert(ids.index_of(old_id) == 0) by {
        let found = ids.index_of(old_id);
        assert(ids[found] == old_id);
    }
    assert(without_id(ids, old_id) =~= seq![]);
    let closed = tree.enclosed(old_id, group, item);
    assert(closed.children(group) =~= seq![old_id]);
    assert(closed.nodes.dom() =~= tree.nodes.dom().insert(group));
}

/// A node and one that it is put together with stand in the new group, which is where the latter
/// was.
pub proof fn lemma_forked_children(
    tree: TreeModel,
    old_id: NodeId,
    node: NodeId,
    group: NodeId,
    item: NodeView,
    place: int,
)
    requires
        tree.forest(),
        tree.connected(),
        tree.has(old_id),
        tree.has(node),
        old_id != node,
        !tree.below(old_id, node),
        !tree.has(group),
        0 <= place <= 1,
    ensures
        ({
            let after = tree.forked(old_id, node, group, item, place);
            &&& after.nodes.dom() == tree.nodes.dom().insert(group)
            &&& after.nodes[group].item == item
            &&& after.parent(group) == tree.parent(old_id)
            &&& after.children(group) == if place == 0 {
                seq![node, old_id]
            } else {
                seq![old_id, node]
            }
            &&& after.parent(node) == Some(group)
            &&& after.parent(old_id) == Some(group)
            &&& forall|other: NodeId| #[trigger]
                tree.has(other) ==> after.nodes[other].item == tree.nodes[other].item && (other
                    != node && other != old_id ==> after.parent(other) == tree.parent(other))
        }),
        forall|other: NodeId| #[trigger]
            tree.has(other) ==> tree.forked(old_id, node, group, item, place).children(other) == ({
                let kept = if tree.parent(old_id) == Some(other) {
                    tree.children(other).update(tree.children(other).index_of(old_id), group)
                } else {
                    tree.children(other)
                };
                if tree.parent(node) == Some(other) {
                    without_id(kept, node)
                } else {
                    kept
                }
            }),
{
    reveal(TreeModel::grouped);
    assert(tree.has(old_id) && tree.has(node));
    let closed = tree.enclosed(old_id, group, item);
    match tree.parent(old_id) {
        Some(parent) => {
            lemma_enclosed_below(tree, old_id, group, item, parent);
        },
        None => {
            lemma_enclosed_root(tree, old_id, group, item);
        },
    }
    assert(closed.has(group) && closed.has(node));
    assert(!closed.below(group, node)) by {
        if closed.below(group, node) {
            lemma_below_cases(closed, group, node);
            let parent = tree.parent(old_id)->0;
            lemma_parent_not_below(tree, old_id, parent);
            assert forall|other: NodeId| #[trigger]
                tree.has(other) && tree.below(parent, other) implies closed.has(other)
                && closed.parent(other) == tree.parent(other) by {
                assert(other != old_id);
            }
            lemma_not_below_grown(tree, closed, parent, node);
            lemma_below_parent(tree, old_id, node);
        }
    }
    assert(closed.parent(node) == tree.parent(node));
    assert(tree.parent(node) != Some(group)) by {
        if tree.parent(node) is Some {
            assert(tree.has(tree.parent(node)->0));
        }
    }
    let grouped = tree.grouped(old_id, node, group, item);
    assert(grouped.children(group) =~= seq![old_id, node]);
    let pair = grouped.children(group);
    assert(pair[1] == node && pair[0] == old_id);
    assert(pair.contains(node));
    assert(pair.index_of(node) == 1) by {
        let found = pair.index_of(node);
        assert(pair[found] == node);
    }
    assert(without_id(pair, node) =~= seq![old_id]);
    let after = tree.forked(old_id, node, group, item, place);
    assert(after.children(group) =~= if place == 0 {
        seq![node, old_id]
    } else {
        seq![old_id, node]
    });
    assert(after.nodes.dom() =~= tree.nodes.dom().insert(group));
}

/// Other data in a node leave every other node, and the shape.
proof fn lemma_other_data(tree: TreeModel, id: NodeId, data: DataView, other: NodeId)
    requires
        tree.has(id),
    ensures
        tree.with_data(id, data).nodes.dom() == tree.nodes.dom(),
        tree.with_data(id, data).parent(other) == tree.parent(other),
        tree.with_data(id, data).children(other) == tree.children(other),
        other != id ==> tree.with_data(id, data).data(other) == tree.data(other),
        tree.with_data(id, data).data(id) == data,
{
    assert(tree.with_data(id, data).nodes.dom() =~= tree.nodes.dom());
}

impl TreeModel {
    /// Whether a node and `old_id` stand in the group, which is where the latter was.
    spec fn shares_group(
        self,
        after: TreeModel,
        old_id: NodeId,
        node: NodeId,
        group: NodeId,
        item: NodeView,
        place: int,
    ) -> bool {
        &&& !self.has(group)
        &&& after.has(group)
        &&& after.data(group) == item.data
        &&& after.parent(group) == self.parent(old_id)
        &&& after.children(group) == if place == 0 {
            seq![node, old_id]
        } else {
            seq![old_id, node]
        }
        &&& after.parent(node) == Some(group)
        &&& after.nodes.dom() == self.nodes.dom().insert(group)
    }
}

/// Less room in another group leaves the new one.
proof fn lemma_relieved_group(
    tree: TreeModel,
    forked: TreeModel,
    old_id: NodeId,
    node: NodeId,
    group: NodeId,
    item: NodeView,
    place: int,
    from: NodeId,
    from_place: int,
)
    requires
        tree.shares_group(forked, old_id, node, group, item, place),
        tree.has(from),
    ensures
        tree.shares_group(forked.relieved(from, from_place), old_id, node, group, item, place),
{
    let data = forked.data(from).without_child(from_place);
    assert(forked.nodes.dom().contains(from));
    lemma_other_data(forked, from, data, group);
    lemma_other_data(forked, from, data, node);
}

/// Where a new group of two leads: the node stands beside the other, at this place.
proof fn lemma_forked_as(
    tree: TreeModel,
    after: TreeModel,
    old_id: NodeId,
    node: NodeId,
    item: NodeView,
    place: int,
) -> (group: NodeId)
    requires
        tree.forest(),
        tree.connected(),
        tree.has(old_id),
        tree.has(node),
        tree.parent(node) is Some,
        old_id != node,
        !tree.below(old_id, node),
        0 <= place <= 1,
        tree.forked_as(after, old_id, node, item, place),
    ensures
        tree.shares_group(after, old_id, node, group, item, place),
{
    let from = tree.parent(node)->0;
    assert(tree.has(node));
    assert(tree.has(from));
    let group = choose|group: NodeId|
        !tree.has(group) && after == (#[trigger] tree.forked(
            old_id,
            node,
            group,
            item,
            place,
        )).relieved(from, tree.place(from, node));
    lemma_forked_children(tree, old_id, node, group, item, place);
    lemma_relieved_group(
        tree,
        tree.forked(old_id, node, group, item, place),
        old_id,
        node,
        group,
        item,
        place,
        from,
        tree.place(from, node),
    );
    group
}

/// A node that leaves its group in a direction stands on that side of all that it left: in a
/// group along the direction, next to the branch that its old group is in, before it if the
/// direction is left or up, and behind it if it is right or down.
pub proof fn law_a_node_leaves_a_group_on_the_side_it_moves_to(
    tree: TreeModel,
    after: TreeModel,
    node: NodeId,
    from: NodeId,
    direction: Direction,
    key: u64,
    result: NodeMove,
)
    requires
        tree.settled(),
        tree.has(node),
        tree.parent(node) == Some(from),
        match direction {
            Direction::Left => tree.data(from)->orientation == Orientation::Horizontal
                || tree.children(from)[0] == node,
            Direction::Right => tree.data(from)->orientation == Orientation::Horizontal
                || tree.children(from).last() == node,
            Direction::Up => tree.data(from)->orientation == Orientation::Vertical
                || tree.children(from)[0] == node,
            Direction::Down => tree.data(from)->orientation == Orientation::Vertical
                || tree.children(from).last() == node,
        },
        tree.moved_as(after, node, direction, key, result),
    ensures
        result is Done || result is Further,
        result is Further <==> tree.parent(from) is None && (tree.data(from)->orientation
            == Orientation::Vertical <==> (direction is Left || direction is Right)),
        result is Further ==> after == tree,
        result is Done ==> exists|group: NodeId, branch: NodeId, i: int, j: int|
            #![trigger after.children(group)[i], after.children(group)[j], tree.below(from, branch)]
            {
                &&& after.has(group)
                &&& after.data(group) is Group
                &&& after.data(group)->orientation == if direction is Left || direction is Right {
                    Orientation::Vertical
                } else {
                    Orientation::Horizontal
                }
                &&& tree.has(branch)
                &&& tree.below(from, branch)
                &&& 0 <= i < after.children(group).len()
                &&& 0 <= j < after.children(group).len()
                &&& after.parent(node) == Some(group)
                &&& after.children(group)[i] == node
                &&& after.children(group)[j] == branch
                &&& if direction is Left || direction is Up {
                    i + 1 == j
                } else {
                    i == j + 1
                }
            },
{
    lemma_place(tree, from, node);
    let ids = tree.children(from);
    assert(tree.has(from));
    assert(ids.no_duplicates());
    assert(ids.contains(node));
    let at = ids.index_of(node);
    assert(ids[at] == node);
    if ids[0] == node {
        assert(at == 0);
    }
    if ids.last() == node {
        assert(at == ids.len() - 1);
    }
    lemma_below_self(tree, from);
    if result is Done {
        if (tree.data(from)->orientation == Orientation::Vertical) != (direction is Left
            || direction is Right) {
            let item = new_group_item(key, crate::surgery::along(direction));
            let place = crate::moves::far_place(direction);
            let group = lemma_forked_as(tree, after, from, node, item, place);
            lemma_side(tree, after, group, from, node, from, direction);
        } else {
            let outer = tree.parent(from)->0;
            lemma_outer(tree, node, from, outer);
            lemma_below_self(tree, outer);
            lemma_below_parent(tree, from, outer);
            if tree.data(outer).spec_orientation() != crate::surgery::along(direction) {
                let item = new_group_item(key, crate::surgery::along(direction));
                let place = crate::moves::far_place(direction);
                let group = lemma_forked_as(tree, after, outer, node, item, place);
                lemma_side(tree, after, group, from, node, outer, direction);
            } else {
                lemma_joined_side(tree, after, node, from, outer, direction);
            }
        }
    }
}

/// The two of a new group, by where they stand.
proof fn lemma_side(
    tree: TreeModel,
    after: TreeModel,
    group: NodeId,
    from: NodeId,
    node: NodeId,
    branch: NodeId,
    direction: Direction,
)
    requires
        after.has(group),
        tree.has(branch),
        tree.below(from, branch),
        after.parent(node) == Some(group),
        after.children(group) == if direction is Left || direction is Up {
            seq![node, branch]
        } else {
            seq![branch, node]
        },
    ensures
        exists|branch: NodeId, i: int, j: int|
            #![trigger after.children(group)[i], after.children(group)[j], tree.below(from, branch)]
            {
                &&& tree.has(branch)
                &&& tree.below(from, branch)
                &&& 0 <= i < after.children(group).len()
                &&& 0 <= j < after.children(group).len()
                &&& after.children(group)[i] == node
                &&& after.children(group)[j] == branch
                &&& if direction is Left || direction is Up {
                    i + 1 == j
                } else {
                    i == j + 1
                }
            },
{
    if direction is Left || direction is Up {
        assert(after.children(group)[0] == node && after.children(group)[1] == branch);
    } else {
        assert(after.children(group)[1] == node && after.children(group)[0] == branch);
    }
}

/// A node that joins the group around its group stands next to the latter.
proof fn lemma_joined_side(
    tree: TreeModel,
    after: TreeModel,
    node: NodeId,
    from: NodeId,
    outer: NodeId,
    direction: Direction,
)
    requires
        tree.settled(),
        tree.has(node),
        tree.parent(node) == Some(from),
        tree.parent(from) == Some(outer),
        tree.joined_as(after, node, outer, direction),
    ensures
        after.has(outer),
        after.parent(node) == Some(outer),
        after.data(outer) is Group,
        after.data(outer)->orientation == tree.data(outer)->orientation,
        exists|i: int, j: int|
            #![trigger after.children(outer)[i], after.children(outer)[j]]
            {
                &&& 0 <= i < after.children(outer).len()
                &&& 0 <= j < after.children(outer).len()
                &&& after.children(outer)[i] == node
                &&& after.children(outer)[j] == from
                &&& if direction is Left || direction is Up {
                    i + 1 == j
                } else {
                    i == j + 1
                }
            },
{
    lemma_outer(tree, node, from, outer);
    lemma_place(tree, from, node);
    assert(tree.has(from));
    let ids = tree.children(outer);
    let at = ids.index_of(from);
    assert(ids[at] == from);
    let moved = tree.moved_to_parent(node, outer);
    assert(!ids.contains(node)) by {
        if ids.contains(node) {
            let i = ids.index_of(node);
            assert(tree.parent(tree.children(outer)[i]) == Some(outer));
        }
    }
    let more = moved.children(outer);
    assert(more == ids.push(node));
    let last = ids.len() as int;
    assert(more[last] == node);
    assert(more.contains(node));
    assert(more.index_of(node) == last) by {
        let found = more.index_of(node);
        assert(more[found] == node);
        if found < last {
            assert(ids[found] == node);
        }
    }
    assert(without_id(more, node) =~= ids);
    let place = if direction is Left || direction is Up {
        at
    } else {
        at + 1
    };
    assert(after.children(outer) == ids.insert(place, node));
    if direction is Left || direction is Up {
        assert(after.children(outer)[at] == node && after.children(outer)[at + 1] == from);
    } else {
        assert(after.children(outer)[at + 1] == node && after.children(outer)[at] == from);
    }
}

/// A node that is moved into a group and put at a place there.
proof fn lemma_inserted_children(tree: TreeModel, node: NodeId, inner: NodeId, place: int)
    requires
        tree.forest(),
        tree.has(node),
        tree.has(inner),
        node != inner,
        tree.parent(node) != Some(inner),
        !tree.below(inner, node),
        0 <= place <= tree.children(inner).len(),
    ensures
        tree.moved_to_parent(node, inner).at_sibling(node, place).children(inner)
            == tree.children(inner).insert(place, node),
        tree.moved_to_parent(node, inner).at_sibling(node, place).parent(node) == Some(inner),
        tree.moved_to_parent(node, inner).at_sibling(node, place).nodes.dom() == tree.nodes.dom(),
        tree.moved_to_parent(node, inner).children(inner) == tree.children(inner).push(node),
{
    let ids = tree.children(inner);
    let moved = tree.moved_to_parent(node, inner);
    assert(tree.has(node));
    assert(!ids.contains(node)) by {
        if ids.contains(node) {
            let i = ids.index_of(node);
            assert(tree.parent(tree.children(inner)[i]) == Some(inner));
        }
    }
    let more = moved.children(inner);
    assert(more == ids.push(node));
    let last = ids.len() as int;
    assert(more[last] == node);
    assert(more.contains(node));
    assert(more.index_of(node) == last) by {
        let found = more.index_of(node);
        assert(more[found] == node);
        if found < last {
            assert(ids[found] == node);
        }
    }
    assert(without_id(more, node) =~= ids);
    let placed = moved.at_sibling(node, place);
    assert(placed.nodes.dom() =~= tree.nodes.dom());
}

/// A node that moves into a group beside it comes to the side of it that it was on: behind all in
/// a group along the way if it moves left or up, before all if it moves right or down. In a group
/// across the way it stands in the middle, or beside the one in the middle, on the side that it
/// came from.
#[verifier::spinoff_prover]
#[verifier::rlimit(40)]
proof fn lemma_entered_side(
    tree: TreeModel,
    after: TreeModel,
    node: NodeId,
    from: NodeId,
    inner: NodeId,
    direction: Direction,
    key: u64,
)
    requires
        tree.settled(),
        tree.has(node),
        tree.has(inner),
        tree.parent(node) == Some(from),
        tree.parent(inner) == Some(from),
        inner != node,
        tree.data(inner) is Group,
        tree.entered_as(after, node, inner, direction, key),
    ensures
        ({
            let ids = tree.children(inner);
            let half = ids.len() as int / 2;
            let upright = tree.data(inner)->orientation == Orientation::Horizontal;
            let behind = direction is Left || direction is Up;
            if upright == (direction is Up || direction is Down) {
                after.children(inner) == if behind {
                    ids.push(node)
                } else {
                    seq![node] + ids
                }
            } else if ids.len() % 2 == 0 {
                after.children(inner) == ids.insert(half, node)
            } else {
                exists|group: NodeId|
                    {
                        &&& #[trigger] after.has(group)
                        &&& !tree.has(group)
                        &&& after.parent(group) == Some(inner)
                        &&& after.data(group) is Group
                        &&& after.data(group)->orientation != tree.data(inner)->orientation
                        &&& after.children(group) == if behind {
                            seq![ids[half], node]
                        } else {
                            seq![node, ids[half]]
                        }
                    }
            }
        }),
{
    let ids = tree.children(inner);
    let count = ids.len() as int;
    let half = count / 2;
    let place = tree.place(from, node);
    let behind = direction is Left || direction is Up;
    let upright = tree.data(inner)->orientation == Orientation::Horizontal;
    assert(!tree.below(inner, node) && inner != from && count == tree.data(inner)->sizes.len() && count
        >= 2 && tree.has(from)) by {
        lemma_next_group(tree, from, node, inner);
        lemma_place(tree, from, node);
        lemma_sound(tree);
        assert(tree.has(inner));
    }
    assert(tree.forest()) by {
        lemma_sound(tree);
    }
    if upright == (direction is Up || direction is Down) {
        let index = if behind {
            count
        } else {
            0
        };
        lemma_inserted_side(tree, node, from, inner, index, place);
        assert(ids.insert(count, node) =~= ids.push(node));
        assert(ids.insert(0, node) =~= seq![node] + ids);
    } else if count % 2 == 0 {
        lemma_inserted_side(tree, node, from, inner, half, place);
    } else {
        lemma_entered_shared(tree, after, node, from, inner, direction, key);
    }
}

/// A node that shares the place of the one in the middle.
#[verifier::spinoff_prover]
#[verifier::rlimit(60)]
proof fn lemma_entered_shared(
    tree: TreeModel,
    after: TreeModel,
    node: NodeId,
    from: NodeId,
    inner: NodeId,
    direction: Direction,
    key: u64,
)
    requires
        tree.settled(),
        tree.has(node),
        tree.has(inner),
        tree.parent(node) == Some(from),
        tree.parent(inner) == Some(from),
        inner != node,
        tree.data(inner) is Group,
        tree.children(inner).len() > 0,
        exists|group: NodeId|
            !tree.has(group) && after == (#[trigger] tree.moved_to_parent(node, inner).forked(
                tree.children(inner)[tree.children(inner).len() as int / 2],
                node,
                group,
                new_group_item(key, tree.data(inner).spec_orientation().spec_opposite()),
                crate::moves::near_place(direction),
            )).relieved(from, tree.place(from, node)),
    ensures
        exists|group: NodeId|
            {
                &&& #[trigger] after.has(group)
                &&& !tree.has(group)
                &&& after.parent(group) == Some(inner)
                &&& after.data(group) is Group
                &&& after.data(group)->orientation != tree.data(inner)->orientation
                &&& after.children(group) == if direction is Left || direction is Up {
                    seq![tree.children(inner)[tree.children(inner).len() as int / 2], node]
                } else {
                    seq![node, tree.children(inner)[tree.children(inner).len() as int / 2]]
                }
            },
{
    let half = tree.children(inner).len() as int / 2;
    let place = tree.place(from, node);
    let item = new_group_item(key, tree.data(inner).spec_orientation().spec_opposite());
    let moved = tree.moved_to_parent(node, inner);
    let middle = tree.children(inner)[half];
    let side = crate::moves::near_place(direction);
    lemma_shared_side(tree, node, from, inner, half);
    let group = choose|group: NodeId|
        !tree.has(group) && after == (#[trigger] moved.forked(
            middle,
            node,
            group,
            item,
            side,
        )).relieved(from, place);
    assert(!moved.nodes.dom().contains(group));
    lemma_shared_group(moved, after, middle, node, group, item, side, from, place);
    assert(after.has(group));
}

/// What is put together with another node, seen after the group it left has less room.
proof fn lemma_shared_group(
    moved: TreeModel,
    after: TreeModel,
    middle: NodeId,
    node: NodeId,
    group: NodeId,
    item: NodeView,
    side: int,
    from: NodeId,
    place: int,
)
    requires
        moved.forest(),
        moved.connected(),
        moved.has(middle),
        moved.has(node),
        moved.has(from),
        middle != node,
        !moved.below(middle, node),
        !moved.has(group),
        0 <= side <= 1,
        after == moved.forked(middle, node, group, item, side).relieved(from, place),
    ensures
        moved.shares_group(after, middle, node, group, item, side),
{
    lemma_forked_children(moved, middle, node, group, item, side);
    lemma_relieved_group(
        moved,
        moved.forked(middle, node, group, item, side),
        middle,
        node,
        group,
        item,
        side,
        from,
        place,
    );
}

/// The children of a group that a node came into, seen after both groups have their room.
proof fn lemma_inserted_side(
    tree: TreeModel,
    node: NodeId,
    from: NodeId,
    inner: NodeId,
    index: int,
    place: int,
)
    requires
        tree.forest(),
        tree.has(node),
        tree.has(inner),
        tree.has(from),
        tree.parent(node) == Some(from),
        inner != node,
        inner != from,
        !tree.below(inner, node),
        0 <= index <= tree.children(inner).len(),
    ensures
        tree.moved_to_parent(node, inner).at_sibling(node, index).with_data(
            inner,
            tree.data(inner).with_child(index),
        ).relieved(from, place).children(inner) == tree.children(inner).insert(index, node),
{
    lemma_inserted_children(tree, node, inner, index);
    let placed = tree.moved_to_parent(node, inner).at_sibling(node, index);
    let roomy = placed.with_data(inner, tree.data(inner).with_child(index));
    lemma_other_data(placed, inner, tree.data(inner).with_child(index), inner);
    assert(roomy.nodes.dom().contains(from));
    lemma_other_data(roomy, from, roomy.data(from).without_child(place), inner);
}

/// A node that is moved into a group that is not below it leaves the tree in order.
proof fn lemma_moved_forest(tree: TreeModel, node: NodeId, inner: NodeId)
    requires
        tree.forest(),
        tree.has(node),
        tree.has(inner),
        tree.parent(node) is Some,
        tree.parent(node) != Some(inner),
        !tree.below(inner, node),
    ensures
        tree.moved_to_parent(node, inner).forest(),
{
    let from = tree.parent(node)->0;
    let after = tree.moved_to_parent(node, inner);
    let old_ids = tree.children(from);
    let ids = tree.children(inner);
    lemma_below_self(tree, node);
    assert(tree.has(node) && tree.has(inner));
    assert(tree.has(from) && old_ids.contains(node) && old_ids.no_duplicates());
    assert(after.nodes.dom() =~= tree.nodes.dom());
    assert(!ids.contains(node)) by {
        if ids.contains(node) {
            let i = ids.index_of(node);
            assert(tree.parent(tree.children(inner)[i]) == Some(inner));
        }
    }
    let rest = without_id(old_ids, node);
    let at = old_ids.index_of(node);
    assert(rest == old_ids.remove(at));
    assert(after.children(from) == rest);
    assert(after.children(inner) == ids.push(node));
    assert forall|id: NodeId, i: int|
        #![trigger after.children(id)[i]]
        after.has(id) && 0 <= i < after.children(id).len() implies after.has(after.children(id)[i])
        && after.parent(after.children(id)[i]) == Some(id) by {
        assert(tree.has(id));
        if id == from {
            let k = if i < at {
                i
            } else {
                i + 1
            };
            assert(after.children(id)[i] == tree.children(id)[k]);
            assert(tree.children(id)[k] != node);
        } else if id == inner && i == ids.len() {
        } else {
            assert(after.children(id)[i] == tree.children(id)[i]);
            if tree.children(id)[i] == node {
                assert(tree.parent(node) == Some(id));
            }
        }
    }
    assert forall|id: NodeId| #[trigger] after.has(id) implies after.children(id).no_duplicates()
        && match after.parent(id) {
        Some(parent) => after.has(parent) && after.children(parent).contains(id),
        None => true,
    } by {
        assert(tree.has(id));
        if id == inner {
            assert(tree.children(inner).no_duplicates());
            assert forall|i: int, j: int|
                0 <= i < after.children(id).len() && 0 <= j < after.children(id).len() && i
                    != j implies after.children(id)[i] != after.children(id)[j] by {
                if i == ids.len() {
                    assert(ids.contains(ids[j]));
                } else if j == ids.len() {
                    assert(ids.contains(ids[i]));
                }
            }
        }
        match tree.parent(id) {
            Some(parent) => {
                assert(tree.has(parent) && tree.children(parent).contains(id));
                let k = tree.children(parent).index_of(id);
                if id == node {
                    assert(after.children(inner)[ids.len() as int] == node);
                } else if parent == from {
                    let i = if k < at {
                        k
                    } else {
                        k - 1
                    };
                    assert(after.children(from)[i] == id);
                } else if parent == inner {
                    assert(after.children(inner)[k] == id);
                }
            },
            None => {},
        }
    }
    let rank = choose|rank: Map<NodeId, nat>| tree.ranked(rank);
    let more = rank[inner] + 1;
    let lower = Map::new(
        |id: NodeId| tree.has(id),
        |id: NodeId|
            if tree.below(id, node) {
                rank[id] + more
            } else {
                rank[id]
            },
    );
    assert(after.ranked(lower)) by {
        assert forall|id: NodeId| #[trigger] after.has(id) implies match after.parent(id) {
            Some(parent) => lower[parent] < lower[id],
            None => true,
        } by {
            assert(tree.has(id));
            match tree.parent(id) {
                Some(parent) => {
                    assert(tree.has(parent));
                    if id != node {
                        if tree.below(id, node) {
                            lemma_below_cases(tree, id, node);
                        }
                        if tree.below(parent, node) {
                            lemma_below_parent(tree, id, node);
                        }
                    }
                },
                None => {},
            }
        }
    }
}

/// What a node that moved into a group can be put together with there.
proof fn lemma_shared_side(tree: TreeModel, node: NodeId, from: NodeId, inner: NodeId, at: int)
    requires
        tree.settled(),
        tree.has(node),
        tree.has(inner),
        tree.parent(node) == Some(from),
        tree.parent(inner) == Some(from),
        inner != node,
        tree.data(inner) is Group,
        0 <= at < tree.children(inner).len(),
    ensures
        ({
            let moved = tree.moved_to_parent(node, inner);
            let middle = tree.children(inner)[at];
            &&& moved.forest()
            &&& moved.connected()
            &&& moved.has(node)
            &&& moved.has(middle)
            &&& moved.parent(middle) == Some(inner)
            &&& moved.has(from)
            &&& middle != node
            &&& !moved.below(middle, node)
            &&& moved.nodes.dom() == tree.nodes.dom()
        }),
{
    let moved = tree.moved_to_parent(node, inner);
    let middle = tree.children(inner)[at];
    assert(!tree.below(inner, node) && inner != from) by {
        lemma_next_group(tree, from, node, inner);
    }
    assert(tree.forest()) by {
        lemma_sound(tree);
    }
    assert(moved.forest()) by {
        lemma_moved_forest(tree, node, inner);
    }
    assert(moved.connected() && moved.has(node) && moved.has(middle) && middle != node
        && !moved.below(middle, node) && moved.has(from)) by {
        lemma_moved_in(tree, node, from, inner, at);
    }
    assert(moved.nodes.dom() =~= tree.nodes.dom() && moved.parent(middle) == tree.parent(middle))
        by {
        assert(tree.has(node));
    }
    assert(tree.parent(tree.children(inner)[at]) == Some(inner));
}

/// A node with another one beside it in the direction that it moves in goes towards that one. Of
/// two, it changes places with the other and takes its extent along, goes into it if that is a
/// group, on the side that it came from, or joins it if that is a stack, as its first window only
/// if it moves right. Of more than two, it is put together with the other in a new group along
/// the way, and stays on the side of it that it was on.
pub proof fn law_a_node_moves_towards_what_is_beside_it(
    tree: TreeModel,
    after: TreeModel,
    node: NodeId,
    from: NodeId,
    at: int,
    direction: Direction,
    key: u64,
    result: NodeMove,
)
    requires
        tree.settled(),
        tree.has(node),
        tree.parent(node) == Some(from),
        0 <= at < tree.children(from).len(),
        tree.children(from)[at] == node,
        match direction {
            Direction::Left => tree.data(from)->orientation == Orientation::Vertical && at > 0,
            Direction::Right => tree.data(from)->orientation == Orientation::Vertical && at
                < tree.children(from).len() - 1,
            Direction::Up => tree.data(from)->orientation == Orientation::Horizontal && at > 0,
            Direction::Down => tree.data(from)->orientation == Orientation::Horizontal && at
                < tree.children(from).len() - 1,
        },
        tree.moved_as(after, node, direction, key, result),
    ensures
        ({
            let ids = tree.children(from);
            let to = if direction is Left || direction is Up {
                at - 1
            } else {
                at + 1
            };
            let next = ids[to];
            let loose = tree.data(node) is Mapped && !tree.data(node)->mapped.stack;
            if ids.len() > 2 {
                &&& result is Done
                &&& exists|group: NodeId|
                    {
                        &&& #[trigger] after.has(group)
                        &&& !tree.has(group)
                        &&& after.parent(group) == Some(from)
                        &&& after.data(group) is Group
                        &&& after.data(group)->orientation == tree.data(from)->orientation
                        &&& after.children(group) == if to < at {
                            seq![next, node]
                        } else {
                            seq![node, next]
                        }
                    }
            } else if loose && tree.data(next) is Mapped && tree.data(next)->mapped.stack {
                &&& result == NodeMove::IntoStack {
                    stack: tree.data(next)->mapped.id,
                    first: direction is Right,
                }
                &&& !after.has(node)
                &&& after.has(next)
            } else if tree.data(next) is Group {
                let half = tree.children(next).len() as int / 2;
                &&& result is Done
                &&& if tree.data(next)->orientation == tree.data(from)->orientation {
                    after.children(next) == if to < at {
                        tree.children(next).push(node)
                    } else {
                        seq![node] + tree.children(next)
                    }
                } else if tree.children(next).len() % 2 == 0 {
                    after.children(next) == tree.children(next).insert(half, node)
                } else {
                    exists|group: NodeId|
                        {
                            &&& #[trigger] after.has(group)
                            &&& !tree.has(group)
                            &&& after.parent(group) == Some(next)
                            &&& after.data(group) is Group
                            &&& after.data(group)->orientation != tree.data(next)->orientation
                            &&& after.children(group) == if to < at {
                                seq![tree.children(next)[half], node]
                            } else {
                                seq![node, tree.children(next)[half]]
                            }
                        }
                }
            } else {
                &&& result is Done
                &&& after.children(from) == seq![ids[1], ids[0]]
                &&& after.data(from)->sizes == seq![
                    tree.data(from)->sizes[1],
                    tree.data(from)->sizes[0],
                ]
            }
        }),
{
    let ids = tree.children(from);
    let to = if direction is Left || direction is Up {
        at - 1
    } else {
        at + 1
    };
    let next = ids[to];
    assert(tree.place(from, node) == at && tree.data(from)->sizes.len() == ids.len()) by {
        lemma_place(tree, from, node);
        assert(tree.has(from) && ids.no_duplicates());
        let found = ids.index_of(node);
        assert(ids[found] == node);
    }
    assert(tree.has(next) && next != node && !tree.below(next, node) && tree.parent(next) == Some(
        from,
    ) && tree.has(from)) by {
        lemma_next(tree, from, node, to);
    }
    assert(tree.has_neighbour(from, node, direction));
    assert(tree.advanced_as(after, node, direction, key, result));
    if ids.len() > 2 {
        assert(tree.forest() && tree.connected()) by {
            lemma_place(tree, from, node);
        }
        let item = new_group_item(key, crate::surgery::along(direction));
        let side = crate::moves::near_place(direction);
        let group = lemma_forked_as(tree, after, next, node, item, side);
        assert(after.has(group));
    } else if tree.data(next).spec_is_stack() && tree.data(node) is Mapped && !tree.data(
        node,
    ).spec_is_stack() {
        lemma_place(tree, from, node);
        lemma_pruned_side(tree, node, from, next, at);
    } else if tree.data(next) is Group {
        lemma_entered_side(tree, after, node, from, next, direction, key);
    } else {
        lemma_place(tree, from, node);
        lemma_swapped_side(tree, node, from, at, to);
    }
}

/// A window that left for a stack is gone, and the stack is there.
proof fn lemma_pruned_side(tree: TreeModel, node: NodeId, from: NodeId, next: NodeId, at: int)
    requires
        tree.has(from),
        tree.has(next),
        !tree.below(next, node),
        !tree.below(from, node),
    ensures
        !tree.pruned(node).relieved(from, at).has(node),
        tree.pruned(node).relieved(from, at).has(next),
{
    lemma_below_self(tree, node);
    let rest = tree.pruned(node);
    assert(rest.nodes.dom().contains(from));
    lemma_other_data(rest, from, rest.data(from).without_child(at), next);
    assert(rest.nodes.dom().contains(next));
    assert(!rest.nodes.dom().contains(node));
}

/// Of two, the one that moves and the other change places.
proof fn lemma_swapped_side(tree: TreeModel, node: NodeId, from: NodeId, at: int, to: int)
    requires
        tree.forest(),
        tree.has(node),
        tree.has(from),
        tree.parent(node) == Some(from),
        tree.children(from).len() == 2,
        tree.data(from) is Group,
        tree.data(from)->sizes.len() == 2,
        0 <= at < 2,
        0 <= to < 2,
        at != to,
        tree.children(from)[at] == node,
    ensures
        ({
            let after = tree.at_sibling(node, to).with_data(
                from,
                tree.data(from).with_swapped(at, to),
            );
            &&& after.children(from) == seq![tree.children(from)[1], tree.children(from)[0]]
            &&& after.data(from)->sizes == seq![
                tree.data(from)->sizes[1],
                tree.data(from)->sizes[0],
            ]
        }),
{
    let ids = tree.children(from);
    assert(tree.has(from) && ids.no_duplicates());
    assert(ids.contains(node));
    assert(ids.index_of(node) == at) by {
        let found = ids.index_of(node);
        assert(ids[found] == node);
    }
    assert(without_id(ids, node) =~= seq![ids[to]]);
    let placed = tree.at_sibling(node, to);
    assert(placed.children(from) =~= seq![ids[1], ids[0]]);
    assert(placed.nodes.dom() =~= tree.nodes.dom());
    let sizes = tree.data(from)->sizes;
    assert(sizes.update(at, sizes[to]).update(to, sizes[at]) =~= seq![sizes[1], sizes[0]]);
    assert(placed.nodes.dom().contains(from));
    lemma_other_data(placed, from, tree.data(from).with_swapped(at, to), from);
}

} // verus!
