//! Moving a node of a tiling tree in a direction.

use vstd::prelude::*;

use id_tree::{NodeId, Tree};

use crate::actions::Direction;
use crate::balance::{
    lemma_data_balance, lemma_move_balance, lemma_prune_balance, lemma_sibling_balance, lemma_sound,
    one_if,
};
use crate::classic::{lemma_below_root, lemma_child};
use crate::data::{Data, DataView};
use crate::geometry::Orientation;
use crate::lineage::{
    lemma_at_sibling, lemma_below_cases, lemma_below_trans, lemma_moved_to_parent,
    lemma_parent_not_below,
};
use crate::surgery::{
    along, lemma_grows_keys, lemma_one_more_key, new_group, new_group_item, orientation_along,
    position_of,
};
use crate::tree::{
    child_ids, copy_id, get_node, get_node_mut, make_nth_sibling, model, move_to_parent, parent_id,
    remove_subtree, NodeView, TreeModel, TreeNode,
};

verus! {

/// What came of moving a node.
#[derive(Clone, Copy, Debug, PartialEq, Eq, Structural)]
pub enum NodeMove {
    /// There is nothing to move to in this tree.
    Further,
    /// The node has another place.
    Done,
    /// The window left the tree to join a stack, as its first window or its last one.
    IntoStack { stack: u64, first: bool },
}

/// Whether a direction leads to what comes first in a group.
pub open spec fn leading(direction: Direction) -> bool {
    direction is Left || direction is Up
}

/// Whether a direction leads to what comes first in a group.
pub fn leads(direction: Direction) -> (yes: bool)
    ensures
        yes == leading(direction),
{
    match direction {
        Direction::Left | Direction::Up => true,
        Direction::Right | Direction::Down => false,
    }
}

/// Where a node stands in a new group, if it comes to `old_id` from outside.
pub open spec fn near_place(direction: Direction) -> int {
    if leading(direction) {
        1
    } else {
        0
    }
}

/// Where a node stands in a new group, if it comes to `old_id` from inside.
pub open spec fn far_place(direction: Direction) -> int {
    if leading(direction) {
        0
    } else {
        1
    }
}

impl TreeModel {
    /// The tree with less room in a group, whose child at this place was taken away.
    pub open spec fn relieved(self, group: NodeId, place: int) -> TreeModel {
        self.with_data(group, self.data(group).without_child(place))
    }

    /// The tree with `node` taken from its parent into a new group with `old_id`, at this
    /// place.
    pub open spec fn forked(
        self,
        old_id: NodeId,
        node: NodeId,
        group: NodeId,
        item: NodeView,
        place: int,
    ) -> TreeModel {
        self.grouped(old_id, node, group, item).at_sibling(node, place)
    }

    /// Whether `after` is the tree with `node` taken from its parent into a new group of this
    /// orientation with `old_id`.
    pub open spec fn forked_as(
        self,
        after: TreeModel,
        old_id: NodeId,
        node: NodeId,
        item: NodeView,
        place: int,
    ) -> bool {
        let from = self.parent(node)->0;
        exists|group: NodeId|
            !self.has(group) && after == (#[trigger] self.forked(
                old_id,
                node,
                group,
                item,
                place,
            )).relieved(from, self.place(from, node))
    }

    /// Whether `after` is the tree with `node` moved into the group `inner` next to it: to the
    /// end of the group that it comes to first, or to the middle of a group across its way,
    /// where it shares the place of the one in the middle.
    pub open spec fn entered_as(
        self,
        after: TreeModel,
        node: NodeId,
        inner: NodeId,
        direction: Direction,
        key: u64,
    ) -> bool {
        let from = self.parent(node)->0;
        let place = self.place(from, node);
        let moved = self.moved_to_parent(node, inner);
        let count = self.data(inner)->sizes.len() as int;
        let orientation = self.data(inner).spec_orientation();
        if orientation == along(direction) {
            let index = if leading(direction) {
                count
            } else {
                0
            };
            after == moved.at_sibling(node, index).with_data(
                inner,
                self.data(inner).with_child(index),
            ).relieved(from, place)
        } else if count % 2 == 0 {
            after == moved.at_sibling(node, count / 2).with_data(
                inner,
                self.data(inner).with_child(count / 2),
            ).relieved(from, place)
        } else {
            exists|group: NodeId|
                !self.has(group) && after == (#[trigger] moved.forked(
                    self.children(inner)[count / 2],
                    node,
                    group,
                    new_group_item(key, orientation.spec_opposite()),
                    near_place(direction),
                )).relieved(from, place)
        }
    }

    /// Whether `after` is the tree with `node` moved towards the next child of its parent, and
    /// `result` says so.
    pub open spec fn advanced_as(
        self,
        after: TreeModel,
        node: NodeId,
        direction: Direction,
        key: u64,
        result: NodeMove,
    ) -> bool {
        let from = self.parent(node)->0;
        let place = self.place(from, node);
        let next_place = if leading(direction) {
            place - 1
        } else {
            place + 1
        };
        let next = self.children(from)[next_place];
        let two = self.data(from)->sizes.len() == 2;
        if two && self.data(next).spec_is_stack() && self.data(node) is Mapped && !self.data(
            node,
        ).spec_is_stack() {
            &&& result == NodeMove::IntoStack {
                stack: self.data(next)->mapped.id,
                first: direction is Right,
            }
            &&& after == self.pruned(node).relieved(from, place)
        } else if two && self.data(next) is Group {
            result is Done && self.entered_as(after, node, next, direction, key)
        } else if two {
            &&& result is Done
            &&& after == self.at_sibling(node, next_place).with_data(
                from,
                self.data(from).with_swapped(place, next_place),
            )
        } else {
            &&& result is Done
            &&& self.forked_as(
                after,
                next,
                node,
                new_group_item(key, along(direction)),
                near_place(direction),
            )
        }
    }

    /// Whether `after` is the tree with `node` taken out of its parent, to stand next to
    /// `beside`, which it is below.
    pub open spec fn left_as(
        self,
        after: TreeModel,
        node: NodeId,
        beside: NodeId,
        direction: Direction,
        key: u64,
    ) -> bool {
        self.forked_as(
            after,
            beside,
            node,
            new_group_item(key, along(direction)),
            far_place(direction),
        )
    }

    /// Whether `after` is the tree with `node` moved up into the parent `outer` of its parent,
    /// next to the latter.
    pub open spec fn joined_as(
        self,
        after: TreeModel,
        node: NodeId,
        outer: NodeId,
        direction: Direction,
    ) -> bool {
        let from = self.parent(node)->0;
        let place = self.place(outer, from);
        after == self.moved_to_parent(node, outer).at_sibling(
            node,
            if leading(direction) {
                place
            } else {
                place + 1
            },
        ).with_data(outer, self.data(outer).with_child(place)).relieved(
            from,
            self.place(from, node),
        )
    }

    /// Whether `after` is the tree with `node` moved in a direction, and `result` says what
    /// came of it.
    pub open spec fn moved_as(
        self,
        after: TreeModel,
        node: NodeId,
        direction: Direction,
        key: u64,
        result: NodeMove,
    ) -> bool {
        match self.parent(node) {
            None => result is Further && after == self,
            Some(parent) => if self.data(parent).spec_orientation() != along(direction) {
                result is Done && self.left_as(after, node, parent, direction, key)
            } else if self.has_neighbour(parent, node, direction) {
                self.advanced_as(after, node, direction, key, result)
            } else {
                match self.parent(parent) {
                    None => result is Further && after == self,
                    Some(outer) => if self.data(outer).spec_orientation() != along(direction) {
                        result is Done && self.left_as(after, node, outer, direction, key)
                    } else {
                        result is Done && self.joined_as(after, node, outer, direction)
                    },
                }
            },
        }
    }
}

/// The room of a group changes by one with a child more or less.
proof fn lemma_room_of(data: DataView, index: int)
    requires
        data is Group,
    ensures
        0 <= index <= data->sizes.len() ==> data.with_child(index).room() == data.room() + 1,
        0 <= index < data->sizes.len() ==> data.without_child(index).room() == data.room() - 1,
        data.with_child(index) is Group,
        data.without_child(index) is Group,
{
}

/// Whether every node has room for its children, but `from`, which has one too few, and every
/// group at least two of them.
#[verifier::opaque]
spec fn lacking(tree: TreeModel, from: NodeId) -> bool {
    &&& tree.forest()
    &&& tree.connected()
    &&& tree.has(from)
    &&& tree.data(from) is Group
    &&& tree.groups_of(2)
    &&& forall|node: NodeId| #[trigger]
        tree.has(node) ==> tree.excess(node) == if node == from {
            -1int
        } else {
            0
        }
}

/// Takes the room of a child away that left its group.
fn relieve(tree: &mut Tree<TreeNode>, from: &NodeId, place: usize)
    requires
        lacking(model(*old(tree)), *from),
        model(*old(tree)).data(*from) is Group,
        place < model(*old(tree)).data(*from)->sizes.len(),
    ensures
        model(*final(tree)) == model(*old(tree)).relieved(*from, place as int),
        model(*final(tree)).sound(),
        model(*old(tree)).keeps_keys(model(*final(tree))),
{
    let ghost before = model(*tree);
    proof {
        reveal(lacking);
    }
    match get_node_mut(tree, from) {
        Some(node) => {
            node.data.remove_window(place);
        },
        None => {},
    }
    proof {
        let after = model(*tree);
        let data = before.data(*from).without_child(place as int);
        assert(after =~~= before.with_data(*from, data));
        lemma_room_of(before.data(*from), place as int);
        lemma_data_balance(before, *from, data);
        assert(after.balanced()) by {
            assert forall|node: NodeId| #[trigger] after.has(node) implies after.excess(node)
                == 0 by {
                assert(before.has(node));
            }
        }
        assert(after.groups_of(1)) by {
            assert forall|node: NodeId| #[trigger] after.has(node) && after.data(node) is Group implies after.data(node)->sizes.len() >= 1 by {
                assert(before.has(node));
            }
        }
        lemma_sound(after);
    }
}

/// Trees with the same nodes and contents have the same keys.
proof fn lemma_same_items_keys(tree: TreeModel, after: TreeModel)
    requires
        tree.same_items(after),
    ensures
        tree.keeps_keys(after),
{
    assert forall|id: NodeId| #[trigger] after.has(id) implies tree.has(id) && after.key(id)
        == tree.key(id) by {
        assert(after.nodes.dom().contains(id));
        assert(tree.has(id));
    }
}

impl TreeModel {
    /// Whether `after` has this tree's nodes with the same contents and full groups besides,
    /// and `node` left its parent.
    #[verifier::opaque]
    spec fn forked_well(self, after: TreeModel, node: NodeId) -> bool {
        &&& after.connected()
        &&& after.groups_of(2)
        &&& forall|other: NodeId| #[trigger]
            self.has(other) ==> after.has(other) && after.nodes[other].item
                == self.nodes[other].item
        &&& forall|other: NodeId| #[trigger]
            after.has(other) ==> after.excess(other) == if self.has(other) {
                self.excess(other) - one_if(self.parent(node) == Some(other))
            } else {
                0
            }
    }
}

/// What a node that joined a new group left behind.
proof fn lemma_forked(
    before: TreeModel,
    grouped: TreeModel,
    old_id: NodeId,
    node: NodeId,
    group: NodeId,
    item: NodeView,
    place: int,
)
    requires
        grouped.forest(),
        grouped.has(node),
        0 <= place,
        !before.below(old_id, node),
        !before.has(group),
        before.groups_of(2),
        before.with_one_more(grouped, group, item),
        before.regrouped(grouped, old_id, node, group),
        item.data is Group,
        item.data->sizes.len() == 2,
    ensures
        before.forked_well(grouped.at_sibling(node, place), node),
{
    let after = grouped.at_sibling(node, place);
    reveal(TreeModel::regrouped);
    reveal(TreeModel::forked_well);
    lemma_sibling_balance(grouped, node, place);
    assert(grouped.same_items(after)) by {
        lemma_at_sibling(grouped, node, place);
    }
    assert forall|other: NodeId| #[trigger] before.has(other) implies after.has(other)
        && after.nodes[other].item == before.nodes[other].item by {
        assert(grouped.has(other));
    }
    assert forall|other: NodeId| #[trigger] after.has(other) && after.data(
        other,
    ) is Group implies after.data(other)->sizes.len() >= 2 by {
        assert(grouped.has(other));
        if other != group {
            assert(before.has(other));
        }
    }
    assert forall|other: NodeId| #[trigger] after.has(other) implies after.excess(other)
        == if before.has(other) {
        before.excess(other) - one_if(before.parent(node) == Some(other))
    } else {
        0
    } by {
        assert(grouped.has(other));
        assert(before.has(other) || other == group);
    }
}

/// Puts `node` and `old_id` into a new group where `old_id` is.
fn fork(
    tree: &mut Tree<TreeNode>,
    old_id: &NodeId,
    node: &NodeId,
    orientation: Orientation,
    key: u64,
    place: usize,
)
    requires
        model(*old(tree)).forest(),
        model(*old(tree)).connected(),
        model(*old(tree)).has(*old_id),
        model(*old(tree)).has(*node),
        *old_id != *node,
        !model(*old(tree)).below(*old_id, *node),
        model(*old(tree)).groups_of(2),
    ensures
        exists|group: NodeId|
            !model(*old(tree)).has(group) && model(*final(tree)) == #[trigger] model(
                *old(tree),
            ).forked(*old_id, *node, group, new_group_item(key, orientation), place as int),
        model(*final(tree)).forest(),
        model(*old(tree)).forked_well(model(*final(tree)), *node),
        model(*old(tree)).grows_keys(model(*final(tree)), key),
{
    let ghost before = model(*tree);
    let ghost item = new_group_item(key, orientation);
    assert(before.root != Some(*node)) by {
        let rank = choose|rank: Map<NodeId, nat>| before.ranked(rank);
        lemma_below_root(before, *old_id, rank);
    }
    let result: Option<NodeId> = new_group(tree, old_id, node, orientation, key);
    let ghost grouped = model(*tree);
    let ghost group = result->0;
    assert(grouped.has(*node));
    make_nth_sibling(tree, node, place);
    proof {
        lemma_forked(before, grouped, *old_id, *node, group, item, place as int);
        lemma_one_more_key(before, grouped, group, item);
        assert(grouped.same_items(model(*tree))) by {
            lemma_at_sibling(grouped, *node, place as int);
        }
        lemma_same_items_keys(grouped, model(*tree));
        lemma_grows_keys(before, grouped, model(*tree), key);
        assert(model(*tree) == before.forked(*old_id, *node, group, item, place as int));
    }
}

/// A child of a node in order, and where it stands.
pub proof fn lemma_place(tree: TreeModel, parent: NodeId, child: NodeId)
    requires
        tree.settled(),
        tree.has(child),
        tree.parent(child) == Some(parent),
    ensures
        tree.forest(),
        tree.connected(),
        tree.groups_of(2),
        tree.has(parent),
        tree.data(parent) is Group,
        tree.data(parent)->sizes.len() == tree.children(parent).len(),
        tree.data(parent)->sizes.len() >= 2,
        0 <= tree.place(parent, child) < tree.children(parent).len(),
        tree.children(parent)[tree.place(parent, child)] == child,
        tree.children(parent).contains(child),
        parent != child,
        !tree.below(parent, child),
        tree.below(child, parent),
        forall|node: NodeId| #[trigger] tree.has(node) ==> tree.excess(node) == 0,
{
    lemma_sound(tree);
    lemma_parent_not_below(tree, child, parent);
    assert(tree.has(child));
    assert(tree.children(parent).contains(child));
    assert(tree.excess(parent) == 0);
}

/// Takes `node` out of its parent into a new group with `old_id`.
fn fork_out(
    tree: &mut Tree<TreeNode>,
    old_id: &NodeId,
    node: &NodeId,
    from: &NodeId,
    from_place: usize,
    orientation: Orientation,
    key: u64,
    place: usize,
)
    requires
        model(*old(tree)).settled(),
        model(*old(tree)).has(*old_id),
        model(*old(tree)).has(*node),
        model(*old(tree)).parent(*node) == Some(*from),
        from_place == model(*old(tree)).place(*from, *node),
        *old_id != *node,
        !model(*old(tree)).below(*old_id, *node),
    ensures
        model(*old(tree)).forked_as(
            model(*final(tree)),
            *old_id,
            *node,
            new_group_item(key, orientation),
            place as int,
        ),
        model(*final(tree)).sound(),
        model(*old(tree)).grows_keys(model(*final(tree)), key),
{
    let ghost before = model(*tree);
    proof {
        lemma_place(before, *from, *node);
    }
    fork(tree, old_id, node, orientation, key, place);
    let ghost forked = model(*tree);
    proof {
        reveal(TreeModel::forked_well);
        assert(before.has(*from));
        assert forall|other: NodeId| #[trigger] forked.has(other) implies forked.excess(other)
            == if other == *from {
            -1int
        } else {
            0
        } by {
            if before.has(other) {
                assert(before.excess(other) == 0);
            }
        }
        reveal(lacking);
        assert(lacking(forked, *from));
    }
    relieve(tree, from, from_place);
    proof {
        lemma_grows_keys(before, forked, model(*tree), key);
        let group = choose|group: NodeId|
            !before.has(group) && forked == #[trigger] before.forked(
                *old_id,
                *node,
                group,
                new_group_item(key, orientation),
                place as int,
            );
        assert(!before.has(group) && model(*tree) == before.forked(
            *old_id,
            *node,
            group,
            new_group_item(key, orientation),
            place as int,
        ).relieved(*from, from_place as int));
    }
}

/// The tree that lacks room for one child less in `from` after `node` was given room in another
/// group.
proof fn lemma_inserted(
    before: TreeModel,
    node: NodeId,
    from: NodeId,
    group: NodeId,
    place: int,
    room_place: int,
)
    requires
        before.settled(),
        before.has(node),
        before.parent(node) == Some(from),
        before.has(group),
        before.data(group) is Group,
        group != from,
        group != node,
        !before.below(group, node),
        0 <= place,
        0 <= room_place <= before.data(group)->sizes.len(),
        before.moved_to_parent(node, group).forest(),
        before.moved_to_parent(node, group).at_sibling(node, place).forest(),
    ensures
        ({
            let after = before.moved_to_parent(node, group).at_sibling(node, place).with_data(
                group,
                before.data(group).with_child(room_place),
            );
            &&& lacking(after, from)
            &&& after.data(from) == before.data(from)
        }),
{
    let moved = before.moved_to_parent(node, group);
    let placed = moved.at_sibling(node, place);
    let data = before.data(group).with_child(room_place);
    let after = placed.with_data(group, data);
    reveal(lacking);
    lemma_place(before, from, node);
    lemma_move_balance(before, node, group);
    assert(before.same_items(moved)) by {
        lemma_moved_to_parent(before, node, group);
    }
    assert(moved.has(node));
    lemma_sibling_balance(moved, node, place);
    assert(moved.same_items(placed)) by {
        lemma_at_sibling(moved, node, place);
    }
    assert(moved.has(group) && placed.has(group));
    lemma_data_balance(placed, group, data);
    lemma_room_of(before.data(group), room_place);
    assert(moved.has(from) && placed.has(from) && after.has(from));
    assert forall|other: NodeId| #[trigger] after.has(other) implies after.excess(other) == if other
        == from {
        -1int
    } else {
        0
    } by {
        assert(placed.has(other));
        assert(moved.has(other));
        assert(before.has(other));
    }
    assert forall|other: NodeId| #[trigger] after.has(other) && after.data(
        other,
    ) is Group implies after.data(other)->sizes.len() >= 2 by {
        assert(placed.has(other));
        assert(moved.has(other));
        assert(before.has(other));
    }
}

/// Moves `node` into another group and gives it room there.
fn insert_into(
    tree: &mut Tree<TreeNode>,
    node: &NodeId,
    from: &NodeId,
    group: &NodeId,
    place: usize,
    room_place: usize,
)
    requires
        model(*old(tree)).settled(),
        model(*old(tree)).has(*node),
        model(*old(tree)).parent(*node) == Some(*from),
        model(*old(tree)).has(*group),
        model(*old(tree)).data(*group) is Group,
        *group != *from,
        *group != *node,
        !model(*old(tree)).below(*group, *node),
        room_place <= model(*old(tree)).data(*group)->sizes.len(),
    ensures
        model(*final(tree)) == model(*old(tree)).moved_to_parent(*node, *group).at_sibling(
            *node,
            place as int,
        ).with_data(*group, model(*old(tree)).data(*group).with_child(room_place as int)),
        lacking(model(*final(tree)), *from),
        model(*final(tree)).data(*from) == model(*old(tree)).data(*from),
        model(*old(tree)).keeps_keys(model(*final(tree))),
{
    let ghost before = model(*tree);
    proof {
        lemma_place(before, *from, *node);
    }
    move_to_parent(tree, node, group);
    let ghost moved = model(*tree);
    assert(before.same_items(moved)) by {
        lemma_moved_to_parent(before, *node, *group);
    }
    assert(moved.has(*node));
    make_nth_sibling(tree, node, place);
    let ghost placed = model(*tree);
    assert(moved.same_items(placed)) by {
        lemma_at_sibling(moved, *node, place as int);
    }
    assert(placed.has(*group) && placed.data(*group) == before.data(*group)) by {
        assert(before.has(*group));
        assert(moved.has(*group));
    }
    match get_node_mut(tree, group) {
        Some(found) => {
            found.data.add_window(room_place);
        },
        None => {},
    }
    proof {
        assert(model(*tree) =~~= placed.with_data(
            *group,
            before.data(*group).with_child(room_place as int),
        ));
        lemma_inserted(before, *node, *from, *group, place as int, room_place as int);
        lemma_same_items_keys(before, moved);
        lemma_same_items_keys(moved, placed);
        assert forall|id: NodeId| #[trigger] model(*tree).has(id) implies before.has(id) && model(
            *tree,
        ).key(id) == before.key(id) by {
            assert(placed.has(id));
            assert(moved.has(id));
        }
    }
}

/// Nodes with the same parent are not below each other.
pub proof fn lemma_siblings(tree: TreeModel, parent: NodeId, first: NodeId, second: NodeId)
    requires
        tree.forest(),
        tree.has(first),
        tree.has(second),
        first != second,
        tree.parent(first) == Some(parent),
        tree.parent(second) == Some(parent),
    ensures
        !tree.below(first, second),
{
    lemma_parent_not_below(tree, second, parent);
    if tree.below(first, second) {
        lemma_below_cases(tree, first, second);
    }
}

/// A node that moved into the group next to it can share the place of a child there.
pub proof fn lemma_moved_in(tree: TreeModel, node: NodeId, from: NodeId, inner: NodeId, middle: int)
    requires
        tree.settled(),
        tree.has(node),
        tree.has(inner),
        tree.parent(node) == Some(from),
        tree.parent(inner) == Some(from),
        inner != node,
        tree.data(inner) is Group,
        0 <= middle < tree.children(inner).len(),
        tree.moved_to_parent(node, inner).forest(),
    ensures
        ({
            let moved = tree.moved_to_parent(node, inner);
            let old_id = tree.children(inner)[middle];
            &&& moved.connected()
            &&& moved.groups_of(2)
            &&& moved.has(node)
            &&& moved.has(old_id)
            &&& old_id != node
            &&& !moved.below(old_id, node)
            &&& moved.parent(node) == Some(inner)
            &&& moved.has(from)
            &&& moved.data(from) == tree.data(from)
            &&& inner != from
            &&& forall|other: NodeId| #[trigger]
                moved.has(other) == tree.has(other) && (tree.has(other) ==> moved.excess(other)
                    == one_if(other == inner) - one_if(other == from))
        }),
{
    let moved = tree.moved_to_parent(node, inner);
    let old_id = tree.children(inner)[middle];
    lemma_place(tree, from, node);
    lemma_place(tree, from, inner);
    lemma_siblings(tree, from, inner, node);
    lemma_move_balance(tree, node, inner);
    lemma_moved_to_parent(tree, node, inner);
    lemma_sound(tree);
    lemma_child(tree, inner, middle);
    assert(old_id != node);
    assert(moved.parent(old_id) == tree.parent(old_id));
    assert(tree.has(old_id));
    lemma_siblings(moved, inner, old_id, node);
    assert forall|other: NodeId| #[trigger] moved.has(other) && moved.data(
        other,
    ) is Group implies moved.data(other)->sizes.len() >= 2 by {
        assert(tree.has(other));
    }
    assert(tree.has(from));
    assert forall|other: NodeId| #[trigger]
        moved.has(other) == tree.has(other) && (tree.has(other) ==> moved.excess(other) == one_if(
            other == inner,
        ) - one_if(other == from)) by {
        if tree.has(other) {
            assert(moved.has(other));
            assert(tree.excess(other) == 0);
        }
    }
}

/// Moves `node` into the middle of the group next to it, where it shares a place.
fn share(
    tree: &mut Tree<TreeNode>,
    node: &NodeId,
    from: &NodeId,
    inner: &NodeId,
    orientation: Orientation,
    key: u64,
    place: usize,
)
    requires
        model(*old(tree)).settled(),
        model(*old(tree)).has(*node),
        model(*old(tree)).has(*inner),
        model(*old(tree)).parent(*node) == Some(*from),
        model(*old(tree)).parent(*inner) == Some(*from),
        *inner != *node,
        model(*old(tree)).data(*inner) is Group,
    ensures
        exists|group: NodeId|
            !model(*old(tree)).has(group) && model(*final(tree)) == #[trigger] model(
                *old(tree),
            ).moved_to_parent(*node, *inner).forked(
                model(*old(tree)).children(*inner)[model(*old(tree)).children(*inner).len() as int
                    / 2],
                *node,
                group,
                new_group_item(key, orientation),
                place as int,
            ),
        lacking(model(*final(tree)), *from),
        model(*final(tree)).data(*from) == model(*old(tree)).data(*from),
        model(*old(tree)).grows_keys(model(*final(tree)), key),
{
    let ghost before = model(*tree);
    proof {
        lemma_place(before, *from, *node);
        lemma_place(before, *from, *inner);
        lemma_siblings(before, *from, *inner, *node);
        assert(before.excess(*inner) == 0);
    }
    let children: Vec<NodeId> = child_ids(tree, inner);
    let middle: usize = children.len() / 2;
    let old_id: NodeId = copy_id(&children[middle]);
    move_to_parent(tree, node, inner);
    let ghost moved = model(*tree);
    proof {
        lemma_moved_in(before, *node, *from, *inner, middle as int);
    }
    fork(tree, &old_id, node, orientation, key, place);
    proof {
        let after = model(*tree);
        assert(before.same_items(moved)) by {
            lemma_moved_to_parent(before, *node, *inner);
        }
        lemma_same_items_keys(before, moved);
        lemma_grows_keys(before, moved, after, key);
        reveal(TreeModel::forked_well);
        reveal(lacking);
        let group = choose|group: NodeId|
            !moved.has(group) && after == #[trigger] moved.forked(
                old_id,
                *node,
                group,
                new_group_item(key, orientation),
                place as int,
            );
        assert(moved.has(group) == before.has(group));
        assert(moved.has(*from));
        assert forall|other: NodeId| #[trigger] after.has(other) implies after.excess(other) == if other
            == *from {
            -1int
        } else {
            0
        } by {
            if moved.has(other) {
                assert(before.has(other));
            }
        }
    }
}

/// A group next to a node.
pub proof fn lemma_next_group(tree: TreeModel, from: NodeId, node: NodeId, inner: NodeId)
    requires
        tree.settled(),
        tree.has(node),
        tree.has(inner),
        tree.parent(node) == Some(from),
        tree.parent(inner) == Some(from),
        inner != node,
        tree.data(inner) is Group,
    ensures
        tree.data(from) is Group,
        0 <= tree.place(from, node) < tree.data(from)->sizes.len(),
        inner != from,
        !tree.below(inner, node),
        tree.children(inner).len() == tree.data(inner)->sizes.len(),
{
    lemma_place(tree, from, node);
    lemma_place(tree, from, inner);
    lemma_siblings(tree, from, inner, node);
    assert(tree.excess(inner) == 0);
}

/// Moves `node` into the group `inner` next to it.
fn enter(
    tree: &mut Tree<TreeNode>,
    node: &NodeId,
    from: &NodeId,
    from_place: usize,
    inner: &NodeId,
    direction: Direction,
    key: u64,
)
    requires
        model(*old(tree)).settled(),
        model(*old(tree)).has(*node),
        model(*old(tree)).has(*inner),
        model(*old(tree)).parent(*node) == Some(*from),
        model(*old(tree)).parent(*inner) == Some(*from),
        from_place == model(*old(tree)).place(*from, *node),
        *inner != *node,
        model(*old(tree)).data(*inner) is Group,
    ensures
        model(*old(tree)).entered_as(model(*final(tree)), *node, *inner, direction, key),
        model(*final(tree)).sound(),
        model(*old(tree)).grows_keys(model(*final(tree)), key),
{
    let ghost before = model(*tree);
    let (orientation, count): (Orientation, usize) = match get_node(tree, inner) {
        Some(found) => (found.data.orientation(), found.data.len()),
        None => (Orientation::Horizontal, 0),
    };
    proof {
        lemma_next_group(before, *from, *node, *inner);
    }
    if orientation == orientation_along(direction) {
        let index: usize = if leads(direction) {
            count
        } else {
            0
        };
        insert_into(tree, node, from, inner, index, index);
        let ghost inserted = model(*tree);
        relieve(tree, from, from_place);
        proof {
            lemma_grows_keys(before, inserted, model(*tree), key);
        }
    } else if count % 2 == 0 {
        insert_into(tree, node, from, inner, count / 2, count / 2);
        let ghost inserted = model(*tree);
        relieve(tree, from, from_place);
        proof {
            lemma_grows_keys(before, inserted, model(*tree), key);
        }
    } else {
        let place: usize = if leads(direction) {
            1
        } else {
            0
        };
        share(tree, node, from, inner, orientation.opposite(), key, place);
        let ghost shared = model(*tree);
        relieve(tree, from, from_place);
        proof {
            lemma_grows_keys(before, shared, model(*tree), key);
            let item = new_group_item(key, orientation.spec_opposite());
            let moved = before.moved_to_parent(*node, *inner);
            let old_id = before.children(*inner)[count as int / 2];
            let group = choose|group: NodeId|
                !before.has(group) && shared == #[trigger] moved.forked(
                    old_id,
                    *node,
                    group,
                    item,
                    near_place(direction),
                );
            assert(!before.has(group) && model(*tree) == moved.forked(
                old_id,
                *node,
                group,
                item,
                near_place(direction),
            ).relieved(*from, from_place as int));
        }
    }
}

/// A node next to another one, and where both stand.
pub proof fn lemma_next(tree: TreeModel, from: NodeId, node: NodeId, next_place: int)
    requires
        tree.settled(),
        tree.has(node),
        tree.parent(node) == Some(from),
        0 <= next_place < tree.children(from).len(),
        next_place != tree.place(from, node),
    ensures
        ({
            let next = tree.children(from)[next_place];
            &&& tree.has(from)
            &&& tree.has(next)
            &&& tree.parent(next) == Some(from)
            &&& next != node
            &&& !tree.below(next, node)
            &&& tree.place(from, next) == next_place
            &&& tree.data(from) is Group
            &&& tree.data(from)->sizes.len() == tree.children(from).len()
            &&& tree.data(from)->sizes.len() >= 2
            &&& 0 <= tree.place(from, node) < tree.children(from).len()
        }),
{
    let next = tree.children(from)[next_place];
    lemma_place(tree, from, node);
    lemma_sound(tree);
    lemma_child(tree, from, next_place);
    lemma_siblings(tree, from, next, node);
}

/// Takes a window out of the tree, which joins the stack next to it.
fn leave(tree: &mut Tree<TreeNode>, node: &NodeId, from: &NodeId, from_place: usize)
    requires
        model(*old(tree)).settled(),
        model(*old(tree)).has(*node),
        model(*old(tree)).parent(*node) == Some(*from),
        from_place == model(*old(tree)).place(*from, *node),
    ensures
        model(*final(tree)) == model(*old(tree)).pruned(*node).relieved(*from, from_place as int),
        model(*final(tree)).sound(),
        model(*old(tree)).keeps_keys(model(*final(tree))),
{
    let ghost before = model(*tree);
    proof {
        lemma_place(before, *from, *node);
    }
    remove_subtree(tree, node);
    let ghost pruned = model(*tree);
    proof {
        let after = model(*tree);
        reveal(lacking);
        lemma_prune_balance(before, *node);
        assert(before.keeps_keys(after));
        assert(before.has(*from));
        assert(after.has(*from));
        assert forall|other: NodeId| #[trigger] after.has(other) implies after.excess(other) == if other
            == *from {
            -1int
        } else {
            0
        } by {
            assert(before.has(other));
        }
        assert forall|other: NodeId| #[trigger] after.has(other) && after.data(
            other,
        ) is Group implies after.data(other)->sizes.len() >= 2 by {
            assert(before.has(other));
        }
    }
    relieve(tree, from, from_place);
    assert forall|id: NodeId| #[trigger] model(*tree).has(id) implies before.has(id) && model(
        *tree,
    ).key(id) == before.key(id) by {
        assert(pruned.has(id));
    }
}

/// The tree stays sound when a node changes places with another one in its group.
proof fn lemma_exchanged(
    before: TreeModel,
    node: NodeId,
    from: NodeId,
    place: int,
    next_place: int,
)
    requires
        before.settled(),
        before.has(node),
        before.parent(node) == Some(from),
        0 <= place < before.children(from).len(),
        0 <= next_place < before.children(from).len(),
        before.at_sibling(node, next_place).forest(),
    ensures
        before.at_sibling(node, next_place).with_data(
            from,
            before.data(from).with_swapped(place, next_place),
        ).sound(),
{
    let placed = before.at_sibling(node, next_place);
    let data = before.data(from).with_swapped(place, next_place);
    let after = placed.with_data(from, data);
    lemma_place(before, from, node);
    lemma_sibling_balance(before, node, next_place);
    assert(before.same_items(placed)) by {
        lemma_at_sibling(before, node, next_place);
    }
    assert(before.has(from) && placed.has(from));
    lemma_data_balance(placed, from, data);
    assert(after.balanced()) by {
        assert forall|other: NodeId| #[trigger] after.has(other) implies after.excess(other)
            == 0 by {
            assert(placed.has(other));
            assert(before.has(other));
        }
    }
    assert(after.groups_of(1)) by {
        assert forall|other: NodeId| #[trigger] after.has(other) && after.data(
            other,
        ) is Group implies after.data(other)->sizes.len() >= 1 by {
            assert(placed.has(other));
            assert(before.has(other));
        }
    }
    lemma_sound(after);
}

/// Exchanges a node with the only other one in its group.
fn exchange(tree: &mut Tree<TreeNode>, node: &NodeId, from: &NodeId, from_place: usize, next_place: usize)
    requires
        model(*old(tree)).settled(),
        model(*old(tree)).has(*node),
        model(*old(tree)).parent(*node) == Some(*from),
        from_place == model(*old(tree)).place(*from, *node),
        next_place < model(*old(tree)).children(*from).len(),
    ensures
        model(*final(tree)) == model(*old(tree)).at_sibling(*node, next_place as int).with_data(
            *from,
            model(*old(tree)).data(*from).with_swapped(from_place as int, next_place as int),
        ),
        model(*final(tree)).sound(),
        model(*old(tree)).keeps_keys(model(*final(tree))),
{
    let ghost before = model(*tree);
    proof {
        lemma_place(before, *from, *node);
    }
    make_nth_sibling(tree, node, next_place);
    let ghost placed = model(*tree);
    assert(placed.has(*from) && placed.data(*from) == before.data(*from)) by {
        lemma_at_sibling(before, *node, next_place as int);
        assert(before.has(*from));
    }
    match get_node_mut(tree, from) {
        Some(found) => {
            found.data.swap_windows(from_place, next_place);
        },
        None => {},
    }
    proof {
        let data = before.data(*from).with_swapped(from_place as int, next_place as int);
        assert(model(*tree) =~~= placed.with_data(*from, data));
        lemma_exchanged(before, *node, *from, from_place as int, next_place as int);
        assert(before.same_items(placed)) by {
            lemma_at_sibling(before, *node, next_place as int);
        }
        lemma_same_items_keys(before, placed);
        assert forall|id: NodeId| #[trigger] model(*tree).has(id) implies before.has(id) && model(
            *tree,
        ).key(id) == before.key(id) by {
            assert(placed.has(id));
        }
    }
}

/// Moves a node towards the next child of its parent.
fn advance(
    tree: &mut Tree<TreeNode>,
    node: &NodeId,
    from: &NodeId,
    place: usize,
    next_place: usize,
    next: &NodeId,
    direction: Direction,
    key: u64,
) -> (result: NodeMove)
    requires
        model(*old(tree)).settled(),
        model(*old(tree)).has(*node),
        model(*old(tree)).parent(*node) == Some(*from),
        place == model(*old(tree)).place(*from, *node),
        next_place == if leading(direction) {
            place - 1
        } else {
            place + 1
        },
        next_place < model(*old(tree)).children(*from).len(),
        *next == model(*old(tree)).children(*from)[next_place as int],
    ensures
        model(*old(tree)).advanced_as(model(*final(tree)), *node, direction, key, result),
        model(*final(tree)).sound(),
        model(*old(tree)).grows_keys(model(*final(tree)), key),
{
    let ghost before = model(*tree);
    proof {
        lemma_next(before, *from, *node, next_place as int);
    }
    let two: bool = match get_node(tree, from) {
        Some(found) => found.data.len() == 2,
        None => false,
    };
    let (stack, group): (Option<u64>, bool) = match get_node(tree, next) {
        Some(found) => match &found.data {
            Data::Mapped { mapped, .. } => (
                if mapped.stack {
                    Some(mapped.id)
                } else {
                    None
                },
                false,
            ),
            Data::Group { .. } => (None, true),
            _ => (None, false),
        },
        None => (None, false),
    };
    let single: bool = match get_node(tree, node) {
        Some(found) => found.data.is_mapped(None) && !found.data.is_stack(),
        None => false,
    };
    if two && single {
        match stack {
            Some(id) => {
                leave(tree, node, from, place);
                proof {
                    lemma_grows_keys(before, before, model(*tree), key);
                }
                let first: bool = match direction {
                    Direction::Right => true,
                    _ => false,
                };
                return NodeMove::IntoStack { stack: id, first };
            },
            None => {},
        }
    }
    if two && group {
        enter(tree, node, from, place, next, direction, key);
    } else if two {
        exchange(tree, node, from, place, next_place);
        proof {
            lemma_grows_keys(before, before, model(*tree), key);
        }
    } else {
        let near: usize = if leads(direction) {
            1
        } else {
            0
        };
        fork_out(tree, next, node, from, place, orientation_along(direction), key, near);
    }
    NodeMove::Done
}

/// The group around the parent of a node.
pub proof fn lemma_outer(tree: TreeModel, node: NodeId, from: NodeId, outer: NodeId)
    requires
        tree.settled(),
        tree.has(node),
        tree.parent(node) == Some(from),
        tree.parent(from) == Some(outer),
    ensures
        tree.has(from),
        tree.has(outer),
        outer != node,
        outer != from,
        !tree.below(outer, node),
        tree.data(from) is Group,
        tree.data(outer) is Group,
        0 <= tree.place(from, node) < tree.data(from)->sizes.len(),
        0 <= tree.place(outer, from) < tree.data(outer)->sizes.len(),
        tree.children(outer).contains(from),
        tree.children(outer).no_duplicates(),
        tree.data(outer)->sizes.len() == tree.children(outer).len(),
{
    lemma_place(tree, from, node);
    lemma_place(tree, outer, from);
    if tree.below(outer, node) {
        lemma_below_trans(tree, outer, node, from);
    }
    if outer == node {
        lemma_below_trans(tree, outer, from, outer);
    }
}

/// Moves a node up into the group around its parent.
fn join(
    tree: &mut Tree<TreeNode>,
    node: &NodeId,
    from: &NodeId,
    from_place: usize,
    outer: &NodeId,
    direction: Direction,
)
    requires
        model(*old(tree)).settled(),
        model(*old(tree)).has(*node),
        model(*old(tree)).parent(*node) == Some(*from),
        model(*old(tree)).parent(*from) == Some(*outer),
        from_place == model(*old(tree)).place(*from, *node),
    ensures
        model(*old(tree)).joined_as(model(*final(tree)), *node, *outer, direction),
        model(*final(tree)).sound(),
        model(*old(tree)).keeps_keys(model(*final(tree))),
{
    let ghost before = model(*tree);
    proof {
        lemma_outer(before, *node, *from, *outer);
    }
    let children: Vec<NodeId> = child_ids(tree, outer);
    let place: usize = match position_of(&children, from) {
        Some(place) => place,
        None => 0,
    };
    assert(place == before.place(*outer, *from));
    assert(children.len() == children@.len());
    let sibling_place: usize = if leads(direction) {
        place
    } else {
        place + 1
    };
    insert_into(tree, node, from, outer, sibling_place, place);
    let ghost inserted = model(*tree);
    relieve(tree, from, from_place);
    assert forall|id: NodeId| #[trigger] model(*tree).has(id) implies before.has(id) && model(
        *tree,
    ).key(id) == before.key(id) by {
        assert(inserted.has(id));
    }
}

/// Moves a node one step in a direction: out of a group that lies across its way, on to the
/// next child of its parent, or up into the group around its parent. `key` is for a new group.
pub fn move_node(tree: &mut Tree<TreeNode>, node: &NodeId, direction: Direction, key: u64) -> (result:
    NodeMove)
    requires
        model(*old(tree)).settled(),
        model(*old(tree)).has(*node),
    ensures
        model(*old(tree)).moved_as(model(*final(tree)), *node, direction, key, result),
        model(*final(tree)).sound(),
        model(*old(tree)).grows_keys(model(*final(tree)), key),
{
    let ghost before = model(*tree);
    proof {
        lemma_sound(before);
        lemma_grows_keys(before, before, before, key);
    }
    let from: NodeId = match parent_id(tree, node) {
        Some(from) => from,
        None => {
            return NodeMove::Further;
        },
    };
    proof {
        lemma_place(before, from, *node);
    }
    let children: Vec<NodeId> = child_ids(tree, &from);
    let place: usize = match position_of(&children, node) {
        Some(place) => place,
        None => 0,
    };
    let orientation: Orientation = match get_node(tree, &from) {
        Some(found) => found.data.orientation(),
        None => Orientation::Horizontal,
    };
    let far: usize = if leads(direction) {
        0
    } else {
        1
    };
    if orientation != orientation_along(direction) {
        fork_out(tree, &from, node, &from, place, orientation_along(direction), key, far);
        return NodeMove::Done;
    }
    let next_place: Option<usize> = if leads(direction) {
        if place > 0 {
            Some(place - 1)
        } else {
            None
        }
    } else if place < children.len() - 1 {
        Some(place + 1)
    } else {
        None
    };
    match next_place {
        Some(next_place) => {
            let next: NodeId = copy_id(&children[next_place]);
            advance(tree, node, &from, place, next_place, &next, direction, key)
        },
        None => {
            let outer: NodeId = match parent_id(tree, &from) {
                Some(outer) => outer,
                None => {
                    return NodeMove::Further;
                },
            };
            proof {
                lemma_outer(before, *node, from, outer);
            }
            let orientation: Orientation = match get_node(tree, &outer) {
                Some(found) => found.data.orientation(),
                None => Orientation::Horizontal,
            };
            if orientation != orientation_along(direction) {
                fork_out(tree, &outer, node, &from, place, orientation_along(direction), key, far);
            } else {
                join(tree, node, &from, place, &outer, direction);
                proof {
                    lemma_grows_keys(before, before, model(*tree), key);
                }
            }
            NodeMove::Done
        },
    }
}

} // verus!
