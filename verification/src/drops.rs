//! Dropping a window into a tiling tree, and clearing away what a drag left there.

use vstd::prelude::*;

use id_tree::{NodeId, Tree};

use crate::actions::Direction;
use crate::balance::{
    lemma_data_balance, lemma_grown_balance, lemma_same_rooms, lemma_sibling_balance, lemma_sound,
};
use crate::classic::lemma_empty;
use crate::data::{Data, DataView, PlaceholderType};
use crate::geometry::Orientation;
use crate::lineage::{
    lemma_at_sibling, lemma_below_has, lemma_below_self, lemma_branch, lemma_parent_not_below,
};
use crate::moves::{far_place, leading, leads};
use crate::placement::all_nodes;
use crate::surgery::{
    along, lemma_forest_with_data, lemma_grows_keys, lemma_keeps_keys, lemma_one_more_key,
    new_group, new_group_item, orientation_along, unmap_internal,
};
use crate::tree::{
    get_node, get_node_mut, insert_under, make_nth_sibling, model, root_id, visits, NodeView,
    TreeModel, TreeNode,
};

verus! {

impl TreeModel {
    /// Whether `after` has no keys but those of this tree and perhaps two others, and no key
    /// twice if this tree has none twice and the others are new and not the same.
    #[verifier::opaque]
    pub open spec fn grows_two(self, after: TreeModel, first: u64, second: u64) -> bool {
        &&& self.keyed() && !self.has_key(first) && !self.has_key(second) && first != second
            ==> after.keyed()
        &&& forall|k: u64| #[trigger]
            after.has_key(k) ==> self.has_key(k) || k == first || k == second
    }

    /// Whether `after` is this tree with the new window `id` at an edge of a group: in a new
    /// group with it, or as its first or last child.
    pub open spec fn dropped_at_edge(
        self,
        after: TreeModel,
        id: NodeId,
        item: NodeView,
        group: NodeId,
        direction: Direction,
        group_key: u64,
    ) -> bool {
        let grown = self.grown(id, item, group);
        if self.data(group).spec_orientation() != along(direction) {
            exists|outer: NodeId|
                !self.has(outer) && outer != id && after == (#[trigger] grown.grouped(
                    group,
                    id,
                    outer,
                    new_group_item(group_key, along(direction)),
                )).at_sibling(id, far_place(direction))
        } else {
            let place = if leading(direction) {
                0
            } else {
                self.data(group)->sizes.len() as int
            };
            after == grown.with_data(group, self.data(group).with_child(place)).at_sibling(
                id,
                place,
            )
        }
    }

    /// The tree with the new window `id` behind a child of a group.
    pub open spec fn dropped_inside(self, id: NodeId, item: NodeView, group: NodeId, index: int) -> TreeModel {
        let count = self.data(group)->sizes.len() as int;
        let place = if index + 1 < count {
            index + 1
        } else {
            count
        };
        self.grown(id, item, group).with_data(
            group,
            self.data(group).with_child(place),
        ).at_sibling(id, place)
    }

    /// Whether `after` is this tree with the new window `id` in a new group with another one.
    pub open spec fn dropped_beside(
        self,
        after: TreeModel,
        id: NodeId,
        item: NodeView,
        window: NodeId,
        direction: Direction,
        group_key: u64,
    ) -> bool {
        exists|outer: NodeId|
            !self.has(outer) && outer != id && after == (#[trigger] self.grown(
                id,
                item,
                window,
            ).grouped(window, id, outer, new_group_item(group_key, along(direction)))).at_sibling(
                id,
                far_place(direction),
            )
    }
}

/// Two new nodes, one after the other, and no others.
proof fn lemma_grows_two(
    first: TreeModel,
    second: TreeModel,
    third: TreeModel,
    one: u64,
    other: u64,
)
    requires
        first.grows_keys(second, one),
        second.grows_keys(third, other) || second.keeps_keys(third),
    ensures
        first.grows_two(third, one, other),
{
    reveal(TreeModel::grows_keys);
    reveal(TreeModel::grows_two);
    if second.keeps_keys(third) {
        lemma_keeps_keys(second, third);
    }
}

/// A new last child is one more node.
pub proof fn lemma_grown_one_more(tree: TreeModel, id: NodeId, item: NodeView, parent: NodeId)
    requires
        !tree.has(id),
        tree.has(parent),
    ensures
        tree.with_one_more(tree.grown(id, item, parent), id, item),
        tree.grown(id, item, parent).parent(id) == Some(parent),
        tree.grown(id, item, parent).data(parent) == tree.data(parent),
{
    assert(tree.grown(id, item, parent).nodes.dom() =~= tree.nodes.dom().insert(id));
}

/// The tree stays settled when a new window joins a group that gets room for it.
pub proof fn lemma_joined_settled(
    tree: TreeModel,
    id: NodeId,
    item: NodeView,
    group: NodeId,
    data: DataView,
    place: int,
)
    requires
        tree.settled(),
        !tree.has(id),
        tree.has(group),
        !(item.data is Group),
        tree.data(group) is Group,
        data is Group,
        data->sizes.len() == tree.data(group)->sizes.len() + 1,
        0 <= place,
        tree.grown(id, item, group).forest(),
        ({
            let roomy = tree.grown(id, item, group).with_data(group, data);
            roomy.forest() && roomy.at_sibling(id, place).forest()
        }),
    ensures
        ({
            let roomy = tree.grown(id, item, group).with_data(group, data);
            let after = roomy.at_sibling(id, place);
            &&& roomy.has(id)
            &&& after.settled()
            &&& after.has(id)
            &&& after.nodes[id].item == item
            &&& tree.grows_keys(after, item.key)
        }),
{
    let grown = tree.grown(id, item, group);
    let roomy = grown.with_data(group, data);
    let after = roomy.at_sibling(id, place);
    lemma_sound(tree);
    lemma_sound(after);
    assert(tree.has(group));
    assert(group != id);
    lemma_grown_balance(tree, id, item, group);
    lemma_grown_one_more(tree, id, item, group);
    assert(grown.has(group) && grown.has(id));
    lemma_data_balance(grown, group, data);
    assert(roomy.has(id));
    lemma_sibling_balance(roomy, id, place);
    assert(roomy.same_items(after)) by {
        lemma_at_sibling(roomy, id, place);
    }
    assert(data.room() == tree.data(group).room() + 1);
    assert forall|node: NodeId| #[trigger] after.has(node) implies after.excess(node) == 0 && (
    after.data(node) is Group ==> after.data(node)->sizes.len() >= 2) && grown.has(node)
        && after.key(node) == grown.key(node) by {
        assert(roomy.has(node));
        assert(grown.has(node));
        if node != id {
            assert(tree.has(node));
        }
    }
    assert forall|node: NodeId| #[trigger] after.has(node) && after.data(
        node,
    ) is Group implies after.data(node)->sizes.len() >= 2 by {}
    assert(after.has(id));
    lemma_one_more_key(tree, grown, id, item);
    assert(grown.keeps_keys(after));
    lemma_grows_keys(tree, grown, after, item.key);
}

/// Puts a new window into a group, with room at one place and the window at another.
fn join_group(
    tree: &mut Tree<TreeNode>,
    node: TreeNode,
    group: &NodeId,
    room: usize,
    place: usize,
) -> (id: NodeId)
    requires
        model(*old(tree)).settled(),
        model(*old(tree)).has(*group),
        model(*old(tree)).data(*group) is Group,
        !(node@.data is Group),
        room <= model(*old(tree)).data(*group)->sizes.len(),
    ensures
        !model(*old(tree)).has(id),
        model(*final(tree)) == model(*old(tree)).grown(id, node@, *group).with_data(
            *group,
            model(*old(tree)).data(*group).with_child(room as int),
        ).at_sibling(id, place as int),
        model(*final(tree)).settled(),
        model(*final(tree)).has(id),
        model(*final(tree)).nodes[id].item == node@,
        model(*old(tree)).grows_keys(model(*final(tree)), node@.key),
{
    let ghost before = model(*tree);
    let ghost item = node@;
    assert(before.forest()) by {
        lemma_sound(before);
    }
    let id: NodeId = insert_under(tree, node, group);
    let ghost grown = model(*tree);
    proof {
        lemma_grown_one_more(before, id, item, *group);
        assert(before.has(*group));
        assert(grown.has(*group));
    }
    match get_node_mut(tree, group) {
        Some(found) => {
            found.data.add_window(room);
        },
        None => {},
    }
    let ghost data = before.data(*group).with_child(room as int);
    let ghost roomy = model(*tree);
    proof {
        assert(roomy =~~= grown.with_data(*group, data));
        lemma_forest_with_data(grown, *group, data);
        assert(roomy.has(id));
    }
    make_nth_sibling(tree, &id, place);
    proof {
        lemma_joined_settled(before, id, item, *group, data, place as int);
    }
    id
}

/// The tree stays settled when a new window below a node joins a new group with it.
proof fn lemma_beside_settled(
    tree: TreeModel,
    grouped: TreeModel,
    id: NodeId,
    item: NodeView,
    old_id: NodeId,
    group: NodeId,
    group_item: NodeView,
    place: int,
)
    requires
        tree.settled(),
        !tree.has(id),
        tree.has(old_id),
        !(item.data is Group),
        !tree.grown(id, item, old_id).has(group),
        group_item.data is Group,
        group_item.data->sizes.len() == 2,
        tree.grown(id, item, old_id).forest(),
        tree.grown(id, item, old_id).with_one_more(grouped, group, group_item),
        tree.grown(id, item, old_id).connected() ==> tree.grown(id, item, old_id).regrouped(
            grouped,
            old_id,
            id,
            group,
        ),
        !tree.grown(id, item, old_id).below(old_id, id),
        grouped.forest(),
        grouped.at_sibling(id, place).forest(),
        0 <= place,
    ensures
        grouped.has(id),
        grouped.at_sibling(id, place).settled(),
        grouped.at_sibling(id, place).has(id),
        grouped.at_sibling(id, place).nodes[id].item == item,
        tree.grows_two(grouped.at_sibling(id, place), item.key, group_item.key),
{
    let grown = tree.grown(id, item, old_id);
    let after = grouped.at_sibling(id, place);
    lemma_sound(tree);
    lemma_sound(after);
    assert(tree.has(old_id));
    lemma_grown_balance(tree, id, item, old_id);
    lemma_grown_one_more(tree, id, item, old_id);
    assert(grown.has(id));
    assert(grouped.has(id));
    reveal(TreeModel::regrouped);
    lemma_sibling_balance(grouped, id, place);
    assert(grouped.same_items(after)) by {
        lemma_at_sibling(grouped, id, place);
    }
    assert forall|node: NodeId| #[trigger] after.has(node) implies grouped.has(node) && after.excess(
        node,
    ) == 0 && (after.data(node) is Group ==> after.data(node)->sizes.len() >= 2) && after.key(node)
        == grouped.key(node) by {
        assert(grouped.has(node));
        if node != group {
            assert(grown.has(node));
            if node != id {
                assert(tree.has(node));
            }
        }
    }
    assert forall|node: NodeId| #[trigger] after.has(node) && after.data(
        node,
    ) is Group implies after.data(node)->sizes.len() >= 2 by {}
    assert(after.has(id));
    lemma_one_more_key(tree, grown, id, item);
    lemma_one_more_key(grown, grouped, group, group_item);
    assert(grouped.keeps_keys(after));
    lemma_grows_keys(grown, grouped, after, group_item.key);
    lemma_grows_two(tree, grown, after, item.key, group_item.key);
}

/// Puts a new window into a new group with a node.
fn join_new_group(
    tree: &mut Tree<TreeNode>,
    node: TreeNode,
    old_id: &NodeId,
    direction: Direction,
    group_key: u64,
) -> (id: NodeId)
    requires
        model(*old(tree)).settled(),
        model(*old(tree)).has(*old_id),
        !(node@.data is Group),
    ensures
        !model(*old(tree)).has(id),
        model(*old(tree)).dropped_beside(
            model(*final(tree)),
            id,
            node@,
            *old_id,
            direction,
            group_key,
        ),
        model(*final(tree)).settled(),
        model(*final(tree)).has(id),
        model(*final(tree)).nodes[id].item == node@,
        model(*old(tree)).grows_two(model(*final(tree)), node@.key, group_key),
{
    let ghost before = model(*tree);
    let ghost item = node@;
    let ghost group_item = new_group_item(group_key, along(direction));
    assert(before.forest()) by {
        lemma_sound(before);
    }
    let id: NodeId = insert_under(tree, node, old_id);
    let ghost grown = model(*tree);
    proof {
        lemma_grown_one_more(before, id, item, *old_id);
        assert(before.has(*old_id));
        assert(grown.has(*old_id) && grown.has(id));
        lemma_parent_not_below(grown, id, *old_id);
    }
    let result: Option<NodeId> = new_group(
        tree,
        old_id,
        &id,
        orientation_along(direction),
        group_key,
    );
    let ghost grouped = model(*tree);
    let ghost group = result->0;
    assert(grouped.has(id)) by {
        assert(grown.has(id));
    }
    let place: usize = if leads(direction) {
        0
    } else {
        1
    };
    make_nth_sibling(tree, &id, place);
    proof {
        lemma_beside_settled(
            before,
            grouped,
            id,
            item,
            *old_id,
            group,
            group_item,
            place as int,
        );
        assert(!before.has(group) && group != id) by {
            assert(before.has(group) ==> grown.has(group));
            assert(grown.has(id));
        }
        assert(model(*tree) == grown.grouped(*old_id, id, group, group_item).at_sibling(
            id,
            far_place(direction),
        ));
    }
    id
}

/// Puts a new window at an edge of a group.
pub fn drop_at_edge(
    tree: &mut Tree<TreeNode>,
    node: TreeNode,
    group: &NodeId,
    direction: Direction,
    group_key: u64,
) -> (id: NodeId)
    requires
        model(*old(tree)).settled(),
        model(*old(tree)).has(*group),
        model(*old(tree)).data(*group) is Group,
        !(node@.data is Group),
    ensures
        !model(*old(tree)).has(id),
        model(*old(tree)).dropped_at_edge(
            model(*final(tree)),
            id,
            node@,
            *group,
            direction,
            group_key,
        ),
        model(*final(tree)).settled(),
        model(*final(tree)).has(id),
        model(*final(tree)).nodes[id].item == node@,
        model(*old(tree)).grows_two(model(*final(tree)), node@.key, group_key),
{
    let ghost before = model(*tree);
    let ghost item = node@;
    let (orientation, count): (Orientation, usize) = match get_node(tree, group) {
        Some(found) => (found.data.orientation(), found.data.len()),
        None => (Orientation::Horizontal, 0),
    };
    if orientation != orientation_along(direction) {
        let id: NodeId = join_new_group(tree, node, group, direction, group_key);
        proof {
            let group_item = new_group_item(group_key, along(direction));
            let outer = choose|outer: NodeId|
                !before.has(outer) && outer != id && model(*tree) == (#[trigger] before.grown(
                    id,
                    item,
                    *group,
                ).grouped(*group, id, outer, group_item)).at_sibling(id, far_place(direction));
            let grown = before.grown(id, item, *group);
            assert(model(*tree) == grown.grouped(*group, id, outer, group_item).at_sibling(
                id,
                far_place(direction),
            ));
        }
        id
    } else {
        let place: usize = if leads(direction) {
            0
        } else {
            count
        };
        let id: NodeId = join_group(tree, node, group, place, place);
        proof {
            lemma_grows_two(before, model(*tree), model(*tree), item.key, group_key);
        }
        id
    }
}

/// Puts a new window behind a child of a group.
pub fn drop_inside(tree: &mut Tree<TreeNode>, node: TreeNode, group: &NodeId, index: usize) -> (id: NodeId)
    requires
        model(*old(tree)).settled(),
        model(*old(tree)).has(*group),
        model(*old(tree)).data(*group) is Group,
        !(node@.data is Group),
    ensures
        !model(*old(tree)).has(id),
        model(*final(tree)) == model(*old(tree)).dropped_inside(id, node@, *group, index as int),
        model(*final(tree)).settled(),
        model(*final(tree)).has(id),
        model(*final(tree)).nodes[id].item == node@,
        model(*old(tree)).grows_keys(model(*final(tree)), node@.key),
{
    let count: usize = match get_node(tree, group) {
        Some(found) => found.data.len(),
        None => 0,
    };
    let place: usize = if index < count && index + 1 < count {
        index + 1
    } else {
        count
    };
    join_group(tree, node, group, place, place)
}

/// Puts a new window next to another one.
pub fn drop_beside(
    tree: &mut Tree<TreeNode>,
    node: TreeNode,
    window: &NodeId,
    direction: Direction,
    group_key: u64,
) -> (id: NodeId)
    requires
        model(*old(tree)).settled(),
        model(*old(tree)).has(*window),
        !(node@.data is Group),
    ensures
        !model(*old(tree)).has(id),
        model(*old(tree)).dropped_beside(
            model(*final(tree)),
            id,
            node@,
            *window,
            direction,
            group_key,
        ),
        model(*final(tree)).settled(),
        model(*final(tree)).has(id),
        model(*final(tree)).nodes[id].item == node@,
        model(*old(tree)).grows_two(model(*final(tree)), node@.key, group_key),
{
    join_new_group(tree, node, window, direction, group_key)
}

impl TreeModel {
    /// The tree after one node was cleared of what a drag left there. `all` says whether the
    /// drag is over: then placeholders go; else only those for a drop go, and windows do not
    /// come from anywhere any more.
    pub open spec fn swept_at(self, id: NodeId, all: bool) -> TreeModel {
        if !self.has(id) {
            self
        } else {
            match self.data(id) {
                DataView::Placeholder { type_, .. } => if all || type_ is DropZone {
                    self.unmapped(id)
                } else {
                    self
                },
                DataView::Group { .. } => self.with_data(id, self.data(id).with_pill(None)),
                DataView::Mapped { .. } => if all {
                    self
                } else {
                    self.with_data(id, self.data(id).with_minimize_rect(None))
                },
            }
        }
    }

    /// Whether a node is a placeholder for the window that is dragged.
    pub open spec fn is_grabbed(self, id: NodeId) -> bool {
        self.has(id) && (self.data(id) matches DataView::Placeholder { type_, .. }
            && type_ is GrabbedWindow)
    }

    /// Whether a node shows nothing of a drag: it is no placeholder, or, if the drag goes on,
    /// the one for the dragged window, and a group that does not show where to drop.
    pub open spec fn cleared_at(self, id: NodeId, all: bool) -> bool {
        match self.data(id) {
            DataView::Placeholder { type_, .. } => !all && type_ is GrabbedWindow,
            DataView::Group { pill_indicator, .. } => pill_indicator is None,
            DataView::Mapped { .. } => true,
        }
    }

    /// Whether no node shows anything of a drag.
    pub open spec fn undragged(self, all: bool) -> bool {
        forall|id: NodeId| #[trigger] self.has(id) ==> self.cleared_at(id, all)
    }

    /// Whether `after` has all windows of this tree, each where it was.
    pub open spec fn keeps_windows(self, after: TreeModel) -> bool {
        forall|id: NodeId| #[trigger]
            self.has(id) && self.data(id) is Mapped ==> after.has(id) && after.key(id) == self.key(
                id,
            ) && after.data(id).with_minimize_rect(None) == self.data(id).with_minimize_rect(None)
    }

    /// The tree after these nodes were cleared, one after the other.
    pub open spec fn swept(self, order: Seq<NodeId>, all: bool) -> TreeModel
        decreases order.len(),
    {
        if order.len() == 0 {
            self
        } else {
            self.swept(order.drop_last(), all).swept_at(order.last(), all)
        }
    }

    /// The key of the first of these nodes that turned out to be a placeholder for the window
    /// that is dragged.
    pub open spec fn grabbed_among(self, order: Seq<NodeId>) -> Option<u64>
        decreases order.len(),
    {
        if order.len() == 0 {
            None
        } else {
            let before = self.swept(order.drop_last(), false);
            match self.grabbed_among(order.drop_last()) {
                Some(key) => Some(key),
                None => if before.is_grabbed(order.last()) {
                    Some(before.key(order.last()))
                } else {
                    None
                },
            }
        }
    }
}

/// Removes a node and everything below it from a settled tree.
pub fn remove_node(tree: &mut Tree<TreeNode>, node: &NodeId)
    requires
        model(*old(tree)).settled(),
    ensures
        model(*final(tree)) == model(*old(tree)).unmapped(*node),
        model(*final(tree)).settled(),
        model(*old(tree)).keeps_keys(model(*final(tree))),
        model(*old(tree)).has(*node) ==> model(*old(tree)).keeps_leaves(model(*final(tree)), *node),
{
    let ghost shape = model(*tree);
    proof {
        lemma_sound(shape);
        if shape.has(*node) {
            match shape.parent(*node) {
                Some(group) => {
                    assert(shape.has(group));
                    assert(shape.excess(group) == 0);
                    assert(shape.children(group).contains(*node));
                    assert(shape.is_full_group(group));
                },
                None => {},
            }
        }
    }
    unmap_internal(tree, node);
}

/// Other data of the same sort in a node leave a tree settled.
pub proof fn lemma_alike_settled(tree: TreeModel, id: NodeId, data: DataView)
    requires
        tree.settled(),
        tree.has(id),
        data.room() == tree.data(id).room(),
        data is Group <==> tree.data(id) is Group,
    ensures
        tree.with_data(id, data).settled(),
        tree.keeps_keys(tree.with_data(id, data)),
{
    let after = tree.with_data(id, data);
    assert(after.nodes.dom() =~= tree.nodes.dom());
    lemma_same_rooms(tree, after);
}

/// Nothing is below a node of a settled tree that is no group.
pub proof fn lemma_below_leaf(tree: TreeModel, id: NodeId, leaf: NodeId)
    requires
        tree.settled(),
        tree.has(leaf),
        !(tree.data(leaf) is Group),
        tree.below(id, leaf),
    ensures
        id == leaf,
{
    lemma_sound(tree);
    assert(tree.excess(leaf) == 0);
    if id != leaf {
        lemma_below_has(tree, id, leaf);
        let child = tree.branch(id, leaf);
        lemma_branch(tree, id, leaf);
        assert(tree.has(child));
        assert(tree.children(leaf).contains(child));
    }
}

/// Clearing one more node leaves the windows and the nodes that were cleared.
proof fn lemma_swept_one(shape: TreeModel, now: TreeModel, after: TreeModel, order: Seq<NodeId>, i: int, all: bool)
    requires
        0 <= i < order.len(),
        shape.keeps_windows(now),
        now.swept_one(after, order[i], all),
        forall|j: int|
            0 <= j < i && now.has(#[trigger] order[j]) ==> now.cleared_at(order[j], all),
    ensures
        shape.keeps_windows(after),
        forall|j: int|
            0 <= j < i + 1 && after.has(#[trigger] order[j]) ==> after.cleared_at(order[j], all),
{
    assert forall|j: int| 0 <= j < i + 1 && after.has(#[trigger] order[j]) implies after.cleared_at(
        order[j],
        all,
    ) by {
        assert(now.has(order[j]));
    }
    assert forall|id: NodeId| #[trigger] shape.has(id) && shape.data(id) is Mapped implies after.has(
        id,
    ) && after.key(id) == shape.key(id) && after.data(id).with_minimize_rect(None) == shape.data(
        id,
    ).with_minimize_rect(None) by {
        assert(now.has(id));
    }
}

impl TreeModel {
    /// Whether `after` is this tree with one node cleared: the windows are where they were,
    /// and the other nodes show as much of a drag as before.
    spec fn swept_one(self, after: TreeModel, id: NodeId, all: bool) -> bool {
        &&& self.keeps_windows(after)
        &&& after.has(id) ==> after.cleared_at(id, all)
        &&& forall|node: NodeId| #[trigger]
            after.has(node) ==> self.has(node) && (self.cleared_at(node, all)
                ==> after.cleared_at(node, all))
    }
}

/// Clears a node of what a drag left there.
fn sweep_node(tree: &mut Tree<TreeNode>, id: &NodeId, all: bool)
    requires
        model(*old(tree)).settled(),
    ensures
        model(*final(tree)) == model(*old(tree)).swept_at(*id, all),
        model(*final(tree)).settled(),
        model(*old(tree)).keeps_keys(model(*final(tree))),
        model(*old(tree)).swept_one(model(*final(tree)), *id, all),
{
    let ghost shape = model(*tree);
    let remove: bool = match get_node(tree, id) {
        Some(node) => match &node.data {
            Data::Placeholder { type_, .. } => all || *type_ == PlaceholderType::DropZone,
            _ => false,
        },
        None => {
            return;
        },
    };
    if remove {
        remove_node(tree, id);
        proof {
            assert forall|node: NodeId| #[trigger] shape.has(node) && shape.data(
                node,
            ) is Mapped implies model(*tree).has(node) by {
                if shape.below(node, *id) {
                    lemma_below_leaf(shape, node, *id);
                }
            }
            lemma_below_self(shape, *id);
        }
        return;
    }
    proof {
        lemma_alike_settled(shape, *id, shape.data(*id).with_pill(None));
        lemma_alike_settled(shape, *id, shape.data(*id).with_minimize_rect(None));
        assert(shape =~~= shape.with_data(*id, shape.data(*id)));
    }
    match get_node_mut(tree, id) {
        Some(node) => {
            if node.data.is_group() {
                node.data.set_pill(None);
            } else if !all {
                node.data.set_minimize_rect(None);
            }
        },
        None => {},
    }
    assert(model(*tree) =~~= shape.swept_at(*id, all));
}

/// Clears a tree of what a drag left there. Returns the key of the placeholder for the window
/// that is still dragged.
pub fn clear_transient_tree_state(tree: &mut Tree<TreeNode>) -> (grabbed: Option<u64>)
    requires
        model(*old(tree)).settled(),
        model(*old(tree)).keyed(),
    ensures
        match model(*old(tree)).root {
            Some(root) => exists|order: Seq<NodeId>| #[trigger]
                visits(model(*old(tree)).nodes, seq![root], order) && model(*final(tree)) == model(
                    *old(tree),
                ).swept(order, false) && grabbed == model(*old(tree)).grabbed_among(order),
            None => model(*final(tree)) == model(*old(tree)) && grabbed is None,
        },
        model(*final(tree)).settled(),
        model(*old(tree)).keeps_keys(model(*final(tree))),
        model(*old(tree)).keeps_windows(model(*final(tree))),
        model(*final(tree)).undragged(false),
{
    let ghost shape = model(*tree);
    assert(shape.regular()) by {
        lemma_sound(shape);
    }
    let root: NodeId = match root_id(tree) {
        Some(root) => root,
        None => {
            proof {
                lemma_empty(shape);
            }
            return None;
        },
    };
    let order: Vec<NodeId> = all_nodes(tree, &root);
    let mut grabbed: Option<u64> = None;
    let mut i: usize = 0;
    assert(order@.take(0) =~= seq![]);
    while i < order.len()
        invariant
            i <= order@.len(),
            model(*tree) == shape.swept(order@.take(i as int), false),
            model(*tree).settled(),
            shape.keeps_keys(model(*tree)),
            shape.keeps_windows(model(*tree)),
            forall|j: int|
                0 <= j < i && model(*tree).has(#[trigger] order@[j]) ==> model(*tree).cleared_at(
                    order@[j],
                    false,
                ),
            grabbed == shape.grabbed_among(order@.take(i as int)),
        decreases order@.len() - i,
    {
        assert(order@.take(i as int + 1).drop_last() =~= order@.take(i as int));
        let ghost now = model(*tree);
        if grabbed.is_none() {
            match get_node(tree, &order[i]) {
                Some(node) => match &node.data {
                    Data::Placeholder { type_, .. } => {
                        if *type_ == PlaceholderType::GrabbedWindow {
                            grabbed = Some(node.key);
                        }
                    },
                    _ => {},
                },
                None => {},
            }
        }
        sweep_node(tree, &order[i], false);
        proof {
            lemma_swept_one(shape, now, model(*tree), order@, i as int, false);
        }
        assert forall|id: NodeId| #[trigger] model(*tree).has(id) implies shape.has(id) && model(
            *tree,
        ).key(id) == shape.key(id) by {
            assert(now.has(id));
        }
        i += 1;
    }
    assert(order@.take(order@.len() as int) =~= order@);
    assert(visits(shape.nodes, seq![root], order@) && model(*tree) == shape.swept(order@, false));
    assert forall|id: NodeId| #[trigger] model(*tree).has(id) implies model(*tree).cleared_at(
        id,
        false,
    ) by {
        assert(shape.has(id));
        let j = order@.index_of(id);
        assert(order@[j] == id);
    }
    grabbed
}

/// Clears a tree of all that a drag left there.
pub fn sweep_drag(tree: &mut Tree<TreeNode>)
    requires
        model(*old(tree)).settled(),
    ensures
        match model(*old(tree)).root {
            Some(root) => exists|order: Seq<NodeId>| #[trigger]
                visits(model(*old(tree)).nodes, seq![root], order) && model(*final(tree)) == model(
                    *old(tree),
                ).swept(order, true),
            None => model(*final(tree)) == model(*old(tree)),
        },
        model(*final(tree)).settled(),
        model(*old(tree)).keeps_keys(model(*final(tree))),
        model(*old(tree)).keeps_windows(model(*final(tree))),
        model(*final(tree)).undragged(true),
{
    let ghost shape = model(*tree);
    assert(shape.regular()) by {
        lemma_sound(shape);
    }
    let root: NodeId = match root_id(tree) {
        Some(root) => root,
        None => {
            proof {
                lemma_empty(shape);
            }
            return;
        },
    };
    let order: Vec<NodeId> = all_nodes(tree, &root);
    let mut i: usize = 0;
    assert(order@.take(0) =~= seq![]);
    while i < order.len()
        invariant
            i <= order@.len(),
            model(*tree) == shape.swept(order@.take(i as int), true),
            model(*tree).settled(),
            shape.keeps_keys(model(*tree)),
            shape.keeps_windows(model(*tree)),
            forall|j: int|
                0 <= j < i && model(*tree).has(#[trigger] order@[j]) ==> model(*tree).cleared_at(
                    order@[j],
                    true,
                ),
        decreases order@.len() - i,
    {
        assert(order@.take(i as int + 1).drop_last() =~= order@.take(i as int));
        let ghost now = model(*tree);
        sweep_node(tree, &order[i], true);
        proof {
            lemma_swept_one(shape, now, model(*tree), order@, i as int, true);
        }
        assert forall|id: NodeId| #[trigger] model(*tree).has(id) implies shape.has(id) && model(
            *tree,
        ).key(id) == shape.key(id) by {
            assert(now.has(id));
        }
        i += 1;
    }
    assert(order@.take(order@.len() as int) =~= order@);
    assert(visits(shape.nodes, seq![root], order@) && model(*tree) == shape.swept(order@, true));
    assert forall|id: NodeId| #[trigger] model(*tree).has(id) implies model(*tree).cleared_at(
        id,
        true,
    ) by {
        assert(shape.has(id));
        let j = order@.index_of(id);
        assert(order@[j] == id);
    }
}

/// Whether a drag left anything in a tree.
pub open spec fn left_by_drag(tree: TreeModel, order: Seq<NodeId>) -> bool {
    exists|i: int|
        0 <= i < order.len() && match tree.data(#[trigger] order[i]) {
            DataView::Placeholder { .. } => true,
            DataView::Group { pill_indicator, .. } => pill_indicator is Some,
            DataView::Mapped { .. } => false,
        }
}

/// Whether a drag left a placeholder or an indicator in a tree.
pub fn has_drag_state(tree: &Tree<TreeNode>) -> (yes: bool)
    requires
        model(*tree).settled(),
    ensures
        match model(*tree).root {
            Some(root) => exists|order: Seq<NodeId>| #[trigger]
                visits(model(*tree).nodes, seq![root], order) && yes == left_by_drag(
                    model(*tree),
                    order,
                ),
            None => !yes,
        },
{
    let ghost shape = model(*tree);
    assert(shape.regular()) by {
        lemma_sound(shape);
    }
    let root: NodeId = match root_id(tree) {
        Some(root) => root,
        None => {
            return false;
        },
    };
    let order: Vec<NodeId> = all_nodes(tree, &root);
    let mut found: bool = false;
    let mut i: usize = 0;
    while i < order.len()
        invariant
            i <= order@.len(),
            shape == model(*tree),
            forall|k: int| 0 <= k < order@.len() ==> shape.has(#[trigger] order@[k]),
            found == left_by_drag(shape, order@.take(i as int)),
        decreases order@.len() - i,
    {
        let ghost before = order@.take(i as int);
        let ghost more = order@.take(i as int + 1);
        assert(shape.has(order@[i as int]));
        let left: bool = match get_node(tree, &order[i]) {
            Some(node) => match &node.data {
                Data::Placeholder { .. } => true,
                Data::Group { pill_indicator, .. } => pill_indicator.is_some(),
                Data::Mapped { .. } => false,
            },
            None => false,
        };
        proof {
            assert(more[i as int] == order@[i as int]);
            if found {
                let k = choose|k: int|
                    0 <= k < before.len() && match shape.data(#[trigger] before[k]) {
                        DataView::Placeholder { .. } => true,
                        DataView::Group { pill_indicator, .. } => pill_indicator is Some,
                        DataView::Mapped { .. } => false,
                    };
                assert(more[k] == before[k]);
            }
            if left_by_drag(shape, more) {
                let k = choose|k: int|
                    0 <= k < more.len() && match shape.data(#[trigger] more[k]) {
                        DataView::Placeholder { .. } => true,
                        DataView::Group { pill_indicator, .. } => pill_indicator is Some,
                        DataView::Mapped { .. } => false,
                    };
                if k < before.len() {
                    assert(before[k] == more[k]);
                }
            }
        }
        found = found || left;
        i += 1;
    }
    assert(order@.take(order@.len() as int) =~= order@);
    assert(visits(shape.nodes, seq![root], order@) && found == left_by_drag(shape, order@));
    found
}

/// Puts other contents without children in a node that has none.
pub fn set_leaf(tree: &mut Tree<TreeNode>, id: &NodeId, data: Data)
    requires
        model(*old(tree)).settled(),
        model(*old(tree)).has(*id),
        !(model(*old(tree)).data(*id) is Group),
        !(data@ is Group),
    ensures
        model(*final(tree)) == model(*old(tree)).with_data(*id, data@),
        model(*final(tree)).settled(),
        model(*old(tree)).keeps_keys(model(*final(tree))),
{
    let ghost shape = model(*tree);
    let ghost view = data@;
    match get_node_mut(tree, id) {
        Some(node) => {
            node.data = data;
        },
        None => {},
    }
    proof {
        assert(model(*tree) =~~= shape.with_data(*id, view));
        lemma_alike_settled(shape, *id, view);
    }
}

} // verus!
