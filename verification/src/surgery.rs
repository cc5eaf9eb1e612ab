//! Changes to the shape of a tiling tree: grouping nodes, and adding and removing windows.

use vstd::prelude::*;

use id_tree::{NodeId, Tree};

use crate::actions::Direction;
use crate::balance::{
    lemma_data_balance, lemma_group_balance, lemma_move_balance, lemma_prune_balance, lemma_regular,
    lemma_rooted_balance, lemma_sibling_balance, lemma_sound, lemma_without_id, one_if,
};
use crate::classic::lemma_below_root;
use crate::data::{Data, DataView, Window};
use crate::geometry::{Orientation, Rectangle, Size};
use crate::lineage::{
    lemma_ancestor_rank, lemma_at_sibling, lemma_below_cases, lemma_below_has, lemma_below_parent,
    lemma_below_self, lemma_below_trans, lemma_moved_to_parent, lemma_new_node,
    lemma_parent_not_below, lemma_same_ancestors, lemma_top_not_below,
};
use crate::tree::{
    child_ids, copy_id, get_node, get_node_mut, insert_root, insert_under, make_nth_sibling, model,
    move_to_parent, move_to_root, parent_id, remove_orphaning, remove_subtree, root_id, same_id,
    without_id, NodeView, TreeModel, TreeNode,
};

verus! {

/// The area of a node that was not laid out yet.
pub open spec fn initial_geometry() -> Rectangle {
    Rectangle::of(0, 0, 100, 100)
}

impl TreeModel {
    /// Whether every node but the root has a parent.
    pub open spec fn connected(self) -> bool {
        forall|id: NodeId| #[trigger]
            self.has(id) && self.parent(id) is None ==> self.root == Some(id)
    }

    /// Whether the node is a group with room for each of its children, and at least two of
    /// them.
    pub open spec fn is_full_group(self, id: NodeId) -> bool {
        &&& self.data(id) is Group
        &&& self.data(id)->sizes.len() == self.children(id).len()
        &&& self.children(id).len() >= 2
    }

    /// The tree with the node `group` where `old_id` is, and `old_id` as its only child.
    pub open spec fn enclosed(self, old_id: NodeId, group: NodeId, item: NodeView) -> TreeModel {
        match self.parent(old_id) {
            Some(parent) => self.grown(group, item, parent).moved_to_parent(
                old_id,
                group,
            ).at_sibling(group, self.children(parent).index_of(old_id)),
            None => self.rooted(group, item).moved_to_parent(old_id, group),
        }
    }

    /// The tree with the new node `group` where `old_id` is, and `old_id` and `new_id` as its
    /// children.
    #[verifier::opaque]
    pub open spec fn grouped(
        self,
        old_id: NodeId,
        new_id: NodeId,
        group: NodeId,
        item: NodeView,
    ) -> TreeModel {
        self.enclosed(old_id, group, item).moved_to_parent(new_id, group)
    }

    /// Whether `after` has the nodes of this tree with their contents, and the new node `id`
    /// besides.
    pub open spec fn with_one_more(self, after: TreeModel, id: NodeId, item: NodeView) -> bool {
        &&& after.nodes.dom() == self.nodes.dom().insert(id)
        &&& after.nodes[id].item == item
        &&& forall|node: NodeId| #[trigger]
            self.has(node) ==> after.nodes[node].item == self.nodes[node].item
    }

    /// The tree without `id` and everything below it. The group that it was in gives its room
    /// to the others; if only one other is left, that takes the place of the group.
    pub open spec fn unmapped(self, id: NodeId) -> TreeModel {
        if !self.has(id) {
            self
        } else {
            let rest = self.pruned(id);
            match self.parent(id) {
                None => rest,
                Some(group) => if self.data(group)->sizes.len() > 2 {
                    rest.with_data(
                        group,
                        self.data(group).without_child(self.children(group).index_of(id)),
                    )
                } else {
                    rest.dissolved(group)
                },
            }
        }
    }

    /// The tree with the first child of `group` in the place of the group.
    pub open spec fn dissolved(self, group: NodeId) -> TreeModel {
        let child = self.children(group)[0];
        let rest = self.orphaned(group);
        match self.parent(group) {
            None => rest.moved_to_root(child),
            Some(parent) => rest.moved_to_parent(child, parent).at_sibling(
                child,
                self.children(parent).index_of(group),
            ),
        }
    }
}

/// The place of `id` in `ids`.
pub(crate) fn position_of(ids: &Vec<NodeId>, id: &NodeId) -> (position: Option<usize>)
    ensures
        match position {
            Some(i) => i < ids@.len() && ids@[i as int] == *id && ids@.contains(*id) && (
            ids@.no_duplicates() ==> i == ids@.index_of(*id)),
            None => !ids@.contains(*id),
        },
{
    let mut i: usize = 0;
    while i < ids.len()
        invariant
            i <= ids@.len(),
            forall|k: int| 0 <= k < i ==> ids@[k] != *id,
        decreases ids@.len() - i,
    {
        if same_id(&ids[i], id) {
            return Some(i);
        }
        i += 1;
    }
    None
}

/// A node that is new in the tree, put next to `old_id` or above everything, is not below it,
/// and only the root can be above it.
pub proof fn lemma_enclosed(tree: TreeModel, old_id: NodeId, new_id: NodeId, group: NodeId, item: NodeView)
    requires
        tree.forest(),
        tree.has(old_id),
        tree.has(new_id),
        old_id != new_id,
        !tree.has(group),
        tree.below(old_id, new_id) == (tree.root == Some(new_id)),
        ({
            let opened = match tree.parent(old_id) {
                Some(parent) => tree.grown(group, item, parent),
                None => tree.rooted(group, item),
            };
            opened.forest()
        }),
        tree.enclosed(old_id, group, item).forest(),
    ensures
        ({
            let opened = match tree.parent(old_id) {
                Some(parent) => tree.grown(group, item, parent),
                None => tree.rooted(group, item),
            };
            let closed = tree.enclosed(old_id, group, item);
            &&& opened.has(old_id)
            &&& opened.has(group)
            &&& !opened.below(group, old_id)
            &&& closed.has(group)
            &&& closed.has(new_id)
            &&& closed.below(group, new_id) == (closed.root == Some(new_id))
            &&& closed.below(group, new_id) ==> tree.below(old_id, new_id)
            &&& tree.parent(old_id) is Some ==> tree.children(tree.parent(old_id)->0).contains(
                old_id,
            )
        }),
{
    let opened = match tree.parent(old_id) {
        Some(parent) => tree.grown(group, item, parent),
        None => tree.rooted(group, item),
    };
    let closed = tree.enclosed(old_id, group, item);
    assert(tree.has(old_id));
    match tree.parent(old_id) {
        None => {
            assert(opened.parent(group) is None);
            if opened.below(group, old_id) {
                lemma_top_not_below(opened, group, old_id);
            }
            assert(closed.has(group) && closed.parent(group) is None);
            if closed.below(group, new_id) {
                lemma_top_not_below(closed, group, new_id);
            }
        },
        Some(parent) => {
            assert(opened.has(old_id) && opened.parent(old_id) == Some(parent));
            assert(opened.has(group) && opened.parent(group) == Some(parent));
            if opened.below(group, old_id) {
                lemma_below_cases(opened, group, old_id);
                lemma_parent_not_below(opened, old_id, parent);
            }
            assert(closed.has(group) && closed.parent(group) == Some(parent));
            assert(closed.has(old_id) && closed.parent(old_id) == Some(group));
            if closed.below(group, new_id) {
                lemma_below_cases(closed, group, new_id);
                assert(closed.below(parent, new_id));
                lemma_parent_not_below(closed, old_id, group);
                lemma_parent_not_below(closed, group, parent);
                assert(!closed.below(parent, group));
                if closed.below(parent, old_id) {
                    lemma_below_trans(closed, parent, old_id, group);
                }
                // Above `parent` nothing changed.
                let steps = choose|steps: nat| #[trigger]
                    closed.ancestor(parent, steps) == Some(new_id);
                assert forall|node: NodeId| node != group && closed.has(node)
                    implies #[trigger] tree.has(node) && (node != old_id ==> tree.parent(node)
                    == closed.parent(node)) by {}
                lemma_same_above(closed, tree, parent, steps, group, old_id);
                assert(tree.ancestor(parent, steps) == Some(new_id));
                assert(tree.below(parent, new_id));
                lemma_below_parent(tree, old_id, new_id);
            }
            if closed.root == Some(new_id) {
                lemma_below_cases(tree, old_id, new_id);
                lemma_parent_not_below(tree, old_id, parent);
                assert(!tree.below(parent, group)) by {
                    if tree.below(parent, group) {
                        lemma_below_has(tree, parent, group);
                    }
                }
                let steps = choose|steps: nat| #[trigger]
                    tree.ancestor(parent, steps) == Some(new_id);
                assert forall|node: NodeId| node != group && tree.has(node)
                    implies #[trigger] closed.has(node) && (node != old_id ==> closed.parent(node)
                    == tree.parent(node)) by {}
                lemma_same_above(tree, closed, parent, steps, group, old_id);
                assert(closed.below(parent, new_id));
                lemma_below_parent(closed, group, new_id);
            }
        },
    }
}

/// Two trees that differ in the parents of two nodes have the same ancestors of a node that is
/// below neither.
proof fn lemma_same_above(
    first: TreeModel,
    second: TreeModel,
    id: NodeId,
    steps: nat,
    one: NodeId,
    other: NodeId,
)
    requires
        first.forest(),
        first.has(id),
        !first.below(id, one),
        !first.below(id, other),
        forall|node: NodeId|
            node != one && first.has(node) ==> #[trigger] second.has(node) && (node != other
                ==> second.parent(node) == first.parent(node)),
    ensures
        first.ancestor(id, steps) == second.ancestor(id, steps),
{
    let rank = choose|rank: Map<NodeId, nat>| first.ranked(rank);
    assert forall|k: nat| k < steps implies match #[trigger] first.ancestor(id, k) {
        Some(node) => first.has(node) == second.has(node) && (first.has(node) ==> first.parent(
            node,
        ) == second.parent(node)),
        None => true,
    } by {
        lemma_ancestor_rank(first, rank, id, k);
        match first.ancestor(id, k) {
            Some(node) => {
                assert(first.below(id, node));
            },
            None => {},
        }
    }
    lemma_same_ancestors(first, second, id, steps);
}

impl TreeModel {
    /// Whether `closed`, which has the new group `group` around `old_id`, lets `new_id` join it.
    pub open spec fn groupable(
        self,
        closed: TreeModel,
        old_id: NodeId,
        new_id: NodeId,
        group: NodeId,
        item: NodeView,
    ) -> bool {
        let after = self.grouped(old_id, new_id, group, item);
        &&& closed.has(group)
        &&& closed.has(new_id)
        &&& closed.below(group, new_id) == (closed.root == Some(new_id))
        &&& self.with_one_more(after, group, item)
        &&& after.parent(new_id) == Some(group)
        &&& self.connected() ==> self.regrouped(after, old_id, new_id, group)
    }
}

/// Once there is a group around one node, another one can join it.
proof fn lemma_groupable(
    tree: TreeModel,
    old_id: NodeId,
    new_id: NodeId,
    group: NodeId,
    item: NodeView,
)
    requires
        tree.forest(),
        tree.has(old_id),
        tree.has(new_id),
        old_id != new_id,
        !tree.has(group),
        tree.below(old_id, new_id) == (tree.root == Some(new_id)),
        item.data.room() == 2,
        ({
            let opened = match tree.parent(old_id) {
                Some(parent) => tree.grown(group, item, parent),
                None => tree.rooted(group, item),
            };
            opened.forest()
        }),
        (match tree.parent(old_id) {
            Some(parent) => tree.grown(group, item, parent).moved_to_parent(
                old_id,
                group,
            ).forest(),
            None => true,
        }),
        tree.enclosed(old_id, group, item).forest(),
    ensures
        tree.groupable(tree.enclosed(old_id, group, item), old_id, new_id, group, item),
{
    if tree.connected() {
        lemma_group_balance(tree, old_id, new_id, group, item);
    }
    lemma_enclosed(tree, old_id, new_id, group, item);
    lemma_grouped_has(tree, old_id, new_id, group, item);
}

/// Puts a new group under the parent of `old_id`, with `old_id` as its only child.
fn enclose_below(
    tree: &mut Tree<TreeNode>,
    parent: &NodeId,
    old_id: &NodeId,
    new_id: &NodeId,
    node: TreeNode,
) -> (group: NodeId)
    requires
        model(*old(tree)).forest(),
        model(*old(tree)).has(*old_id),
        model(*old(tree)).has(*new_id),
        model(*old(tree)).parent(*old_id) == Some(*parent),
        *old_id != *new_id,
        model(*old(tree)).below(*old_id, *new_id) == (model(*old(tree)).root == Some(*new_id)),
        node@.data.room() == 2,
    ensures
        !model(*old(tree)).has(group),
        model(*final(tree)) == model(*old(tree)).enclosed(*old_id, group, node@),
        model(*final(tree)).forest(),
        model(*old(tree)).groupable(model(*final(tree)), *old_id, *new_id, group, node@),
{
    let ghost before = model(*tree);
    let ghost item = node@;
    assert(before.has(*old_id));
    let siblings: Vec<NodeId> = child_ids(tree, parent);
    let position: usize = match position_of(&siblings, old_id) {
        Some(position) => position,
        None => 0,
    };
    let group: NodeId = insert_under(tree, node, parent);
    let ghost opened = model(*tree);
    assert(opened.has(*old_id) && opened.has(group) && !opened.below(group, *old_id)) by {
        assert(opened.parent(*old_id) == Some(*parent));
        assert(opened.parent(group) == Some(*parent));
        lemma_parent_not_below(opened, *old_id, *parent);
        if opened.below(group, *old_id) {
            lemma_below_cases(opened, group, *old_id);
        }
    }
    move_to_parent(tree, old_id, &group);
    let ghost moved = model(*tree);
    assert(moved.has(group)) by {
        lemma_moved_to_parent(opened, *old_id, group);
    }
    make_nth_sibling(tree, &group, position);
    proof {
        lemma_groupable(before, *old_id, *new_id, group, item);
    }
    group
}

/// Puts a new group above the root `old_id`.
fn enclose_root(tree: &mut Tree<TreeNode>, old_id: &NodeId, new_id: &NodeId, node: TreeNode) -> (group:
    NodeId)
    requires
        model(*old(tree)).forest(),
        model(*old(tree)).has(*old_id),
        model(*old(tree)).has(*new_id),
        model(*old(tree)).parent(*old_id) is None,
        *old_id != *new_id,
        model(*old(tree)).below(*old_id, *new_id) == (model(*old(tree)).root == Some(*new_id)),
        node@.data.room() == 2,
    ensures
        !model(*old(tree)).has(group),
        model(*final(tree)) == model(*old(tree)).enclosed(*old_id, group, node@),
        model(*final(tree)).forest(),
        model(*old(tree)).groupable(model(*final(tree)), *old_id, *new_id, group, node@),
{
    let ghost before = model(*tree);
    let ghost item = node@;
    let group: NodeId = insert_root(tree, node);
    let ghost opened = model(*tree);
    assert(opened.has(*old_id) && opened.has(group) && !opened.below(group, *old_id)) by {
        if opened.below(group, *old_id) {
            lemma_top_not_below(opened, group, *old_id);
        }
    }
    move_to_parent(tree, old_id, &group);
    proof {
        lemma_groupable(before, *old_id, *new_id, group, item);
    }
    group
}

/// Puts a new group where `old_id` is, with `old_id` and `new_id` as its children. Fails if the
/// tree does not have `old_id`.
pub fn new_group(
    tree: &mut Tree<TreeNode>,
    old_id: &NodeId,
    new_id: &NodeId,
    orientation: Orientation,
    key: u64,
) -> (result: Option<NodeId>)
    requires
        model(*old(tree)).forest(),
        model(*old(tree)).has(*new_id),
        *old_id != *new_id,
        model(*old(tree)).below(*old_id, *new_id) == (model(*old(tree)).root == Some(*new_id)),
    ensures
        match result {
            Some(group) => model(*old(tree)).has(*old_id) && !model(*old(tree)).has(group)
                && model(*final(tree)) == model(*old(tree)).grouped(
                *old_id,
                *new_id,
                group,
                new_group_item(key, orientation),
            ) && model(*old(tree)).with_one_more(
                model(*final(tree)),
                group,
                new_group_item(key, orientation),
            ) && model(*final(tree)).parent(*new_id) == Some(group) && (model(
                *old(tree),
            ).connected() ==> model(*old(tree)).regrouped(
                model(*final(tree)),
                *old_id,
                *new_id,
                group,
            )),
            None => !model(*old(tree)).has(*old_id) && model(*final(tree)) == model(*old(tree)),
        },
        model(*final(tree)).forest(),
{
    if get_node(tree, old_id).is_none() {
        return None;
    }
    let node = TreeNode {
        key,
        data: Data::new_group(orientation, Rectangle::new(0, 0, 100, 100)),
    };
    let group: NodeId = match parent_id(tree, old_id) {
        Some(parent) => enclose_below(tree, &parent, old_id, new_id, node),
        None => enclose_root(tree, old_id, new_id, node),
    };
    move_to_parent(tree, new_id, &group);
    proof {
        reveal(TreeModel::grouped);
    }
    Some(group)
}

/// What is left of the parent and the children of a node when another node was cut off.
proof fn lemma_pruned(tree: TreeModel, id: NodeId, group: NodeId)
    requires
        tree.forest(),
        tree.has(id),
        tree.parent(id) == Some(group),
        tree.pruned(id).forest(),
    ensures
        ({
            let rest = tree.pruned(id);
            &&& rest.has(group)
            &&& !rest.has(id)
            &&& rest.data(group) == tree.data(group)
            &&& rest.parent(group) == tree.parent(group)
            &&& rest.children(group) == without_id(tree.children(group), id)
            &&& tree.parent(group) matches Some(parent) ==> rest.has(parent) && rest.children(
                parent,
            ) == tree.children(parent) && parent != group
            &&& tree.children(group).contains(id)
            &&& rest.root == if tree.root == Some(id) {
                None::<NodeId>
            } else {
                tree.root
            }
        }),
{
    lemma_parent_not_below(tree, id, group);
    lemma_below_self(tree, id);
    match tree.parent(group) {
        Some(parent) => {
            lemma_parent_not_below(tree, group, parent);
            if tree.below(parent, id) {
                lemma_below_trans(tree, group, parent, id);
            }
        },
        None => {},
    }
}

impl TreeModel {
    /// Whether every node of `after` is a node of this tree, with the same key.
    pub open spec fn keeps_keys(self, after: TreeModel) -> bool {
        forall|id: NodeId| #[trigger]
            after.has(id) ==> self.has(id) && after.key(id) == self.key(id)
    }
}

impl TreeModel {
    /// Whether `after` has every node of this tree that is no group and not at or below `id`,
    /// and nodes hold what they held before; only the extents of groups may differ.
    pub open spec fn keeps_leaves(self, after: TreeModel, id: NodeId) -> bool {
        &&& forall|node: NodeId| #[trigger]
            self.has(node) && !(self.data(node) is Group) && !self.below(node, id) ==> after.has(
                node,
            )
        &&& forall|node: NodeId| #[trigger]
            after.has(node) ==> self.has(node) && !self.below(node, id) && after.key(node)
                == self.key(node) && match self.data(node) {
                DataView::Group { orientation, last_geometry, pill_indicator, .. } => {
                    &&& after.data(node) is Group
                    &&& after.data(node)->Group_orientation == orientation
                    &&& after.data(node)->Group_last_geometry == last_geometry
                    &&& after.data(node)->pill_indicator == pill_indicator
                },
                _ => after.data(node) == self.data(node),
            }
    }
}

/// A tree without some of its nodes has no new keys.
pub proof fn lemma_keeps_keys(tree: TreeModel, after: TreeModel)
    requires
        tree.keeps_keys(after),
    ensures
        tree.keyed() ==> after.keyed(),
        forall|key: u64| #[trigger] after.has_key(key) ==> tree.has_key(key),
{
    if tree.keyed() {
        assert forall|first: NodeId, second: NodeId|
            #![trigger after.key(first), after.key(second)]
            after.has(first) && after.has(second) && after.key(first) == after.key(
                second,
            ) implies first == second by {
            assert(tree.key(first) == tree.key(second));
        }
    }
    assert forall|key: u64| #[trigger] after.has_key(key) implies tree.has_key(key) by {
        let id = choose|id: NodeId| after.has(id) && #[trigger] after.key(id) == key;
        assert(tree.key(id) == key);
    }
}

impl TreeModel {
    /// Whether `after` has no keys but those of this tree and perhaps `key`, and no key twice
    /// if this tree has none twice and `key` is new.
    #[verifier::opaque]
    pub open spec fn grows_keys(self, after: TreeModel, key: u64) -> bool {
        &&& self.keyed() && !self.has_key(key) ==> after.keyed()
        &&& forall|k: u64| #[trigger] after.has_key(k) ==> self.has_key(k) || k == key
    }
}

/// A new node and the loss of others, one after the other.
pub proof fn lemma_grows_keys(first: TreeModel, second: TreeModel, third: TreeModel, key: u64)
    requires
        first.keeps_keys(second) && second.grows_keys(third, key) || first.grows_keys(second, key)
            && second.keeps_keys(third) || first.keeps_keys(second) && second.keeps_keys(third),
    ensures
        first.grows_keys(third, key),
{
    reveal(TreeModel::grows_keys);
    if first.keeps_keys(second) {
        lemma_keeps_keys(first, second);
    }
    if second.keeps_keys(third) {
        lemma_keeps_keys(second, third);
    }
}

/// One new node brings one new key.
pub proof fn lemma_one_more_key(tree: TreeModel, after: TreeModel, id: NodeId, item: NodeView)
    requires
        tree.with_one_more(after, id, item),
        !tree.has(id),
    ensures
        tree.grows_keys(after, item.key),
{
    reveal(TreeModel::grows_keys);
    assert forall|node: NodeId| #[trigger] after.has(node) implies (tree.has(node) && after.key(node)
        == tree.key(node)) || (node == id && after.key(node) == item.key) by {
        assert(after.nodes.dom().contains(node));
        if node != id {
            assert(tree.has(node));
        }
    }
    if tree.keyed() && !tree.has_key(item.key) {
        assert forall|first: NodeId, second: NodeId|
            #![trigger after.key(first), after.key(second)]
            after.has(first) && after.has(second) && after.key(first) == after.key(
                second,
            ) implies first == second by {
            if first != id && second != id {
                assert(tree.key(first) == tree.key(second));
            } else if first != id {
                assert(tree.key(first) == item.key);
            } else if second != id {
                assert(tree.key(second) == item.key);
            }
        }
    }
    assert forall|k: u64| #[trigger] after.has_key(k) implies tree.has_key(k) || k == item.key by {
        let node = choose|node: NodeId| after.has(node) && #[trigger] after.key(node) == k;
        if node != id {
            assert(tree.key(node) == k);
        }
    }
}

/// Taking a branch away leaves the keys of the other nodes.
proof fn lemma_unmapped_keys(tree: TreeModel, id: NodeId)
    requires
        tree.settled(),
        tree.has(id),
        tree.pruned(id).forest(),
        (match tree.parent(id) {
            Some(group) => tree.pruned(id).has(group) && (tree.data(group)->sizes.len() <= 2
                ==> tree.pruned(id).children(group).len() > 0 && tree.pruned(id).has(
                tree.pruned(id).children(group)[0],
            ) && tree.pruned(id).children(group)[0] != group && (match tree.pruned(id).parent(
                group,
            ) {
                Some(outer) => tree.pruned(id).has(outer) && outer != group && outer
                    != tree.pruned(id).children(group)[0] && tree.pruned(id).orphaned(
                    group,
                ).forest() && tree.pruned(id).orphaned(group).moved_to_parent(
                    tree.pruned(id).children(group)[0],
                    outer,
                ).forest(),
                None => true,
            })),
            None => true,
        }),
    ensures
        tree.keeps_keys(tree.unmapped(id)),
        tree.keeps_leaves(tree.unmapped(id), id),
{
    let rest = tree.pruned(id);
    let after = tree.unmapped(id);
    assert(tree.forest()) by {
        lemma_sound(tree);
    }
    lemma_prune_balance(tree, id);
    assert(tree.keeps_keys(rest));
    assert(match tree.parent(id) {
        Some(group) => tree.data(group) is Group,
        None => true,
    }) by {
        lemma_sound(tree);
        assert(tree.has(id));
        if tree.parent(id) is Some {
            assert(tree.children(tree.parent(id)->0).contains(id));
            assert(tree.has(tree.parent(id)->0));
            assert(tree.excess(tree.parent(id)->0) == 0);
        }
    }
    match tree.parent(id) {
        None => {},
        Some(group) => {
            if tree.data(group)->sizes.len() > 2 {
                assert forall|node: NodeId| #[trigger] after.has(node) implies tree.has(node)
                    && after.key(node) == tree.key(node) by {
                    assert(rest.has(node));
                }
                assert forall|node: NodeId| #[trigger]
                    tree.has(node) && !(tree.data(node) is Group) && !tree.below(
                        node,
                        id,
                    ) implies after.has(node) by {
                    assert(rest.has(node));
                }
            } else {
                let child = rest.children(group)[0];
                let cut = rest.orphaned(group);
                lemma_orphaned_balance(rest, group);
                assert(rest.keeps_keys(cut));
                match rest.parent(group) {
                    None => {
                        assert forall|node: NodeId| #[trigger] after.has(node) implies tree.has(
                            node,
                        ) && after.key(node) == tree.key(node) by {
                            assert(cut.has(child));
                            assert(cut.has(node));
                            assert(rest.has(node));
                        }
                        assert forall|node: NodeId| #[trigger]
                            tree.has(node) && !(tree.data(node) is Group) && !tree.below(
                                node,
                                id,
                            ) implies after.has(node) by {
                            assert(rest.has(node));
                            assert(cut.has(node));
                        }
                    },
                    Some(outer) => {
                        let moved = cut.moved_to_parent(child, outer);
                        assert(cut.has(child) && cut.has(outer));
                        lemma_moved_to_parent(cut, child, outer);
                        assert(moved.has(child));
                        lemma_at_sibling(moved, child, rest.children(outer).index_of(group));
                        assert forall|node: NodeId| #[trigger] after.has(node) implies tree.has(
                            node,
                        ) && after.key(node) == tree.key(node) by {
                            assert(moved.has(node));
                            assert(cut.has(node));
                            assert(rest.has(node));
                        }
                        assert forall|node: NodeId| #[trigger]
                            tree.has(node) && !(tree.data(node) is Group) && !tree.below(
                                node,
                                id,
                            ) implies after.has(node) by {
                            assert(rest.has(node));
                            assert(cut.has(node));
                            assert(moved.has(node));
                        }
                    },
                }
            }
        },
    }
}

/// Taking a group away takes a child from its parent.
proof fn lemma_orphaned_balance(tree: TreeModel, group: NodeId)
    requires
        tree.forest(),
        tree.has(group),
    ensures
        forall|node: NodeId| #[trigger]
            tree.orphaned(group).has(node) == (tree.has(node) && node != group),
        forall|node: NodeId| #[trigger]
            tree.orphaned(group).has(node) ==> tree.orphaned(group).nodes[node].item
                == tree.nodes[node].item && tree.orphaned(group).parent(node) == (if tree.parent(
                node,
            ) == Some(group) {
                None
            } else {
                tree.parent(node)
            }) && tree.orphaned(group).excess(node) == tree.excess(node) - one_if(
                tree.parent(group) == Some(node),
            ),
{
    let after = tree.orphaned(group);
    let cut = tree.detached(group);
    assert(tree.has(group));
    match tree.parent(group) {
        Some(parent) => {
            lemma_without_id(tree.children(parent), group);
            assert(tree.children(parent).contains(group));
        },
        None => {},
    }
    assert forall|node: NodeId| #[trigger] after.has(node) == (tree.has(node) && node != group) by {
        assert(cut.has(node) == tree.has(node));
    }
}

/// The tree stays settled when the last child of a group takes its place.
proof fn lemma_dissolved_settled(tree: TreeModel, group: NodeId)
    requires
        tree.forest(),
        tree.connected(),
        tree.has(group),
        tree.children(group).len() == 1,
        tree.groups_of(2),
        forall|node: NodeId| #[trigger] tree.has(node) && node != group ==> tree.excess(node) == 0,
        tree.orphaned(group).forest(),
        tree.dissolved(group).forest(),
        ({
            let child = tree.children(group)[0];
            match tree.parent(group) {
                Some(outer) => !tree.orphaned(group).below(outer, child) && tree.orphaned(
                    group,
                ).moved_to_parent(child, outer).forest(),
                None => true,
            }
        }),
    ensures
        tree.dissolved(group).settled(),
{
    let child = tree.children(group)[0];
    let rest = tree.orphaned(group);
    let after = tree.dissolved(group);
    lemma_orphaned_balance(tree, group);
    lemma_sound(after);
    assert(tree.has(child) && tree.parent(child) == Some(group));
    lemma_parent_not_below(tree, child, group);
    assert forall|node: NodeId| #[trigger] tree.has(node) && tree.parent(node) == Some(
        group,
    ) implies node == child by {
        assert(tree.children(group).contains(node));
    }
    assert(rest.has(child) && rest.parent(child) is None);
    match tree.parent(group) {
        None => {
            assert(tree.root == Some(group));
            assert(after.nodes =~= rest.nodes.insert(child, rest.nodes[child])) by {
                assert(rest.nodes[child].parent is None);
            }
            assert forall|node: NodeId| #[trigger] after.has(node) implies after.excess(node) == 0
                && (after.parent(node) is None ==> after.root == Some(node)) && (after.data(
                node,
            ) is Group ==> after.data(node)->sizes.len() >= 2) by {
                assert(rest.has(node));
                assert(tree.has(node));
            }
        },
        Some(outer) => {
            let moved = rest.moved_to_parent(child, outer);
            let place = tree.children(outer).index_of(group);
            assert(tree.has(group));
            lemma_parent_not_below(tree, group, outer);
            assert(rest.has(outer));
            assert(child != outer) by {
                lemma_below_self(rest, child);
            }
            lemma_move_balance(rest, child, outer);
            assert(rest.same_items(moved) && moved.root == rest.root && (forall|node: NodeId|
                node != child && rest.has(node) ==> #[trigger] moved.parent(node) == rest.parent(
                    node,
                )) && moved.parent(child) == Some(outer)) by {
                lemma_moved_to_parent(rest, child, outer);
            }
            assert(moved.has(child));
            assert(tree.children(outer).contains(group));
            lemma_sibling_balance(moved, child, place);
            assert(moved.same_items(after) && after.root == moved.root && (forall|node: NodeId|
                moved.has(node) ==> #[trigger] after.parent(node) == moved.parent(node))) by {
                lemma_at_sibling(moved, child, place);
            }
            assert forall|node: NodeId| #[trigger] after.has(node) implies after.excess(node) == 0
                && (after.parent(node) is None ==> after.root == Some(node)) && (after.data(
                node,
            ) is Group ==> after.data(node)->sizes.len() >= 2) by {
                assert(moved.has(node));
                assert(rest.has(node));
                assert(tree.has(node));
                assert(after.parent(node) == moved.parent(node));
                if node != child {
                    assert(moved.parent(node) == rest.parent(node));
                }
            }
        },
    }
}

/// Removes `node` and everything below it. The group that it was in gives its room to the
/// others; if only one other is left, that takes the place of the group.
pub fn unmap_internal(tree: &mut Tree<TreeNode>, node: &NodeId)
    requires
        model(*old(tree)).forest(),
        model(*old(tree)).connected(),
        model(*old(tree)).has(*node) ==> match model(*old(tree)).parent(*node) {
            Some(group) => model(*old(tree)).is_full_group(group),
            None => true,
        },
    ensures
        model(*final(tree)) == model(*old(tree)).unmapped(*node),
        model(*final(tree)).forest(),
        model(*old(tree)).settled() ==> model(*final(tree)).settled() && model(
            *old(tree),
        ).keeps_keys(model(*final(tree))),
        model(*old(tree)).settled() && model(*old(tree)).has(*node) ==> model(
            *old(tree),
        ).keeps_leaves(model(*final(tree)), *node),
{
    let ghost before = model(*tree);
    if get_node(tree, node).is_none() {
        return;
    }
    let group: NodeId = match parent_id(tree, node) {
        Some(group) => group,
        None => {
            remove_subtree(tree, node);
            proof {
                if before.settled() {
                    lemma_pruned_settled(before, *node);
                    lemma_unmapped_keys(before, *node);
                }
            }
            return;
        },
    };
    assert(before.has(*node));
    let siblings: Vec<NodeId> = child_ids(tree, &group);
    let position: usize = match position_of(&siblings, node) {
        Some(position) => position,
        None => 0,
    };
    let outer: Option<NodeId> = parent_id(tree, &group);
    remove_subtree(tree, node);
    let ghost rest = model(*tree);
    proof {
        assert(before.has(group));
        lemma_pruned(before, *node, group);
    }
    let room: usize = match get_node(tree, &group) {
        Some(found) => found.data.len(),
        None => 0,
    };
    if room > 2 {
        if let Some(found) = get_node_mut(tree, &group) {
            found.data.remove_window(position);
        }
        proof {
            assert(model(*tree) =~~= rest.with_data(
                group,
                before.data(group).without_child(position as int),
            ));
            lemma_forest_with_data(
                rest,
                group,
                before.data(group).without_child(position as int),
            );
            if before.settled() {
                lemma_pruned_settled(before, *node);
                lemma_unmapped_keys(before, *node);
            }
        }
        return;
    }
    let others: Vec<NodeId> = child_ids(tree, &group);
    assert(others@.len() >= 1);
    let child: NodeId = copy_id(&others[0]);
    proof {
        assert(rest.children(group)[0] == child);
        assert(rest.parent(child) == Some(group));
        lemma_parent_not_below(rest, child, group);
    }
    match outer {
        None => {
            remove_orphaning(tree, &group);
            move_to_root(tree, &child);
            proof {
                if before.settled() {
                    lemma_pruned_settled(before, *node);
                    lemma_dissolved_settled(rest, group);
                    lemma_unmapped_keys(before, *node);
                }
            }
        },
        Some(outer) => {
            let uncles: Vec<NodeId> = child_ids(tree, &outer);
            let fork: usize = match position_of(&uncles, &group) {
                Some(fork) => fork,
                None => 0,
            };
            assert(rest.has(group));
            remove_orphaning(tree, &group);
            let ghost orphaned = model(*tree);
            proof {
                lemma_parent_not_below(rest, group, outer);
                assert(orphaned.has(child) && orphaned.parent(child) is None);
                assert(orphaned.has(outer));
                if orphaned.below(outer, child) {
                    let steps = choose|steps: nat| #[trigger]
                        orphaned.ancestor(outer, steps) == Some(child);
                    assert(!orphaned.below(outer, group)) by {
                        if orphaned.below(outer, group) {
                            lemma_below_has(orphaned, outer, group);
                        }
                    }
                    lemma_orphaned_above(rest, group, outer, steps);
                    assert(rest.below(outer, child));
                    lemma_below_trans(rest, group, outer, child);
                }
            }
            assert(orphaned.root != Some(child)) by {
                assert(rest.root == orphaned.root || orphaned.root is None);
                assert(rest.parent(child) is Some);
            }
            move_to_parent(tree, &child, &outer);
            make_nth_sibling(tree, &child, fork);
            proof {
                if before.settled() {
                    lemma_pruned_settled(before, *node);
                    lemma_dissolved_settled(rest, group);
                    lemma_unmapped_keys(before, *node);
                }
            }
        },
    }
}

/// What is left of a settled tree when a branch was cut off: only the group that it was in has
/// too much room.
proof fn lemma_pruned_settled(tree: TreeModel, id: NodeId)
    requires
        tree.settled(),
        tree.has(id),
        tree.pruned(id).forest(),
    ensures
        ({
            let rest = tree.pruned(id);
            &&& rest.connected()
            &&& rest.groups_of(2)
            &&& match tree.parent(id) {
                Some(group) => {
                    &&& forall|node: NodeId| #[trigger]
                        rest.has(node) && node != group ==> rest.excess(node) == 0
                    &&& rest.data(group) == tree.data(group)
                    &&& tree.data(group)->sizes.len() > 2 ==> rest.with_data(
                        group,
                        tree.data(group).without_child(tree.children(group).index_of(id)),
                    ).settled()
                    &&& rest.children(group).len() == tree.data(group)->sizes.len() - 1
                },
                None => rest.settled(),
            }
        }),
{
    let rest = tree.pruned(id);
    lemma_sound(tree);
    lemma_sound(rest);
    lemma_prune_balance(tree, id);
    assert forall|node: NodeId| #[trigger] rest.has(node) && rest.data(
        node,
    ) is Group implies rest.data(node)->sizes.len() >= 2 by {
        assert(tree.has(node));
    }
    assert forall|node: NodeId| #[trigger] rest.has(node) && tree.parent(id) != Some(
        node,
    ) implies rest.excess(node) == 0 by {
        assert(tree.has(node));
    }
    match tree.parent(id) {
        Some(group) => {
            assert(tree.has(id));
            lemma_parent_not_below(tree, id, group);
            assert(tree.has(group) && rest.has(group));
            assert(tree.excess(group) == 0);
            assert(tree.children(group).contains(id));
            if tree.data(group)->sizes.len() > 2 {
                let data = tree.data(group).without_child(tree.children(group).index_of(id));
                let after = rest.with_data(group, data);
                assert(tree.data(group) is Group);
                lemma_data_balance(rest, group, data);
                lemma_sound(after);
                assert forall|node: NodeId| #[trigger] after.has(node) implies after.excess(node)
                    == 0 by {
                    assert(rest.has(node));
                }
                assert forall|node: NodeId| #[trigger] after.has(node) && after.data(
                    node,
                ) is Group implies after.data(node)->sizes.len() >= 2 by {
                    assert(rest.has(node));
                }
            }
        },
        None => {},
    }
}

/// What stands above a node after a group was taken away stood above it before.
proof fn lemma_orphaned_above(tree: TreeModel, group: NodeId, id: NodeId, steps: nat)
    requires
        tree.forest(),
        tree.has(group),
        tree.has(id),
        !tree.below(id, group),
        tree.orphaned(group).forest(),
    ensures
        tree.orphaned(group).ancestor(id, steps) == tree.ancestor(id, steps),
{
    let rest = tree.orphaned(group);
    let rank = choose|rank: Map<NodeId, nat>| tree.ranked(rank);
    assert forall|k: nat| k < steps implies match #[trigger] tree.ancestor(id, k) {
        Some(node) => tree.has(node) == rest.has(node) && (tree.has(node) ==> tree.parent(node)
            == rest.parent(node)),
        None => true,
    } by {
        lemma_ancestor_rank(tree, rank, id, k);
        match tree.ancestor(id, k) {
            Some(node) => {
                assert(tree.below(id, node));
                assert(node != group);
                if tree.parent(node) == Some(group) {
                    lemma_below_self(tree, group);
                    lemma_below_parent(tree, node, group);
                    lemma_below_trans(tree, id, node, group);
                }
            },
            None => {},
        }
    }
    lemma_same_ancestors(tree, rest, id, steps);
}

/// Other data in a node leave the shape of the tree as it is.
pub proof fn lemma_forest_with_data(tree: TreeModel, id: NodeId, data: DataView)
    requires
        tree.forest(),
        tree.has(id),
    ensures
        tree.with_data(id, data).forest(),
        tree.connected() ==> tree.with_data(id, data).connected(),
{
    let after = tree.with_data(id, data);
    assert(after.nodes.dom() =~= tree.nodes.dom());
    let rank = choose|rank: Map<NodeId, nat>| tree.ranked(rank);
    assert forall|node: NodeId| #[trigger] after.has(node) implies tree.has(node) && after.parent(
        node,
    ) == tree.parent(node) && after.children(node) == tree.children(node) by {}
    assert(after.ranked(rank)) by {
        assert forall|node: NodeId| #[trigger] after.has(node) implies match after.parent(node) {
            Some(parent) => rank[parent] < rank[node],
            None => true,
        } by {
            assert(tree.has(node));
        }
    }
    assert forall|node: NodeId, i: int|
        #![trigger after.children(node)[i]]
        after.has(node) && 0 <= i < after.children(node).len() implies after.has(
        after.children(node)[i],
    ) && after.parent(after.children(node)[i]) == Some(node) by {
        assert(tree.children(node)[i] == after.children(node)[i]);
    }
    assert forall|node: NodeId| #[trigger] after.has(node) implies after.children(
        node,
    ).no_duplicates() && match after.parent(node) {
        Some(parent) => after.has(parent) && after.children(parent).contains(node),
        None => true,
    } by {
        assert(tree.has(node));
    }
    if tree.connected() {
        assert forall|node: NodeId| #[trigger] after.has(node) && after.parent(
            node,
        ) is None implies after.root == Some(node) by {
            assert(tree.has(node));
        }
    }
}

/// The orientation of a group whose children are side by side in this direction.
pub open spec fn along(direction: Direction) -> Orientation {
    match direction {
        Direction::Left | Direction::Right => Orientation::Vertical,
        Direction::Up | Direction::Down => Orientation::Horizontal,
    }
}

/// The orientation in which an area of this size is split: along its longer side.
pub open spec fn split_of(size: Size) -> Orientation {
    if size.w > size.h {
        Orientation::Vertical
    } else {
        Orientation::Horizontal
    }
}

/// The orientation of a group whose children are side by side in this direction.
pub fn orientation_along(direction: Direction) -> (orientation: Orientation)
    ensures
        orientation == along(direction),
{
    match direction {
        Direction::Left | Direction::Right => Orientation::Vertical,
        Direction::Up | Direction::Down => Orientation::Horizontal,
    }
}

/// The orientation in which an area of this size is split: along its longer side.
pub fn split_orientation(size: Size) -> (orientation: Orientation)
    ensures
        orientation == split_of(size),
{
    if size.w > size.h {
        Orientation::Vertical
    } else {
        Orientation::Horizontal
    }
}

/// A window that was not laid out yet.
pub open spec fn new_window(key: u64, window: Window, minimize_rect: Option<Rectangle>) -> NodeView {
    NodeView {
        key,
        data: DataView::Mapped {
            mapped: window,
            last_geometry: initial_geometry(),
            minimize_rect,
        },
    }
}

/// A group that was not laid out yet.
pub open spec fn new_group_item(key: u64, orientation: Orientation) -> NodeView {
    NodeView { key, data: DataView::fresh_group(orientation, initial_geometry()) }
}

impl TreeModel {
    /// The node that a new window is put next to: the whole tree if it comes in from a side,
    /// otherwise the given node, or else the whole tree.
    pub open spec fn map_anchor(self, node: Option<NodeId>, direction: Option<Direction>) -> Option<
        NodeId,
    > {
        if direction is Some || node is None {
            self.root
        } else {
            node
        }
    }

    /// The orientation of the group that a new window is put into with its anchor.
    pub open spec fn map_orientation(
        self,
        output: Size,
        node: Option<NodeId>,
        direction: Option<Direction>,
    ) -> Orientation {
        match direction {
            Some(towards) => along(towards),
            None => match node {
                Some(anchor) => split_of(self.data(anchor).geometry().size),
                None => split_of(output),
            },
        }
    }

    /// The tree with the new window `id`, in the new group `group` with its anchor. A window
    /// that comes in from a side is put at that side.
    pub open spec fn with_mapped(
        self,
        id: NodeId,
        item: NodeView,
        group: NodeId,
        group_item: NodeView,
        anchor: NodeId,
        direction: Option<Direction>,
    ) -> TreeModel {
        let placed = self.rooted(id, item).grouped(anchor, id, group, group_item);
        match direction {
            Some(Direction::Left) | Some(Direction::Up) => placed.at_sibling(id, 1),
            Some(Direction::Right) | Some(Direction::Down) => placed.at_sibling(id, 0),
            None => placed,
        }
    }
}

/// An optional id as the contracts speak of it.
pub open spec fn optional_id(id: Option<&NodeId>) -> Option<NodeId> {
    match id {
        Some(found) => Some(*found),
        None => None,
    }
}

impl TreeModel {
    /// Whether `after` is this tree with the new window `id`: as the root of an empty tree, or
    /// else in a new group with its anchor.
    pub open spec fn mapped_as(
        self,
        after: TreeModel,
        id: NodeId,
        item: NodeView,
        group_key: u64,
        output: Size,
        node: Option<NodeId>,
        direction: Option<Direction>,
    ) -> bool {
        let group_item = new_group_item(group_key, self.map_orientation(output, node, direction));
        match self.map_anchor(node, direction) {
            None => after == self.rooted(id, item),
            Some(anchor) => exists|group: NodeId|
                !self.has(group) && group != id && after == #[trigger] self.with_mapped(
                    id,
                    item,
                    group,
                    group_item,
                    anchor,
                    direction,
                ),
        }
    }
}

/// A place, if there is one.
pub open spec fn optional_place(place: Option<usize>) -> Option<int> {
    match place {
        Some(place) => Some(place as int),
        None => None,
    }
}

impl TreeModel {
    /// The tree with a new node in a new group with `anchor`, at this place or behind it.
    pub open spec fn added_beside(
        self,
        id: NodeId,
        item: NodeView,
        group: NodeId,
        group_item: NodeView,
        anchor: NodeId,
        place: Option<int>,
    ) -> TreeModel {
        let grouped = self.rooted(id, item).grouped(anchor, id, group, group_item);
        match place {
            Some(place) => grouped.at_sibling(id, place),
            None => grouped,
        }
    }
}

impl TreeModel {
    /// Whether `after` has the nodes of this tree with their contents, the new node `id`, and
    /// perhaps a full new group; every node has room for its children, but `id`, which has
    /// none yet.
    #[verifier::opaque]
    pub open spec fn added_well(self, after: TreeModel, id: NodeId, item: NodeView, group_key: u64) -> bool {
        &&& after.connected()
        &&& after.has(id)
        &&& after.nodes[id].item == item
        &&& after.children(id).len() == 0
        &&& forall|node: NodeId| #[trigger]
            self.has(node) ==> after.has(node) && after.nodes[node].item == self.nodes[node].item
        &&& forall|node: NodeId| #[trigger]
            after.has(node) ==> self.has(node) || node == id || after.key(node) == group_key
        &&& forall|node: NodeId| #[trigger]
            after.has(node) && node != id ==> after.excess(node) == 0 && (after.data(
                node,
            ) is Group ==> after.data(node)->sizes.len() >= 2)
        &&& self.keyed() && !self.has_key(item.key) && !self.has_key(group_key) && item.key
            != group_key ==> after.keyed()
    }
}

/// A new node above nothing.
pub proof fn lemma_rooted_well(tree: TreeModel, id: NodeId, item: NodeView, group_key: u64)
    requires
        tree.settled(),
        !tree.has(id),
        tree.root is None,
    ensures
        tree.added_well(tree.rooted(id, item), id, item, group_key),
{
    let after = tree.rooted(id, item);
    reveal(TreeModel::added_well);
    lemma_sound(tree);
    lemma_rooted_balance(tree, id, item);
    let rank = choose|rank: Map<NodeId, nat>| tree.ranked(rank);
    assert forall|node: NodeId| !#[trigger] tree.has(node) by {
        if tree.has(node) {
            lemma_below_root(tree, node, rank);
        }
    }
    assert(after.keyed()) by {
        assert forall|first: NodeId, second: NodeId|
            #![trigger after.key(first), after.key(second)]
            after.has(first) && after.has(second) && after.key(first) == after.key(
                second,
            ) implies first == second by {
            assert(!tree.has(first) && !tree.has(second));
        }
    }
    assert forall|node: NodeId| #[trigger] after.has(node) implies node == id by {
        assert(!tree.has(node));
    }
}

/// A new node in a new group leaves the other nodes as they were.
proof fn lemma_beside_well(
    tree: TreeModel,
    grouped: TreeModel,
    id: NodeId,
    item: NodeView,
    group: NodeId,
    group_item: NodeView,
    anchor: NodeId,
)
    requires
        tree.settled(),
        !tree.has(id),
        tree.has(anchor),
        group_item.data is Group,
        group_item.data->sizes.len() == 2,
        tree.rooted(id, item).forest(),
        !tree.rooted(id, item).has(group),
        tree.rooted(id, item).with_one_more(grouped, group, group_item),
        tree.rooted(id, item).connected() ==> tree.rooted(id, item).regrouped(
            grouped,
            anchor,
            id,
            group,
        ),
        grouped.forest(),
    ensures
        tree.added_well(grouped, id, item, group_item.key),
{
    let rooted = tree.rooted(id, item);
    reveal(TreeModel::added_well);
    lemma_sound(tree);
    lemma_rooted_balance(tree, id, item);
    assert(tree.has(anchor));
    assert(rooted.has(anchor));
    let rank = choose|rank: Map<NodeId, nat>| rooted.ranked(rank);
    lemma_below_root(rooted, anchor, rank);
    let old_rank = choose|rank: Map<NodeId, nat>| tree.ranked(rank);
    lemma_below_root(tree, anchor, old_rank);
    assert(rooted.below(anchor, id));
    reveal(TreeModel::regrouped);
    assert(rooted.has(id));
    assert(grouped.has(id) && grouped.nodes[id].item == rooted.nodes[id].item);
    assert(rooted.nodes[id].item == item);
    assert(grouped.excess(id) == rooted.excess(id) - 1);
    assert forall|node: NodeId| #[trigger] tree.has(node) implies grouped.has(node)
        && grouped.nodes[node].item == tree.nodes[node].item by {
        assert(rooted.has(node));
        assert(node != id);
    }
    assert forall|node: NodeId| #[trigger] grouped.has(node) implies tree.has(node) || node == id
        || node == group by {
        if node != group {
            assert(rooted.has(node));
        }
    }
    assert forall|node: NodeId| #[trigger] grouped.has(node) && node != id implies grouped.excess(
        node,
    ) == 0 && (grouped.data(node) is Group ==> grouped.data(node)->sizes.len() >= 2) by {
        if node != group {
            assert(rooted.has(node));
            assert(tree.has(node));
        }
    }
    if tree.keyed() && !tree.has_key(item.key) && !tree.has_key(group_item.key) && item.key
        != group_item.key {
        assert forall|first: NodeId, second: NodeId|
            #![trigger grouped.key(first), grouped.key(second)]
            grouped.has(first) && grouped.has(second) && grouped.key(first) == grouped.key(
                second,
            ) implies first == second by {
            if tree.has(first) && tree.has(second) {
                assert(tree.key(first) == tree.key(second));
            } else if tree.has(first) {
                assert(tree.key(first) == grouped.key(second));
                assert(tree.has_key(grouped.key(second)));
            } else if tree.has(second) {
                assert(tree.key(second) == grouped.key(first));
                assert(tree.has_key(grouped.key(first)));
            }
        }
    }
}

/// A new node without room for children leaves the tree settled.
pub proof fn lemma_added_settled(tree: TreeModel, after: TreeModel, id: NodeId, item: NodeView, group_key: u64)
    requires
        tree.added_well(after, id, item, group_key),
        !(item.data is Group),
        after.forest(),
    ensures
        after.settled(),
{
    reveal(TreeModel::added_well);
    lemma_sound(after);
    assert forall|node: NodeId| #[trigger] after.has(node) implies after.excess(node) == 0 by {}
    assert forall|node: NodeId| #[trigger] after.has(node) && after.data(
        node,
    ) is Group implies after.data(node)->sizes.len() >= 2 by {}
}

/// Moving the new node among its siblings changes nothing of that.
proof fn lemma_sibling_well(
    tree: TreeModel,
    grouped: TreeModel,
    id: NodeId,
    item: NodeView,
    group_key: u64,
    place: int,
)
    requires
        tree.added_well(grouped, id, item, group_key),
        grouped.forest(),
        0 <= place,
    ensures
        tree.added_well(grouped.at_sibling(id, place), id, item, group_key),
{
    let after = grouped.at_sibling(id, place);
    reveal(TreeModel::added_well);
    lemma_sibling_balance(grouped, id, place);
    assert(grouped.same_items(after)) by {
        lemma_at_sibling(grouped, id, place);
    }
    assert(grouped.excess(id) == after.excess(id)) by {
        assert(after.has(id));
    }
    assert forall|node: NodeId| #[trigger] after.has(node) implies grouped.has(node)
        && after.nodes[node].item == grouped.nodes[node].item by {}
    if grouped.keyed() {
        assert forall|first: NodeId, second: NodeId|
            #![trigger after.key(first), after.key(second)]
            after.has(first) && after.has(second) && after.key(first) == after.key(
                second,
            ) implies first == second by {
            assert(grouped.has(first) && grouped.has(second));
            assert(grouped.key(first) == grouped.key(second));
        }
    }
}

/// Adds a node in a new group with `anchor`, at this place or behind it. Returns its id.
pub fn add_beside(
    tree: &mut Tree<TreeNode>,
    node: TreeNode,
    anchor: &NodeId,
    orientation: Orientation,
    group_key: u64,
    place: Option<usize>,
) -> (id: NodeId)
    requires
        model(*old(tree)).forest(),
        model(*old(tree)).regular(),
        model(*old(tree)).has(*anchor),
    ensures
        !model(*old(tree)).has(id),
        exists|group: NodeId|
            !model(*old(tree)).has(group) && group != id && model(*final(tree)) == #[trigger] model(
                *old(tree),
            ).added_beside(
                id,
                node@,
                group,
                new_group_item(group_key, orientation),
                *anchor,
                optional_place(place),
            ) && model(*final(tree)).has(group) && model(*final(tree)).nodes[group].item
                == new_group_item(group_key, orientation) && model(*final(tree)).parent(id) == Some(
                group,
            ),
        model(*final(tree)).forest(),
        model(*final(tree)).has(id),
        model(*old(tree)).settled() ==> model(*old(tree)).added_well(
            model(*final(tree)),
            id,
            node@,
            group_key,
        ),
{
    let ghost before = model(*tree);
    let ghost item = node@;
    let ghost group_item = new_group_item(group_key, orientation);
    let id: NodeId = insert_root(tree, node);
    let ghost rooted = model(*tree);
    assert(before.has(*anchor));
    assert(rooted.has(*anchor) && rooted.has(id));
    assert(rooted.below(*anchor, id)) by {
        lemma_regular(before);
        lemma_rooted_balance(before, id, item);
        let rank = choose|rank: Map<NodeId, nat>| rooted.ranked(rank);
        lemma_below_root(rooted, *anchor, rank);
    }
    let result: Option<NodeId> = new_group(tree, anchor, &id, orientation, group_key);
    let ghost grouped = model(*tree);
    let ghost group = result->0;
    assert(!before.has(group) && group != id && grouped.has(id)) by {
        assert(rooted.has(id));
        assert(before.has(group) ==> rooted.has(group));
    }
    proof {
        if before.settled() {
            lemma_beside_well(before, grouped, id, item, group, group_item, *anchor);
        }
    }
    assert(grouped.has(group) && grouped.nodes[group].item == group_item && grouped.parent(id)
        == Some(group));
    match place {
        Some(place) => {
            make_nth_sibling(tree, &id, place);
            assert(model(*tree).has(id) && model(*tree).has(group) && model(*tree).nodes[group].item
                == group_item && model(*tree).parent(id) == Some(group)) by {
                lemma_at_sibling(grouped, id, place as int);
                assert(grouped.has(id) && grouped.has(group));
            }
            proof {
                if before.settled() {
                    lemma_sibling_well(before, grouped, id, item, group_key, place as int);
                }
            }
        },
        None => {},
    }
    assert(model(*tree) == before.added_beside(
        id,
        item,
        group,
        group_item,
        *anchor,
        optional_place(place),
    ));
    id
}

/// Adds a window to the tree: next to `node`, or at the side that it moves away from, or next
/// to everything. Returns its id.
pub fn map_to_tree(
    tree: &mut Tree<TreeNode>,
    window: Window,
    output: Size,
    node: Option<&NodeId>,
    direction: Option<Direction>,
    minimize_rect: Option<Rectangle>,
    key: u64,
    group_key: u64,
) -> (id: NodeId)
    requires
        model(*old(tree)).forest(),
        model(*old(tree)).regular(),
        direction is None && node is Some ==> model(*old(tree)).has(*(node->0)),
    ensures
        !model(*old(tree)).has(id),
        model(*old(tree)).mapped_as(
            model(*final(tree)),
            id,
            new_window(key, window, minimize_rect),
            group_key,
            output,
            optional_id(node),
            direction,
        ),
        model(*final(tree)).forest(),
        model(*old(tree)).settled() ==> model(*final(tree)).settled() && model(
            *old(tree),
        ).added_well(
            model(*final(tree)),
            id,
            new_window(key, window, minimize_rect),
            group_key,
        ),
{
    let ghost before = model(*tree);
    let root: Option<NodeId> = root_id(tree);
    let anchor: Option<NodeId> = if direction.is_some() {
        root
    } else {
        match node {
            Some(found) => Some(copy_id(found)),
            None => root,
        }
    };
    let orientation: Orientation = match direction {
        Some(towards) => orientation_along(towards),
        None => match node {
            Some(found) => match get_node(tree, found) {
                Some(data) => split_orientation(data.data.geometry().size),
                None => Orientation::Horizontal,
            },
            None => split_orientation(output),
        },
    };
    let item = TreeNode {
        key,
        data: Data::Mapped {
            mapped: window,
            last_geometry: Rectangle::new(0, 0, 100, 100),
            minimize_rect,
        },
    };
    match anchor {
        None => {
            let id: NodeId = insert_root(tree, item);
            proof {
                if before.settled() {
                    let item = new_window(key, window, minimize_rect);
                    lemma_rooted_well(before, id, item, group_key);
                    lemma_added_settled(before, model(*tree), id, item, group_key);
                }
            }
            id
        },
        Some(anchor) => {
            assert(before.has(anchor));
            let place: Option<usize> = match direction {
                Some(Direction::Left) | Some(Direction::Up) => Some(1),
                Some(Direction::Right) | Some(Direction::Down) => Some(0),
                None => None,
            };
            let id: NodeId = add_beside(tree, item, &anchor, orientation, group_key, place);
            proof {
                let item = new_window(key, window, minimize_rect);
                if before.settled() {
                    lemma_added_settled(before, model(*tree), id, item, group_key);
                }
                let group_item = new_group_item(
                    group_key,
                    before.map_orientation(output, optional_id(node), direction),
                );
                let group = choose|group: NodeId|
                    !before.has(group) && group != id && model(*tree)
                        == #[trigger] before.added_beside(
                        id,
                        item,
                        group,
                        group_item,
                        anchor,
                        optional_place(place),
                    );
                assert(model(*tree) == before.with_mapped(
                    id,
                    item,
                    group,
                    group_item,
                    anchor,
                    direction,
                ));
            }
            id
        },
    }
}

/// Grouping two nodes leaves all nodes in the tree, with the same contents.
proof fn lemma_grouped_has(
    tree: TreeModel,
    old_id: NodeId,
    new_id: NodeId,
    group: NodeId,
    item: NodeView,
)
    requires
        tree.forest(),
        tree.has(old_id),
        tree.has(new_id),
        old_id != new_id,
        !tree.has(group),
        tree.below(old_id, new_id) ==> tree.root == Some(new_id),
        ({
            let opened = match tree.parent(old_id) {
                Some(parent) => tree.grown(group, item, parent),
                None => tree.rooted(group, item),
            };
            opened.forest() && opened.moved_to_parent(old_id, group).forest()
        }),
        tree.enclosed(old_id, group, item).forest(),
    ensures
        tree.with_one_more(tree.grouped(old_id, new_id, group, item), group, item),
        tree.grouped(old_id, new_id, group, item).parent(new_id) == Some(group),
{
    reveal(TreeModel::grouped);
    assert(tree.has(old_id));
    let opened = match tree.parent(old_id) {
        Some(parent) => tree.grown(group, item, parent),
        None => tree.rooted(group, item),
    };
    lemma_new_node(tree, group, item);
    assert(opened.nodes.dom() == tree.nodes.dom().insert(group));
    let moved = opened.moved_to_parent(old_id, group);
    lemma_moved_to_parent(opened, old_id, group);
    let closed = tree.enclosed(old_id, group, item);
    match tree.parent(old_id) {
        Some(parent) => {
            lemma_at_sibling(moved, group, tree.children(parent).index_of(old_id));
        },
        None => {},
    }
    assert(opened.same_items(closed)) by {
        assert forall|id: NodeId| #[trigger] opened.has(id) implies opened.nodes[id].item
            == closed.nodes[id].item by {
            assert(moved.has(id));
        }
    }
    assert(opened.has(group) && opened.has(new_id));
    lemma_moved_to_parent(closed, new_id, group);
    let after = tree.grouped(old_id, new_id, group, item);
    assert forall|id: NodeId| #[trigger] tree.has(id) implies after.nodes[id].item
        == tree.nodes[id].item by {
        assert(opened.has(id));
        assert(closed.has(id));
        match tree.parent(old_id) {
            Some(parent) => {
                assert(tree.grown(group, item, parent).nodes[id].item == tree.nodes[id].item);
            },
            None => {
                assert(tree.rooted(group, item).nodes[id].item == tree.nodes[id].item);
            },
        }
    }
    assert(closed.has(group));
}

} // verus!
