//! How changes to a tiling tree affect the room that its groups have for their children.

use vstd::prelude::*;

use id_tree::NodeId;

use crate::classic::lemma_below_root;
use crate::data::DataView;
use crate::lineage::{
    lemma_at_sibling, lemma_below_self, lemma_branch, lemma_moved_to_parent, lemma_top_not_below,
};
use crate::surgery::{lemma_enclosed, lemma_forest_with_data};
use crate::tree::{without_id, NodeView, TreeModel};

verus! {

impl DataView {
    /// The number of children that a node has room for.
    pub open spec fn room(self) -> int {
        if self is Group {
            self->sizes.len() as int
        } else {
            0
        }
    }
}

impl TreeModel {
    /// By how many children a node has more than it has room for.
    pub open spec fn excess(self, id: NodeId) -> int {
        self.children(id).len() - self.data(id).room()
    }

    /// Whether every node has room for its children and no more.
    pub open spec fn balanced(self) -> bool {
        forall|id: NodeId| #[trigger] self.has(id) ==> self.excess(id) == 0
    }

    /// Whether every group has at least this many children.
    pub open spec fn groups_of(self, least: int) -> bool {
        forall|id: NodeId| #[trigger]
            self.has(id) && self.data(id) is Group ==> self.data(id)->sizes.len() >= least
    }

    /// Whether the tree is in order and has no empty groups.
    #[verifier::opaque]
    pub open spec fn sound(self) -> bool {
        self.regular() && self.groups_of(1)
    }

    /// Whether the tree is in order and every group has at least two children.
    #[verifier::opaque]
    pub open spec fn settled(self) -> bool {
        self.regular() && self.groups_of(2)
    }
}

/// One where two nodes are the same, else zero.
pub open spec fn one_if(condition: bool) -> int {
    if condition {
        1
    } else {
        0
    }
}

/// A tree is in order if it is one tree, and every node has room for its children and no more.
pub proof fn lemma_regular(tree: TreeModel)
    ensures
        tree.regular() <==> tree.forest() && tree.connected() && tree.balanced(),
{
    reveal(TreeModel::regular);
    if tree.regular() {
        assert forall|id: NodeId| #[trigger] tree.has(id) implies tree.excess(id) == 0 by {
            if tree.data(id) is Group {
            } else {
                assert(!(tree.children(id).len() > 0));
            }
        }
    }
    if tree.balanced() {
        assert forall|id: NodeId|
            tree.has(id) && (#[trigger] tree.children(id)).len() > 0 implies tree.data(
            id,
        ) is Group by {
            assert(tree.excess(id) == 0);
        }
        assert forall|id: NodeId|
            #![trigger tree.data(id)]
            tree.has(id) && tree.data(id) is Group implies tree.data(id)->sizes.len()
            == tree.children(id).len() by {
            assert(tree.excess(id) == 0);
        }
    }
}

/// A tree is sound if it is one tree, every node has room for its children and no more, and
/// no group is empty.
pub proof fn lemma_sound(tree: TreeModel)
    ensures
        tree.sound() <==> tree.forest() && tree.connected() && tree.balanced() && tree.groups_of(1),
        tree.settled() <==> tree.forest() && tree.connected() && tree.balanced()
            && tree.groups_of(2),
        tree.settled() ==> tree.sound(),
        tree.sound() ==> tree.regular(),
{
    reveal(TreeModel::sound);
    reveal(TreeModel::settled);
    lemma_regular(tree);
    if tree.settled() {
        assert forall|id: NodeId| #[trigger] tree.has(id) && tree.data(id) is Group implies tree.data(id)->sizes.len() >= 1 by {}
    }
}

/// Taking an id out of a list that has it once makes the list shorter by one.
pub proof fn lemma_without_id(ids: Seq<NodeId>, id: NodeId)
    ensures
        without_id(ids, id).len() == ids.len() - one_if(ids.contains(id)),
{
}

/// Other data in a node only change the room that it has.
pub proof fn lemma_data_balance(tree: TreeModel, id: NodeId, data: DataView)
    requires
        tree.forest(),
        tree.has(id),
    ensures
        tree.with_data(id, data).forest(),
        tree.connected() ==> tree.with_data(id, data).connected(),
        forall|node: NodeId| #[trigger]
            tree.with_data(id, data).has(node) ==> tree.has(node) && tree.with_data(
                id,
                data,
            ).excess(node) == tree.excess(node) + one_if(node == id) * (tree.data(id).room()
                - data.room()),
        forall|node: NodeId| #[trigger] tree.has(node) ==> tree.with_data(id, data).has(node),
{
    lemma_forest_with_data(tree, id, data);
    let after = tree.with_data(id, data);
    assert forall|node: NodeId| #[trigger] after.has(node) implies tree.has(node) && after.excess(
        node,
    ) == tree.excess(node) + one_if(node == id) * (tree.data(id).room() - data.room()) by {
        if node == id {
            assert(one_if(node == id) == 1);
        } else {
            assert(one_if(node == id) == 0);
        }
    }
}

/// Moving a node among its siblings leaves every node as many children.
pub proof fn lemma_sibling_balance(tree: TreeModel, id: NodeId, position: int)
    requires
        tree.forest(),
        tree.has(id),
        0 <= position,
    ensures
        tree.connected() ==> tree.at_sibling(id, position).connected(),
        forall|node: NodeId| #[trigger]
            tree.at_sibling(id, position).has(node) == tree.has(node),
        forall|node: NodeId| #[trigger]
            tree.at_sibling(id, position).has(node) ==> tree.at_sibling(id, position).excess(node)
                == tree.excess(node),
{
    let after = tree.at_sibling(id, position);
    lemma_at_sibling(tree, id, position);
    assert(tree.has(id));
    if tree.connected() {
        assert forall|node: NodeId| #[trigger] after.has(node) && after.parent(
            node,
        ) is None implies after.root == Some(node) by {
            assert(tree.has(node));
        }
    }
    match tree.parent(id) {
        Some(parent) => {
            lemma_without_id(tree.children(parent), id);
            assert(tree.children(parent).contains(id));
            assert(after.children(parent).len() == tree.children(parent).len());
        },
        None => {},
    }
    assert forall|node: NodeId| #[trigger] after.has(node) implies after.excess(node)
        == tree.excess(node) by {
        assert(tree.has(node));
        assert(after.nodes[node].item == tree.nodes[node].item);
    }
}

/// Moving a node to another parent takes a child from one node and gives it to another.
pub proof fn lemma_move_balance(tree: TreeModel, id: NodeId, parent: NodeId)
    requires
        tree.forest(),
        tree.has(id),
        tree.has(parent),
        id != parent,
        !tree.below(parent, id),
    ensures
        tree.connected() ==> tree.moved_to_parent(id, parent).connected(),
        forall|node: NodeId| #[trigger]
            tree.moved_to_parent(id, parent).has(node) == tree.has(node),
        forall|node: NodeId| #[trigger]
            tree.moved_to_parent(id, parent).has(node) ==> tree.moved_to_parent(id, parent).excess(
                node,
            ) == tree.excess(node) + one_if(node == parent) - one_if(
                tree.parent(id) == Some(node),
            ),
{
    let after = tree.moved_to_parent(id, parent);
    lemma_moved_to_parent(tree, id, parent);
    assert(tree.has(id));
    let cut = tree.detached(id);
    match tree.parent(id) {
        Some(from) => {
            lemma_without_id(tree.children(from), id);
            assert(tree.children(from).contains(id));
        },
        None => {},
    }
    if tree.connected() {
        assert forall|node: NodeId| #[trigger] after.has(node) && after.parent(
            node,
        ) is None implies after.root == Some(node) by {
            assert(tree.has(node));
            assert(after.parent(node) == tree.parent(node));
        }
    }
    assert forall|node: NodeId| #[trigger] after.has(node) implies after.excess(node)
        == tree.excess(node) + one_if(node == parent) - one_if(tree.parent(id) == Some(node)) by {
        assert(tree.has(node));
        assert(after.nodes[node].item == tree.nodes[node].item);
        assert(cut.children(node).len() == tree.children(node).len() - one_if(
            tree.parent(id) == Some(node),
        ));
    }
}

/// Moving the root below one of its branches makes that branch the root.
pub proof fn lemma_move_root_balance(tree: TreeModel, id: NodeId, parent: NodeId)
    requires
        tree.forest(),
        tree.connected(),
        tree.has(id),
        tree.has(parent),
        id != parent,
        tree.below(parent, id),
        tree.parent(id) is None,
    ensures
        tree.moved_to_parent(id, parent).connected(),
        forall|node: NodeId| #[trigger]
            tree.moved_to_parent(id, parent).has(node) == tree.has(node),
        forall|node: NodeId| #[trigger]
            tree.moved_to_parent(id, parent).has(node) ==> tree.moved_to_parent(id, parent).excess(
                node,
            ) == tree.excess(node) + one_if(node == parent) - one_if(node == id),
{
    let after = tree.moved_to_parent(id, parent);
    lemma_moved_to_parent(tree, id, parent);
    lemma_branch(tree, parent, id);
    let top = tree.branch(parent, id);
    assert(tree.has(top) && tree.parent(top) == Some(id));
    assert(tree.children(id).contains(top));
    lemma_without_id(tree.children(id), top);
    let cut = tree.detached(top);
    assert forall|node: NodeId| #[trigger] after.has(node) && after.parent(
        node,
    ) is None implies after.root == Some(node) by {
        assert(tree.has(node));
    }
    assert forall|node: NodeId| #[trigger] after.has(node) implies after.excess(node)
        == tree.excess(node) + one_if(node == parent) - one_if(node == id) by {
        assert(tree.has(node));
        assert(after.nodes[node].item == tree.nodes[node].item);
        assert(cut.children(node).len() == tree.children(node).len() - one_if(node == id));
    }
}

impl TreeModel {
    /// The node that has one child less when `new_id` is grouped with `old_id`.
    pub open spec fn loses_child(self, old_id: NodeId, new_id: NodeId, node: NodeId) -> bool {
        if self.below(old_id, new_id) {
            node == new_id
        } else {
            self.parent(new_id) == Some(node)
        }
    }

    /// Whether `after` is one tree and has room as this tree does, but that one node lost the
    /// child `new_id` to a full new group.
    #[verifier::opaque]
    pub open spec fn regrouped(
        self,
        after: TreeModel,
        old_id: NodeId,
        new_id: NodeId,
        group: NodeId,
    ) -> bool {
        &&& after.connected()
        &&& forall|node: NodeId| #[trigger]
            after.has(node) ==> after.excess(node) == if node == group {
                0
            } else {
                self.excess(node) - one_if(self.loses_child(old_id, new_id, node))
            }
    }
}

/// Cutting off a branch takes a child from its parent.
pub proof fn lemma_prune_balance(tree: TreeModel, id: NodeId)
    requires
        tree.forest(),
        tree.has(id),
    ensures
        tree.connected() ==> tree.pruned(id).connected(),
        forall|node: NodeId| #[trigger]
            tree.pruned(id).has(node) == (tree.has(node) && !tree.below(node, id)),
        forall|node: NodeId| #[trigger]
            tree.pruned(id).has(node) ==> tree.pruned(id).nodes[node].item
                == tree.nodes[node].item && tree.pruned(id).parent(node) == tree.parent(node)
                && tree.pruned(id).excess(node) == tree.excess(node) - one_if(
                tree.parent(id) == Some(node),
            ),
{
    let after = tree.pruned(id);
    let cut = tree.detached(id);
    assert(tree.has(id));
    lemma_below_self(tree, id);
    match tree.parent(id) {
        Some(parent) => {
            lemma_without_id(tree.children(parent), id);
            assert(tree.children(parent).contains(id));
        },
        None => {},
    }
    assert forall|node: NodeId| #[trigger] after.has(node) == (tree.has(node) && !tree.below(
        node,
        id,
    )) by {
        assert(cut.has(node) == tree.has(node));
    }
    assert forall|node: NodeId| #[trigger] after.has(node) implies after.nodes[node].item
        == tree.nodes[node].item && after.parent(node) == tree.parent(node) && after.excess(node)
        == tree.excess(node) - one_if(tree.parent(id) == Some(node)) by {
        assert(after.nodes[node] == cut.nodes[node]);
    }
    if tree.connected() {
        assert forall|node: NodeId| #[trigger] after.has(node) && after.parent(
            node,
        ) is None implies after.root == Some(node) by {
            assert(tree.has(node));
        }
    }
}

/// A tree whose nodes hold other data of the same sort stays as sound as it was.
pub proof fn lemma_same_rooms(tree: TreeModel, after: TreeModel)
    requires
        tree.same_shape(after),
        forall|id: NodeId| #[trigger]
            after.has(id) ==> (after.data(id) is Group <==> tree.data(id) is Group) && after.data(
                id,
            ).room() == tree.data(id).room(),
    ensures
        tree.forest() ==> after.forest(),
        tree.sound() ==> after.sound(),
        tree.settled() ==> after.settled(),
        tree.keyed() ==> after.keyed(),
{
    lemma_sound(tree);
    lemma_sound(after);
    assert forall|id: NodeId| #[trigger] after.has(id) == tree.has(id) by {
        assert(after.nodes.dom().contains(id) == tree.nodes.dom().contains(id));
    }
    if tree.forest() {
        let rank = choose|rank: Map<NodeId, nat>| tree.ranked(rank);
        assert(after.ranked(rank)) by {
            assert forall|id: NodeId| #[trigger] after.has(id) implies match after.parent(id) {
                Some(parent) => rank[parent] < rank[id],
                None => true,
            } by {
                assert(tree.has(id));
            }
        }
        assert forall|id: NodeId, i: int|
            #![trigger after.children(id)[i]]
            after.has(id) && 0 <= i < after.children(id).len() implies after.has(
            after.children(id)[i],
        ) && after.parent(after.children(id)[i]) == Some(id) by {
            assert(tree.has(id));
            assert(after.children(id)[i] == tree.children(id)[i]);
            assert(tree.has(tree.children(id)[i]));
            assert(after.has(tree.children(id)[i]));
        }
        assert forall|id: NodeId| #[trigger] after.has(id) implies after.children(
            id,
        ).no_duplicates() && match after.parent(id) {
            Some(parent) => after.has(parent) && after.children(parent).contains(id),
            None => true,
        } by {
            assert(tree.has(id));
            match tree.parent(id) {
                Some(parent) => {
                    assert(after.has(parent));
                },
                None => {},
            }
        }
        match after.root {
            Some(root) => {
                assert(after.has(root));
            },
            None => {},
        }
    }
    if tree.connected() {
        assert forall|id: NodeId| #[trigger] after.has(id) && after.parent(
            id,
        ) is None implies after.root == Some(id) by {
            assert(tree.has(id));
        }
    }
    if tree.balanced() {
        assert forall|id: NodeId| #[trigger] after.has(id) implies after.excess(id) == 0 by {
            assert(tree.has(id));
            assert(tree.excess(id) == 0);
        }
    }
    assert forall|least: int| #[trigger] tree.groups_of(least) implies after.groups_of(least) by {
        assert forall|id: NodeId| #[trigger] after.has(id) && after.data(
            id,
        ) is Group implies after.data(id)->sizes.len() >= least by {
            assert(tree.has(id));
        }
    }
    if tree.keyed() {
        assert forall|first: NodeId, second: NodeId|
            #![trigger after.key(first), after.key(second)]
            after.has(first) && after.has(second) && after.key(first) == after.key(
                second,
            ) implies first == second by {
            assert(tree.key(first) == tree.key(second));
        }
    }
}

/// A new last child is one more for its parent.
pub proof fn lemma_grown_balance(tree: TreeModel, id: NodeId, item: NodeView, parent: NodeId)
    requires
        !tree.has(id),
        tree.has(parent),
    ensures
        tree.connected() ==> tree.grown(id, item, parent).connected(),
        forall|node: NodeId| #[trigger]
            tree.grown(id, item, parent).has(node) == (tree.has(node) || node == id),
        forall|node: NodeId| #[trigger]
            tree.grown(id, item, parent).has(node) ==> tree.grown(id, item, parent).excess(node)
                == if node == id {
                -item.data.room()
            } else {
                tree.excess(node) + one_if(node == parent)
            },
{
    let after = tree.grown(id, item, parent);
    if tree.connected() {
        assert forall|node: NodeId| #[trigger] after.has(node) && after.parent(
            node,
        ) is None implies after.root == Some(node) by {
            assert(tree.has(node));
        }
    }
}

/// A new root has the old one as its only child.
pub proof fn lemma_rooted_balance(tree: TreeModel, id: NodeId, item: NodeView)
    requires
        tree.forest(),
        !tree.has(id),
    ensures
        tree.connected() ==> tree.rooted(id, item).connected(),
        forall|node: NodeId| #[trigger]
            tree.rooted(id, item).has(node) == (tree.has(node) || node == id),
        forall|node: NodeId| #[trigger]
            tree.rooted(id, item).has(node) ==> tree.rooted(id, item).excess(node) == if node
                == id {
                one_if(tree.root is Some) - item.data.room()
            } else {
                tree.excess(node)
            },
{
    let after = tree.rooted(id, item);
    if tree.connected() {
        assert forall|node: NodeId| #[trigger] after.has(node) && after.parent(
            node,
        ) is None implies after.root == Some(node) by {
            if node != id {
                assert(tree.has(node));
            }
        }
    }
}

/// Grouping two nodes takes a child from the parent of the second one; the new group has room
/// for both.
pub proof fn lemma_group_balance(
    tree: TreeModel,
    old_id: NodeId,
    new_id: NodeId,
    group: NodeId,
    item: NodeView,
)
    requires
        tree.forest(),
        tree.connected(),
        tree.has(old_id),
        tree.has(new_id),
        old_id != new_id,
        !tree.has(group),
        tree.below(old_id, new_id) == (tree.root == Some(new_id)),
        item.data.room() == 2,
        ({
            let opened = match tree.parent(old_id) {
                Some(parent) => tree.grown(group, item, parent),
                None => tree.rooted(group, item),
            };
            opened.forest()
        }),
        (match tree.parent(old_id) {
            Some(parent) => tree.grown(group, item, parent).moved_to_parent(
                old_id,
                group,
            ).forest(),
            None => true,
        }),
        tree.enclosed(old_id, group, item).forest(),
    ensures
        tree.regrouped(tree.grouped(old_id, new_id, group, item), old_id, new_id, group),
{
    reveal(TreeModel::regrouped);
    reveal(TreeModel::grouped);
    let opened = match tree.parent(old_id) {
        Some(parent) => tree.grown(group, item, parent),
        None => tree.rooted(group, item),
    };
    let closed = tree.enclosed(old_id, group, item);
    let after = tree.grouped(old_id, new_id, group, item);
    lemma_enclosed(tree, old_id, new_id, group, item);
    assert(tree.has(old_id) && tree.has(new_id));
    assert(closed.has(group) && closed.has(new_id) && group != new_id);
    match tree.parent(old_id) {
        Some(parent) => {
            assert(tree.has(parent));
            lemma_grown_balance(tree, group, item, parent);
            lemma_move_balance(opened, old_id, group);
            let moved = opened.moved_to_parent(old_id, group);
            lemma_moved_to_parent(opened, old_id, group);
            lemma_sibling_balance(moved, group, tree.children(parent).index_of(old_id));
            lemma_at_sibling(moved, group, tree.children(parent).index_of(old_id));
            assert(closed.parent(new_id) == tree.parent(new_id)) by {
                assert(opened.parent(new_id) == tree.parent(new_id));
                assert(moved.parent(new_id) == opened.parent(new_id));
                assert(moved.has(new_id));
            }
            if tree.below(old_id, new_id) {
                assert(closed.root == Some(new_id));
                let rank = choose|rank: Map<NodeId, nat>| closed.ranked(rank);
                lemma_below_root(closed, group, rank);
                lemma_move_root_balance(closed, new_id, group);
            } else {
                lemma_move_balance(closed, new_id, group);
            }
            assert forall|node: NodeId| #[trigger] after.has(node) implies after.excess(node)
                == if node == group {
                0
            } else {
                tree.excess(node) - one_if(tree.loses_child(old_id, new_id, node))
            } by {
                assert(closed.has(node));
                assert(moved.has(node));
                assert(opened.has(node));
            }
        },
        None => {
            lemma_rooted_balance(tree, group, item);
            assert(tree.root == Some(old_id));
            if tree.below(old_id, new_id) {
                lemma_top_not_below(tree, old_id, new_id);
            }
            lemma_move_balance(opened, old_id, group);
            lemma_moved_to_parent(opened, old_id, group);
            assert(closed.parent(new_id) == tree.parent(new_id)) by {
                assert(opened.parent(new_id) == tree.parent(new_id));
            }
            lemma_move_balance(closed, new_id, group);
            assert forall|node: NodeId| #[trigger] after.has(node) implies after.excess(node)
                == if node == group {
                0
            } else {
                tree.excess(node) - one_if(tree.loses_child(old_id, new_id, node))
            } by {
                assert(closed.has(node));
                assert(opened.has(node));
            }
        },
    }
}

} // verus!
