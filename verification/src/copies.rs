//! Copies of tiling trees, and the exchange of branches between trees.

use vstd::prelude::*;

use id_tree::{NodeId, Tree};

use crate::balance::lemma_sound;
use crate::classic::lemma_empty;
use crate::graft::replace_branch;
use crate::placement::{all_nodes, find_key, lemma_node_keyed};
use crate::tree::{copy_tree, get_node, model, root_id, TreeModel, TreeNode};

verus! {

impl TreeModel {
    /// Whether `copy` has the same nodes under other ids.
    pub open spec fn copied(self, copy: TreeModel) -> bool {
        exists|ids: Map<NodeId, NodeId>| #[trigger] self.renamed(copy, ids)
    }
}

/// A node of a copy stands for one of the original.
pub proof fn lemma_original(tree: TreeModel, copy: TreeModel, ids: Map<NodeId, NodeId>, node: NodeId)
    requires
        tree.renamed(copy, ids),
        copy.has(node),
    ensures
        exists|id: NodeId| #[trigger] tree.has(id) && ids[id] == node,
{
    assert(copy.nodes.dom().contains(node));
    assert(ids.values().contains(node));
    let id = choose|id: NodeId| #[trigger] ids.dom().contains(id) && ids[id] == node;
    assert(tree.nodes.dom().contains(id));
    assert(tree.has(id));
}

/// The copy of a forest is a forest.
proof fn lemma_copied_forest(tree: TreeModel, copy: TreeModel, ids: Map<NodeId, NodeId>)
    requires
        tree.renamed(copy, ids),
        tree.forest(),
    ensures
        copy.forest(),
{
    let rank = choose|rank: Map<NodeId, nat>| tree.ranked(rank);
    let original = |node: NodeId| choose|id: NodeId| #[trigger] tree.has(id) && ids[id] == node;
    let copy_rank = Map::new(|node: NodeId| copy.has(node), |node: NodeId| rank[original(node)]);
    assert forall|id: NodeId| #[trigger] tree.has(id) implies copy.has(ids[id]) && original(ids[id])
        == id by {
        assert(ids.dom().contains(id));
        assert(ids.values().contains(ids[id]));
        assert(copy.nodes.dom().contains(ids[id]));
        let other = original(ids[id]);
        assert(tree.has(other) && ids[other] == ids[id]);
        assert(ids.dom().contains(other));
    }
    assert(copy.ranked(copy_rank)) by {
        assert forall|node: NodeId| #[trigger] copy.has(node) implies match copy.parent(node) {
            Some(parent) => copy_rank[parent] < copy_rank[node],
            None => true,
        } by {
            lemma_original(tree, copy, ids, node);
            let id = original(node);
            assert(tree.has(id) && ids[id] == node);
            match tree.parent(id) {
                Some(parent) => {
                    assert(tree.has(parent));
                    assert(copy.has(ids[parent]));
                },
                None => {},
            }
        }
    }
    assert(copy.nodes.dom().finite()) by {
        lemma_values_finite(ids);
    }
    assert forall|node: NodeId, i: int|
        #![trigger copy.children(node)[i]]
        copy.has(node) && 0 <= i < copy.children(node).len() implies copy.has(
        copy.children(node)[i],
    ) && copy.parent(copy.children(node)[i]) == Some(node) by {
        lemma_original(tree, copy, ids, node);
        let id = original(node);
        assert(tree.has(id) && ids[id] == node);
        let child = tree.children(id)[i];
        assert(copy.children(node)[i] == ids[child]);
        assert(tree.has(child) && tree.parent(child) == Some(id));
    }
    assert forall|node: NodeId| #[trigger] copy.has(node) implies copy.children(
        node,
    ).no_duplicates() && match copy.parent(node) {
        Some(parent) => copy.has(parent) && copy.children(parent).contains(node),
        None => true,
    } by {
        lemma_original(tree, copy, ids, node);
        let id = original(node);
        assert(tree.has(id) && ids[id] == node);
        let children = tree.children(id);
        assert(children.no_duplicates());
        assert forall|i: int, j: int| 0 <= i < children.len() && 0 <= j < children.len() && i
            != j implies copy.children(node)[i] != copy.children(node)[j] by {
            assert(tree.has(children[i]) && tree.has(children[j]));
            assert(ids.dom().contains(children[i]) && ids.dom().contains(children[j]));
            assert(children[i] != children[j]);
        }
        match tree.parent(id) {
            Some(parent) => {
                assert(tree.has(parent));
                let k = tree.children(parent).index_of(id);
                assert(copy.children(ids[parent])[k] == ids[id]);
            },
            None => {},
        }
    }
    match tree.root {
        Some(root) => {
            assert(tree.has(root));
        },
        None => {},
    }
}

/// As many ids stand for nodes as there are nodes.
proof fn lemma_values_finite(ids: Map<NodeId, NodeId>)
    requires
        ids.dom().finite(),
    ensures
        ids.values().finite(),
    decreases ids.dom().len(),
{
    if ids.dom().is_empty() {
        assert(ids.values() =~= Set::empty());
    } else {
        let id = ids.dom().choose();
        let rest = ids.remove(id);
        lemma_values_finite(rest);
        assert(ids.values().subset_of(rest.values().insert(ids[id]))) by {
            assert forall|node: NodeId| ids.values().contains(node) implies #[trigger] rest.values().insert(
                ids[id],
            ).contains(node) by {
                let k = choose|k: NodeId| #[trigger] ids.dom().contains(k) && ids[k] == node;
                if k != id {
                    assert(rest.dom().contains(k) && rest[k] == node);
                }
            }
        }
        vstd::set_lib::lemma_set_subset_finite(rest.values().insert(ids[id]), ids.values());
    }
}

/// A copy is as sound as the original, and has the same keys.
pub proof fn law_copies_are_alike(tree: TreeModel, copy: TreeModel)
    requires
        tree.copied(copy),
    ensures
        tree.forest() ==> copy.forest(),
        tree.sound() ==> copy.sound(),
        tree.settled() ==> copy.settled(),
        tree.keyed() ==> copy.keyed(),
        forall|key: u64| #[trigger] copy.has_key(key) <==> tree.has_key(key),
{
    let ids = choose|ids: Map<NodeId, NodeId>| #[trigger] tree.renamed(copy, ids);
    if tree.forest() {
        lemma_copied_forest(tree, copy, ids);
    }
    lemma_sound(tree);
    lemma_sound(copy);
    assert forall|node: NodeId| #[trigger] copy.has(node) implies exists|id: NodeId| #[trigger]
        tree.has(id) && ids[id] == node by {
        lemma_original(tree, copy, ids, node);
    }
    if tree.connected() {
        assert forall|node: NodeId| #[trigger] copy.has(node) && copy.parent(
            node,
        ) is None implies copy.root == Some(node) by {
            let id = choose|id: NodeId| #[trigger] tree.has(id) && ids[id] == node;
            assert(tree.parent(id) is None);
        }
    }
    if tree.balanced() {
        assert forall|node: NodeId| #[trigger] copy.has(node) implies copy.excess(node) == 0 by {
            let id = choose|id: NodeId| #[trigger] tree.has(id) && ids[id] == node;
            assert(tree.excess(id) == 0);
        }
    }
    assert forall|least: int| #[trigger] tree.groups_of(least) implies copy.groups_of(least) by {
        assert forall|node: NodeId| #[trigger] copy.has(node) && copy.data(
            node,
        ) is Group implies copy.data(node)->sizes.len() >= least by {
            let id = choose|id: NodeId| #[trigger] tree.has(id) && ids[id] == node;
        }
    }
    if tree.keyed() {
        assert forall|first: NodeId, second: NodeId|
            #![trigger copy.key(first), copy.key(second)]
            copy.has(first) && copy.has(second) && copy.key(first) == copy.key(second) implies first
            == second by {
            let one = choose|id: NodeId| #[trigger] tree.has(id) && ids[id] == first;
            let two = choose|id: NodeId| #[trigger] tree.has(id) && ids[id] == second;
            assert(tree.key(one) == tree.key(two));
        }
    }
    assert forall|key: u64| #[trigger] copy.has_key(key) <==> tree.has_key(key) by {
        if tree.has_key(key) {
            let id = choose|id: NodeId| tree.has(id) && #[trigger] tree.key(id) == key;
            assert(ids.dom().contains(id));
            assert(ids.values().contains(ids[id]));
            assert(copy.nodes.dom().contains(ids[id]));
            assert(copy.has(ids[id]) && copy.key(ids[id]) == key);
        }
        if copy.has_key(key) {
            let node = choose|id: NodeId| copy.has(id) && #[trigger] copy.key(id) == key;
            let id = choose|id: NodeId| #[trigger] tree.has(id) && ids[id] == node;
            assert(tree.key(id) == key);
        }
    }
}

/// A copy of a tree.
pub fn duplicate(tree: &Tree<TreeNode>) -> (copy: Tree<TreeNode>)
    ensures
        model(*tree).copied(model(copy)),
        model(*tree).settled() ==> model(copy).settled(),
        model(*tree).sound() ==> model(copy).sound(),
        model(*tree).keyed() ==> model(copy).keyed(),
{
    let copy: Tree<TreeNode> = copy_tree(tree);
    proof {
        let ids = choose|ids: Map<NodeId, NodeId>| model(*tree).renamed(model(copy), ids);
        assert(model(*tree).renamed(model(copy), ids));
        law_copies_are_alike(model(*tree), model(copy));
    }
    copy
}

/// The node with this key.
pub fn node_by_key(tree: &Tree<TreeNode>, key: u64) -> (found: Option<NodeId>)
    requires
        model(*tree).regular(),
        model(*tree).keyed(),
    ensures
        match found {
            Some(id) => model(*tree).has(id) && model(*tree).key(id) == key && model(
                *tree,
            ).node_keyed(key) == id,
            None => !model(*tree).has_key(key),
        },
{
    let ghost shape = model(*tree);
    match root_id(tree) {
        None => {
            proof {
                lemma_empty(shape);
            }
            None
        },
        Some(root) => {
            let order: Vec<NodeId> = all_nodes(tree, &root);
            match find_key(tree, &order, key) {
                Some(id) => {
                    proof {
                        lemma_node_keyed(shape, id);
                    }
                    Some(id)
                },
                None => {
                    assert forall|id: NodeId| shape.has(id) implies #[trigger] shape.key(id)
                        != key by {
                        let i = order@.index_of(id);
                        assert(order@[i] == id);
                    }
                    None
                },
            }
        },
    }
}

/// Exchanges what two nodes of different trees hold, with everything below them.
pub fn swap_branches(
    tree: &mut Tree<TreeNode>,
    node: &NodeId,
    other: &mut Tree<TreeNode>,
    other_node: &NodeId,
)
    requires
        model(*old(tree)).settled(),
        model(*old(tree)).keyed(),
        model(*old(tree)).has(*node),
        model(*old(other)).settled(),
        model(*old(other)).keyed(),
        model(*old(other)).has(*other_node),
        model(*old(tree)).keys_apart(model(*old(other))),
    ensures
        model(*old(tree)).replaced_by(model(*final(tree)), *node, model(*old(other)), *other_node),
        exists|copy: TreeModel| #[trigger]
            model(*old(tree)).copied(copy) && model(*old(other)).replaced_by(
                model(*final(other)),
                *other_node,
                copy,
                copy.node_keyed(model(*old(tree)).key(*node)),
            ),
        model(*final(tree)).settled(),
        model(*final(tree)).keyed(),
        model(*final(other)).settled(),
        model(*final(other)).keyed(),
        forall|key: u64| #[trigger]
            model(*final(tree)).has_key(key) ==> model(*old(tree)).has_key(key) || model(
                *old(other),
            ).has_key(key),
        forall|key: u64| #[trigger]
            model(*final(other)).has_key(key) ==> model(*old(tree)).has_key(key) || model(
                *old(other),
            ).has_key(key),
{
    let ghost before = model(*tree);
    let ghost other_before = model(*other);
    let original: Tree<TreeNode> = duplicate(tree);
    let ghost copy = model(original);
    let key: u64 = match get_node(tree, node) {
        Some(found) => found.key,
        None => 0,
    };
    proof {
        lemma_sound(copy);
        law_copies_are_alike(before, copy);
        assert(before.has(*node) && before.key(*node) == key);
        assert(other_before.keys_apart(copy)) by {
            assert forall|one: NodeId, two: NodeId|
                #![trigger other_before.key(one), copy.key(two)]
                other_before.has(one) && copy.has(two) implies other_before.key(one) != copy.key(
                two,
            ) by {
                assert(copy.has_key(copy.key(two)));
                let id = choose|id: NodeId|
                    before.has(id) && #[trigger] before.key(id) == copy.key(two);
                assert(before.key(id) != other_before.key(one));
            }
        }
    }
    replace_branch(tree, node, other, other_node);
    match node_by_key(&original, key) {
        Some(from) => {
            replace_branch(other, other_node, &original, &from);
            assert(before.copied(copy) && other_before.replaced_by(
                model(*other),
                *other_node,
                copy,
                copy.node_keyed(before.key(*node)),
            ));
        },
        None => {
            assert(before.has_key(key));
            assert(copy.has_key(key));
        },
    }
}

/// A node of a copy holds what the node with its key held.
pub proof fn lemma_copied_item(tree: TreeModel, copy: TreeModel, key: u64)
    requires
        tree.copied(copy),
        tree.keyed(),
        tree.has_key(key),
    ensures
        copy.has_key(key),
        copy.has(copy.node_keyed(key)),
        copy.key(copy.node_keyed(key)) == key,
        copy.data(copy.node_keyed(key)) == tree.data(tree.node_keyed(key)),
        copy.children(copy.node_keyed(key)).len() == tree.children(tree.node_keyed(key)).len(),
{
    law_copies_are_alike(tree, copy);
    let ids = choose|ids: Map<NodeId, NodeId>| #[trigger] tree.renamed(copy, ids);
    let id = tree.node_keyed(key);
    assert(tree.has(id) && tree.key(id) == key);
    let twin = ids[id];
    assert(ids.dom().contains(id));
    assert(ids.values().contains(twin));
    assert(copy.nodes.dom().contains(twin));
    assert(copy.has(twin) && copy.key(twin) == key);
    lemma_node_keyed(copy, twin);
}

} // verus!
