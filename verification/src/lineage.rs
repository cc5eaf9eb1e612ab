//! Facts about ancestors in a tree.

use vstd::prelude::*;

use id_tree::NodeId;

use crate::tree::{NodeView, TreeModel};

verus! {

/// Going up adds up.
pub proof fn lemma_ancestor_add(tree: TreeModel, id: NodeId, first: nat, second: nat)
    ensures
        tree.ancestor(id, first + second) == match tree.ancestor(id, first) {
            Some(top) => tree.ancestor(top, second),
            None => None,
        },
    decreases first,
{
    if first > 0 && tree.has(id) {
        match tree.parent(id) {
            Some(parent) => {
                lemma_ancestor_add(tree, parent, (first - 1) as nat, second);
                assert((first + second - 1) as nat == (first - 1) as nat + second);
            },
            None => {},
        }
    }
}

/// A node that stands above another one is numbered lower, by a level each.
pub proof fn lemma_ancestor_rank(
    tree: TreeModel,
    rank: Map<NodeId, nat>,
    id: NodeId,
    steps: nat,
)
    requires
        tree.forest(),
        tree.ranked(rank),
        tree.has(id),
    ensures
        match tree.ancestor(id, steps) {
            Some(top) => tree.has(top) && rank[top] + steps <= rank[id],
            None => true,
        },
    decreases steps,
{
    if steps > 0 {
        match tree.parent(id) {
            Some(parent) => {
                lemma_ancestor_rank(tree, rank, parent, (steps - 1) as nat);
            },
            None => {},
        }
    }
}

/// A node is below itself.
pub proof fn lemma_below_self(tree: TreeModel, id: NodeId)
    ensures
        tree.below(id, id),
{
    assert(tree.ancestor(id, 0) == Some(id));
}

/// A node is below its parent, and below what its parent is below.
pub proof fn lemma_below_parent(tree: TreeModel, id: NodeId, top: NodeId)
    requires
        tree.has(id),
        tree.parent(id) is Some,
        tree.below(tree.parent(id)->0, top),
    ensures
        tree.below(id, top),
{
    let parent = tree.parent(id)->0;
    let steps = choose|steps: nat| #[trigger] tree.ancestor(parent, steps) == Some(top);
    assert(tree.ancestor(id, steps + 1) == Some(top)) by {
        assert((steps + 1 - 1) as nat == steps);
    }
}

/// What is below a node is that node, or below one of the nodes that it is the parent of.
pub proof fn lemma_below_cases(tree: TreeModel, id: NodeId, top: NodeId)
    requires
        tree.below(id, top),
    ensures
        id == top || (tree.has(id) && tree.parent(id) is Some && tree.below(
            tree.parent(id)->0,
            top,
        )),
{
    let steps = choose|steps: nat| #[trigger] tree.ancestor(id, steps) == Some(top);
    if steps > 0 {
        assert(tree.ancestor(tree.parent(id)->0, (steps - 1) as nat) == Some(top));
    }
}

/// Below is transitive.
pub proof fn lemma_below_trans(tree: TreeModel, low: NodeId, mid: NodeId, top: NodeId)
    requires
        tree.below(low, mid),
        tree.below(mid, top),
    ensures
        tree.below(low, top),
{
    let first = choose|steps: nat| #[trigger] tree.ancestor(low, steps) == Some(mid);
    let second = choose|steps: nat| #[trigger] tree.ancestor(mid, steps) == Some(top);
    lemma_ancestor_add(tree, low, first, second);
    assert(tree.ancestor(low, first + second) == Some(top));
}

/// Two nodes are not below each other.
pub proof fn lemma_below_antisymmetric(tree: TreeModel, first: NodeId, second: NodeId)
    requires
        tree.forest(),
        tree.has(first),
        tree.has(second),
        tree.below(first, second),
        tree.below(second, first),
    ensures
        first == second,
{
    let rank = choose|rank: Map<NodeId, nat>| tree.ranked(rank);
    let up = choose|steps: nat| #[trigger] tree.ancestor(first, steps) == Some(second);
    let down = choose|steps: nat| #[trigger] tree.ancestor(second, steps) == Some(first);
    lemma_ancestor_rank(tree, rank, first, up);
    lemma_ancestor_rank(tree, rank, second, down);
    assert(up == 0);
}

/// A node is not below its children.
pub proof fn lemma_parent_not_below(tree: TreeModel, id: NodeId, parent: NodeId)
    requires
        tree.forest(),
        tree.has(id),
        tree.parent(id) == Some(parent),
    ensures
        tree.has(parent),
        parent != id,
        !tree.below(parent, id),
        tree.below(id, parent),
{
    assert(tree.has(id));
    lemma_below_self(tree, parent);
    lemma_below_parent(tree, id, parent);
    let rank = choose|rank: Map<NodeId, nat>| tree.ranked(rank);
    assert(rank[parent] < rank[id]);
    if tree.below(parent, id) {
        lemma_below_antisymmetric(tree, id, parent);
    }
}

/// A node with nothing above it is not below any other node.
pub proof fn lemma_top_not_below(tree: TreeModel, id: NodeId, other: NodeId)
    requires
        tree.has(id),
        tree.parent(id) is None,
        tree.below(id, other),
    ensures
        id == other,
{
    lemma_below_cases(tree, id, other);
}

/// Two trees in which the same nodes stand above a node have the same ancestors of it.
pub proof fn lemma_same_ancestors(first: TreeModel, second: TreeModel, id: NodeId, steps: nat)
    requires
        forall|k: nat|
            k < steps ==> match #[trigger] first.ancestor(id, k) {
                Some(node) => first.has(node) == second.has(node) && (first.has(node)
                    ==> first.parent(node) == second.parent(node)),
                None => true,
            },
    ensures
        first.ancestor(id, steps) == second.ancestor(id, steps),
    decreases steps,
{
    if steps > 0 {
        assert(first.ancestor(id, 0) == Some(id));
        if first.has(id) {
            match first.parent(id) {
                Some(parent) => {
                    assert forall|k: nat| k < steps - 1 implies match #[trigger] first.ancestor(
                        parent,
                        k,
                    ) {
                        Some(node) => first.has(node) == second.has(node) && (first.has(node)
                            ==> first.parent(node) == second.parent(node)),
                        None => true,
                    } by {
                        assert((k + 1 - 1) as nat == k);
                        assert(first.ancestor(id, k + 1) == first.ancestor(parent, k));
                    }
                    lemma_same_ancestors(first, second, parent, (steps - 1) as nat);
                },
                None => {},
            }
        }
    }
}

impl TreeModel {
    /// Whether two trees have the same nodes with the same contents, whatever their places.
    pub open spec fn same_items(self, other: TreeModel) -> bool {
        &&& self.nodes.dom() == other.nodes.dom()
        &&& forall|id: NodeId| #[trigger]
            self.has(id) ==> self.nodes[id].item == other.nodes[id].item
    }
}

/// Everything above a node of the tree is in the tree.
pub proof fn lemma_below_has(tree: TreeModel, id: NodeId, top: NodeId)
    requires
        tree.forest(),
        tree.has(id),
        tree.below(id, top),
    ensures
        tree.has(top),
{
    let rank = choose|rank: Map<NodeId, nat>| tree.ranked(rank);
    let steps = choose|steps: nat| #[trigger] tree.ancestor(id, steps) == Some(top);
    lemma_ancestor_rank(tree, rank, id, steps);
}

/// A node below another one is below one of its children.
pub proof fn lemma_branch(tree: TreeModel, id: NodeId, top: NodeId)
    requires
        tree.forest(),
        tree.has(id),
        tree.below(id, top),
        id != top,
    ensures
        tree.has(tree.branch(id, top)),
        tree.parent(tree.branch(id, top)) == Some(top),
        tree.below(id, tree.branch(id, top)),
        tree.has(top),
{
    lemma_below_has(tree, id, top);
    let steps = choose|steps: nat| #[trigger] tree.ancestor(id, steps) == Some(top);
    lemma_ancestor_add(tree, id, (steps - 1) as nat, 1);
    assert((steps - 1) as nat + 1 == steps);
    let child = tree.ancestor(id, (steps - 1) as nat)->0;
    assert(tree.ancestor(id, (steps - 1) as nat) == Some(child));
    assert(tree.below(id, child));
    assert(tree.ancestor(child, 1) == Some(top));
    assert(tree.has(child) && tree.parent(child) == Some(top)) by {
        if tree.has(child) {
            match tree.parent(child) {
                Some(parent) => {
                    assert(tree.ancestor(parent, 0) == Some(parent));
                },
                None => {},
            }
        }
    }
}

/// Moving a node keeps all nodes and their contents, and makes it the last child there.
pub proof fn lemma_moved_to_parent(tree: TreeModel, id: NodeId, parent: NodeId)
    requires
        tree.forest(),
        tree.has(id),
        tree.has(parent),
        id != parent,
    ensures
        tree.same_items(tree.moved_to_parent(id, parent)),
        tree.moved_to_parent(id, parent).parent(id) == Some(parent),
        tree.moved_to_parent(id, parent).children(parent).last() == id,
        !tree.below(parent, id) ==> tree.moved_to_parent(id, parent).root == tree.root,
        !tree.below(parent, id) ==> forall|node: NodeId|
            node != id && tree.has(node) ==> #[trigger] tree.moved_to_parent(id, parent).parent(
                node,
            ) == tree.parent(node),
{
    assert(tree.has(id));
    let after = tree.moved_to_parent(id, parent);
    if tree.below(parent, id) {
        lemma_branch(tree, parent, id);
        let top = tree.branch(parent, id);
        let cut = TreeModel { root: Some(top), ..tree.detached(top).with_parent(top, None) };
        assert(cut.nodes.dom() =~= tree.nodes.dom());
        assert(after.nodes.dom() =~= tree.nodes.dom());
    } else {
        let cut = tree.detached(id);
        assert(cut.nodes.dom() =~= tree.nodes.dom());
        assert(after.nodes.dom() =~= tree.nodes.dom());
    }
}

/// Moving a node among its siblings keeps all nodes, their contents, and their parents.
pub proof fn lemma_at_sibling(tree: TreeModel, id: NodeId, position: int)
    requires
        tree.forest(),
        tree.has(id),
    ensures
        tree.same_items(tree.at_sibling(id, position)),
        tree.at_sibling(id, position).root == tree.root,
        forall|node: NodeId|
            tree.has(node) ==> #[trigger] tree.at_sibling(id, position).parent(node)
                == tree.parent(node),
{
    assert(tree.has(id));
    assert(tree.at_sibling(id, position).nodes.dom() =~= tree.nodes.dom());
}

/// A new node leaves the contents of the others.
pub proof fn lemma_new_node(tree: TreeModel, id: NodeId, item: NodeView)
    requires
        tree.forest(),
        !tree.has(id),
    ensures
        tree.rooted(id, item).nodes.dom() == tree.nodes.dom().insert(id),
        tree.rooted(id, item).nodes[id].item == item,
        forall|node: NodeId|
            tree.has(node) ==> (#[trigger] tree.rooted(id, item).nodes[node]).item
                == tree.nodes[node].item,
        forall|parent: NodeId|
            tree.has(parent) ==> (#[trigger] tree.grown(id, item, parent)).nodes.dom()
                == tree.nodes.dom().insert(id),
        forall|parent: NodeId|
            tree.has(parent) ==> (#[trigger] tree.grown(id, item, parent)).nodes[id].item == item,
        forall|parent: NodeId, node: NodeId|
            tree.has(parent) && tree.has(node) ==> (#[trigger] tree.grown(
                id,
                item,
                parent,
            ).nodes[node]).item == tree.nodes[node].item,
{
    assert(tree.rooted(id, item).nodes.dom() =~= tree.nodes.dom().insert(id));
    assert forall|parent: NodeId| tree.has(parent) implies (#[trigger] tree.grown(
        id,
        item,
        parent,
    )).nodes.dom() == tree.nodes.dom().insert(id) by {
        assert(tree.grown(id, item, parent).nodes.dom() =~= tree.nodes.dom().insert(id));
    }
}

} // verus!
