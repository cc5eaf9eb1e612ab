//! Trees of the same shape under other ids.

use vstd::prelude::*;

use id_tree::NodeId;

use crate::actions::Direction;
use crate::lineage::{lemma_ancestor_add, lemma_ancestor_rank, lemma_below_self};
use crate::tree::{with_id_replaced, TreeModel};

verus! {

impl TreeModel {
    /// Whether `other` has the shape of this tree and the same keys, under other ids, which
    /// `ids` gives.
    pub open spec fn twinned(self, other: TreeModel, ids: Map<NodeId, NodeId>) -> bool {
        &&& ids.dom() == self.nodes.dom()
        &&& ids.is_injective()
        &&& other.nodes.dom() == ids.values()
        &&& other.root == match self.root {
            Some(root) => Some(ids[root]),
            None => None,
        }
        &&& forall|id: NodeId| #[trigger]
            self.has(id) ==> {
                &&& other.key(ids[id]) == self.key(id)
                &&& other.parent(ids[id]) == match self.parent(id) {
                    Some(parent) => Some(ids[parent]),
                    None => None,
                }
                &&& other.children(ids[id]) == self.children(id).map_values(
                    |child: NodeId| ids[child],
                )
            }
    }

    /// Whether `other` has the same shape and the same keys, under whatever ids.
    pub open spec fn mirrored(self, other: TreeModel) -> bool {
        exists|ids: Map<NodeId, NodeId>| #[trigger] self.twinned(other, ids)
    }
}

/// The twin of a node is a node.
pub proof fn lemma_twin_has(tree: TreeModel, other: TreeModel, ids: Map<NodeId, NodeId>, id: NodeId)
    requires
        tree.twinned(other, ids),
        tree.has(id),
    ensures
        other.has(ids[id]),
        other.key(ids[id]) == tree.key(id),
{
    assert(ids.dom().contains(id));
    assert(ids.values().contains(ids[id]));
    assert(other.nodes.dom().contains(ids[id]));
}

/// A node of a twin stands for one of the tree.
pub proof fn lemma_twin_of(tree: TreeModel, other: TreeModel, ids: Map<NodeId, NodeId>, node: NodeId)
    requires
        tree.twinned(other, ids),
        other.has(node),
    ensures
        exists|id: NodeId| #[trigger] tree.has(id) && ids[id] == node,
{
    assert(other.nodes.dom().contains(node));
    assert(ids.values().contains(node));
    let id = choose|id: NodeId| #[trigger] ids.dom().contains(id) && ids[id] == node;
    assert(tree.nodes.dom().contains(id));
    assert(tree.has(id));
}

/// A copy has the shape of the tree.
pub proof fn lemma_copy_twin(tree: TreeModel, copy: TreeModel)
    requires
        tree.copied(copy),
    ensures
        exists|ids: Map<NodeId, NodeId>| #[trigger]
            tree.renamed(copy, ids) && tree.twinned(copy, ids),
{
    let ids = choose|ids: Map<NodeId, NodeId>| #[trigger] tree.renamed(copy, ids);
    assert(tree.twinned(copy, ids));
}

/// What differs in the data of its nodes only has the same twins.
pub proof fn lemma_shape_twin(
    tree: TreeModel,
    middle: TreeModel,
    other: TreeModel,
    ids: Map<NodeId, NodeId>,
)
    requires
        tree.twinned(middle, ids),
        middle.same_shape(other),
    ensures
        tree.twinned(other, ids),
{
    assert forall|id: NodeId| #[trigger] tree.has(id) implies {
        &&& other.key(ids[id]) == tree.key(id)
        &&& other.parent(ids[id]) == match tree.parent(id) {
            Some(parent) => Some(ids[parent]),
            None => None,
        }
        &&& other.children(ids[id]) == tree.children(id).map_values(|child: NodeId| ids[child])
    } by {
        lemma_twin_has(tree, middle, ids, id);
        assert(middle.nodes.dom().contains(ids[id]));
        assert(other.has(ids[id]));
    }
}

/// What differs in the data of its nodes only has the same twins.
pub proof fn lemma_shape_twinned(
    tree: TreeModel,
    same: TreeModel,
    other: TreeModel,
    ids: Map<NodeId, NodeId>,
)
    requires
        tree.same_shape(same),
        same.twinned(other, ids),
    ensures
        tree.twinned(other, ids),
{
    assert forall|id: NodeId| #[trigger] tree.has(id) implies {
        &&& other.key(ids[id]) == tree.key(id)
        &&& other.parent(ids[id]) == match tree.parent(id) {
            Some(parent) => Some(ids[parent]),
            None => None,
        }
        &&& other.children(ids[id]) == tree.children(id).map_values(|child: NodeId| ids[child])
    } by {
        assert(tree.nodes.dom().contains(id));
        assert(same.has(id));
    }
}

/// The twin of a twin is a twin.
pub proof fn lemma_twin_chain(
    tree: TreeModel,
    middle: TreeModel,
    other: TreeModel,
    first: Map<NodeId, NodeId>,
    second: Map<NodeId, NodeId>,
) -> (ids: Map<NodeId, NodeId>)
    requires
        tree.forest(),
        tree.twinned(middle, first),
        middle.twinned(other, second),
    ensures
        tree.twinned(other, ids),
        forall|id: NodeId| #[trigger] tree.has(id) ==> ids[id] == second[first[id]],
{
    let ids = Map::new(|id: NodeId| tree.nodes.dom().contains(id), |id: NodeId| second[first[id]]);
    assert(ids.dom() =~= tree.nodes.dom());
    assert forall|id: NodeId| #[trigger] tree.has(id) implies ids[id] == second[first[id]]
        && middle.has(first[id]) && ids.dom().contains(id) by {
        lemma_twin_has(tree, middle, first, id);
    }
    assert(ids.is_injective()) by {
        assert forall|x: NodeId, y: NodeId|
            x != y && ids.dom().contains(x) && ids.dom().contains(y) implies #[trigger] ids[x]
            != #[trigger] ids[y] by {
            assert(tree.has(x) && tree.has(y));
            assert(first.dom().contains(x) && first.dom().contains(y));
            assert(first[x] != first[y]);
            assert(middle.has(first[x]) && middle.has(first[y]));
            assert(second.dom().contains(first[x]) && second.dom().contains(first[y]));
        }
    }
    assert(other.nodes.dom() =~= ids.values()) by {
        assert forall|node: NodeId| #[trigger] other.nodes.dom().contains(node) implies ids.values().contains(
            node,
        ) by {
            assert(other.has(node));
            lemma_twin_of(middle, other, second, node);
            let between = choose|id: NodeId| #[trigger] middle.has(id) && second[id] == node;
            lemma_twin_of(tree, middle, first, between);
            let id = choose|id: NodeId| #[trigger] tree.has(id) && first[id] == between;
            assert(ids.dom().contains(id) && ids[id] == node);
        }
        assert forall|node: NodeId| #[trigger] ids.values().contains(node) implies other.nodes.dom().contains(
            node,
        ) by {
            let id = choose|id: NodeId| #[trigger] ids.dom().contains(id) && ids[id] == node;
            assert(tree.has(id));
            lemma_twin_has(middle, other, second, first[id]);
        }
    }
    assert forall|id: NodeId| #[trigger] tree.has(id) implies {
        &&& other.key(ids[id]) == tree.key(id)
        &&& other.parent(ids[id]) == match tree.parent(id) {
            Some(parent) => Some(ids[parent]),
            None => None,
        }
        &&& other.children(ids[id]) == tree.children(id).map_values(|child: NodeId| ids[child])
    } by {
        lemma_twin_has(tree, middle, first, id);
        assert(middle.has(first[id]));
        match tree.parent(id) {
            Some(parent) => {
                assert(tree.has(parent));
            },
            None => {},
        }
        let through = tree.children(id).map_values(|child: NodeId| first[child]).map_values(
            |child: NodeId| second[child],
        );
        let straight = tree.children(id).map_values(|child: NodeId| ids[child]);
        assert(other.children(ids[id]) == through);
        assert forall|i: int| 0 <= i < straight.len() implies through[i] == straight[i] by {
            assert(tree.has(tree.children(id)[i]));
        }
        assert(through =~= straight);
    }
    match tree.root {
        Some(root) => {
            assert(tree.has(root));
        },
        None => {},
    }
    ids
}

/// A twin has its place among its siblings.
pub proof fn lemma_twin_place(
    tree: TreeModel,
    other: TreeModel,
    ids: Map<NodeId, NodeId>,
    parent: NodeId,
    child: NodeId,
)
    requires
        tree.forest(),
        tree.twinned(other, ids),
        tree.has(parent),
        tree.children(parent).contains(child),
    ensures
        other.children(ids[parent]).len() == tree.children(parent).len(),
        other.children(ids[parent]).index_of(ids[child]) == tree.children(parent).index_of(child),
        other.children(ids[parent]).contains(ids[child]),
        0 <= tree.children(parent).index_of(child) < tree.children(parent).len(),
        tree.children(parent)[tree.children(parent).index_of(child)] == child,
{
    let mine = tree.children(parent);
    let theirs = other.children(ids[parent]);
    let i = mine.index_of(child);
    assert(mine[i] == child);
    assert(theirs[i] == ids[child]);
    assert(theirs.contains(ids[child]));
    let j = theirs.index_of(ids[child]);
    assert(theirs[j] == ids[child]);
    assert(ids[mine[j]] == ids[child]);
    assert(tree.has(mine[j]) && tree.has(mine[i]));
    assert(ids.dom().contains(mine[j]) && ids.dom().contains(child));
    assert(mine[j] == child);
    assert(mine.no_duplicates());
    assert(i == j);
}

/// What is above a twin are the twins of what is above the node.
pub proof fn lemma_twin_ancestor(
    tree: TreeModel,
    other: TreeModel,
    ids: Map<NodeId, NodeId>,
    id: NodeId,
    steps: nat,
)
    requires
        tree.forest(),
        tree.twinned(other, ids),
        tree.has(id),
    ensures
        other.ancestor(ids[id], steps) == match tree.ancestor(id, steps) {
            Some(top) => Some(ids[top]),
            None => None,
        },
        tree.ancestor(id, steps) matches Some(top) ==> tree.has(top),
    decreases steps,
{
    lemma_twin_has(tree, other, ids, id);
    if steps > 0 {
        match tree.parent(id) {
            Some(parent) => {
                assert(tree.has(parent));
                lemma_twin_ancestor(tree, other, ids, parent, (steps - 1) as nat);
            },
            None => {},
        }
    }
}

/// Twins are below each other where the nodes are.
pub proof fn lemma_twin_below(
    tree: TreeModel,
    other: TreeModel,
    ids: Map<NodeId, NodeId>,
    low: NodeId,
    top: NodeId,
)
    requires
        tree.forest(),
        tree.twinned(other, ids),
        tree.has(low),
        tree.has(top),
    ensures
        other.below(ids[low], ids[top]) == tree.below(low, top),
{
    if tree.below(low, top) {
        let steps = choose|steps: nat| #[trigger] tree.ancestor(low, steps) == Some(top);
        lemma_twin_ancestor(tree, other, ids, low, steps);
        assert(other.ancestor(ids[low], steps) == Some(ids[top]));
    }
    if other.below(ids[low], ids[top]) {
        let steps = choose|steps: nat| #[trigger]
            other.ancestor(ids[low], steps) == Some(ids[top]);
        lemma_twin_ancestor(tree, other, ids, low, steps);
        let found = tree.ancestor(low, steps)->0;
        assert(tree.has(found));
        assert(ids.dom().contains(found) && ids.dom().contains(top));
        assert(found == top);
    }
}

/// Something lies next to a twin where it lies next to the node, if groups have the same
/// orientations.
pub proof fn lemma_twin_adjacent(
    tree: TreeModel,
    other: TreeModel,
    ids: Map<NodeId, NodeId>,
    id: NodeId,
    direction: Direction,
)
    requires
        tree.forest(),
        tree.groups_branch(),
        tree.twinned(other, ids),
        tree.has(id),
        forall|node: NodeId| #[trigger]
            tree.has(node) && tree.data(node) is Group ==> other.data(ids[node]).spec_orientation()
                == tree.data(node).spec_orientation(),
    ensures
        other.adjacent(ids[id], direction) == tree.adjacent(id, direction),
{
    let rank = choose|rank: Map<NodeId, nat>| tree.ranked(rank);
    assert forall|level: nat|
        tree.neighbour_at(id, level, direction) == #[trigger] other.neighbour_at(
            ids[id],
            level,
            direction,
        ) by {
        lemma_twin_ancestor(tree, other, ids, id, level);
        lemma_twin_ancestor(tree, other, ids, id, level + 1);
        match tree.ancestor(id, level + 1) {
            Some(parent) => {
                lemma_ancestor_rank(tree, rank, id, level);
                lemma_ancestor_add(tree, id, level, 1);
                let child = tree.ancestor(id, level)->0;
                assert(tree.ancestor(child, 1) == tree.ancestor(tree.parent(child)->0, 0));
                assert(tree.parent(child) == Some(parent));
                assert(tree.has(child) && tree.has(parent));
                assert(tree.children(parent).contains(child));
                assert(tree.children(parent).len() > 0);
                lemma_twin_place(tree, other, ids, parent, child);
            },
            None => {},
        }
    }
    if tree.adjacent(id, direction) {
        let level = choose|level: nat| #[trigger] tree.neighbour_at(id, level, direction);
        assert(other.neighbour_at(ids[id], level, direction));
    }
    if other.adjacent(ids[id], direction) {
        let level = choose|level: nat| #[trigger] other.neighbour_at(ids[id], level, direction);
        assert(tree.neighbour_at(id, level, direction));
    }
}

/// Another child in the place of one, in both trees.
proof fn lemma_twin_replaced(
    tree: TreeModel,
    other: TreeModel,
    ids: Map<NodeId, NodeId>,
    parent: NodeId,
    old_id: NodeId,
    new_id: NodeId,
)
    requires
        tree.forest(),
        tree.twinned(other, ids),
        tree.has(parent),
        tree.children(parent).contains(old_id),
    ensures
        with_id_replaced(other.children(ids[parent]), ids[old_id], ids[new_id])
            == with_id_replaced(tree.children(parent), old_id, new_id).map_values(
            |child: NodeId| ids[child],
        ),
{
    lemma_twin_place(tree, other, ids, parent, old_id);
    assert(with_id_replaced(other.children(ids[parent]), ids[old_id], ids[new_id])
        =~= with_id_replaced(tree.children(parent), old_id, new_id).map_values(
        |child: NodeId| ids[child],
    ));
}

/// Exchanging twins gives the twin of the tree in which the nodes were exchanged.
pub proof fn lemma_exchanged_twin(
    tree: TreeModel,
    other: TreeModel,
    ids: Map<NodeId, NodeId>,
    first: NodeId,
    second: NodeId,
)
    requires
        tree.forest(),
        tree.twinned(other, ids),
        tree.has(first),
        tree.has(second),
        !tree.below(first, second),
        !tree.below(second, first),
    ensures
        tree.exchanged(first, second).twinned(
            other.exchanged(ids[first], ids[second]),
            ids,
        ),
{
    let mine = tree.exchanged(first, second);
    let theirs = other.exchanged(ids[first], ids[second]);
    lemma_below_self(tree, first);
    lemma_twin_below(tree, other, ids, first, second);
    lemma_twin_below(tree, other, ids, second, first);
    lemma_twin_has(tree, other, ids, first);
    lemma_twin_has(tree, other, ids, second);
    assert(ids.dom().contains(first) && ids.dom().contains(second));
    assert(ids[first] != ids[second]);
    match (tree.parent(first), tree.parent(second)) {
        (Some(one), Some(two)) => {
            assert(tree.has(first) && tree.has(second));
            assert(tree.has(one) && tree.has(two));
            assert(tree.children(one).contains(first) && tree.children(two).contains(second));
            lemma_twin_has(tree, other, ids, one);
            lemma_twin_has(tree, other, ids, two);
            assert(ids.dom().contains(one) && ids.dom().contains(two));
            lemma_twin_place(tree, other, ids, one, first);
            lemma_twin_place(tree, other, ids, two, second);
            assert(mine.nodes.dom() =~= tree.nodes.dom());
            assert(theirs.nodes.dom() =~= other.nodes.dom());
            if one == two {
                let children = tree.children(one);
                let swapped = children.update(children.index_of(first), second).update(
                    children.index_of(second),
                    first,
                );
                let twins = other.children(ids[one]);
                assert(twins.update(twins.index_of(ids[first]), ids[second]).update(
                    twins.index_of(ids[second]),
                    ids[first],
                ) =~= swapped.map_values(|child: NodeId| ids[child]));
                assert forall|id: NodeId| #[trigger] mine.has(id) implies {
                    &&& theirs.key(ids[id]) == mine.key(id)
                    &&& theirs.parent(ids[id]) == match mine.parent(id) {
                        Some(parent) => Some(ids[parent]),
                        None => None,
                    }
                    &&& theirs.children(ids[id]) == mine.children(id).map_values(
                        |child: NodeId| ids[child],
                    )
                } by {
                    assert(tree.has(id));
                    assert(ids.dom().contains(id));
                }
            } else {
                lemma_twin_replaced(tree, other, ids, one, first, second);
                lemma_twin_replaced(tree, other, ids, two, second, first);
                assert forall|id: NodeId| #[trigger] mine.has(id) implies {
                    &&& theirs.key(ids[id]) == mine.key(id)
                    &&& theirs.parent(ids[id]) == match mine.parent(id) {
                        Some(parent) => Some(ids[parent]),
                        None => None,
                    }
                    &&& theirs.children(ids[id]) == mine.children(id).map_values(
                        |child: NodeId| ids[child],
                    )
                } by {
                    assert(tree.has(id));
                    assert(ids.dom().contains(id));
                }
            }
        },
        _ => {},
    }
}

/// A twin is found by the same key.
pub proof fn lemma_twin_keyed(
    tree: TreeModel,
    other: TreeModel,
    ids: Map<NodeId, NodeId>,
    id: NodeId,
)
    requires
        tree.keyed(),
        tree.twinned(other, ids),
        tree.has(id),
    ensures
        other.has_key(tree.key(id)),
        other.node_keyed(tree.key(id)) == ids[id],
        tree.node_keyed(tree.key(id)) == id,
{
    let key = tree.key(id);
    lemma_twin_has(tree, other, ids, id);
    assert(other.has(ids[id]) && other.key(ids[id]) == key);
    assert(other.has_key(key));
    let found = other.node_keyed(key);
    assert(other.has(found) && other.key(found) == key);
    lemma_twin_of(tree, other, ids, found);
    let source = choose|source: NodeId| #[trigger] tree.has(source) && ids[source] == found;
    lemma_twin_has(tree, other, ids, source);
    assert(tree.key(source) == key);
    assert(source == id);
    assert(tree.has_key(key)) by {
        assert(tree.has(id) && tree.key(id) == key);
    }
    let mine = tree.node_keyed(key);
    assert(tree.has(mine) && tree.key(mine) == key);
}

} // verus!
