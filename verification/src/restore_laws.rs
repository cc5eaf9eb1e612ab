//! What holds of a window that comes back to where it was.

use vstd::prelude::*;

use id_tree::NodeId;

use crate::balance::lemma_sound;
use crate::drops::lemma_below_leaf;
use crate::extent_laws::law_the_others_share_what_a_child_leaves;
use crate::lineage::{lemma_below_self, lemma_parent_not_below};
use crate::tree::{without_id, NodeModel, NodeView, TreeModel};

verus! {

/// What is left of a tree without a window that was one of three or more in its group.
proof fn lemma_unmapped_from_many(tree: TreeModel, id: NodeId, group: NodeId)
    requires
        tree.settled(),
        tree.has(id),
        !(tree.data(id) is Group),
        tree.parent(id) == Some(group),
        tree.data(group)->sizes.len() > 2,
    ensures
        ({
            let rest = tree.unmapped(id);
            let at = tree.children(group).index_of(id);
            &&& tree.has(group)
            &&& group != id
            &&& 0 <= at < tree.children(group).len()
            &&& tree.children(group)[at] == id
            &&& rest.root == tree.root
            &&& rest.nodes.dom() == tree.nodes.dom().remove(id)
            &&& rest.nodes[group].parent == tree.nodes[group].parent
            &&& rest.children(group) == tree.children(group).remove(at)
            &&& rest.key(group) == tree.key(group)
            &&& rest.data(group) == tree.data(group).without_child(at)
            &&& forall|node: NodeId| #[trigger]
                rest.has(node) && node != group ==> rest.nodes[node] == tree.nodes[node]
        }),
{
    lemma_sound(tree);
    lemma_parent_not_below(tree, id, group);
    lemma_below_self(tree, id);
    assert(tree.has(group) && tree.children(group).contains(id));
    assert(tree.root != Some(id));
    let rest = tree.unmapped(id);
    assert forall|node: NodeId| #[trigger] tree.below(node, id) implies node == id by {
        lemma_below_leaf(tree, node, id);
    }
    assert(rest.nodes.dom() =~= tree.nodes.dom().remove(id));
    assert(rest.children(group) == without_id(tree.children(group), id));
}

/// A window that was one of three or more in its group comes back to the place that it had
/// there: the group has its children in the same order, and every other node is as it was. If
/// the children shared all of the group's area, they have the extents that they had.
pub proof fn law_window_returns_to_its_group(tree: TreeModel, id: NodeId, back: NodeId, item: NodeView)
    requires
        tree.settled(),
        tree.keyed(),
        tree.has(id),
        !(tree.data(id) is Group),
        tree.place_of(id) matches Some(state) && state.parent is Some,
        tree.data(tree.parent(id)->0)->sizes.len() > 2,
        tree.children(tree.parent(id)->0).len() <= usize::MAX,
        !tree.unmapped(id).has(back),
    ensures
        ({
            let group = tree.parent(id)->0;
            let state = tree.place_of(id)->0;
            let rest = tree.unmapped(id);
            let after = rest.restored_in(back, item, group, state);
            &&& rest.restorable(state)
            &&& rest.restoring_group(state) == Some(tree.key(group))
            &&& rest.node_keyed(tree.key(group)) == group
            &&& after.root == tree.root
            &&& after.nodes.dom() == tree.nodes.dom().remove(id).insert(back)
            &&& after.children(group) == tree.children(group).update(
                tree.children(group).index_of(id),
                back,
            )
            &&& after.parent(group) == tree.parent(group)
            &&& tree.data(group).filled() ==> after.data(group) == tree.data(group)
            &&& after.nodes[back] == (NodeModel { item, parent: Some(group), children: seq![] })
            &&& forall|node: NodeId| #[trigger]
                tree.has(node) && node != id && node != group ==> after.nodes[node]
                    == tree.nodes[node]
        }),
{
    let group = tree.parent(id)->0;
    let state = tree.place_of(id)->0;
    let rest = tree.unmapped(id);
    let after = rest.restored_in(back, item, group, state);
    lemma_unmapped_from_many(tree, id, group);
    lemma_sound(tree);
    let children = tree.children(group);
    let at = children.index_of(id);
    assert(tree.data(group) is Group) by {
        assert(tree.excess(group) == 0);
    }
    assert(tree.excess(group) == 0);
    assert(tree.data(group)->sizes.len() == children.len());
    let less = rest.children(group);
    assert(state.idx as int == at);
    assert(rest.has(group) && group != back);
    assert(rest.has_key(tree.key(group))) by {
        assert(rest.has(group) && rest.key(group) == tree.key(group));
    }
    let found = rest.node_keyed(tree.key(group));
    assert(rest.has(found) && rest.key(found) == tree.key(group));
    assert(found == group) by {
        assert(tree.nodes.dom().contains(found));
        assert(tree.has(found));
        if found != group {
            assert(rest.nodes[found] == tree.nodes[found]);
            assert(tree.key(found) == tree.key(group));
        }
    }
    assert(!less.contains(back)) by {
        if less.contains(back) {
            let i = less.index_of(back);
            let j = if i < at {
                i
            } else {
                i + 1
            };
            assert(children[j] == back);
            assert(tree.has(children[j]));
            assert(children.no_duplicates());
            assert(back != id);
            assert(rest.nodes.dom().contains(back));
        }
    }
    let grown = less.push(back);
    assert(grown[less.len() as int] == back);
    assert(grown.contains(back));
    let place = grown.index_of(back);
    assert(place == less.len()) by {
        if place < less.len() {
            assert(less[place] == back);
            assert(less.contains(back));
        }
    }
    assert(without_id(grown, back) =~= less);
    assert(less.insert(at, back) =~= children.update(at, back));
    assert(after.nodes.dom() =~= tree.nodes.dom().remove(id).insert(back));
    assert(after.children(group) == children.update(at, back));
    if tree.data(group).filled() {
        law_the_others_share_what_a_child_leaves(tree.data(group), at);
    }
    assert forall|node: NodeId| #[trigger]
        tree.has(node) && node != id && node != group implies after.nodes[node]
        == tree.nodes[node] by {
        assert(rest.nodes.dom().contains(node));
        assert(rest.has(node));
        assert(node != back);
    }
}

} // verus!
