//! The tree of groups and windows, kept in an `id_tree::Tree`.
//!
//! Nodes of a tree are found by `id_tree::NodeId`s, which belong to that tree alone. A node also
//! has a key, which it keeps in every copy of the tree.
//!
//! The functions here that call `id_tree` are trusted: their contracts say what each call does
//! to the nodes that a tree holds and to its root.

use vstd::prelude::*;

use id_tree::{NodeId, Tree};

use crate::data::{Data, DataView};

verus! {

/// `id_tree::Tree`, a tree of nodes that hold values of one type.
#[verifier::external_type_specification]
#[verifier::external_body]
#[verifier::reject_recursive_types(T)]
pub struct ExTree<T>(id_tree::Tree<T>);

/// `id_tree::NodeId`, by which a tree finds a node.
#[verifier::external_type_specification]
#[verifier::external_body]
pub struct ExNodeId(id_tree::NodeId);

/// What a node of the tiling tree holds, and the key by which it is known in every copy of the
/// tree.
#[derive(Debug)]
pub struct TreeNode {
    pub key: u64,
    pub data: Data,
}

/// A node, as the contracts speak of it.
#[verifier::ext_equal]
pub struct NodeView {
    pub key: u64,
    pub data: DataView,
}

impl View for TreeNode {
    type V = NodeView;

    open spec fn view(&self) -> NodeView {
        NodeView { key: self.key, data: self.data@ }
    }
}

impl Clone for TreeNode {
    fn clone(&self) -> (copy: Self)
        ensures
            copy@ == self@,
    {
        TreeNode { key: self.key, data: self.data.clone() }
    }
}

/// A node with its place in the tree.
#[verifier::ext_equal]
pub struct NodeModel {
    pub item: NodeView,
    pub parent: Option<NodeId>,
    pub children: Seq<NodeId>,
}

/// A tree: its nodes, and the one that is its root.
#[verifier::ext_equal]
pub struct TreeModel {
    pub nodes: Map<NodeId, NodeModel>,
    pub root: Option<NodeId>,
}

/// The nodes that a tree holds.
pub uninterp spec fn tree_nodes(tree: Tree<TreeNode>) -> Map<NodeId, NodeModel>;

/// The root of a tree.
pub uninterp spec fn tree_root(tree: Tree<TreeNode>) -> Option<NodeId>;

/// The tree that an `id_tree::Tree` is.
pub open spec fn model(tree: Tree<TreeNode>) -> TreeModel {
    TreeModel { nodes: tree_nodes(tree), root: tree_root(tree) }
}

/// `ids` without `id`.
pub open spec fn without_id(ids: Seq<NodeId>, id: NodeId) -> Seq<NodeId> {
    if ids.contains(id) {
        ids.remove(ids.index_of(id))
    } else {
        ids
    }
}

/// `ids` with `new` in the place of `old`.
pub open spec fn with_id_replaced(ids: Seq<NodeId>, old_id: NodeId, new_id: NodeId) -> Seq<NodeId> {
    if ids.contains(old_id) {
        ids.update(ids.index_of(old_id), new_id)
    } else {
        ids
    }
}

/// Whether `order` visits the nodes `pending` and all nodes below them, each before its
/// children and children from the first to the last.
pub open spec fn visits(nodes: Map<NodeId, NodeModel>, pending: Seq<NodeId>, order: Seq<NodeId>) -> bool
    decreases order.len(),
{
    if order.len() == 0 {
        pending.len() == 0
    } else {
        &&& pending.len() > 0
        &&& order[0] == pending[0]
        &&& nodes.contains_key(pending[0])
        &&& visits(nodes, nodes[pending[0]].children + pending.skip(1), order.skip(1))
    }
}

impl TreeModel {
    /// The empty tree.
    pub open spec fn empty() -> TreeModel {
        TreeModel { nodes: Map::empty(), root: None }
    }

    /// Whether the tree has the node `id`.
    pub open spec fn has(self, id: NodeId) -> bool {
        self.nodes.contains_key(id)
    }

    /// What a node holds.
    pub open spec fn data(self, id: NodeId) -> DataView {
        self.nodes[id].item.data
    }

    /// The key of a node.
    pub open spec fn key(self, id: NodeId) -> u64 {
        self.nodes[id].item.key
    }

    /// The parent of a node.
    pub open spec fn parent(self, id: NodeId) -> Option<NodeId> {
        self.nodes[id].parent
    }

    /// The children of a node.
    pub open spec fn children(self, id: NodeId) -> Seq<NodeId> {
        self.nodes[id].children
    }

    /// The node `steps` levels above a node.
    pub open spec fn ancestor(self, id: NodeId, steps: nat) -> Option<NodeId>
        decreases steps,
    {
        if steps == 0 {
            Some(id)
        } else if !self.has(id) {
            None
        } else {
            match self.parent(id) {
                Some(parent) => self.ancestor(parent, (steps - 1) as nat),
                None => None,
            }
        }
    }

    /// Whether `id` is `top` or stands below it.
    pub open spec fn below(self, id: NodeId, top: NodeId) -> bool {
        exists|steps: nat| #[trigger] self.ancestor(id, steps) == Some(top)
    }

    /// Whether every node is numbered higher than its parent.
    pub open spec fn ranked(self, rank: Map<NodeId, nat>) -> bool {
        forall|id: NodeId| #[trigger]
            self.has(id) ==> match self.parent(id) {
                Some(parent) => rank[parent] < rank[id],
                None => true,
            }
    }

    /// Whether parents and children agree, no node is below itself, and the root has no
    /// parent.
    pub open spec fn forest(self) -> bool {
        &&& self.nodes.dom().finite()
        &&& match self.root {
            Some(root) => self.has(root) && self.parent(root) is None,
            None => true,
        }
        &&& forall|id: NodeId, i: int|
            #![trigger self.children(id)[i]]
            self.has(id) && 0 <= i < self.children(id).len() ==> self.has(self.children(id)[i])
                && self.parent(self.children(id)[i]) == Some(id)
        &&& forall|id: NodeId| #[trigger]
            self.has(id) ==> self.children(id).no_duplicates() && match self.parent(id) {
                Some(parent) => self.has(parent) && self.children(parent).contains(id),
                None => true,
            }
        &&& exists|rank: Map<NodeId, nat>| self.ranked(rank)
    }

    /// The tree with other contents in a node.
    pub open spec fn with_item(self, id: NodeId, item: NodeView) -> TreeModel {
        TreeModel {
            nodes: self.nodes.insert(id, NodeModel { item, ..self.nodes[id] }),
            root: self.root,
        }
    }

    /// The tree with other data in a node.
    pub open spec fn with_data(self, id: NodeId, data: DataView) -> TreeModel {
        self.with_item(id, NodeView { key: self.key(id), data })
    }

    /// The tree with another parent recorded for a node.
    pub open spec fn with_parent(self, id: NodeId, parent: Option<NodeId>) -> TreeModel {
        TreeModel {
            nodes: self.nodes.insert(id, NodeModel { parent, ..self.nodes[id] }),
            root: self.root,
        }
    }

    /// The tree with other children recorded for a node.
    pub open spec fn with_children(self, id: NodeId, children: Seq<NodeId>) -> TreeModel {
        TreeModel {
            nodes: self.nodes.insert(id, NodeModel { children, ..self.nodes[id] }),
            root: self.root,
        }
    }

    /// The tree with `id` as the last child of `parent`.
    pub open spec fn attached(self, id: NodeId, parent: NodeId) -> TreeModel {
        self.with_children(parent, self.children(parent).push(id)).with_parent(id, Some(parent))
    }

    /// The tree with `id` no longer among the children of its parent.
    pub open spec fn detached(self, id: NodeId) -> TreeModel {
        match self.parent(id) {
            Some(parent) => self.with_children(parent, without_id(self.children(parent), id)),
            None => self,
        }
    }

    /// The tree with a new node above the root.
    pub open spec fn rooted(self, id: NodeId, item: NodeView) -> TreeModel {
        let grown = TreeModel {
            nodes: self.nodes.insert(id, NodeModel { item, parent: None, children: seq![] }),
            root: Some(id),
        };
        match self.root {
            Some(root) => grown.attached(root, id),
            None => grown,
        }
    }

    /// The tree with a new node as the last child of `parent`.
    pub open spec fn grown(self, id: NodeId, item: NodeView, parent: NodeId) -> TreeModel {
        (TreeModel {
            nodes: self.nodes.insert(id, NodeModel { item, parent: None, children: seq![] }),
            root: self.root,
        }).attached(id, parent)
    }

    /// The tree without `id` and everything below it.
    pub open spec fn pruned(self, id: NodeId) -> TreeModel {
        let cut = self.detached(id);
        TreeModel {
            nodes: cut.nodes.restrict(Set::new(|other: NodeId| !self.below(other, id))),
            root: if self.root == Some(id) {
                None
            } else {
                self.root
            },
        }
    }

    /// The tree without the node `id`, whose children are left without a parent.
    pub open spec fn orphaned(self, id: NodeId) -> TreeModel {
        let cut = self.detached(id);
        let nodes = Map::new(
            |other: NodeId| cut.has(other) && other != id,
            |other: NodeId|
                if cut.parent(other) == Some(id) {
                    NodeModel { parent: None, ..cut.nodes[other] }
                } else {
                    cut.nodes[other]
                },
        );
        TreeModel {
            nodes,
            root: if self.root == Some(id) {
                None
            } else {
                self.root
            },
        }
    }

    /// The tree without the node `id`, whose children become the last children of its parent.
    pub open spec fn lifted(self, id: NodeId) -> TreeModel {
        let nodes = Map::new(
            |other: NodeId| self.has(other) && other != id,
            |other: NodeId|
                if self.parent(id) == Some(other) {
                    NodeModel {
                        children: without_id(self.children(other), id) + self.children(id),
                        ..self.nodes[other]
                    }
                } else if self.parent(other) == Some(id) {
                    NodeModel { parent: self.parent(id), ..self.nodes[other] }
                } else {
                    self.nodes[other]
                },
        );
        TreeModel {
            nodes,
            root: if self.root == Some(id) {
                None
            } else {
                self.root
            },
        }
    }

    /// The tree with `id` as its root, where it had none.
    pub open spec fn moved_to_root(self, id: NodeId) -> TreeModel {
        TreeModel { root: Some(id), ..self.detached(id).with_parent(id, None) }
    }

    /// The child of `top` that `id` is or stands below.
    pub open spec fn branch(self, id: NodeId, top: NodeId) -> NodeId {
        choose|child: NodeId|
            self.has(child) && self.parent(child) == Some(top) && #[trigger] self.below(id, child)
    }

    /// The tree with `id` as the last child of `parent`. Where `parent` is below the root `id`,
    /// the branch that leads to it becomes the root first.
    pub open spec fn moved_to_parent(self, id: NodeId, parent: NodeId) -> TreeModel {
        if self.below(parent, id) {
            let top = self.branch(parent, id);
            (TreeModel {
                root: Some(top),
                ..self.detached(top).with_parent(top, None)
            }).attached(id, parent)
        } else {
            self.detached(id).attached(id, parent)
        }
    }

    /// The tree with `id` moved to the given place among the children of its parent, or to the
    /// last one.
    pub open spec fn at_sibling(self, id: NodeId, position: int) -> TreeModel {
        match self.parent(id) {
            Some(parent) => {
                let rest = without_id(self.children(parent), id);
                let place = if position < rest.len() {
                    position
                } else {
                    rest.len() as int
                };
                self.with_children(parent, rest.insert(place, id))
            },
            None => self,
        }
    }

    /// The tree with `lower` in the place of `upper`, which it is below, and `upper` as the
    /// last child of `lower`.
    pub open spec fn raised(self, lower: NodeId, upper: NodeId) -> TreeModel {
        let cut = self.detached(lower).with_parent(lower, self.parent(upper));
        let placed = match self.parent(upper) {
            Some(parent) => cut.with_children(
                parent,
                with_id_replaced(cut.children(parent), upper, lower),
            ),
            None => TreeModel {
                root: if self.root == Some(upper) {
                    Some(lower)
                } else {
                    self.root
                },
                ..cut
            },
        };
        placed.attached(upper, lower)
    }

    /// The tree with two nodes, and all below them, exchanged. If one is below the other, it
    /// takes the place of the other, which becomes its last child.
    pub open spec fn exchanged(self, first: NodeId, second: NodeId) -> TreeModel {
        if first == second {
            self
        } else if self.below(first, second) {
            self.raised(first, second)
        } else if self.below(second, first) {
            self.raised(second, first)
        } else {
            match (self.parent(first), self.parent(second)) {
                (Some(one), Some(other)) => if one == other {
                    let children = self.children(one);
                    self.with_children(
                        one,
                        children.update(children.index_of(first), second).update(
                            children.index_of(second),
                            first,
                        ),
                    )
                } else {
                    self.with_parent(first, Some(other)).with_parent(
                        second,
                        Some(one),
                    ).with_children(
                        one,
                        with_id_replaced(self.children(one), first, second),
                    ).with_children(other, with_id_replaced(self.children(other), second, first))
                },
                _ => self,
            }
        }
    }

    /// Whether `other` is this tree with other ids, which `ids` gives.
    pub open spec fn renamed(self, other: TreeModel, ids: Map<NodeId, NodeId>) -> bool {
        &&& ids.dom() == self.nodes.dom()
        &&& ids.is_injective()
        &&& other.nodes.dom() == ids.values()
        &&& other.root == match self.root {
            Some(root) => Some(ids[root]),
            None => None,
        }
        &&& forall|id: NodeId| #[trigger]
            self.has(id) ==> {
                &&& other.nodes[ids[id]].item == self.nodes[id].item
                &&& other.nodes[ids[id]].parent == match self.parent(id) {
                    Some(parent) => Some(ids[parent]),
                    None => None,
                }
                &&& other.nodes[ids[id]].children == self.children(id).map_values(
                    |child: NodeId| ids[child],
                )
            }
    }
}

/// `id_tree::Tree::new`: a tree without nodes.
#[verifier::external_body]
pub(crate) fn new_tree() -> (tree: Tree<TreeNode>)
    ensures
        tree_nodes(tree) == TreeModel::empty().nodes,
        tree_root(tree) is None,
{
    Tree::new()
}

/// `id_tree::Tree::clone`: a tree of the same shape with the same contents, whose nodes have
/// other ids.
#[verifier::external_body]
pub(crate) fn copy_tree(tree: &Tree<TreeNode>) -> (copy: Tree<TreeNode>)
    ensures
        exists|ids: Map<NodeId, NodeId>| model(*tree).renamed(model(copy), ids),
{
    tree.clone()
}

/// `id_tree::NodeId::clone`: the same id.
#[verifier::external_body]
pub(crate) fn copy_id(id: &NodeId) -> (copy: NodeId)
    ensures
        copy == *id,
{
    id.clone()
}

/// `id_tree::NodeId::eq`: whether two ids are the same.
#[verifier::external_body]
pub(crate) fn same_id(first: &NodeId, second: &NodeId) -> (same: bool)
    ensures
        same == (*first == *second),
{
    first == second
}

/// `id_tree::Tree::root_node_id`: the root.
#[verifier::external_body]
pub(crate) fn root_id(tree: &Tree<TreeNode>) -> (root: Option<NodeId>)
    ensures
        root == tree_root(*tree),
{
    tree.root_node_id().cloned()
}

/// `id_tree::Tree::get`: the contents of a node, if the tree has it.
#[verifier::external_body]
pub(crate) fn get_node<'a>(tree: &'a Tree<TreeNode>, id: &NodeId) -> (node: Option<&'a TreeNode>)
    ensures
        match node {
            Some(found) => model(*tree).has(*id) && found@ == model(*tree).nodes[*id].item,
            None => !model(*tree).has(*id),
        },
{
    tree.get(id).ok().map(|node| node.data())
}

/// `id_tree::Tree::get_mut`: the contents of a node, to change them.
#[verifier::external_body]
pub(crate) fn get_node_mut<'a>(tree: &'a mut Tree<TreeNode>, id: &NodeId) -> (node: Option<
    &'a mut TreeNode,
>)
    ensures
        match node {
            Some(found) => model(*old(tree)).has(*id) && found@ == model(
                *old(tree),
            ).nodes[*id].item && model(*final(tree)) == model(*old(tree)).with_item(
                *id,
                final(found)@,
            ),
            None => !model(*old(tree)).has(*id) && model(*final(tree)) == model(*old(tree)),
        },
{
    tree.get_mut(id).ok().map(|node| node.data_mut())
}

/// `id_tree::Node::parent`: the parent of a node.
#[verifier::external_body]
pub(crate) fn parent_id(tree: &Tree<TreeNode>, id: &NodeId) -> (parent: Option<NodeId>)
    ensures
        parent == if model(*tree).has(*id) {
            model(*tree).parent(*id)
        } else {
            None
        },
{
    tree.get(id).ok().and_then(|node| node.parent()).cloned()
}

/// `id_tree::Tree::children_ids`: the children of a node.
#[verifier::external_body]
pub(crate) fn child_ids(tree: &Tree<TreeNode>, id: &NodeId) -> (children: Vec<NodeId>)
    requires
        model(*tree).has(*id),
    ensures
        children@ == model(*tree).children(*id),
{
    tree.children_ids(id).unwrap().cloned().collect()
}

/// `id_tree::Tree::traverse_pre_order_ids`: a node and everything below it, each node once and
/// before its children.
#[verifier::external_body]
pub(crate) fn preorder_ids(tree: &Tree<TreeNode>, id: &NodeId) -> (order: Vec<NodeId>)
    requires
        model(*tree).forest(),
        model(*tree).has(*id),
    ensures
        visits(model(*tree).nodes, seq![*id], order@),
        order@.no_duplicates(),
        forall|other: NodeId|
            #![trigger order@.contains(other)]
            #![trigger model(*tree).below(other, *id)]
            order@.contains(other) == (model(*tree).has(other) && model(*tree).below(other, *id)),
{
    tree.traverse_pre_order_ids(id).unwrap().collect()
}

/// `id_tree::Tree::insert` with `InsertBehavior::AsRoot`: a new node above the root.
#[verifier::external_body]
pub(crate) fn insert_root(tree: &mut Tree<TreeNode>, node: TreeNode) -> (id: NodeId)
    requires
        model(*old(tree)).forest(),
    ensures
        !model(*old(tree)).has(id),
        model(*final(tree)) == model(*old(tree)).rooted(id, node@),
        model(*final(tree)).forest(),
{
    tree.insert(id_tree::Node::new(node), id_tree::InsertBehavior::AsRoot).unwrap()
}

/// `id_tree::Tree::insert` with `InsertBehavior::UnderNode`: a new last child.
#[verifier::external_body]
pub(crate) fn insert_under(tree: &mut Tree<TreeNode>, node: TreeNode, parent: &NodeId) -> (id: NodeId)
    requires
        model(*old(tree)).forest(),
        model(*old(tree)).has(*parent),
    ensures
        !model(*old(tree)).has(id),
        model(*final(tree)) == model(*old(tree)).grown(id, node@, *parent),
        model(*final(tree)).forest(),
{
    tree.insert(id_tree::Node::new(node), id_tree::InsertBehavior::UnderNode(parent)).unwrap()
}

/// `id_tree::Tree::remove_node` with `RemoveBehavior::DropChildren`: takes away a node and
/// everything below it.
#[verifier::external_body]
pub(crate) fn remove_subtree(tree: &mut Tree<TreeNode>, id: &NodeId)
    requires
        model(*old(tree)).forest(),
        model(*old(tree)).has(*id),
    ensures
        model(*final(tree)) == model(*old(tree)).pruned(*id),
        model(*final(tree)).forest(),
{
    let _ = tree.remove_node(id.clone(), id_tree::RemoveBehavior::DropChildren);
}

/// `id_tree::Tree::remove_node` with `RemoveBehavior::OrphanChildren`: takes away a node and
/// leaves its children without a parent.
#[verifier::external_body]
pub(crate) fn remove_orphaning(tree: &mut Tree<TreeNode>, id: &NodeId)
    requires
        model(*old(tree)).forest(),
        model(*old(tree)).has(*id),
    ensures
        model(*final(tree)) == model(*old(tree)).orphaned(*id),
        model(*final(tree)).forest(),
{
    let _ = tree.remove_node(id.clone(), id_tree::RemoveBehavior::OrphanChildren);
}

/// `id_tree::Tree::remove_node` with `RemoveBehavior::LiftChildren`: takes away a node and
/// gives its children to its parent.
#[verifier::external_body]
pub(crate) fn remove_lifting(tree: &mut Tree<TreeNode>, id: &NodeId)
    requires
        model(*old(tree)).forest(),
        model(*old(tree)).has(*id),
    ensures
        model(*final(tree)) == model(*old(tree)).lifted(*id),
        model(*final(tree)).forest(),
{
    let _ = tree.remove_node(id.clone(), id_tree::RemoveBehavior::LiftChildren);
}

/// `id_tree::Tree::move_node` with `MoveBehavior::ToRoot`, for a tree without a root: makes a
/// node the root.
#[verifier::external_body]
pub(crate) fn move_to_root(tree: &mut Tree<TreeNode>, id: &NodeId)
    requires
        model(*old(tree)).forest(),
        model(*old(tree)).has(*id),
        model(*old(tree)).root is None,
    ensures
        model(*final(tree)) == model(*old(tree)).moved_to_root(*id),
        model(*final(tree)).forest(),
{
    let _ = tree.move_node(id, id_tree::MoveBehavior::ToRoot);
}

/// `id_tree::Tree::move_node` with `MoveBehavior::ToParent`: makes a node the last child of
/// another one. The root is only moved below itself, and other nodes are not.
#[verifier::external_body]
pub(crate) fn move_to_parent(tree: &mut Tree<TreeNode>, id: &NodeId, parent: &NodeId)
    requires
        model(*old(tree)).forest(),
        model(*old(tree)).has(*id),
        model(*old(tree)).has(*parent),
        *id != *parent,
        model(*old(tree)).below(*parent, *id) == (model(*old(tree)).root == Some(*id)),
    ensures
        model(*final(tree)) == model(*old(tree)).moved_to_parent(*id, *parent),
        model(*final(tree)).forest(),
{
    let _ = tree.move_node(id, id_tree::MoveBehavior::ToParent(parent));
}

/// `id_tree::Tree::make_nth_sibling`: moves a node among the children of its parent.
#[verifier::external_body]
pub(crate) fn make_nth_sibling(tree: &mut Tree<TreeNode>, id: &NodeId, position: usize)
    requires
        model(*old(tree)).forest(),
        model(*old(tree)).has(*id),
    ensures
        model(*final(tree)) == model(*old(tree)).at_sibling(*id, position as int),
        model(*final(tree)).forest(),
{
    let _ = tree.make_nth_sibling(id, position);
}

/// `id_tree::Tree::swap_nodes` with `SwapBehavior::TakeChildren`: exchanges two nodes with
/// everything below them. Both are below the root.
#[verifier::external_body]
pub(crate) fn swap_nodes(tree: &mut Tree<TreeNode>, first: &NodeId, second: &NodeId)
    requires
        model(*old(tree)).forest(),
        model(*old(tree)).has(*first),
        model(*old(tree)).has(*second),
        forall|id: NodeId| #[trigger]
            model(*old(tree)).has(id) && model(*old(tree)).parent(id) is None ==> model(
                *old(tree),
            ).root == Some(id),
    ensures
        model(*final(tree)) == model(*old(tree)).exchanged(*first, *second),
        model(*final(tree)).forest(),
{
    let _ = tree.swap_nodes(first, second, id_tree::SwapBehavior::TakeChildren);
}

} // verus!
