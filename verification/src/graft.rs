//! Taking parts of one tiling tree over into another.

use vstd::prelude::*;

use id_tree::{NodeId, Tree};

use crate::balance::{lemma_data_balance, lemma_sound, one_if};
use crate::classic::{lemma_below_root, lemma_child};
use crate::data::{Data, DataView, Window};
use crate::geometry::Rectangle;
use crate::lineage::{
    lemma_ancestor_rank, lemma_below_cases, lemma_below_parent, lemma_below_self, lemma_below_trans,
    lemma_parent_not_below, lemma_same_ancestors,
};
use crate::surgery::{lemma_forest_with_data, position_of};
use crate::tree::{
    child_ids, copy_id, get_node, get_node_mut, insert_under, model, preorder_ids, remove_subtree,
    swap_nodes, visits, with_id_replaced, NodeModel, TreeModel, TreeNode,
};

verus! {

/// The ids that stand for some ids in another tree.
pub open spec fn mapped_ids(ids: Map<NodeId, NodeId>, nodes: Seq<NodeId>) -> Seq<NodeId> {
    nodes.map_values(|node: NodeId| ids[node])
}

impl TreeModel {
    /// The nodes below a node, and the node itself.
    pub open spec fn branch_of(self, top: NodeId) -> Set<NodeId> {
        Set::new(|id: NodeId| self.has(id) && self.below(id, top))
    }

    /// What stands for a node of another tree in this one.
    pub open spec fn transplant(self, node: NodeId, ids: Map<NodeId, NodeId>) -> NodeModel {
        NodeModel {
            item: self.nodes[node].item,
            parent: match self.parent(node) {
                Some(parent) => Some(ids[parent]),
                None => None,
            },
            children: mapped_ids(ids, self.children(node)),
        }
    }

    /// Whether `after` is this tree with everything that is below `from` in `source` added
    /// below `onto`. `ids` says which new nodes stand for which.
    pub open spec fn grafted(
        self,
        after: TreeModel,
        onto: NodeId,
        source: TreeModel,
        from: NodeId,
        ids: Map<NodeId, NodeId>,
    ) -> bool {
        &&& ids.dom() == source.branch_of(from)
        &&& ids[from] == onto
        &&& ids.is_injective()
        &&& forall|id: NodeId| #[trigger] ids.dom().contains(id) && id != from ==> !self.has(ids[id])
        &&& after.root == self.root
        &&& after.nodes.dom() == self.nodes.dom().union(ids.values())
        &&& forall|id: NodeId| #[trigger]
            self.has(id) ==> after.nodes[id] == if id == onto {
                NodeModel {
                    children: self.children(onto) + mapped_ids(ids, source.children(from)),
                    ..self.nodes[onto]
                }
            } else {
                self.nodes[id]
            }
        &&& forall|id: NodeId| #[trigger]
            ids.dom().contains(id) && id != from ==> after.nodes[ids[id]] == source.transplant(
                id,
                ids,
            )
    }

    /// The children of a node that were taken over so far: all of those of the nodes `done`,
    /// and the first ones of `current`.
    spec fn taken(self, done: Seq<NodeId>, current: NodeId, count: int, id: NodeId) -> Seq<NodeId> {
        if done.contains(id) {
            self.children(id)
        } else if id == current {
            self.children(id).take(count)
        } else {
            seq![]
        }
    }

    /// Whether a node was taken over together with some of the children of its parent.
    spec fn was_taken(self, done: Seq<NodeId>, current: NodeId, count: int, id: NodeId) -> bool {
        match self.parent(id) {
            Some(parent) => self.taken(done, current, count, parent).contains(id),
            None => false,
        }
    }

    /// Whether, so far, the children of `done` and the first ones of `current` were added.
    spec fn partly_grafted(
        self,
        after: TreeModel,
        onto: NodeId,
        source: TreeModel,
        from: NodeId,
        ids: Map<NodeId, NodeId>,
        done: Seq<NodeId>,
        current: NodeId,
        count: int,
    ) -> bool {
        &&& ids.dom().contains(from)
        &&& ids[from] == onto
        &&& ids.is_injective()
        &&& forall|id: NodeId| #[trigger]
            ids.dom().contains(id) ==> source.has(id) && source.below(id, from) && (id != from ==> (
            !self.has(ids[id]) && source.was_taken(done, current, count, id)))
        &&& forall|id: NodeId| #[trigger] done.contains(id) ==> ids.dom().contains(id)
        &&& forall|id: NodeId, k: int|
            #![trigger source.taken(done, current, count, id)[k]]
            0 <= k < source.taken(done, current, count, id).len() ==> ids.dom().contains(
                source.taken(done, current, count, id)[k],
            )
        &&& after.root == self.root
        &&& after.nodes.dom() == self.nodes.dom().union(ids.values())
        &&& forall|id: NodeId| #[trigger]
            self.has(id) ==> after.nodes[id] == if id == onto {
                NodeModel {
                    children: self.children(onto) + mapped_ids(
                        ids,
                        source.taken(done, current, count, from),
                    ),
                    ..self.nodes[onto]
                }
            } else {
                self.nodes[id]
            }
        &&& forall|id: NodeId| #[trigger]
            ids.dom().contains(id) && id != from ==> after.nodes[ids[id]] == NodeModel {
                children: mapped_ids(ids, source.taken(done, current, count, id)),
                ..source.transplant(id, ids)
            }
    }
}

/// Which nodes of a tree stand for which of another.
struct Table {
    source: Vec<NodeId>,
    target: Vec<NodeId>,
}

impl Table {
    spec fn holds(self, ids: Map<NodeId, NodeId>) -> bool {
        &&& self.source@.len() == self.target@.len()
        &&& forall|i: int|
            0 <= i < self.source@.len() ==> ids.dom().contains(#[trigger] self.source@[i])
                && ids[self.source@[i]] == self.target@[i]
        &&& forall|id: NodeId| #[trigger] ids.dom().contains(id) ==> self.source@.contains(id)
    }

    /// What stands for a node.
    fn lookup(&self, id: &NodeId, Ghost(ids): Ghost<Map<NodeId, NodeId>>) -> (found: NodeId)
        requires
            self.holds(ids),
            ids.dom().contains(*id),
        ensures
            found == ids[*id],
    {
        match position_of(&self.source, id) {
            Some(i) => copy_id(&self.target[i]),
            None => copy_id(id),
        }
    }
}

/// One more id stands for a node.
proof fn lemma_one_more_id(ids: Map<NodeId, NodeId>, child: NodeId, new_id: NodeId)
    requires
        ids.is_injective(),
        !ids.values().contains(new_id),
        !ids.dom().contains(child),
    ensures
        ids.insert(child, new_id).is_injective(),
        ids.insert(child, new_id).values() == ids.values().insert(new_id),
        ids.insert(child, new_id).dom() == ids.dom().insert(child),
{
    let more = ids.insert(child, new_id);
    assert forall|a: NodeId, b: NodeId|
        a != b && more.dom().contains(a) && more.dom().contains(b) implies #[trigger] more[a]
        != #[trigger] more[b] by {
        if a == child {
            assert(ids.dom().contains(b));
            assert(ids.values().contains(ids[b]));
        } else if b == child {
            assert(ids.dom().contains(a));
            assert(ids.values().contains(ids[a]));
        } else {
            assert(ids[a] != ids[b]);
        }
    }
    assert forall|id: NodeId| more.values().contains(id) <==> #[trigger] ids.values().insert(
        new_id,
    ).contains(id) by {
        if more.values().contains(id) {
            let k = choose|k: NodeId| #[trigger] more.dom().contains(k) && more[k] == id;
            if k != child {
                assert(ids.dom().contains(k) && ids[k] == id);
            }
        }
        if ids.values().contains(id) {
            let k = choose|k: NodeId| #[trigger] ids.dom().contains(k) && ids[k] == id;
            assert(k != child);
            assert(more.dom().contains(k) && more[k] == id);
        }
        if id == new_id {
            assert(more.dom().contains(child) && more[child] == id);
        }
    }
    assert(more.values() =~= ids.values().insert(new_id));
    assert(more.dom() =~= ids.dom().insert(child));
}

/// Ids that stand for the same nodes.
proof fn lemma_mapped_same(
    first: Map<NodeId, NodeId>,
    second: Map<NodeId, NodeId>,
    nodes: Seq<NodeId>,
)
    requires
        forall|k: int| 0 <= k < nodes.len() ==> first[#[trigger] nodes[k]] == second[nodes[k]],
    ensures
        mapped_ids(first, nodes) == mapped_ids(second, nodes),
{
    assert(mapped_ids(first, nodes) =~= mapped_ids(second, nodes));
}

/// The next child of `current` can be taken over: it was not yet.
proof fn lemma_not_yet(
    dst: TreeModel,
    now: TreeModel,
    onto: NodeId,
    source: TreeModel,
    from: NodeId,
    ids: Map<NodeId, NodeId>,
    done: Seq<NodeId>,
    current: NodeId,
    count: int,
)
    requires
        dst.partly_grafted(now, onto, source, from, ids, done, current, count),
        source.regular(),
        source.has(from),
        ids.dom().contains(current),
        !done.contains(current),
        0 <= count < source.children(current).len(),
    ensures
        ({
            let child = source.children(current)[count];
            &&& source.has(child)
            &&& source.parent(child) == Some(current)
            &&& source.below(child, from)
            &&& child != from
            &&& !ids.dom().contains(child)
        }),
{
    let child = source.children(current)[count];
    lemma_child(source, current, count);
    assert(source.forest()) by {
        reveal(TreeModel::regular);
    }
    assert(source.below(current, from));
    lemma_below_parent(source, child, from);
    lemma_parent_not_below(source, child, current);
    if child == from {
        assert(source.below(current, child));
    }
    if ids.dom().contains(child) {
        let before = source.children(current).take(count);
        assert(source.was_taken(done, current, count, child));
        assert(before.contains(child));
        let k = before.index_of(child);
        lemma_child(source, current, k);
        assert(source.children(current)[k] == child);
    }
}

/// Taking over one more child.
proof fn lemma_graft_step(
    dst: TreeModel,
    now: TreeModel,
    onto: NodeId,
    source: TreeModel,
    from: NodeId,
    ids: Map<NodeId, NodeId>,
    done: Seq<NodeId>,
    current: NodeId,
    count: int,
    new_id: NodeId,
)
    requires
        dst.partly_grafted(now, onto, source, from, ids, done, current, count),
        source.regular(),
        source.has(from),
        dst.has(onto),
        ids.dom().contains(current),
        !done.contains(current),
        0 <= count < source.children(current).len(),
        !now.has(new_id),
    ensures
        ({
            let child = source.children(current)[count];
            dst.partly_grafted(
                now.grown(new_id, source.nodes[child].item, ids[current]),
                onto,
                source,
                from,
                ids.insert(child, new_id),
                done,
                current,
                count + 1,
            )
        }),
{
    let child = source.children(current)[count];
    let target = ids[current];
    let item = source.nodes[child].item;
    let after = now.grown(new_id, item, target);
    let more = ids.insert(child, new_id);
    lemma_not_yet(dst, now, onto, source, from, ids, done, current, count);
    assert(!ids.values().contains(new_id)) by {
        if ids.values().contains(new_id) {
            assert(now.nodes.dom().contains(new_id));
        }
    }
    lemma_one_more_id(ids, child, new_id);
    assert(ids.values().contains(target)) by {
        assert(ids.dom().contains(current) && ids[current] == target);
    }
    assert(now.has(target)) by {
        assert(now.nodes.dom().contains(target));
    }
    assert(!dst.has(new_id)) by {
        if dst.has(new_id) {
            assert(now.nodes.dom().contains(new_id));
        }
    }
    assert(source.children(current).take(count + 1) =~= source.children(current).take(count).push(
        child,
    ));
    assert forall|id: NodeId|
        #![trigger source.taken(done, current, count + 1, id)]
        mapped_ids(more, source.taken(done, current, count + 1, id)) == if id == current {
            mapped_ids(ids, source.taken(done, current, count, id)).push(new_id)
        } else {
            mapped_ids(ids, source.taken(done, current, count, id))
        } by {
        let before = source.taken(done, current, count, id);
        assert forall|k: int| 0 <= k < before.len() implies ids[#[trigger] before[k]]
            == more[before[k]] by {
            assert(ids.dom().contains(source.taken(done, current, count, id)[k]));
        }
        lemma_mapped_same(ids, more, before);
        if id == current {
            assert(mapped_ids(more, before.push(child)) =~= mapped_ids(more, before).push(new_id));
        }
    }
    assert forall|id: NodeId| #[trigger] more.dom().contains(id) implies source.has(id)
        && source.below(id, from) && (id != from ==> (!dst.has(more[id]) && source.was_taken(
        done,
        current,
        count + 1,
        id,
    ))) by {
        let now_taken = source.taken(done, current, count + 1, current);
        if id == child {
            assert(now_taken[count] == child);
        } else {
            assert(ids.dom().contains(id));
            if id != from {
                let parent = source.parent(id)->0;
                if parent == current {
                    let before = source.taken(done, current, count, current);
                    let k = before.index_of(id);
                    assert(now_taken[k] == id);
                }
            }
        }
    }
    assert forall|id: NodeId, k: int|
        #![trigger source.taken(done, current, count + 1, id)[k]]
        0 <= k < source.taken(done, current, count + 1, id).len() implies more.dom().contains(
        source.taken(done, current, count + 1, id)[k],
    ) by {
        if id == current && k == count {
        } else {
            assert(source.taken(done, current, count, id)[k] == source.taken(
                done,
                current,
                count + 1,
                id,
            )[k]);
        }
    }
    assert(after.nodes.dom() =~= dst.nodes.dom().union(more.values()));
    assert forall|id: NodeId| #[trigger] dst.has(id) implies after.nodes[id] == if id == onto {
        NodeModel {
            children: dst.children(onto) + mapped_ids(
                more,
                source.taken(done, current, count + 1, from),
            ),
            ..dst.nodes[onto]
        }
    } else {
        dst.nodes[id]
    } by {
        assert(now.nodes.dom().contains(id));
        let _ = source.taken(done, current, count + 1, from);
        if id == target {
            if current != from {
                assert(!dst.has(ids[current]));
            }
            assert(after.nodes[id].children =~= dst.children(onto) + mapped_ids(
                more,
                source.taken(done, current, count + 1, from),
            ));
        } else if id == onto {
            assert(current != from);
        }
    }
    assert forall|id: NodeId| #[trigger]
        more.dom().contains(id) && id != from implies after.nodes[more[id]] == (NodeModel {
        children: mapped_ids(more, source.taken(done, current, count + 1, id)),
        ..source.transplant(id, more)
    }) by {
        if id == child {
            assert(!done.contains(child));
            assert(source.taken(done, current, count + 1, child) =~= seq![]);
            assert(after.nodes[new_id].children =~= mapped_ids(
                more,
                source.taken(done, current, count + 1, id),
            ));
            assert(more[current] == ids[current]);
        } else {
            assert(ids.dom().contains(id));
            assert(ids.values().contains(ids[id]));
            assert(now.nodes.dom().contains(ids[id]));
            let parent = source.parent(id)->0;
            assert(source.was_taken(done, current, count, id));
            assert(ids.dom().contains(parent)) by {
                assert(source.taken(done, current, count, parent).contains(id));
            }
            assert(more[parent] == ids[parent]);
            if id == current {
                assert(ids[id] == target);
            } else {
                assert(ids[id] != ids[current]);
            }
        }
    }
}

/// Every visited node but the first ones is a child of one that was visited before.
pub proof fn lemma_visits_parent(
    nodes: Map<NodeId, NodeModel>,
    pending: Seq<NodeId>,
    order: Seq<NodeId>,
    i: int,
)
    requires
        visits(nodes, pending, order),
        0 <= i < order.len(),
    ensures
        pending.contains(order[i]) || exists|j: int|
            0 <= j < i && nodes[#[trigger] order[j]].children.contains(order[i]),
    decreases order.len(),
{
    if i == 0 {
        assert(pending[0] == order[0]);
    } else {
        let next = nodes[pending[0]].children + pending.skip(1);
        lemma_visits_parent(nodes, next, order.skip(1), i - 1);
        assert(order.skip(1)[i - 1] == order[i]);
        if next.contains(order[i]) {
            let k = next.index_of(order[i]);
            if k < nodes[pending[0]].children.len() {
                assert(nodes[order[0]].children[k] == order[i]);
                assert(nodes[order[0]].children.contains(order[i]));
            } else {
                assert(pending[k - nodes[pending[0]].children.len() + 1] == order[i]);
            }
        } else {
            let j = choose|j: int|
                0 <= j < i - 1 && nodes[#[trigger] order.skip(1)[j]].children.contains(
                    order.skip(1)[i - 1],
                );
            assert(order[j + 1] == order.skip(1)[j]);
            assert(nodes[order[j + 1]].children.contains(order[i]));
        }
    }
}

/// Adds copies of everything that is below `from` in `source` below `onto`.
pub(crate) fn graft(
    tree: &mut Tree<TreeNode>,
    onto: &NodeId,
    source: &Tree<TreeNode>,
    from: &NodeId,
)
    requires
        model(*old(tree)).forest(),
        model(*old(tree)).has(*onto),
        model(*source).regular(),
        model(*source).has(*from),
    ensures
        exists|ids: Map<NodeId, NodeId>| #[trigger]
            model(*old(tree)).grafted(model(*final(tree)), *onto, model(*source), *from, ids),
        model(*final(tree)).forest(),
{
    let ghost dst = model(*tree);
    let ghost src = model(*source);
    assert(src.forest()) by {
        reveal(TreeModel::regular);
    }
    let order: Vec<NodeId> = preorder_ids(source, from);
    let mut table = Table { source: Vec::new(), target: Vec::new() };
    table.source.push(copy_id(from));
    table.target.push(copy_id(onto));
    let ghost mut ids: Map<NodeId, NodeId> = Map::empty().insert(*from, *onto);
    let mut i: usize = 0;
    proof {
        lemma_below_self(src, *from);
        assert(table.source@[0] == *from);
        assert(table.holds(ids));
        assert(dst.nodes.dom() =~= dst.nodes.dom().union(ids.values())) by {
            assert forall|id: NodeId| ids.values().contains(id) implies #[trigger] dst.has(id) by {
                let k = choose|k: NodeId| #[trigger] ids.dom().contains(k) && ids[k] == id;
            }
        }
        assert(order@.take(0) =~= seq![]);
        assert(dst.children(*onto) + mapped_ids(ids, seq![]) =~= dst.children(*onto));
        assert(dst.partly_grafted(dst, *onto, src, *from, ids, order@.take(0), *from, 0)) by {
            assert(src.taken(order@.take(0), *from, 0, *from) =~= seq![]);
        }
    }
    while i < order.len()
        invariant
            i <= order@.len(),
            dst.has(*onto),
            src == model(*source),
            src.regular(),
            src.has(*from),
            visits(src.nodes, seq![*from], order@),
            order@.no_duplicates(),
            model(*tree).forest(),
            table.holds(ids),
            dst.partly_grafted(
                model(*tree),
                *onto,
                src,
                *from,
                ids,
                order@.take(i as int),
                *from,
                0,
            ),
        decreases order@.len() - i,
    {
        let ghost done = order@.take(i as int);
        let node: NodeId = copy_id(&order[i]);
        proof {
            lemma_known(dst, model(*tree), *onto, src, *from, ids, order@, i as int);
            lemma_start(dst, model(*tree), *onto, src, *from, ids, done, node);
        }
        let target: NodeId = table.lookup(&node, Ghost(ids));
        let children: Vec<NodeId> = child_ids(source, &node);
        let mut k: usize = 0;
        while k < children.len()
            invariant
                k <= children@.len(),
                dst.has(*onto),
                src == model(*source),
                src.regular(),
                src.has(*from),
                children@ == src.children(node),
                !done.contains(node),
                ids.dom().contains(node),
                target == ids[node],
                model(*tree).forest(),
                table.holds(ids),
                dst.partly_grafted(
                    model(*tree),
                    *onto,
                    src,
                    *from,
                    ids,
                    done,
                    node,
                    k as int,
                ),
            decreases children@.len() - k,
        {
            let ghost now = model(*tree);
            let ghost child = children@[k as int];
            proof {
                lemma_not_yet(dst, now, *onto, src, *from, ids, done, node, k as int);
                assert(ids.values().contains(target));
                assert(now.nodes.dom().contains(target));
            }
            match get_node(source, &children[k]) {
                Some(found) => {
                    let new_id: NodeId = insert_under(tree, found.clone(), &target);
                    proof {
                        lemma_graft_step(
                            dst,
                            now,
                            *onto,
                            src,
                            *from,
                            ids,
                            done,
                            node,
                            k as int,
                            new_id,
                        );
                    }
                    let ghost old_source = table.source@;
                    table.source.push(copy_id(&children[k]));
                    table.target.push(new_id);
                    proof {
                        let more = ids.insert(child, new_id);
                        assert forall|id: NodeId| #[trigger]
                            more.dom().contains(id) implies table.source@.contains(id) by {
                            if id == child {
                                assert(table.source@[old_source.len() as int] == child);
                            } else {
                                assert(ids.dom().contains(id));
                                let j = old_source.index_of(id);
                                assert(table.source@[j] == id);
                            }
                        }
                        assert forall|j: int| 0 <= j < table.source@.len() implies more.dom().contains(
                            #[trigger] table.source@[j],
                        ) && more[table.source@[j]] == table.target@[j] by {
                            if j < old_source.len() {
                                assert(ids.dom().contains(old_source[j]));
                            }
                        }
                        ids = more;
                    }
                },
                None => {},
            }
            k += 1;
        }
        proof {
            lemma_next_node(dst, model(*tree), *onto, src, *from, ids, order@, i as int);
        }
        i += 1;
    }
    proof {
        assert(order@.take(order@.len() as int) =~= order@);
        lemma_all_grafted(dst, model(*tree), *onto, src, *from, ids, order@);
    }
}

/// The next node to visit was taken over with its parent.
proof fn lemma_known(
    dst: TreeModel,
    now: TreeModel,
    onto: NodeId,
    source: TreeModel,
    from: NodeId,
    ids: Map<NodeId, NodeId>,
    order: Seq<NodeId>,
    i: int,
)
    requires
        dst.partly_grafted(now, onto, source, from, ids, order.take(i), from, 0),
        visits(source.nodes, seq![from], order),
        order.no_duplicates(),
        0 <= i < order.len(),
    ensures
        ids.dom().contains(order[i]),
        !order.take(i).contains(order[i]),
{
    let done = order.take(i);
    lemma_visits_parent(source.nodes, seq![from], order, i);
    if seq![from].contains(order[i]) {
        assert(order[i] == from);
    } else {
        let j = choose|j: int|
            0 <= j < i && source.nodes[#[trigger] order[j]].children.contains(order[i]);
        assert(done[j] == order[j]);
        assert(done.contains(order[j]));
        let taken = source.taken(done, from, 0, order[j]);
        let k = taken.index_of(order[i]);
        assert(taken[k] == order[i]);
    }
    if done.contains(order[i]) {
        let k = done.index_of(order[i]);
        assert(order[k] == order[i]);
    }
}

/// Before any of its children was taken over, it makes no difference whose turn it is.
proof fn lemma_start(
    dst: TreeModel,
    now: TreeModel,
    onto: NodeId,
    source: TreeModel,
    from: NodeId,
    ids: Map<NodeId, NodeId>,
    done: Seq<NodeId>,
    current: NodeId,
)
    requires
        dst.partly_grafted(now, onto, source, from, ids, done, from, 0),
    ensures
        dst.partly_grafted(now, onto, source, from, ids, done, current, 0),
{
    assert forall|id: NodeId| #[trigger]
        source.taken(done, current, 0, id) == source.taken(done, from, 0, id) by {
        assert(source.taken(done, current, 0, id) =~= source.taken(done, from, 0, id));
    }
    assert forall|id: NodeId, k: int|
        #![trigger source.taken(done, current, 0, id)[k]]
        0 <= k < source.taken(done, current, 0, id).len() implies ids.dom().contains(
        source.taken(done, current, 0, id)[k],
    ) by {
        assert(source.taken(done, from, 0, id)[k] == source.taken(done, current, 0, id)[k]);
    }
}

/// Once all of its children were taken over, a node is done.
proof fn lemma_next_node(
    dst: TreeModel,
    now: TreeModel,
    onto: NodeId,
    source: TreeModel,
    from: NodeId,
    ids: Map<NodeId, NodeId>,
    order: Seq<NodeId>,
    i: int,
)
    requires
        0 <= i < order.len(),
        dst.partly_grafted(
            now,
            onto,
            source,
            from,
            ids,
            order.take(i),
            order[i],
            source.children(order[i]).len() as int,
        ),
        ids.dom().contains(order[i]),
    ensures
        dst.partly_grafted(now, onto, source, from, ids, order.take(i + 1), from, 0),
{
    let node = order[i];
    let done = order.take(i);
    let more = order.take(i + 1);
    let count = source.children(node).len() as int;
    assert forall|id: NodeId| #[trigger] more.contains(id) <==> done.contains(id) || id == node by {
        if done.contains(id) {
            let k = done.index_of(id);
            assert(more[k] == id);
        }
        assert(more[i] == node);
        if more.contains(id) && id != node {
            let k = more.index_of(id);
            assert(done[k] == id);
        }
    }
    assert forall|id: NodeId| #[trigger]
        source.taken(more, from, 0, id) == source.taken(done, node, count, id) by {
        assert(source.taken(more, from, 0, id) =~= source.taken(done, node, count, id));
    }
    assert forall|id: NodeId, k: int|
        #![trigger source.taken(more, from, 0, id)[k]]
        0 <= k < source.taken(more, from, 0, id).len() implies ids.dom().contains(
        source.taken(more, from, 0, id)[k],
    ) by {
        assert(source.taken(done, node, count, id)[k] == source.taken(more, from, 0, id)[k]);
    }
}

/// Once all nodes are done, the whole branch was taken over.
proof fn lemma_all_grafted(
    dst: TreeModel,
    after: TreeModel,
    onto: NodeId,
    source: TreeModel,
    from: NodeId,
    ids: Map<NodeId, NodeId>,
    order: Seq<NodeId>,
)
    requires
        dst.partly_grafted(after, onto, source, from, ids, order, from, 0),
        forall|id: NodeId| #[trigger]
            order.contains(id) == (source.has(id) && source.below(id, from)),
    ensures
        dst.grafted(after, onto, source, from, ids),
{
    assert(ids.dom() =~= source.branch_of(from)) by {
        assert forall|id: NodeId| ids.dom().contains(id) <==> #[trigger] source.branch_of(
            from,
        ).contains(id) by {
            assert(order.contains(id) == (source.has(id) && source.below(id, from)));
        }
    }
    assert(order.contains(from)) by {
        assert(ids.dom().contains(from));
        assert(order.contains(from) == (source.has(from) && source.below(from, from)));
    }
    assert forall|id: NodeId| #[trigger]
        ids.dom().contains(id) && id != from implies after.nodes[ids[id]] == source.transplant(
        id,
        ids,
    ) by {
        assert(order.contains(id) == (source.has(id) && source.below(id, from)));
    }
}

impl TreeModel {
    /// The tree without the first `count` children of a node, and everything below them.
    pub open spec fn without_children(self, id: NodeId, count: int) -> TreeModel {
        TreeModel {
            nodes: Map::new(
                |node: NodeId|
                    self.has(node) && forall|k: int|
                        0 <= k < count ==> !self.below(node, #[trigger] self.children(id)[k]),
                |node: NodeId|
                    if node == id {
                        NodeModel { children: self.children(id).skip(count), ..self.nodes[id] }
                    } else {
                        self.nodes[node]
                    },
            ),
            root: self.root,
        }
    }

    /// The tree without everything below a node.
    pub open spec fn cleared(self, id: NodeId) -> TreeModel {
        self.without_children(id, self.children(id).len() as int)
    }
}

/// What stands above a node that is left stood above it before.
proof fn lemma_same_below(tree: TreeModel, id: NodeId, count: int, node: NodeId, top: NodeId)
    requires
        tree.regular(),
        tree.has(id),
        0 <= count <= tree.children(id).len(),
        tree.without_children(id, count).has(node),
    ensures
        tree.without_children(id, count).below(node, top) <==> tree.below(node, top),
{
    let rest = tree.without_children(id, count);
    reveal(TreeModel::regular);
    let rank = choose|rank: Map<NodeId, nat>| tree.ranked(rank);
    assert forall|steps: nat| #[trigger] tree.ancestor(node, steps) == rest.ancestor(
        node,
        steps,
    ) by {
        assert forall|k: nat| k < steps implies match #[trigger] tree.ancestor(node, k) {
            Some(upper) => tree.has(upper) == rest.has(upper) && (tree.has(upper) ==> tree.parent(
                upper,
            ) == rest.parent(upper)),
            None => true,
        } by {
            lemma_ancestor_rank(tree, rank, node, k);
            match tree.ancestor(node, k) {
                Some(upper) => {
                    assert(tree.below(node, upper));
                    assert forall|j: int| 0 <= j < count implies !tree.below(
                        upper,
                        #[trigger] tree.children(id)[j],
                    ) by {
                        if tree.below(upper, tree.children(id)[j]) {
                            lemma_below_trans(tree, node, upper, tree.children(id)[j]);
                        }
                    }
                    assert(rest.has(upper));
                },
                None => {},
            }
        }
        lemma_same_ancestors(tree, rest, node, steps);
    }
    if tree.below(node, top) {
        let steps = choose|steps: nat| #[trigger] tree.ancestor(node, steps) == Some(top);
        assert(rest.ancestor(node, steps) == Some(top));
    }
    if rest.below(node, top) {
        let steps = choose|steps: nat| #[trigger] rest.ancestor(node, steps) == Some(top);
        assert(tree.ancestor(node, steps) == Some(top));
    }
}

/// A child is not below its siblings, and neither is its parent.
proof fn lemma_child_apart(tree: TreeModel, id: NodeId, index: int, other: int)
    requires
        tree.regular(),
        tree.has(id),
        0 <= index < tree.children(id).len(),
        0 <= other < tree.children(id).len(),
    ensures
        !tree.below(id, tree.children(id)[index]),
        index != other ==> !tree.below(tree.children(id)[index], tree.children(id)[other]),
{
    lemma_child(tree, id, index);
    lemma_child(tree, id, other);
    assert(tree.forest()) by {
        reveal(TreeModel::regular);
    }
    lemma_parent_not_below(tree, tree.children(id)[index], id);
    lemma_parent_not_below(tree, tree.children(id)[other], id);
    if index != other && tree.below(tree.children(id)[index], tree.children(id)[other]) {
        lemma_below_cases(tree, tree.children(id)[index], tree.children(id)[other]);
    }
}

/// Cutting off the next child.
proof fn lemma_clear_step(tree: TreeModel, id: NodeId, count: int)
    requires
        tree.regular(),
        tree.has(id),
        0 <= count < tree.children(id).len(),
    ensures
        ({
            let rest = tree.without_children(id, count);
            let child = tree.children(id)[count];
            &&& rest.has(child)
            &&& rest.has(id)
            &&& rest.children(id).len() > 0
            &&& rest.children(id)[0] == child
            &&& rest.pruned(child) == tree.without_children(id, count + 1)
        }),
{
    let rest = tree.without_children(id, count);
    let more = tree.without_children(id, count + 1);
    let child = tree.children(id)[count];
    lemma_child(tree, id, count);
    assert forall|k: int| 0 <= k < count implies !tree.below(
        child,
        #[trigger] tree.children(id)[k],
    ) && !tree.below(id, tree.children(id)[k]) by {
        lemma_child_apart(tree, id, count, k);
        lemma_child_apart(tree, id, k, count);
    }
    assert(rest.has(child) && rest.has(id));
    let cut = rest.detached(child);
    let after = rest.pruned(child);
    let kids = tree.children(id).skip(count);
    assert(rest.children(id) == kids);
    assert(rest.parent(child) == Some(id)) by {
        lemma_child_apart(tree, id, count, count);
        assert(child != id) by {
            if child == id {
                lemma_below_self(tree, id);
            }
        }
    }
    assert(kids[0] == child);
    assert(kids.contains(child));
    assert(kids.index_of(child) == 0) by {
        let k = kids.index_of(child);
        assert(tree.children(id)[count + k] == child);
        lemma_child(tree, id, count + k);
    }
    assert(kids.remove(0) =~= tree.children(id).skip(count + 1));
    lemma_child_apart(tree, id, count, count);
    assert forall|node: NodeId| #[trigger] after.has(node) == more.has(node) by {
        if rest.has(node) {
            lemma_same_below(tree, id, count, node, child);
        }
        assert(cut.has(node) == rest.has(node));
        if more.has(node) {
            assert forall|k: int| 0 <= k < count implies !tree.below(
                node,
                #[trigger] tree.children(id)[k],
            ) by {}
            assert(rest.has(node));
            assert(!tree.below(node, tree.children(id)[count]));
        }
        if after.has(node) {
            assert(rest.has(node) && !rest.below(node, child));
            assert forall|k: int| 0 <= k < count + 1 implies !tree.below(
                node,
                #[trigger] tree.children(id)[k],
            ) by {}
        }
    }
    assert(after.nodes.dom() =~= more.nodes.dom()) by {
        assert forall|node: NodeId| after.nodes.dom().contains(node)
            == #[trigger] more.nodes.dom().contains(node) by {
            assert(after.has(node) == more.has(node));
        }
    }
    assert forall|node: NodeId| #[trigger] more.nodes.contains_key(node) implies after.nodes[node]
        == more.nodes[node] by {
        assert(after.has(node));
        assert(rest.has(node));
    }
    assert(after.nodes =~= more.nodes);
    assert(tree.root != Some(child)) by {
        reveal(TreeModel::regular);
    }
}

/// Removes everything below a node.
pub(crate) fn clear_children(tree: &mut Tree<TreeNode>, id: &NodeId)
    requires
        model(*old(tree)).regular(),
        model(*old(tree)).has(*id),
    ensures
        model(*final(tree)) == model(*old(tree)).cleared(*id),
        model(*final(tree)).forest(),
{
    let ghost shape = model(*tree);
    let children: Vec<NodeId> = child_ids(tree, id);
    let mut k: usize = 0;
    proof {
        assert(shape.without_children(*id, 0).nodes =~= shape.nodes) by {
            assert(shape.children(*id).skip(0) =~= shape.children(*id));
        }
        assert(shape.forest()) by {
            reveal(TreeModel::regular);
        }
    }
    while k < children.len()
        invariant
            k <= children@.len(),
            shape.regular(),
            shape.has(*id),
            children@ == shape.children(*id),
            model(*tree) == shape.without_children(*id, k as int),
            model(*tree).forest(),
        decreases children@.len() - k,
    {
        proof {
            lemma_clear_step(shape, *id, k as int);
        }
        remove_subtree(tree, &children[k]);
        k += 1;
    }
}

impl TreeModel {
    /// Whether no node of this tree has the key of a node of the other.
    pub open spec fn keys_apart(self, other: TreeModel) -> bool {
        forall|one: NodeId, two: NodeId|
            #![trigger self.key(one), other.key(two)]
            self.has(one) && other.has(two) ==> self.key(one) != other.key(two)
    }

    /// Whether `after` is this tree with the contents of `from` and everything below it in
    /// `source`, in the place of what `node` held.
    pub open spec fn replaced_by(
        self,
        after: TreeModel,
        node: NodeId,
        source: TreeModel,
        from: NodeId,
    ) -> bool {
        exists|ids: Map<NodeId, NodeId>| #[trigger]
            self.cleared(node).with_data(node, source.data(from)).grafted(
                after,
                node,
                source,
                from,
                ids,
            )
    }
}

/// A node without what was below it has all its room left.
proof fn lemma_cleared_balance(tree: TreeModel, id: NodeId)
    requires
        tree.settled(),
        tree.has(id),
    ensures
        ({
            let rest = tree.cleared(id);
            &&& rest.has(id)
            &&& rest.connected()
            &&& rest.groups_of(2)
            &&& rest.nodes[id].item == tree.nodes[id].item
            &&& rest.children(id).len() == 0
            &&& forall|node: NodeId| #[trigger]
                rest.has(node) ==> tree.has(node) && rest.nodes[node].item
                    == tree.nodes[node].item && (node != id ==> rest.excess(node) == 0)
            &&& tree.keyed() ==> rest.keyed()
        }),
{
    let rest = tree.cleared(id);
    let count = tree.children(id).len() as int;
    lemma_sound(tree);
    assert forall|k: int| 0 <= k < count implies !tree.below(id, #[trigger] tree.children(id)[k]) by {
        lemma_child_apart(tree, id, k, k);
    }
    assert(rest.has(id));
    assert forall|node: NodeId| #[trigger] rest.has(node) && rest.parent(
        node,
    ) is None implies rest.root == Some(node) by {
        assert(tree.has(node));
    }
    assert forall|node: NodeId| #[trigger] rest.has(node) && rest.data(
        node,
    ) is Group implies rest.data(node)->sizes.len() >= 2 by {
        assert(tree.has(node));
    }
    assert forall|node: NodeId| #[trigger] rest.has(node) implies tree.has(node)
        && rest.nodes[node].item == tree.nodes[node].item && (node != id ==> rest.excess(node)
        == 0) by {
        assert(tree.excess(node) == 0);
    }
    if tree.keyed() {
        assert forall|first: NodeId, second: NodeId|
            #![trigger rest.key(first), rest.key(second)]
            rest.has(first) && rest.has(second) && rest.key(first) == rest.key(second) implies first
            == second by {
            assert(tree.key(first) == tree.key(second));
        }
    }
}

/// What was grafted has as much room as it had.
pub proof fn lemma_grafted_balance(
    dst: TreeModel,
    after: TreeModel,
    onto: NodeId,
    source: TreeModel,
    from: NodeId,
    ids: Map<NodeId, NodeId>,
)
    requires
        dst.grafted(after, onto, source, from, ids),
        dst.has(onto),
        source.forest(),
        source.has(from),
    ensures
        dst.connected() ==> after.connected(),
        forall|node: NodeId| #[trigger]
            after.has(node) ==> dst.has(node) || exists|id: NodeId| #[trigger]
                ids.dom().contains(id) && id != from && ids[id] == node,
        forall|node: NodeId| #[trigger]
            dst.has(node) ==> after.has(node) && after.nodes[node].item == dst.nodes[node].item
                && after.excess(node) == dst.excess(node) + one_if(node == onto) * source.children(
                from,
            ).len(),
        forall|id: NodeId| #[trigger]
            ids.dom().contains(id) && id != from ==> source.has(id) && after.has(ids[id])
                && after.nodes[ids[id]].item == source.nodes[id].item && after.excess(ids[id])
                == source.excess(id),
{
    lemma_below_self(source, from);
    assert(ids.dom().contains(from));
    assert forall|node: NodeId| #[trigger] after.has(node) implies dst.has(node) || exists|
        id: NodeId,
    | #[trigger]
        ids.dom().contains(id) && id != from && ids[id] == node by {
        assert(after.nodes.dom().contains(node));
        if !dst.has(node) {
            assert(ids.values().contains(node));
            let id = choose|id: NodeId| #[trigger] ids.dom().contains(id) && ids[id] == node;
            assert(id != from);
        }
    }
    assert forall|node: NodeId| #[trigger] dst.has(node) implies after.has(node)
        && after.nodes[node].item == dst.nodes[node].item && after.excess(node) == dst.excess(node)
        + one_if(node == onto) * source.children(from).len() by {
        assert(after.nodes.dom().contains(node));
        if node == onto {
            assert(one_if(node == onto) == 1);
        } else {
            assert(one_if(node == onto) == 0);
        }
    }
    assert forall|id: NodeId| #[trigger] ids.dom().contains(id) && id != from implies source.has(id)
        && after.has(ids[id]) && after.nodes[ids[id]].item == source.nodes[id].item && after.excess(
        ids[id],
    ) == source.excess(id) by {
        assert(source.branch_of(from).contains(id));
        assert(ids.values().contains(ids[id]));
        assert(after.nodes.dom().contains(ids[id]));
    }
    if dst.connected() {
        assert forall|node: NodeId| #[trigger] after.has(node) && after.parent(
            node,
        ) is None implies after.root == Some(node) by {
            if dst.has(node) {
                assert(dst.parent(node) is None);
            } else {
                let id = choose|id: NodeId| #[trigger]
                    ids.dom().contains(id) && id != from && ids[id] == node;
                assert(source.branch_of(from).contains(id));
                lemma_below_cases(source, id, from);
                assert(after.nodes[ids[id]] == source.transplant(id, ids));
            }
        }
    }
}

/// A tree with a branch of another one in the place of what a node held is settled if both
/// were.
proof fn lemma_replaced_settled(
    tree: TreeModel,
    after: TreeModel,
    node: NodeId,
    source: TreeModel,
    from: NodeId,
    ids: Map<NodeId, NodeId>,
)
    requires
        tree.settled(),
        tree.has(node),
        source.settled(),
        source.has(from),
        tree.cleared(node).with_data(node, source.data(from)).grafted(
            after,
            node,
            source,
            from,
            ids,
        ),
        after.forest(),
    ensures
        after.settled(),
        tree.keyed() && source.keyed() && tree.keys_apart(source) ==> after.keyed(),
        forall|id: NodeId| #[trigger]
            after.has(id) ==> tree.has_key(after.key(id)) || source.has_key(after.key(id)),
{
    let rest = tree.cleared(node);
    let dst = rest.with_data(node, source.data(from));
    lemma_sound(tree);
    lemma_sound(source);
    lemma_sound(after);
    lemma_cleared_balance(tree, node);
    assert(dst.nodes.dom() =~= rest.nodes.dom());
    assert forall|id: NodeId| #[trigger] dst.has(id) implies rest.has(id) && tree.has(id)
        && dst.key(id) == tree.key(id) && (id != node ==> dst.nodes[id] == rest.nodes[id]) by {}
    assert(dst.connected()) by {
        assert forall|id: NodeId| #[trigger] dst.has(id) && dst.parent(
            id,
        ) is None implies dst.root == Some(id) by {
            assert(rest.has(id));
        }
    }
    lemma_grafted_balance(dst, after, node, source, from, ids);
    assert(source.excess(from) == 0);
    assert forall|id: NodeId| #[trigger] after.has(id) implies after.excess(id) == 0 && (after.data(
        id,
    ) is Group ==> after.data(id)->sizes.len() >= 2) by {
        if dst.has(id) {
            assert(rest.has(id));
            if id == node {
                assert(one_if(id == node) == 1);
            } else {
                assert(one_if(id == node) == 0);
            }
        } else {
            let old_id = choose|old_id: NodeId| #[trigger]
                ids.dom().contains(old_id) && old_id != from && ids[old_id] == id;
            assert(source.has(old_id));
        }
    }
    assert forall|id: NodeId| #[trigger] after.has(id) implies tree.has_key(after.key(id))
        || source.has_key(after.key(id)) by {
        if dst.has(id) {
            assert(tree.has(id) && tree.key(id) == after.key(id));
        } else {
            let old_id = choose|old_id: NodeId| #[trigger]
                ids.dom().contains(old_id) && old_id != from && ids[old_id] == id;
            assert(source.has(old_id) && source.key(old_id) == after.key(id));
        }
    }
    if tree.keyed() && source.keyed() && tree.keys_apart(source) {
        assert forall|first: NodeId, second: NodeId|
            #![trigger after.key(first), after.key(second)]
            after.has(first) && after.has(second) && after.key(first) == after.key(
                second,
            ) implies first == second by {
            if !dst.has(first) {
                let one = choose|one: NodeId| #[trigger]
                    ids.dom().contains(one) && one != from && ids[one] == first;
                assert(source.key(one) == after.key(first));
                if !dst.has(second) {
                    let two = choose|two: NodeId| #[trigger]
                        ids.dom().contains(two) && two != from && ids[two] == second;
                    assert(source.key(two) == after.key(second));
                } else {
                    assert(tree.key(second) != source.key(one));
                }
            } else if !dst.has(second) {
                let two = choose|two: NodeId| #[trigger]
                    ids.dom().contains(two) && two != from && ids[two] == second;
                assert(source.key(two) == after.key(second));
                assert(tree.key(first) != source.key(two));
            } else {
                assert(tree.key(first) == tree.key(second));
            }
        }
    }
}

/// Puts the contents of `from` and everything below it in `source` in the place of what `node`
/// holds.
pub fn replace_branch(tree: &mut Tree<TreeNode>, node: &NodeId, source: &Tree<TreeNode>, from: &NodeId)
    requires
        model(*old(tree)).settled(),
        model(*old(tree)).has(*node),
        model(*source).settled(),
        model(*source).has(*from),
    ensures
        model(*old(tree)).replaced_by(model(*final(tree)), *node, model(*source), *from),
        model(*final(tree)).settled(),
        model(*old(tree)).keyed() && model(*source).keyed() && model(*old(tree)).keys_apart(
            model(*source),
        ) ==> model(*final(tree)).keyed(),
        forall|id: NodeId| #[trigger]
            model(*final(tree)).has(id) ==> model(*old(tree)).has_key(model(*final(tree)).key(id))
                || model(*source).has_key(model(*final(tree)).key(id)),
{
    let ghost before = model(*tree);
    let ghost src = model(*source);
    assert(before.regular() && src.regular()) by {
        lemma_sound(before);
        lemma_sound(src);
    }
    clear_children(tree, node);
    let ghost rest = model(*tree);
    assert(rest.has(*node)) by {
        lemma_cleared_balance(before, *node);
    }
    match (get_node_mut(tree, node), get_node(source, from)) {
        (Some(found), Some(other)) => {
            found.data = other.data.clone();
        },
        _ => {},
    }
    let ghost dst = model(*tree);
    proof {
        assert(dst =~~= rest.with_data(*node, src.data(*from)));
        lemma_forest_with_data(rest, *node, src.data(*from));
    }
    graft(tree, node, source, from);
    proof {
        let ids = choose|ids: Map<NodeId, NodeId>| #[trigger]
            dst.grafted(model(*tree), *node, src, *from, ids);
        lemma_replaced_settled(before, model(*tree), *node, src, *from, ids);
    }
}

impl TreeModel {
    /// The windows among these nodes.
    pub open spec fn windows_of(self, order: Seq<NodeId>) -> Seq<u64>
        decreases order.len(),
    {
        if order.len() == 0 {
            seq![]
        } else {
            let rest = self.windows_of(order.drop_last());
            match self.data(order.last()) {
                DataView::Mapped { mapped, .. } => rest.push(mapped.id),
                _ => rest,
            }
        }
    }

    /// The tree with a window in the place of a node and everything below it.
    pub open spec fn with_window(self, node: NodeId, data: DataView) -> TreeModel {
        self.cleared(node).with_data(node, data)
    }
}

/// The windows in a node and below it, in the order of the tree.
pub fn windows_below(tree: &Tree<TreeNode>, node: &NodeId) -> (windows: Vec<u64>)
    requires
        model(*tree).settled(),
        model(*tree).has(*node),
    ensures
        exists|order: Seq<NodeId>| #[trigger]
            visits(model(*tree).nodes, seq![*node], order) && windows@ == model(*tree).windows_of(
                order,
            ),
{
    let ghost shape = model(*tree);
    proof {
        lemma_sound(shape);
    }
    let order: Vec<NodeId> = preorder_ids(tree, node);
    let mut windows: Vec<u64> = Vec::new();
    let mut i: usize = 0;
    assert(order@.take(0) =~= seq![]);
    while i < order.len()
        invariant
            i <= order@.len(),
            shape == model(*tree),
            forall|id: NodeId| #[trigger]
                order@.contains(id) == (shape.has(id) && shape.below(id, *node)),
            windows@ == shape.windows_of(order@.take(i as int)),
        decreases order@.len() - i,
    {
        assert(order@.take(i as int + 1).drop_last() =~= order@.take(i as int));
        assert(order@.contains(order@[i as int]));
        match get_node(tree, &order[i]) {
            Some(found) => match &found.data {
                Data::Mapped { mapped, .. } => {
                    windows.push(mapped.id);
                },
                _ => {},
            },
            None => {},
        }
        i += 1;
    }
    assert(order@.take(order@.len() as int) =~= order@);
    windows
}

/// Puts a window in the place of a node and everything below it.
pub fn replace_with_window(tree: &mut Tree<TreeNode>, node: &NodeId, window: Window, geometry: Rectangle)
    requires
        model(*old(tree)).settled(),
        model(*old(tree)).has(*node),
    ensures
        model(*final(tree)) == model(*old(tree)).with_window(
            *node,
            (DataView::Mapped { mapped: window, last_geometry: geometry, minimize_rect: None }),
        ),
        model(*final(tree)).settled(),
        model(*old(tree)).keyed() ==> model(*final(tree)).keyed(),
        forall|id: NodeId| #[trigger]
            model(*final(tree)).has(id) ==> model(*old(tree)).has_key(model(*final(tree)).key(id)),
{
    let ghost before = model(*tree);
    let ghost data = DataView::Mapped {
        mapped: window,
        last_geometry: geometry,
        minimize_rect: None,
    };
    assert(before.regular()) by {
        lemma_sound(before);
    }
    clear_children(tree, node);
    let ghost rest = model(*tree);
    proof {
        lemma_cleared_balance(before, *node);
    }
    match get_node_mut(tree, node) {
        Some(found) => {
            found.data = Data::Mapped {
                mapped: window,
                last_geometry: geometry,
                minimize_rect: None,
            };
        },
        None => {},
    }
    proof {
        let after = model(*tree);
        assert(after =~~= rest.with_data(*node, data));
        lemma_data_balance(rest, *node, data);
        lemma_sound(after);
        assert forall|id: NodeId| #[trigger] after.has(id) implies after.excess(id) == 0 by {
            assert(rest.has(id));
        }
        assert forall|id: NodeId| #[trigger] after.has(id) && after.data(
            id,
        ) is Group implies after.data(id)->sizes.len() >= 2 by {
            assert(rest.has(id));
        }
        if before.keyed() {
            assert forall|first: NodeId, second: NodeId|
                #![trigger after.key(first), after.key(second)]
                after.has(first) && after.has(second) && after.key(first) == after.key(
                    second,
                ) implies first == second by {
                assert(rest.has(first) && rest.has(second));
                assert(rest.key(first) == rest.key(second));
            }
        }
        assert forall|id: NodeId| #[trigger] after.has(id) implies before.has_key(
            after.key(id),
        ) by {
            assert(rest.has(id));
            assert(before.key(id) == after.key(id));
        }
    }
}

/// Exchanging two nodes leaves every node its contents and as many children.
proof fn lemma_swapped_nodes(tree: TreeModel, first: NodeId, second: NodeId, one: NodeId, other: NodeId)
    requires
        tree.has(first),
        tree.has(second),
        tree.has(one),
        tree.has(other),
        first != second,
        !tree.below(first, second),
        !tree.below(second, first),
        tree.parent(first) == Some(one),
        tree.parent(second) == Some(other),
        tree.children(one).contains(first),
        tree.children(other).contains(second),
    ensures
        ({
            let after = tree.exchanged(first, second);
            &&& after.root == tree.root
            &&& after.nodes.dom() == tree.nodes.dom()
            &&& forall|id: NodeId| #[trigger]
                after.has(id) ==> after.nodes[id].item == tree.nodes[id].item && after.children(
                    id,
                ).len() == tree.children(id).len() && (after.parent(id) is None <==> tree.parent(
                    id,
                ) is None)
        }),
{
    let after = tree.exchanged(first, second);
    assert(after.nodes.dom() =~= tree.nodes.dom());
    assert forall|id: NodeId| #[trigger] after.has(id) implies after.nodes[id].item
        == tree.nodes[id].item && after.children(id).len() == tree.children(id).len() && (
    after.parent(id) is None <==> tree.parent(id) is None) by {
        assert(tree.has(id));
        assert(with_id_replaced(tree.children(one), first, second).len() == tree.children(
            one,
        ).len());
        assert(with_id_replaced(tree.children(other), second, first).len() == tree.children(
            other,
        ).len());
    }
}

/// A tree in which two nodes changed places is as sound as it was.
proof fn lemma_swapped_settled(tree: TreeModel, first: NodeId, second: NodeId)
    requires
        tree.settled(),
        tree.has(first),
        tree.has(second),
        first != second,
        !tree.below(first, second),
        !tree.below(second, first),
        tree.exchanged(first, second).forest(),
    ensures
        tree.exchanged(first, second).settled(),
        tree.keyed() ==> tree.exchanged(first, second).keyed(),
        tree.same_items(tree.exchanged(first, second)),
{
    let after = tree.exchanged(first, second);
    assert(tree.parent(first) is Some && tree.parent(second) is Some && tree.has(
        tree.parent(first)->0,
    ) && tree.has(tree.parent(second)->0) && tree.children(tree.parent(first)->0).contains(first)
        && tree.children(tree.parent(second)->0).contains(second)) by {
        lemma_sound(tree);
        let rank = choose|rank: Map<NodeId, nat>| tree.ranked(rank);
        lemma_below_root(tree, first, rank);
        lemma_below_root(tree, second, rank);
    }
    lemma_swapped_nodes(tree, first, second, tree.parent(first)->0, tree.parent(second)->0);
    assert(tree.connected() && tree.balanced() && tree.groups_of(2)) by {
        lemma_sound(tree);
    }
    assert(after.connected()) by {
        assert forall|id: NodeId| #[trigger] after.has(id) && after.parent(
            id,
        ) is None implies after.root == Some(id) by {
            assert(tree.has(id));
        }
    }
    assert(after.balanced()) by {
        assert forall|id: NodeId| #[trigger] after.has(id) implies after.excess(id) == 0 by {
            assert(tree.has(id));
            assert(tree.excess(id) == 0);
        }
    }
    assert(after.groups_of(2)) by {
        assert forall|id: NodeId| #[trigger] after.has(id) && after.data(
            id,
        ) is Group implies after.data(id)->sizes.len() >= 2 by {
            assert(tree.has(id));
        }
    }
    lemma_sound(after);
    assert forall|id: NodeId| #[trigger] tree.has(id) implies tree.nodes[id].item
        == after.nodes[id].item by {
        assert(after.has(id));
    }
    if tree.keyed() {
        assert forall|a: NodeId, b: NodeId|
            #![trigger after.key(a), after.key(b)]
            after.has(a) && after.has(b) && after.key(a) == after.key(b) implies a == b by {
            assert(tree.key(a) == tree.key(b));
        }
    }
}

/// Exchanges two nodes of a tree, with everything below them. Neither stands below the other.
pub fn swap_in_tree(tree: &mut Tree<TreeNode>, first: &NodeId, second: &NodeId)
    requires
        model(*old(tree)).settled(),
        model(*old(tree)).has(*first),
        model(*old(tree)).has(*second),
        *first != *second,
        !model(*old(tree)).below(*first, *second),
        !model(*old(tree)).below(*second, *first),
    ensures
        model(*final(tree)) == model(*old(tree)).exchanged(*first, *second),
        model(*final(tree)).settled(),
        model(*old(tree)).keyed() ==> model(*final(tree)).keyed(),
        model(*old(tree)).same_items(model(*final(tree))),
{
    let ghost before = model(*tree);
    proof {
        lemma_sound(before);
    }
    swap_nodes(tree, first, second);
    proof {
        lemma_swapped_settled(before, *first, *second);
    }
}

} // verus!
