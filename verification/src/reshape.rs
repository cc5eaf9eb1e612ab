//! Larger changes of a tree: turning groups, bringing windows back to where they were, taking
//! over branches of other trees, and spreading stacks.

use vstd::prelude::*;

use id_tree::{NodeId, Tree};

use crate::balance::lemma_sound;
use crate::data::{
    copy_sizes, rescale, rescaled, settle, settled, stretch_all, sum, sum_of, Data, DataView,
    Window,
};
use crate::drops::{lemma_alike_settled, lemma_grown_one_more, lemma_joined_settled};
use crate::geometry::{Orientation, Rectangle, Size};
use crate::graft::{graft, lemma_grafted_balance};
use crate::keys::KeySource;
use crate::surgery::{
    add_beside, initial_geometry, lemma_added_settled, lemma_forest_with_data, lemma_keeps_keys,
    map_to_tree, lemma_rooted_well, new_group_item, new_window, optional_id, optional_place,
    position_of,
};
use crate::tree::{
    child_ids, copy_id, get_node, get_node_mut, insert_root, insert_under, make_nth_sibling, model,
    parent_id, NodeView, TreeModel, TreeNode,
};
use crate::units::saturate_i32;

verus! {

impl DataView {
    /// A group of another orientation: its children share the new length as they shared the old
    /// one.
    pub open spec fn turned(self, orientation: Orientation) -> DataView {
        let from = self.geometry().extent(self.spec_orientation()) as int;
        let to = self.geometry().extent(orientation) as int;
        let rest = rescaled(self->sizes, from, to);
        DataView::Group {
            orientation,
            sizes: if sum(rest) < to {
                settled(rest, to)
            } else {
                rest
            },
            last_geometry: self->Group_last_geometry,
            pill_indicator: self->pill_indicator,
        }
    }
}

impl TreeModel {
    /// The tree with the group around a node turned: to the given orientation, or to the other
    /// one.
    pub open spec fn turned(self, node: NodeId, orientation: Option<Orientation>) -> TreeModel {
        match self.parent(node) {
            Some(group) => self.with_data(
                group,
                self.data(group).turned(
                    match orientation {
                        Some(orientation) => orientation,
                        None => self.data(group).spec_orientation().spec_opposite(),
                    },
                ),
            ),
            None => self,
        }
    }
}

/// Turns the group around a node. Returns whether there is one.
pub fn turn_group(tree: &mut Tree<TreeNode>, node: &NodeId, new_orientation: Option<Orientation>) -> (turned:
    bool)
    requires
        model(*old(tree)).settled(),
        model(*old(tree)).has(*node),
    ensures
        turned == (model(*old(tree)).parent(*node) is Some),
        model(*final(tree)) == model(*old(tree)).turned(*node, new_orientation),
        model(*final(tree)).settled(),
        model(*old(tree)).keeps_keys(model(*final(tree))),
{
    let ghost shape = model(*tree);
    let group: NodeId = match parent_id(tree, node) {
        Some(group) => group,
        None => {
            return false;
        },
    };
    assert(shape.has(group) && shape.data(group) is Group) by {
        lemma_sound(shape);
        assert(shape.has(*node));
        assert(shape.has(group) && shape.children(group).contains(*node));
        assert(shape.excess(group) == 0);
    }
    let ghost data = shape.data(group).turned(
        match new_orientation {
            Some(orientation) => orientation,
            None => shape.data(group).spec_orientation().spec_opposite(),
        },
    );
    match get_node_mut(tree, &group) {
        Some(found) => match &mut found.data {
            Data::Group { orientation, sizes, last_geometry, .. } => {
                let previous: i32 = last_geometry.length(*orientation);
                let new: Orientation = match new_orientation {
                    Some(orientation) => orientation,
                    None => orientation.opposite(),
                };
                let length: i32 = last_geometry.length(new);
                stretch_all(sizes, previous, length);
                *orientation = new;
            },
            _ => {},
        },
        None => {},
    }
    proof {
        assert(model(*tree) =~~= shape.with_data(group, data));
        lemma_alike_settled(shape, group, data);
    }
    true
}

/// Where a window was before it left the tree.
#[derive(Debug)]
pub struct RestoreTilingState {
    /// The key of the group that it was in, where that stayed.
    pub parent: Option<u64>,
    /// The key of the node that it was next to, where their group did not stay.
    pub sibling: Option<u64>,
    pub orientation: Orientation,
    /// Its place in the group.
    pub idx: usize,
    /// The extents of the children of the group.
    pub sizes: Vec<i32>,
}

/// Where a window was before it left the tree, as the contracts speak of it.
#[verifier::ext_equal]
pub struct RestoreView {
    pub parent: Option<u64>,
    pub sibling: Option<u64>,
    pub orientation: Orientation,
    pub idx: usize,
    pub sizes: Seq<i32>,
}

impl View for RestoreTilingState {
    type V = RestoreView;

    open spec fn view(&self) -> RestoreView {
        RestoreView {
            parent: self.parent,
            sibling: self.sibling,
            orientation: self.orientation,
            idx: self.idx,
            sizes: self.sizes@,
        }
    }
}

impl TreeModel {
    /// What is remembered of the place of a node.
    pub open spec fn place_of(self, id: NodeId) -> Option<RestoreView> {
        match self.parent(id) {
            None => None,
            Some(group) => {
                let siblings = self.children(group);
                let idx = siblings.index_of(id);
                let data = self.data(group);
                Some(
                    RestoreView {
                        parent: if data->sizes.len() == 2 {
                            None
                        } else {
                            Some(self.key(group))
                        },
                        sibling: if data->sizes.len() == 2 {
                            Some(self.key(siblings[1 - idx]))
                        } else {
                            None
                        },
                        orientation: data.spec_orientation(),
                        idx: idx as usize,
                        sizes: data->sizes,
                    },
                )
            },
        }
    }
}

/// What is to be remembered of the place of a node.
pub fn restore_state(tree: &Tree<TreeNode>, id: &NodeId) -> (state: Option<RestoreTilingState>)
    requires
        model(*tree).settled(),
        model(*tree).has(*id),
    ensures
        match state {
            Some(state) => model(*tree).place_of(*id) == Some(state@),
            None => model(*tree).place_of(*id) is None,
        },
{
    let ghost shape = model(*tree);
    let group: NodeId = match parent_id(tree, id) {
        Some(group) => group,
        None => {
            return None;
        },
    };
    proof {
        lemma_sound(shape);
        assert(shape.has(group) && shape.children(group).contains(*id));
        assert(shape.excess(group) == 0);
    }
    let children: Vec<NodeId> = child_ids(tree, &group);
    let idx: usize = match position_of(&children, id) {
        Some(idx) => idx,
        None => 0,
    };
    proof {
        lemma_index_of(children@, idx as int);
    }
    match get_node(tree, &group) {
        Some(found) => match &found.data {
            Data::Group { orientation, sizes, .. } => {
                let orientation: Orientation = *orientation;
                if sizes.len() == 2 {
                    let other: usize = 1 - idx;
                    assert(shape.has(children@[other as int]));
                    let sibling: Option<u64> = match get_node(tree, &children[other]) {
                        Some(sibling) => Some(sibling.key),
                        None => None,
                    };
                    Some(
                        RestoreTilingState {
                            parent: None,
                            sibling,
                            orientation,
                            idx,
                            sizes: copy_sizes(sizes),
                        },
                    )
                } else {
                    Some(
                        RestoreTilingState {
                            parent: Some(found.key),
                            sibling: None,
                            orientation,
                            idx,
                            sizes: copy_sizes(sizes),
                        },
                    )
                }
            },
            _ => None,
        },
        None => None,
    }
}

/// Where an element stands that occurs once.
proof fn lemma_index_of(ids: Seq<NodeId>, place: int)
    requires
        ids.no_duplicates(),
        0 <= place < ids.len(),
    ensures
        ids.index_of(ids[place]) == place,
{
    assert(ids.contains(ids[place]));
}

impl DataView {
    /// The extents that a group gets back: in proportion to what it has now, if they are for one
    /// child more.
    pub open spec fn refitted(self, orientation: Orientation, sizes: Seq<i32>) -> Seq<i32> {
        if self.spec_orientation() == orientation && sizes.len() == self->sizes.len() + 1 && sum(
            sizes,
        ) != sum(self->sizes) {
            let to = saturate_i32(sum(self->sizes));
            settled(rescaled(sizes, sum(sizes), to), to)
        } else {
            sizes
        }
    }

    /// A group that holds what it held before, with these extents.
    pub open spec fn restored_group(orientation: Orientation, sizes: Seq<i32>) -> DataView {
        let initial = initial_geometry();
        let length = saturate_i32(sum(sizes)) as i32;
        DataView::Group {
            orientation,
            sizes,
            last_geometry: match orientation {
                Orientation::Horizontal => Rectangle::of(0, 0, initial.size.w, length),
                Orientation::Vertical => Rectangle::of(0, 0, length, initial.size.h),
            },
            pill_indicator: None,
        }
    }
}

impl TreeModel {
    /// The tree with a window back in the group that it was in.
    pub open spec fn restored_in(
        self,
        id: NodeId,
        item: NodeView,
        group: NodeId,
        state: RestoreView,
    ) -> TreeModel {
        self.grown(id, item, group).with_data(
            group,
            self.data(group).with_sizes(
                self.data(group).refitted(state.orientation, state.sizes),
            ),
        ).at_sibling(id, state.idx as int)
    }

    /// Whether `after` is this tree with a window back next to the node that it was next to.
    pub open spec fn restored_beside(
        self,
        after: TreeModel,
        id: NodeId,
        item: NodeView,
        sibling: NodeId,
        group_key: u64,
        state: RestoreView,
    ) -> bool {
        exists|group: NodeId|
            !self.has(group) && group != id && after == (#[trigger] self.added_beside(
                id,
                item,
                group,
                new_group_item(group_key, state.orientation),
                sibling,
                Some(state.idx as int),
            )).with_data(group, DataView::restored_group(state.orientation, state.sizes))
    }
}

/// The nearest number that fits.
fn clamp_sum(total: i128) -> (result: i32)
    ensures
        result == saturate_i32(total as int),
{
    if total > i32::MAX as i128 {
        i32::MAX
    } else if total < i32::MIN as i128 {
        i32::MIN
    } else {
        total as i32
    }
}

/// Puts a window back in the group that it was in. The state is for one child more than the
/// group has.
pub fn restore_in_group(
    tree: &mut Tree<TreeNode>,
    node: TreeNode,
    group: &NodeId,
    state: RestoreTilingState,
) -> (id: NodeId)
    requires
        model(*old(tree)).settled(),
        model(*old(tree)).has(*group),
        model(*old(tree)).data(*group) is Group,
        state@.sizes.len() == model(*old(tree)).data(*group)->sizes.len() + 1,
        !(node@.data is Group),
    ensures
        !model(*old(tree)).has(id),
        model(*final(tree)) == model(*old(tree)).restored_in(id, node@, *group, state@),
        model(*final(tree)).settled(),
        model(*final(tree)).has(id),
        model(*final(tree)).nodes[id].item == node@,
        model(*old(tree)).grows_keys(model(*final(tree)), node@.key),
{
    let ghost shape = model(*tree);
    let ghost item = node@;
    let ghost view = state@;
    let ghost data = shape.data(*group).with_sizes(
        shape.data(*group).refitted(view.orientation, view.sizes),
    );
    assert(shape.forest()) by {
        lemma_sound(shape);
    }
    let place: usize = state.idx;
    let along: Orientation = state.orientation;
    let mut new_sizes: Vec<i32> = state.sizes;
    let id: NodeId = insert_under(tree, node, group);
    let ghost grown = model(*tree);
    assert(grown.has(*group) && grown.data(*group) == shape.data(*group) && grown.has(id)) by {
        lemma_grown_one_more(shape, id, item, *group);
    }
    match get_node_mut(tree, group) {
        Some(found) => match &mut found.data {
            Data::Group { orientation, sizes, .. } => {
                if *orientation == along {
                    let previous: i128 = sum_of(&new_sizes);
                    let total: i128 = sum_of(sizes);
                    if previous != total {
                        let length: i32 = clamp_sum(total);
                        rescale(&mut new_sizes, previous, length);
                        settle(&mut new_sizes, length);
                    }
                }
                *sizes = new_sizes;
            },
            _ => {},
        },
        None => {},
    }
    let ghost fitted = model(*tree);
    proof {
        assert(fitted =~~= grown.with_data(*group, data));
        lemma_forest_with_data(grown, *group, data);
        assert(fitted.has(id));
    }
    make_nth_sibling(tree, &id, place);
    proof {
        lemma_joined_settled(shape, id, item, *group, data, place as int);
    }
    id
}

/// Puts a window back next to the node that it was next to, in a new group with the extents
/// that both had.
pub fn restore_beside(
    tree: &mut Tree<TreeNode>,
    node: TreeNode,
    sibling: &NodeId,
    state: RestoreTilingState,
    group_key: u64,
) -> (id: NodeId)
    requires
        model(*old(tree)).settled(),
        model(*old(tree)).has(*sibling),
        state@.sizes.len() == 2,
        !(node@.data is Group),
    ensures
        !model(*old(tree)).has(id),
        model(*old(tree)).restored_beside(
            model(*final(tree)),
            id,
            node@,
            *sibling,
            group_key,
            state@,
        ),
        model(*final(tree)).settled(),
        model(*final(tree)).has(id),
        model(*final(tree)).nodes[id].item == node@,
        model(*old(tree)).grows_two(model(*final(tree)), node@.key, group_key),
{
    let ghost shape = model(*tree);
    let ghost item = node@;
    let ghost view = state@;
    assert(shape.forest() && shape.regular()) by {
        lemma_sound(shape);
    }
    let orientation: Orientation = state.orientation;
    let length: i32 = clamp_sum(sum_of(&state.sizes));
    let id: NodeId = add_beside(tree, node, sibling, orientation, group_key, Some(state.idx));
    let ghost added = model(*tree);
    let ghost group = choose|group: NodeId|
        !shape.has(group) && group != id && added == #[trigger] shape.added_beside(
            id,
            item,
            group,
            new_group_item(group_key, orientation),
            *sibling,
            Some(view.idx as int),
        ) && added.has(group) && added.nodes[group].item == new_group_item(group_key, orientation)
            && added.parent(id) == Some(group);
    let ghost data = DataView::restored_group(orientation, view.sizes);
    proof {
        lemma_added_settled(shape, added, id, item, group_key);
        lemma_added_keys(shape, added, id, item, group_key);
    }
    let new_sizes: Vec<i32> = state.sizes;
    match parent_id(tree, &id) {
        Some(found) => match get_node_mut(tree, &found) {
            Some(found) => match &mut found.data {
                Data::Group { sizes, last_geometry, .. } => {
                    *sizes = new_sizes;
                    match orientation {
                        Orientation::Horizontal => {
                            last_geometry.size.h = length;
                        },
                        Orientation::Vertical => {
                            last_geometry.size.w = length;
                        },
                    }
                },
                _ => {},
            },
            None => {},
        },
        None => {},
    }
    proof {
        assert(model(*tree) =~~= added.with_data(group, data));
        lemma_alike_settled(added, group, data);
        assert(added.has(id));
        lemma_same_keys(shape, added, model(*tree), item.key, group_key);
    }
    id
}

/// A new node beside another one brings its key and that of their group.
pub proof fn lemma_added_keys(tree: TreeModel, after: TreeModel, id: NodeId, item: NodeView, group_key: u64)
    requires
        tree.added_well(after, id, item, group_key),
    ensures
        tree.grows_two(after, item.key, group_key),
        after.has(id),
        after.nodes[id].item == item,
{
    reveal(TreeModel::grows_two);
    reveal(TreeModel::added_well);
    assert forall|k: u64| #[trigger] after.has_key(k) implies tree.has_key(k) || k == item.key || k
        == group_key by {
        let node = choose|node: NodeId| after.has(node) && #[trigger] after.key(node) == k;
        assert(after.has(node));
        if tree.has(node) {
            assert(tree.key(node) == k);
        }
    }
}

/// What keeps the keys of a tree keeps what is known of them.
proof fn lemma_same_keys(tree: TreeModel, added: TreeModel, after: TreeModel, key: u64, group_key: u64)
    requires
        tree.grows_two(added, key, group_key),
        added.keeps_keys(after),
    ensures
        tree.grows_two(after, key, group_key),
{
    reveal(TreeModel::grows_two);
    lemma_keeps_keys(added, after);
}

impl TreeModel {
    /// Whether `mid` is this tree with a new node: alone, or in a new group with `anchor`.
    pub open spec fn opened_for(
        self,
        mid: TreeModel,
        id: NodeId,
        item: NodeView,
        group_item: NodeView,
        anchor: Option<NodeId>,
        place: Option<int>,
    ) -> bool {
        match anchor {
            None => mid == self.rooted(id, item),
            Some(anchor) => exists|group: NodeId|
                !self.has(group) && group != id && mid == #[trigger] self.added_beside(
                    id,
                    item,
                    group,
                    group_item,
                    anchor,
                    place,
                ),
        }
    }

    /// Whether `after` is this tree with a branch of another one: alone, or in a new group with
    /// `anchor`.
    pub open spec fn received(
        self,
        after: TreeModel,
        id: NodeId,
        source: TreeModel,
        from: NodeId,
        group_item: NodeView,
        anchor: Option<NodeId>,
        place: Option<int>,
    ) -> bool {
        exists|mid: TreeModel, ids: Map<NodeId, NodeId>| #[trigger]
            self.opened_for(mid, id, source.nodes[from].item, group_item, anchor, place)
                && #[trigger] mid.grafted(after, id, source, from, ids)
    }
}

/// A tree with a branch of another one is in order.
proof fn lemma_received(
    tree: TreeModel,
    mid: TreeModel,
    after: TreeModel,
    id: NodeId,
    source: TreeModel,
    from: NodeId,
    group_key: u64,
    ids: Map<NodeId, NodeId>,
)
    requires
        tree.added_well(mid, id, source.nodes[from].item, group_key),
        mid.grafted(after, id, source, from, ids),
        source.settled(),
        source.has(from),
        after.forest(),
    ensures
        after.settled(),
        after.has(id),
        after.nodes[id].item == source.nodes[from].item,
        tree.keyed() && source.keyed() && tree.keys_apart(source) && !tree.has_key(group_key)
            && !source.has_key(group_key) ==> after.keyed(),
        forall|k: u64| #[trigger]
            after.has_key(k) ==> tree.has_key(k) || source.has_key(k) || k == group_key,
{
    reveal(TreeModel::added_well);
    assert(source.forest() && source.balanced() && source.groups_of(2)) by {
        lemma_sound(source);
    }
    lemma_grafted_balance(mid, after, id, source, from, ids);
    assert(mid.has(id) && source.has(from));
    assert(after.settled()) by {
        lemma_sound(after);
        assert forall|node: NodeId| #[trigger] after.has(node) implies after.excess(node) == 0 && (
        after.data(node) is Group ==> after.data(node)->sizes.len() >= 2) by {
            if mid.has(node) {
                assert(mid.has(node));
                if node == id {
                    assert(source.has(from));
                    assert(source.excess(from) == 0);
                }
            } else {
                let other = choose|other: NodeId| #[trigger]
                    ids.dom().contains(other) && other != from && ids[other] == node;
                assert(source.has(other));
            }
        }
        assert forall|node: NodeId| #[trigger] after.has(node) && after.data(
            node,
        ) is Group implies after.data(node)->sizes.len() >= 2 by {}
    }
    assert forall|k: u64| #[trigger] after.has_key(k) implies tree.has_key(k) || source.has_key(k)
        || k == group_key by {
        let node = choose|node: NodeId| after.has(node) && #[trigger] after.key(node) == k;
        assert(after.has(node));
        if mid.has(node) {
            if tree.has(node) {
                assert(tree.key(node) == k);
            } else if node == id {
                assert(source.key(from) == k);
            }
        } else {
            let other = choose|other: NodeId| #[trigger]
                ids.dom().contains(other) && other != from && ids[other] == node;
            assert(source.has(other) && source.key(other) == k);
        }
    }
    if tree.keyed() && source.keyed() && tree.keys_apart(source) && !tree.has_key(group_key)
        && !source.has_key(group_key) {
        assert(!tree.has_key(source.key(from))) by {
            if tree.has_key(source.key(from)) {
                let node = choose|node: NodeId|
                    tree.has(node) && #[trigger] tree.key(node) == source.key(from);
                assert(tree.key(node) != source.key(from));
            }
        }
        assert(source.key(from) != group_key) by {
            assert(source.has_key(source.key(from)));
        }
        assert(mid.keyed());
        assert forall|first: NodeId, second: NodeId|
            #![trigger after.key(first), after.key(second)]
            after.has(first) && after.has(second) && after.key(first) == after.key(
                second,
            ) implies first == second by {
            lemma_received_key(tree, mid, after, id, source, from, group_key, ids, first);
            lemma_received_key(tree, mid, after, id, source, from, group_key, ids, second);
            if mid.has(first) && mid.has(second) {
                assert(mid.key(first) == mid.key(second));
            } else if !mid.has(first) && !mid.has(second) {
                let one = choose|other: NodeId| #[trigger]
                    ids.dom().contains(other) && other != from && ids[other] == first;
                let two = choose|other: NodeId| #[trigger]
                    ids.dom().contains(other) && other != from && ids[other] == second;
                assert(source.has(one) && source.has(two));
                assert(source.key(one) == source.key(two));
            } else {
                let (old_node, new_node) = if mid.has(first) {
                    (first, second)
                } else {
                    (second, first)
                };
                let other = choose|other: NodeId| #[trigger]
                    ids.dom().contains(other) && other != from && ids[other] == new_node;
                assert(source.has(other));
                if tree.has(old_node) {
                    assert(tree.key(old_node) != source.key(other));
                } else if old_node == id {
                    assert(source.key(from) == source.key(other));
                } else {
                    assert(source.has_key(source.key(other)));
                }
            }
        }
    }
}

/// Where the key of a node comes from.
proof fn lemma_received_key(
    tree: TreeModel,
    mid: TreeModel,
    after: TreeModel,
    id: NodeId,
    source: TreeModel,
    from: NodeId,
    group_key: u64,
    ids: Map<NodeId, NodeId>,
    node: NodeId,
)
    requires
        tree.added_well(mid, id, source.nodes[from].item, group_key),
        mid.grafted(after, id, source, from, ids),
        source.settled(),
        source.has(from),
        after.has(node),
    ensures
        mid.has(node) ==> after.key(node) == mid.key(node) && (tree.has(node) ==> tree.key(node)
            == mid.key(node)) && (tree.has(node) || node == id || mid.key(node) == group_key),
        mid.key(id) == source.key(from),
        !mid.has(node) ==> exists|other: NodeId| #[trigger]
            ids.dom().contains(other) && other != from && ids[other] == node && source.has(other)
                && source.key(other) == after.key(node),
{
    reveal(TreeModel::added_well);
    assert(source.forest()) by {
        lemma_sound(source);
    }
    lemma_grafted_balance(mid, after, id, source, from, ids);
    assert(after.has(node));
    assert(mid.has(id));
    if !mid.has(node) {
        let other = choose|other: NodeId| #[trigger]
            ids.dom().contains(other) && other != from && ids[other] == node;
        assert(source.has(other));
    }
}

/// Adds a copy of a branch of another tree: alone to an empty tree, or in a new group with a
/// node.
pub fn receive(
    tree: &mut Tree<TreeNode>,
    source: &Tree<TreeNode>,
    from: &NodeId,
    anchor: Option<&NodeId>,
    orientation: Orientation,
    group_key: u64,
    place: Option<usize>,
) -> (id: NodeId)
    requires
        model(*old(tree)).settled(),
        model(*source).settled(),
        model(*source).has(*from),
        match anchor {
            Some(anchor) => model(*old(tree)).has(*anchor),
            None => model(*old(tree)).root is None,
        },
    ensures
        !model(*old(tree)).has(id),
        model(*old(tree)).received(
            model(*final(tree)),
            id,
            model(*source),
            *from,
            new_group_item(group_key, orientation),
            optional_id(anchor),
            optional_place(place),
        ),
        model(*final(tree)).settled(),
        model(*final(tree)).has(id),
        model(*final(tree)).nodes[id].item == model(*source).nodes[*from].item,
        model(*old(tree)).keyed() && model(*source).keyed() && model(*old(tree)).keys_apart(
            model(*source),
        ) && !model(*old(tree)).has_key(group_key) && !model(*source).has_key(group_key)
            ==> model(*final(tree)).keyed(),
        forall|k: u64| #[trigger]
            model(*final(tree)).has_key(k) ==> model(*old(tree)).has_key(k) || model(
                *source,
            ).has_key(k) || k == group_key,
{
    let ghost before = model(*tree);
    let ghost src = model(*source);
    let ghost item = src.nodes[*from].item;
    assert(before.forest() && before.regular() && src.regular()) by {
        lemma_sound(before);
        lemma_sound(src);
    }
    let node: TreeNode = match get_node(source, from) {
        Some(found) => found.clone(),
        None => TreeNode {
            key: group_key,
            data: Data::new_group(orientation, Rectangle::new(0, 0, 100, 100)),
        },
    };
    let id: NodeId = match anchor {
        Some(anchor) => add_beside(tree, node, anchor, orientation, group_key, place),
        None => {
            let id: NodeId = insert_root(tree, node);
            proof {
                lemma_rooted_well(before, id, item, group_key);
            }
            id
        },
    };
    let ghost mid = model(*tree);
    assert(mid.has(id)) by {
        reveal(TreeModel::added_well);
    }
    graft(tree, &id, source, from);
    proof {
        let after = model(*tree);
        let ids = choose|ids: Map<NodeId, NodeId>| #[trigger]
            mid.grafted(after, id, src, *from, ids);
        lemma_received(before, mid, after, id, src, *from, group_key, ids);
        assert(before.opened_for(
            mid,
            id,
            item,
            new_group_item(group_key, orientation),
            optional_id(anchor),
            optional_place(place),
        ) && mid.grafted(after, id, src, *from, ids));
    }
    id
}

/// Whether each of these trees has one more window than the one before it: the window at that
/// place, next to the one that came before. Their keys, and those of the groups that they need,
/// count up from `base`.
pub open spec fn spreads(
    trees: Seq<TreeModel>,
    ids: Seq<NodeId>,
    windows: Seq<Window>,
    output: Size,
    base: int,
) -> bool {
    &&& trees.len() == windows.len() + 1
    &&& ids.len() == windows.len() + 1
    &&& forall|i: int|
        0 <= i < windows.len() ==> (#[trigger] trees[i]).mapped_as(
            trees[i + 1],
            ids[i + 1],
            new_window((base + 2 * i) as u64, windows[i], None),
            (base + 2 * i + 1) as u64,
            output,
            Some(ids[i]),
            None,
        )
}

impl TreeModel {
    /// Whether `after` is this tree with more windows, each next to the one before it, the
    /// first next to `node` and the last one `last`.
    pub open spec fn spread(
        self,
        after: TreeModel,
        node: NodeId,
        last: NodeId,
        windows: Seq<Window>,
        output: Size,
        base: int,
    ) -> bool {
        exists|trees: Seq<TreeModel>, ids: Seq<NodeId>| #[trigger]
            spreads(trees, ids, windows, output, base) && trees[0] == self && trees.last() == after
                && ids[0] == node && ids.last() == last
    }
}

/// Adds more windows, each next to the one before it and the first next to a node. Returns the
/// last of them.
pub fn spread_windows(
    tree: &mut Tree<TreeNode>,
    node: &NodeId,
    windows: &Vec<Window>,
    output: Size,
    keys: &mut KeySource,
) -> (last: NodeId)
    requires
        model(*old(tree)).settled(),
        model(*old(tree)).keyed(),
        model(*old(tree)).keys_below(old(keys).next),
        model(*old(tree)).has(*node),
        old(keys).next + 2 * windows@.len() <= u64::MAX,
    ensures
        model(*old(tree)).spread(
            model(*final(tree)),
            *node,
            last,
            windows@,
            output,
            old(keys).next as int,
        ),
        model(*final(tree)).settled(),
        model(*final(tree)).keyed(),
        model(*final(tree)).has(last),
        model(*final(tree)).has(*node),
        windows@.len() > 0 ==> last != *node,
        final(keys).next == old(keys).next + 2 * windows@.len(),
        model(*final(tree)).keys_below(final(keys).next),
{
    let ghost before = model(*tree);
    let ghost base = keys.next as int;
    let mut last: NodeId = copy_id(node);
    let mut i: usize = 0;
    let ghost mut trees = seq![before];
    let ghost mut ids = seq![last];
    assert(windows@.take(0) =~= seq![]);
    while i < windows.len()
        invariant
            i <= windows@.len(),
            base + 2 * windows@.len() <= u64::MAX,
            keys.next == base + 2 * i,
            spreads(trees, ids, windows@.take(i as int), output, base),
            trees[0] == before,
            trees.last() == model(*tree),
            ids[0] == *node,
            ids.last() == last,
            model(*tree).settled(),
            model(*tree).keyed(),
            model(*tree).keys_below(keys.next),
            model(*tree).has(last),
            model(*tree).has(*node),
            i > 0 ==> last != *node,
        decreases windows@.len() - i,
    {
        let ghost mid = model(*tree);
        let ghost previous = last;
        assert(mid.forest() && mid.regular()) by {
            lemma_sound(mid);
        }
        let key: u64 = keys.take();
        let group_key: u64 = keys.take();
        let id: NodeId = map_to_tree(
            tree,
            windows[i],
            output,
            Some(&last),
            None,
            None,
            key,
            group_key,
        );
        proof {
            let after = model(*tree);
            let item = new_window(key, windows@[i as int], None);
            lemma_added_keys(mid, after, id, item, group_key);
            reveal(TreeModel::grows_two);
            assert(!mid.has_key(key) && !mid.has_key(group_key));
            assert(after.has(*node)) by {
                reveal(TreeModel::added_well);
                assert(mid.has(*node));
            }
            let shorter = windows@.take(i as int);
            let longer = windows@.take(i as int + 1);
            let more = trees.push(after);
            let more_ids = ids.push(id);
            assert forall|k: int| 0 <= k < longer.len() implies (#[trigger] more[k]).mapped_as(
                more[k + 1],
                more_ids[k + 1],
                new_window((base + 2 * k) as u64, longer[k], None),
                (base + 2 * k + 1) as u64,
                output,
                Some(more_ids[k]),
                None,
            ) by {
                if k < i {
                    assert(trees[k] == more[k] && shorter[k] == longer[k]);
                    assert(trees[k + 1] == more[k + 1] && ids[k + 1] == more_ids[k + 1]);
                } else {
                    assert(more[k] == mid && more_ids[k] == previous);
                }
            }
            trees = more;
            ids = more_ids;
        }
        last = id;
        i += 1;
    }
    assert(windows@.take(windows@.len() as int) =~= windows@);
    last
}

impl TreeModel {
    /// The tree with another window in a node.
    pub open spec fn with_other_window(self, id: NodeId, window: Window) -> TreeModel {
        match self.data(id) {
            DataView::Mapped { last_geometry, minimize_rect, .. } => self.with_data(
                id,
                DataView::Mapped { mapped: window, last_geometry, minimize_rect },
            ),
            _ => self,
        }
    }
}

/// Puts another window in the place of one.
pub fn set_window(tree: &mut Tree<TreeNode>, id: &NodeId, window: Window)
    requires
        model(*old(tree)).settled(),
        model(*old(tree)).has(*id),
        model(*old(tree)).data(*id) is Mapped,
    ensures
        model(*final(tree)) == model(*old(tree)).with_other_window(*id, window),
        model(*final(tree)).settled(),
        model(*old(tree)).keeps_keys(model(*final(tree))),
{
    let ghost shape = model(*tree);
    match get_node_mut(tree, id) {
        Some(found) => match &mut found.data {
            Data::Mapped { mapped, .. } => {
                *mapped = window;
            },
            _ => {},
        },
        None => {},
    }
    proof {
        let after = shape.with_other_window(*id, window);
        assert(model(*tree) =~~= after);
        lemma_alike_settled(shape, *id, after.data(*id));
    }
}

} // verus!
