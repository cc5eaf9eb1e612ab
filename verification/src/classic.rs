//! The classic layout: every group splits its area between its children.

use vstd::prelude::*;

use id_tree::{NodeId, Tree};

use crate::actions::Direction;
use crate::balance::{lemma_regular, lemma_sound};
use crate::data::{sum, sum_of, Data, DataView};
use crate::geometry::{
    add_saturating, double_saturating, minus, plus, sub_saturating, Orientation, Rectangle,
};
use crate::lineage::{
    lemma_ancestor_add, lemma_ancestor_rank, lemma_below_parent, lemma_below_self,
    lemma_parent_not_below, lemma_same_ancestors,
};
use crate::neighbours::has_adjacent_node;
use crate::surgery::{lemma_forest_with_data, position_of};
use crate::tree::{
    child_ids, copy_id, get_node, get_node_mut, make_nth_sibling, model, move_to_root, parent_id,
    preorder_ids, remove_lifting, root_id, visits, with_id_replaced, without_id, NodeModel,
    TreeModel, TreeNode,
};
use crate::units::saturate_i32;

verus! {

impl TreeModel {
    /// Whether a node is a group with room for one child only.
    pub open spec fn single(self, id: NodeId) -> bool {
        self.has(id) && self.data(id) is Group && self.data(id)->sizes.len() == 1
    }

    /// The tree with the only child of a group in the place of the group.
    pub open spec fn skipped(self, id: NodeId) -> TreeModel {
        let child = self.children(id)[0];
        TreeModel {
            nodes: Map::new(
                |other: NodeId| self.has(other) && other != id,
                |other: NodeId|
                    if self.parent(id) == Some(other) {
                        NodeModel {
                            children: with_id_replaced(self.children(other), id, child),
                            ..self.nodes[other]
                        }
                    } else if other == child {
                        NodeModel { parent: self.parent(id), ..self.nodes[other] }
                    } else {
                        self.nodes[other]
                    },
            ),
            root: if self.root == Some(id) {
                Some(child)
            } else {
                self.root
            },
        }
    }

    /// The tree after all groups of `order` with only one child were replaced by that child,
    /// one after the other.
    pub open spec fn flattened(self, order: Seq<NodeId>) -> TreeModel
        decreases order.len(),
    {
        if order.len() == 0 {
            self
        } else {
            let rest = self.flattened(order.drop_last());
            if rest.single(order.last()) {
                rest.skipped(order.last())
            } else {
                rest
            }
        }
    }

    /// Whether every node of `after` is a node of this tree, with the same contents.
    pub open spec fn keeps(self, after: TreeModel) -> bool {
        forall|id: NodeId| #[trigger]
            after.has(id) ==> self.has(id) && after.nodes[id].item == self.nodes[id].item
    }

    /// Whether a group has one child, which has no other relation to it or its parent.
    spec fn replaceable(self, id: NodeId) -> bool {
        let child = self.children(id)[0];
        &&& self.has(id)
        &&& self.children(id) == seq![child]
        &&& self.has(child)
        &&& self.parent(child) == Some(id)
        &&& child != id
        &&& forall|other: NodeId| #[trigger]
            self.has(other) && self.parent(other) == Some(id) ==> other == child
        &&& match self.parent(id) {
            Some(parent) => {
                &&& self.has(parent)
                &&& self.root != Some(id)
                &&& parent != id
                &&& parent != child
                &&& self.children(parent).no_duplicates()
                &&& self.children(parent).contains(id)
                &&& !self.children(parent).contains(child)
            },
            None => self.root == Some(id),
        }
    }

    /// Whether the tree is in order: one tree, with groups that have room for their children.
    #[verifier::opaque]
    pub open spec fn regular(self) -> bool {
        &&& self.forest()
        &&& self.connected()
        &&& self.groups_branch()
        &&& self.groups_fit()
    }
}

/// A group with room for one child can be replaced by that child.
proof fn lemma_only_child(tree: TreeModel, id: NodeId)
    requires
        tree.regular(),
        tree.single(id),
    ensures
        tree.replaceable(id),
{
    reveal(TreeModel::regular);
    let child = tree.children(id)[0];
    assert(tree.data(id)->sizes.len() == tree.children(id).len());
    assert(tree.children(id) =~= seq![child]);
    assert(tree.has(child) && tree.parent(child) == Some(id));
    lemma_parent_not_below(tree, child, id);
    lemma_below_self(tree, id);
    assert(child != id) by {
        if child == id {
            assert(tree.below(id, child));
        }
    }
    assert forall|other: NodeId| #[trigger] tree.has(other) && tree.parent(other) == Some(
        id,
    ) implies other == child by {
        assert(tree.children(id).contains(other));
    }
    match tree.parent(id) {
        Some(parent) => {
            lemma_parent_not_below(tree, id, parent);
            lemma_below_parent(tree, child, id);
            lemma_below_self(tree, parent);
            if tree.children(parent).contains(child) {
                let i = tree.children(parent).index_of(child);
                assert(tree.parent(tree.children(parent)[i]) == Some(parent));
            }
            if parent == child {
                assert(tree.below(parent, id));
            }
        },
        None => {},
    }
}

/// Lifting the only child of a group and moving it to the place of the group replaces the
/// group.
proof fn lemma_lifted(tree: TreeModel, id: NodeId)
    requires
        tree.replaceable(id),
    ensures
        ({
            let child = tree.children(id)[0];
            &&& tree.lifted(id).has(child)
            &&& match tree.parent(id) {
                Some(parent) => tree.lifted(id).at_sibling(child, tree.place(parent, id))
                    == tree.skipped(id),
                None => tree.lifted(id).root is None && tree.lifted(id).moved_to_root(child)
                    == tree.skipped(id),
            }
        }),
{
    let child = tree.children(id)[0];
    match tree.parent(id) {
        Some(parent) => {
            let before = tree.children(parent);
            let place = tree.place(parent, id);
            let rest = without_id(before, id);
            let lifted = tree.lifted(id);
            assert(lifted.children(parent) =~= rest.push(child));
            assert(rest.push(child)[rest.len() as int] == child);
            assert(!rest.contains(child));
            assert(rest.push(child).contains(child));
            assert(rest.push(child).index_of(child) == rest.len());
            assert(without_id(rest.push(child), child) =~= rest);
            assert(rest.insert(place, child) =~= before.update(place, child));
            assert(tree.skipped(id).children(parent) == before.update(place, child));
            let moved = lifted.at_sibling(child, place);
            let skipped = tree.skipped(id);
            assert(moved.nodes.dom() =~= skipped.nodes.dom());
            assert forall|other: NodeId| #[trigger]
                skipped.nodes.contains_key(other) implies moved.nodes[other]
                == skipped.nodes[other] by {
                if other != parent {
                    assert(moved.nodes[other] == lifted.nodes[other]);
                }
            }
            assert(moved.nodes =~= skipped.nodes);
        },
        None => {
            let moved = tree.lifted(id).moved_to_root(child);
            assert(moved.nodes =~= tree.skipped(id).nodes);
        },
    }
}

/// What the nodes of a tree hold stays when the only child of a group takes its place, and
/// so does the number of children of every other node.
proof fn lemma_skipped_node(tree: TreeModel, id: NodeId, other: NodeId)
    requires
        tree.replaceable(id),
        tree.skipped(id).has(other),
    ensures
        tree.has(other),
        other != id,
        tree.skipped(id).nodes[other].item == tree.nodes[other].item,
        tree.skipped(id).children(other).len() == tree.children(other).len(),
        tree.skipped(id).parent(other) is None ==> tree.parent(other) is None || other
            == tree.children(id)[0] && tree.parent(id) is None,
{
}

/// The tree stays in order when the only child of a group takes its place.
proof fn lemma_skipped(tree: TreeModel, id: NodeId)
    requires
        tree.connected(),
        tree.groups_branch(),
        tree.groups_fit(),
        tree.replaceable(id),
        tree.skipped(id).forest(),
    ensures
        tree.skipped(id).regular(),
{
    reveal(TreeModel::regular);
    let after = tree.skipped(id);
    assert(after.connected()) by {
        assert forall|other: NodeId| #[trigger] after.has(other) && after.parent(
            other,
        ) is None implies after.root == Some(other) by {
            lemma_skipped_node(tree, id, other);
        }
    }
    assert(after.groups_branch()) by {
        assert forall|other: NodeId|
            after.has(other) && (#[trigger] after.children(other)).len() > 0 implies after.data(
            other,
        ) is Group by {
            lemma_skipped_node(tree, id, other);
            assert(tree.children(other).len() > 0);
        }
    }
    assert(after.groups_fit()) by {
        assert forall|other: NodeId|
            #![trigger after.data(other)]
            after.has(other) && after.data(other) is Group implies after.data(other)->sizes.len()
            == after.children(other).len() by {
            lemma_skipped_node(tree, id, other);
            assert(after.data(other) == tree.data(other));
        }
    }
}

/// Puts the only child of a group in its place.
fn skip(tree: &mut Tree<TreeNode>, id: &NodeId)
    requires
        model(*old(tree)).regular(),
        model(*old(tree)).single(*id),
    ensures
        model(*final(tree)) == model(*old(tree)).skipped(*id),
        model(*final(tree)).regular(),
{
    let ghost before = model(*tree);
    proof {
        reveal(TreeModel::regular);
        lemma_only_child(before, *id);
        lemma_lifted(before, *id);
    }
    let children: Vec<NodeId> = child_ids(tree, id);
    let child: NodeId = copy_id(&children[0]);
    match parent_id(tree, id) {
        Some(parent) => {
            let siblings: Vec<NodeId> = child_ids(tree, &parent);
            let place: usize = match position_of(&siblings, id) {
                Some(place) => place,
                None => 0,
            };
            remove_lifting(tree, id);
            make_nth_sibling(tree, &child, place);
        },
        None => {
            remove_lifting(tree, id);
            move_to_root(tree, &child);
        },
    }
    proof {
        lemma_skipped(before, *id);
    }
}

/// Replaces every group that has only one child by that child.
fn flatten(tree: &mut Tree<TreeNode>, order: &Vec<NodeId>)
    requires
        model(*old(tree)).regular(),
    ensures
        model(*final(tree)) == model(*old(tree)).flattened(order@),
        model(*final(tree)).regular(),
        model(*old(tree)).root is Some ==> model(*final(tree)).root is Some,
        model(*old(tree)).keeps(model(*final(tree))),
        forall|i: int|
            0 <= i < order@.len() ==> !model(*final(tree)).single(#[trigger] order@[i]),
{
    let ghost before = model(*tree);
    let mut i: usize = 0;
    assert(before.flattened(order@.take(0)) == before);
    while i < order.len()
        invariant
            i <= order@.len(),
            model(*tree) == before.flattened(order@.take(i as int)),
            model(*tree).regular(),
            before.root is Some ==> model(*tree).root is Some,
            before.keeps(model(*tree)),
            forall|j: int| 0 <= j < i ==> !model(*tree).single(#[trigger] order@[j]),
        decreases order@.len() - i,
    {
        assert(order@.take(i as int + 1).drop_last() =~= order@.take(i as int));
        let single: bool = match get_node(tree, &order[i]) {
            Some(node) => node.data.is_group() && node.data.len() == 1,
            None => false,
        };
        if single {
            let ghost now = model(*tree);
            skip(tree, &order[i]);
            assert(now.keeps(model(*tree)));
        }
        i += 1;
    }
    assert(order@.take(order@.len() as int) =~= order@);
}

/// A window and the area that it is asked to take.
#[derive(Clone, Copy, Debug, PartialEq, Eq, Structural)]
pub struct Configure {
    pub window: u64,
    pub geometry: Rectangle,
    /// Whether the client is told now.
    pub send: bool,
}

/// The zone without the outer gap.
pub open spec fn outer_zone(zone: Rectangle, outer: i32) -> Rectangle {
    let both = saturate_i32(2 * outer);
    Rectangle::of(
        plus(zone.loc.x as int, outer as int),
        plus(zone.loc.y as int, outer as int),
        minus(zone.size.w as int, both),
        minus(zone.size.h as int, both),
    )
}

/// Half of a gap, rounded towards zero.
pub open spec fn half_gap(gap: i32) -> i32 {
    if gap >= 0 {
        (gap as int / 2) as i32
    } else {
        -((-gap) / 2) as i32
    }
}

impl DataView {
    /// The part of a group that its child at `index` takes.
    pub open spec fn slot(self, index: int) -> Rectangle {
        let area = self.geometry();
        let before = sum(self->sizes.take(index));
        let extent = self->sizes[index];
        match self.spec_orientation() {
            Orientation::Horizontal => Rectangle::of(
                area.loc.x,
                plus(area.loc.y as int, before),
                area.size.w,
                extent,
            ),
            Orientation::Vertical => Rectangle::of(
                plus(area.loc.x as int, before),
                area.loc.y,
                extent,
                area.size.h,
            ),
        }
    }

    /// What a window in this node is asked to do, unless it covers the whole output.
    pub open spec fn configure(self) -> Seq<Configure> {
        match self {
            DataView::Mapped { mapped, last_geometry, .. } => if mapped.fullscreen
                || mapped.maximized {
                seq![]
            } else {
                seq![Configure { window: mapped.id, geometry: last_geometry, send: true }]
            },
            _ => seq![],
        }
    }
}

impl TreeModel {
    /// Whether the other tree differs in the data of its nodes only.
    pub open spec fn same_shape(self, other: TreeModel) -> bool {
        &&& other.nodes.dom() == self.nodes.dom()
        &&& other.root == self.root
        &&& forall|id: NodeId| #[trigger]
            other.has(id) ==> other.parent(id) == self.parent(id) && other.children(id)
                == self.children(id) && other.key(id) == self.key(id)
    }

    /// The area that a node gets from its parent; the root gets `zone`.
    pub open spec fn area(self, id: NodeId, zone: Rectangle) -> Rectangle {
        match self.parent(id) {
            Some(parent) => self.data(parent).slot(self.place(parent, id)),
            None => zone,
        }
    }

    /// The gap at one edge of a window: half of it, if something lies there.
    pub open spec fn gap_at(self, id: NodeId, direction: Direction, inner: i32) -> i32 {
        if self.adjacent(id, direction) {
            half_gap(inner)
        } else {
            inner
        }
    }

    /// What a node takes of its area: windows keep a gap around them.
    pub open spec fn cell(self, id: NodeId, area: Rectangle, inner: i32) -> Rectangle {
        if self.data(id) is Mapped {
            area.inset(
                self.gap_at(id, Direction::Left, inner),
                self.gap_at(id, Direction::Up, inner),
                self.gap_at(id, Direction::Right, inner),
                self.gap_at(id, Direction::Down, inner),
            )
        } else {
            area
        }
    }

    /// Whether `after` is this tree with every node in the area that its parent gives it.
    pub open spec fn laid_out(self, after: TreeModel, zone: Rectangle, inner: i32) -> bool {
        &&& self.same_shape(after)
        &&& forall|id: NodeId| #[trigger]
            after.has(id) ==> after.data(id) == self.data(id).placed(
                self.cell(id, after.area(id, zone), inner),
            )
    }

    /// Whether `after` is this tree laid out in `zone`, where `before` and `order` visit the
    /// nodes of this tree and of the tree without groups of one.
    pub open spec fn arranged(
        self,
        after: TreeModel,
        before: Seq<NodeId>,
        order: Seq<NodeId>,
        zone: Rectangle,
        gaps: (i32, i32),
    ) -> bool {
        let flat = self.flattened(before);
        &&& visits(self.nodes, seq![self.root->0], before)
        &&& flat.root is Some
        &&& visits(flat.nodes, seq![flat.root->0], order)
        &&& flat.laid_out(after, outer_zone(zone, gaps.0), gaps.1)
    }

    /// What the windows among these nodes are asked to do.
    pub open spec fn configures(self, order: Seq<NodeId>) -> Seq<Configure>
        decreases order.len(),
    {
        if order.len() == 0 {
            seq![]
        } else {
            self.configures(order.drop_last()) + self.data(order.last()).configure()
        }
    }

    /// Whether, so far, the nodes `done` of `after` are in the areas that their parents give
    /// them, and the others are as in this tree.
    spec fn partly_laid_out(
        self,
        after: TreeModel,
        done: Seq<NodeId>,
        zone: Rectangle,
        inner: i32,
    ) -> bool {
        &&& self.same_shape(after)
        &&& forall|id: NodeId| #[trigger]
            after.has(id) ==> after.data(id) == if done.contains(id) {
                self.data(id).placed(self.cell(id, after.area(id, zone), inner))
            } else {
                self.data(id)
            }
        &&& forall|id: NodeId| #[trigger]
            done.contains(id) ==> self.has(id) && match self.parent(id) {
                Some(parent) => done.contains(parent),
                None => true,
            }
    }
}

/// Two trees of the same shape with the same orientations have the same neighbours.
proof fn lemma_same_neighbours(first: TreeModel, second: TreeModel, id: NodeId, direction: Direction)
    requires
        first.forest(),
        first.same_shape(second),
        first.has(id),
        first.groups_branch(),
        forall|node: NodeId| #[trigger]
            second.has(node) && first.data(node) is Group ==> second.data(node).spec_orientation()
                == first.data(node).spec_orientation(),
    ensures
        first.adjacent(id, direction) == second.adjacent(id, direction),
{
    let rank = choose|rank: Map<NodeId, nat>| first.ranked(rank);
    assert forall|level: nat|
        first.neighbour_at(id, level, direction) == #[trigger] second.neighbour_at(
            id,
            level,
            direction,
        ) by {
        assert forall|k: nat| k < level + 1 implies match #[trigger] first.ancestor(id, k) {
            Some(node) => first.has(node) == second.has(node) && (first.has(node)
                ==> first.parent(node) == second.parent(node)),
            None => true,
        } by {
            match first.ancestor(id, k) {
                Some(node) => {
                    assert(first.has(node) == second.has(node));
                },
                None => {},
            }
        }
        lemma_same_ancestors(first, second, id, level);
        lemma_same_ancestors(first, second, id, level + 1);
        lemma_ancestor_rank(first, rank, id, level + 1);
        match first.ancestor(id, level + 1) {
            Some(parent) => {
                assert(second.has(parent));
                lemma_ancestor_rank(first, rank, id, level);
                lemma_ancestor_add(first, id, level, 1);
                let child = first.ancestor(id, level)->0;
                assert(first.ancestor(child, 1) == first.ancestor(first.parent(child)->0, 0));
                assert(first.parent(child) == Some(parent));
                assert(first.has(child));
                assert(first.children(parent).len() > 0);
            },
            None => {},
        }
    }
    if first.adjacent(id, direction) {
        let level = choose|level: nat| #[trigger] first.neighbour_at(id, level, direction);
        assert(second.neighbour_at(id, level, direction));
    }
    if second.adjacent(id, direction) {
        let level = choose|level: nat| #[trigger] second.neighbour_at(id, level, direction);
        assert(first.neighbour_at(id, level, direction));
    }
}

/// Placing another node keeps what was placed before.
proof fn lemma_place_one(
    tree: TreeModel,
    now: TreeModel,
    done: Seq<NodeId>,
    id: NodeId,
    zone: Rectangle,
    inner: i32,
)
    requires
        tree.regular(),
        tree.partly_laid_out(now, done, zone, inner),
        tree.has(id),
        !done.contains(id),
        match tree.parent(id) {
            Some(parent) => done.contains(parent),
            None => true,
        },
    ensures
        ({
            let after = now.with_data(
                id,
                tree.data(id).placed(tree.cell(id, now.area(id, zone), inner)),
            );
            &&& tree.partly_laid_out(after, done.push(id), zone, inner)
            &&& forall|other: NodeId| #[trigger]
                tree.has(other) && tree.parent(other) != Some(id) ==> after.area(other, zone)
                    == now.area(other, zone)
        }),
{
    let after = now.with_data(id, tree.data(id).placed(tree.cell(id, now.area(id, zone), inner)));
    assert(after.nodes.dom() =~= tree.nodes.dom());
    let more = done.push(id);
    assert(more.last() == id);
    assert forall|other: NodeId| #[trigger] more.contains(other) == (done.contains(other) || other
        == id) by {
        if done.contains(other) {
            let i = done.index_of(other);
            assert(more[i] == other);
        }
        if more.contains(other) && other != id {
            let i = more.index_of(other);
            assert(done[i] == other);
        }
    }
    assert forall|other: NodeId| #[trigger] after.has(other) implies after.parent(other)
        == tree.parent(other) && after.children(other) == tree.children(other) && after.key(other)
        == tree.key(other) by {
        assert(now.has(other));
    }
    assert forall|other: NodeId| #[trigger] tree.has(other) && tree.parent(other) != Some(
        id,
    ) implies after.area(other, zone) == now.area(other, zone) by {
        assert(now.has(other));
        assert(after.has(other));
        match tree.parent(other) {
            Some(parent) => {
                assert(tree.has(parent)) by {
                    reveal(TreeModel::regular);
                }
                assert(now.has(parent));
                assert(after.has(parent));
            },
            None => {},
        }
    }
    assert(tree.parent(id) != Some(id)) by {
        reveal(TreeModel::regular);
        if tree.parent(id) == Some(id) {
            lemma_parent_not_below(tree, id, id);
        }
    }
    assert forall|other: NodeId| #[trigger] after.has(other) implies after.data(other)
        == if more.contains(other) {
        tree.data(other).placed(tree.cell(other, after.area(other, zone), inner))
    } else {
        tree.data(other)
    } by {
        assert(now.has(other));
        assert(tree.has(other));
        if done.contains(other) {
            assert(tree.parent(other) != Some(id));
        }
    }
}

/// Every node of a connected tree is below its root.
pub proof fn lemma_below_root(tree: TreeModel, id: NodeId, rank: Map<NodeId, nat>)
    requires
        tree.forest(),
        tree.connected(),
        tree.has(id),
        tree.ranked(rank),
    ensures
        tree.root is Some,
        tree.below(id, tree.root->0),
    decreases rank[id],
{
    match tree.parent(id) {
        Some(parent) => {
            lemma_below_root(tree, parent, rank);
            lemma_below_parent(tree, id, tree.root->0);
        },
        None => {
            lemma_below_self(tree, id);
        },
    }
}

/// Half of the gap at an edge where something lies next to a node, all of it elsewhere.
fn gap_at(tree: &Tree<TreeNode>, node: &NodeId, direction: Direction, inner: i32) -> (gap: i32)
    requires
        model(*tree).regular(),
        model(*tree).has(*node),
    ensures
        gap == model(*tree).gap_at(*node, direction, inner),
{
    proof {
        reveal(TreeModel::regular);
    }
    if has_adjacent_node(tree, node, direction) {
        inner / 2
    } else {
        inner
    }
}

/// Puts the areas of the children of a group on the stack, that of the first child on top.
fn push_slots(stack: &mut Vec<Rectangle>, data: &Data)
    ensures
        ({
            let count = if data@ is Group {
                data@->sizes.len() as int
            } else {
                0
            };
            &&& final(stack)@.len() == old(stack)@.len() + count
            &&& final(stack)@.take(old(stack)@.len() as int) == old(stack)@
            &&& forall|i: int|
                0 <= i < count ==> #[trigger] final(stack)@[final(stack)@.len() - 1 - i]
                    == data@.slot(i)
        }),
{
    let ghost below = stack@;
    match data {
        Data::Group { orientation, sizes, last_geometry, .. } => {
            let mut previous: i128 = sum_of(sizes);
            let mut i: usize = sizes.len();
            assert(sizes@.take(sizes@.len() as int) =~= sizes@);
            while i > 0
                invariant
                    i <= sizes@.len(),
                    *data == (Data::Group {
                        orientation: *orientation,
                        sizes: *sizes,
                        last_geometry: *last_geometry,
                        pill_indicator: data->pill_indicator,
                    }),
                    previous == sum(sizes@.take(i as int)),
                    -0x1_0000_0000_0000_0000_0000_0000 - (sizes@.len() - i) * 0x8000_0000
                        <= previous <= 0x1_0000_0000_0000_0000_0000_0000 + (sizes@.len() - i)
                        * 0x8000_0000,
                    sizes@.len() <= usize::MAX,
                    stack@.len() == below.len() + sizes@.len() - i,
                    stack@.take(below.len() as int) == below,
                    forall|j: int|
                        i <= j < sizes@.len() ==> #[trigger] stack@[below.len() + sizes@.len() - 1
                            - j] == data@.slot(j),
                decreases i,
            {
                i = i - 1;
                assert(sizes@.take(i as int + 1).drop_last() =~= sizes@.take(i as int));
                previous = previous - sizes[i] as i128;
                let offset: i128 = previous + match *orientation {
                    Orientation::Horizontal => last_geometry.loc.y as i128,
                    Orientation::Vertical => last_geometry.loc.x as i128,
                };
                let offset: i32 = if offset < i32::MIN as i128 {
                    i32::MIN
                } else if offset > i32::MAX as i128 {
                    i32::MAX
                } else {
                    offset as i32
                };
                let ghost before = stack@;
                stack.push(
                    match *orientation {
                        Orientation::Horizontal => Rectangle::new(
                            last_geometry.loc.x,
                            offset,
                            last_geometry.size.w,
                            sizes[i],
                        ),
                        Orientation::Vertical => Rectangle::new(
                            offset,
                            last_geometry.loc.y,
                            sizes[i],
                            last_geometry.size.h,
                        ),
                    },
                );
                assert(stack@.take(below.len() as int) =~= before.take(below.len() as int));
                assert(stack@.last() == data@.slot(i as int));
            }
        },
        _ => {
            assert(stack@.take(below.len() as int) =~= below);
        },
    }
}

/// A group has room for its children, and nothing else has children.
pub proof fn lemma_room(tree: TreeModel, id: NodeId)
    requires
        tree.regular(),
        tree.has(id),
    ensures
        tree.children(id).len() == if tree.data(id) is Group {
            tree.data(id)->sizes.len()
        } else {
            0
        },
{
    reveal(TreeModel::regular);
    assert(tree.children(id).len() > 0 ==> tree.data(id) is Group);
}

/// The children of a node have it as their parent, each at its own place.
pub proof fn lemma_child(tree: TreeModel, id: NodeId, index: int)
    requires
        tree.regular(),
        tree.has(id),
        0 <= index < tree.children(id).len(),
    ensures
        tree.has(tree.children(id)[index]),
        tree.parent(tree.children(id)[index]) == Some(id),
        tree.place(id, tree.children(id)[index]) == index,
{
    reveal(TreeModel::regular);
    let child = tree.children(id)[index];
    assert(tree.children(id).no_duplicates());
    assert(tree.children(id).contains(child));
}

/// Whether the areas on the stack are those of the nodes that are still to be placed.
spec fn stacked(now: TreeModel, stack: Seq<Rectangle>, pending: Seq<NodeId>, zone: Rectangle) -> bool {
    &&& stack.len() == pending.len()
    &&& forall|j: int|
        0 <= j < pending.len() ==> stack[stack.len() - 1 - j] == now.area(
            #[trigger] pending[j],
            zone,
        )
}

/// Whether the nodes that are still to be placed are in the tree, and their parents are
/// placed.
spec fn ready(tree: TreeModel, pending: Seq<NodeId>, done: Seq<NodeId>) -> bool {
    forall|j: int|
        0 <= j < pending.len() ==> tree.has(#[trigger] pending[j]) && match tree.parent(
            pending[j],
        ) {
            Some(parent) => done.contains(parent),
            None => true,
        }
}

/// After a node was placed, its children are the next ones.
proof fn lemma_next_pending(
    tree: TreeModel,
    now: TreeModel,
    after: TreeModel,
    stack: Seq<Rectangle>,
    pushed: Seq<Rectangle>,
    pending: Seq<NodeId>,
    done: Seq<NodeId>,
    zone: Rectangle,
)
    requires
        tree.regular(),
        tree.same_shape(after),
        pending.len() > 0,
        !done.contains(pending[0]),
        stacked(now, stack, pending, zone),
        ready(tree, pending, done),
        forall|other: NodeId| #[trigger]
            tree.has(other) && tree.parent(other) != Some(pending[0]) ==> after.area(other, zone)
                == now.area(other, zone),
        pushed.len() == stack.len() - 1 + tree.children(pending[0]).len(),
        pushed.take(stack.len() - 1) == stack.drop_last(),
        forall|i: int|
            0 <= i < tree.children(pending[0]).len() ==> #[trigger] pushed[pushed.len() - 1 - i]
                == after.data(pending[0]).slot(i),
    ensures
        stacked(after, pushed, tree.children(pending[0]) + pending.skip(1), zone),
        ready(tree, tree.children(pending[0]) + pending.skip(1), done.push(pending[0])),
{
    let id = pending[0];
    let children = tree.children(id);
    let next = children + pending.skip(1);
    let more = done.push(id);
    assert(more.last() == id);
    assert(more.contains(id));
    assert(tree.has(id));
    assert(after.has(id));
    assert forall|j: int| 0 <= j < next.len() implies pushed[pushed.len() - 1 - j] == after.area(
        #[trigger] next[j],
        zone,
    ) && tree.has(next[j]) && match tree.parent(next[j]) {
        Some(parent) => more.contains(parent),
        None => true,
    } by {
        if j < children.len() {
            let child = children[j];
            assert(next[j] == child);
            lemma_child(tree, id, j);
            assert(after.has(child));
            assert(pushed[pushed.len() - 1 - j] == after.data(id).slot(j));
            assert(after.parent(child) == Some(id) && after.children(id) == children);
            assert(after.area(child, zone) == after.data(id).slot(j));
        } else {
            let k = j - children.len() + 1;
            let other = pending[k];
            assert(next.len() == children.len() + pending.len() - 1);
            assert(1 <= k < pending.len());
            assert(next[j] == pending.skip(1)[j - children.len()]);
            assert(next[j] == other);
            assert(stack[stack.len() - 1 - k] == now.area(other, zone));
            let place = stack.len() - 1 - k;
            assert(0 <= place < stack.len() - 1);
            assert(pushed.take(stack.len() - 1)[place] == pushed[place]);
            assert(stack.drop_last()[place] == stack[place]);
            assert(pushed.len() - 1 - j == place);
            match tree.parent(other) {
                Some(parent) => {
                    assert(done.contains(parent));
                    let i = done.index_of(parent);
                    assert(more[i] == parent);
                },
                None => {},
            }
            assert(tree.parent(other) != Some(id));
            assert(after.area(other, zone) == now.area(other, zone));
            assert(pushed[stack.len() - 1 - k] == stack[stack.len() - 1 - k]);
        }
    }
}

/// Placing a node does not change what the windows before it are asked to do.
proof fn lemma_configures_unchanged(
    first: TreeModel,
    second: TreeModel,
    order: Seq<NodeId>,
)
    requires
        forall|id: NodeId| #[trigger] order.contains(id) ==> first.data(id) == second.data(id),
    ensures
        first.configures(order) == second.configures(order),
    decreases order.len(),
{
    if order.len() > 0 {
        assert(order.contains(order.last()));
        assert forall|id: NodeId| #[trigger] order.drop_last().contains(id) implies first.data(id)
            == second.data(id) by {
            let i = order.drop_last().index_of(id);
            assert(order[i] == id);
            assert(order.contains(id));
        }
        lemma_configures_unchanged(first, second, order.drop_last());
    }
}

/// Other data of the same sort in a node leave a tree in order.
proof fn lemma_placed_regular(tree: TreeModel, id: NodeId, cell: Rectangle)
    requires
        tree.regular(),
        tree.has(id),
    ensures
        tree.with_data(id, tree.data(id).placed(cell)).regular(),
{
    reveal(TreeModel::regular);
    let after = tree.with_data(id, tree.data(id).placed(cell));
    lemma_forest_with_data(tree, id, tree.data(id).placed(cell));
    assert(after.groups_branch()) by {
        assert forall|node: NodeId|
            after.has(node) && (#[trigger] after.children(node)).len() > 0 implies after.data(
            node,
        ) is Group by {
            assert(tree.has(node) && tree.children(node).len() > 0);
        }
    }
    assert(after.groups_fit()) by {
        assert forall|node: NodeId|
            #![trigger after.data(node)]
            after.has(node) && after.data(node) is Group implies after.data(node)->sizes.len()
            == after.children(node).len() by {
            assert(tree.has(node));
            assert(tree.data(node)->sizes.len() == tree.children(node).len());
        }
    }
}

/// Gives one node its area, and its children theirs. Adds what a window is asked to do.
fn place_node(
    tree: &mut Tree<TreeNode>,
    id: &NodeId,
    area: Rectangle,
    inner: i32,
    stack: &mut Vec<Rectangle>,
    configures: &mut Vec<Configure>,
)
    requires
        model(*old(tree)).regular(),
        model(*old(tree)).has(*id),
    ensures
        ({
            let before = model(*old(tree));
            let data = before.data(*id).placed(before.cell(*id, area, inner));
            let children = before.children(*id);
            &&& model(*final(tree)) == before.with_data(*id, data)
            &&& model(*final(tree)).regular()
            &&& final(stack)@.len() == old(stack)@.len() + children.len()
            &&& final(stack)@.take(old(stack)@.len() as int) == old(stack)@
            &&& forall|i: int|
                0 <= i < children.len() ==> #[trigger] final(stack)@[final(stack)@.len() - 1 - i]
                    == data.slot(i)
            &&& final(configures)@ == old(configures)@ + data.configure()
        }),
{
    let ghost before = model(*tree);
    let is_window: bool = match get_node(tree, id) {
        Some(node) => node.data.is_mapped(None),
        None => false,
    };
    let cell: Rectangle = if is_window {
        area.shrunk_by(
            gap_at(tree, id, Direction::Left, inner),
            gap_at(tree, id, Direction::Up, inner),
            gap_at(tree, id, Direction::Right, inner),
            gap_at(tree, id, Direction::Down, inner),
        )
    } else {
        area
    };
    proof {
        lemma_placed_regular(before, *id, cell);
        lemma_room(before, *id);
    }
    let ghost earlier = configures@;
    match get_node_mut(tree, id) {
        Some(node) => {
            node.data.update_geometry(cell);
            push_slots(stack, &node.data);
            match &node.data {
                Data::Mapped { mapped, last_geometry, .. } => {
                    if !(mapped.fullscreen || mapped.maximized) {
                        configures.push(
                            Configure { window: mapped.id, geometry: *last_geometry, send: true },
                        );
                    }
                },
                _ => {},
            }
            assert(configures@ =~= earlier + node@.data.configure());
        },
        None => {},
    }
    assert(model(*tree) =~~= before.with_data(*id, before.data(*id).placed(cell)));
}

/// Two trees of the same shape, one of which is partly laid out, have the same cells.
proof fn lemma_same_cell(
    tree: TreeModel,
    now: TreeModel,
    done: Seq<NodeId>,
    id: NodeId,
    area: Rectangle,
    zone: Rectangle,
    inner: i32,
)
    requires
        tree.regular(),
        tree.partly_laid_out(now, done, zone, inner),
        tree.has(id),
    ensures
        now.cell(id, area, inner) == tree.cell(id, area, inner),
{
    reveal(TreeModel::regular);
    assert(now.has(id));
    assert forall|node: NodeId| #[trigger] now.has(node) && tree.data(
        node,
    ) is Group implies now.data(node).spec_orientation() == tree.data(node).spec_orientation() by {}
    lemma_same_neighbours(tree, now, id, Direction::Left);
    lemma_same_neighbours(tree, now, id, Direction::Up);
    lemma_same_neighbours(tree, now, id, Direction::Right);
    lemma_same_neighbours(tree, now, id, Direction::Down);
}

/// Gives every node the area that it gets from its parent, and the root `zone`. Returns what
/// the windows are asked to do, in the order of the tree.
fn lay_out(tree: &mut Tree<TreeNode>, root: &NodeId, zone: Rectangle, inner: i32) -> (configures: Vec<
    Configure,
>)
    requires
        model(*old(tree)).regular(),
        model(*old(tree)).root == Some(*root),
    ensures
        model(*old(tree)).laid_out(model(*final(tree)), zone, inner),
        model(*final(tree)).regular(),
        exists|order: Seq<NodeId>| #[trigger]
            visits(model(*old(tree)).nodes, seq![*root], order) && configures@ == model(
                *final(tree),
            ).configures(order),
{
    let ghost shape = model(*tree);
    assert(shape.forest() && shape.has(*root)) by {
        reveal(TreeModel::regular);
    }
    let order: Vec<NodeId> = preorder_ids(tree, root);
    let mut stack: Vec<Rectangle> = Vec::new();
    stack.push(zone);
    let mut configures: Vec<Configure> = Vec::new();
    let ghost mut pending: Seq<NodeId> = seq![*root];
    let mut i: usize = 0;
    assert(order@.skip(0) =~= order@);
    while i < order.len()
        invariant
            i <= order@.len(),
            shape.regular(),
            order@.no_duplicates(),
            shape.partly_laid_out(model(*tree), order@.take(i as int), zone, inner),
            model(*tree).regular(),
            visits(shape.nodes, pending, order@.skip(i as int)),
            stacked(model(*tree), stack@, pending, zone),
            ready(shape, pending, order@.take(i as int)),
            configures@ == model(*tree).configures(order@.take(i as int)),
        decreases order@.len() - i,
    {
        let ghost now = model(*tree);
        let ghost done = order@.take(i as int);
        let id: NodeId = copy_id(&order[i]);
        assert(order@.skip(i as int)[0] == id);
        assert(pending[0] == id);
        assert(!done.contains(id));
        assert(shape.has(id) && now.has(id));
        let ghost before_stack = stack@;
        let area: Rectangle = match stack.pop() {
            Some(area) => area,
            None => zone,
        };
        assert(area == now.area(id, zone));
        assert(stack@ =~= before_stack.drop_last());
        proof {
            lemma_same_cell(shape, now, done, id, area, zone, inner);
            assert(now.data(id) == shape.data(id));
        }
        place_node(tree, &id, area, inner, &mut stack, &mut configures);
        proof {
            let after = model(*tree);
            lemma_place_one(shape, now, done, id, zone, inner);
            assert(order@.take(i as int + 1) =~= done.push(id));
            assert(order@.skip(i as int).skip(1) =~= order@.skip(i as int + 1));
            assert(now.children(id) == shape.children(id));
            lemma_next_pending(shape, now, after, before_stack, stack@, pending, done, zone);
            assert(order@.take(i as int + 1).drop_last() =~= done);
            lemma_configures_unchanged(now, after, done);
            pending = shape.children(id) + pending.skip(1);
        }
        i += 1;
    }
    proof {
        assert(order@.take(order@.len() as int) =~= order@);
        let after = model(*tree);
        reveal(TreeModel::regular);
        let rank = choose|rank: Map<NodeId, nat>| shape.ranked(rank);
        assert forall|id: NodeId| #[trigger] after.has(id) implies after.data(id) == shape.data(
            id,
        ).placed(shape.cell(id, after.area(id, zone), inner)) by {
            lemma_below_root(shape, id, rank);
            assert(order@.contains(id));
        }
        assert(visits(shape.nodes, seq![*root], order@));
    }
    configures
}

/// A tree in order without a root has no nodes.
pub proof fn lemma_empty(tree: TreeModel)
    requires
        tree.regular(),
        tree.root is None,
    ensures
        tree.settled(),
        forall|id: NodeId| !#[trigger] tree.has(id),
{
    lemma_sound(tree);
    lemma_regular(tree);
    let rank = choose|rank: Map<NodeId, nat>| tree.ranked(rank);
    assert forall|id: NodeId| !#[trigger] tree.has(id) by {
        if tree.has(id) {
            lemma_below_root(tree, id, rank);
        }
    }
}

/// Without groups of one child, every group of a sound tree has two.
proof fn lemma_settled(
    tree: TreeModel,
    flat: TreeModel,
    after: TreeModel,
    order: Seq<NodeId>,
    zone: Rectangle,
    inner: i32,
)
    requires
        tree.sound(),
        tree.keeps(flat),
        forall|id: NodeId| #[trigger] tree.has(id) ==> order.contains(id),
        forall|i: int| 0 <= i < order.len() ==> !flat.single(#[trigger] order[i]),
        flat.laid_out(after, zone, inner),
        after.regular(),
    ensures
        after.settled(),
{
    lemma_sound(tree);
    lemma_sound(after);
    lemma_regular(after);
    assert forall|id: NodeId| #[trigger] after.has(id) && after.data(id) is Group implies after.data(id)->sizes.len() >= 2 by {
        assert(flat.has(id));
        assert(tree.has(id));
        let i = order.index_of(id);
        assert(!flat.single(order[i]));
        assert(flat.data(id) is Group);
        assert(tree.data(id)->sizes.len() >= 1);
    }
}

/// Lays out the tree in `zone`: groups with only one child are replaced by that child, every
/// group splits its area between its children in proportion, and windows keep the inner gap
/// around them, half of it towards each other. Returns what the windows are asked to do.
pub fn update_positions(tree: &mut Tree<TreeNode>, zone: Rectangle, gaps: (i32, i32)) -> (configures:
    Vec<Configure>)
    requires
        model(*old(tree)).regular(),
    ensures
        match model(*old(tree)).root {
            Some(root) => exists|before: Seq<NodeId>, after: Seq<NodeId>| #[trigger]
                model(*old(tree)).arranged(
                    model(*final(tree)),
                    before,
                    after,
                    zone,
                    gaps,
                ) && configures@ == model(*final(tree)).configures(after),
            None => model(*final(tree)) == model(*old(tree)) && configures@.len() == 0,
        },
        model(*final(tree)).regular(),
        model(*old(tree)).sound() ==> model(*final(tree)).settled(),
        model(*old(tree)).keeps_keys(model(*final(tree))),
{
    let (outer, inner) = gaps;
    let ghost whole = zone;
    match root_id(tree) {
        Some(root) => {
            let ghost shape = model(*tree);
            assert(shape.forest() && shape.has(root)) by {
                reveal(TreeModel::regular);
            }
            let order: Vec<NodeId> = preorder_ids(tree, &root);
            assert forall|id: NodeId| #[trigger] shape.has(id) implies order@.contains(id) by {
                reveal(TreeModel::regular);
                let rank = choose|rank: Map<NodeId, nat>| shape.ranked(rank);
                lemma_below_root(shape, id, rank);
            }
            flatten(tree, &order);
            let ghost flat = model(*tree);
            let zone: Rectangle = Rectangle::new(
                add_saturating(zone.loc.x, outer),
                add_saturating(zone.loc.y, outer),
                sub_saturating(zone.size.w, double_saturating(outer)),
                sub_saturating(zone.size.h, double_saturating(outer)),
            );
            match root_id(tree) {
                Some(root) => {
                    let configures: Vec<Configure> = lay_out(tree, &root, zone, inner);
                    proof {
                        let after = choose|after: Seq<NodeId>| #[trigger]
                            visits(flat.nodes, seq![root], after) && configures@ == model(
                                *tree,
                            ).configures(after);
                        assert(shape.arranged(model(*tree), order@, after, whole, gaps));
                        assert forall|id: NodeId| #[trigger] model(*tree).has(id) implies shape.has(
                            id,
                        ) && model(*tree).key(id) == shape.key(id) by {
                            assert(flat.has(id));
                        }
                        if shape.sound() {
                            lemma_settled(shape, flat, model(*tree), order@, zone, inner);
                        }
                    }
                    configures
                },
                None => Vec::new(),
            }
        },
        None => {
            proof {
                lemma_empty(model(*tree));
            }
            Vec::new()
        },
    }
}

} // verus!
