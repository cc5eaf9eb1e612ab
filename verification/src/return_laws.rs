//! What is left of the areas of a tree when its layout scrolled in between.

use vstd::prelude::*;

use id_tree::NodeId;

use crate::actions::Direction;
use crate::balance::{lemma_regular, lemma_same_rooms, lemma_sound};
use crate::classic::{lemma_empty, outer_zone, Configure};
use crate::config::TilingEngine;
use crate::copies::law_copies_are_alike;
use crate::data::{lemma_scaled_part, lemma_settled_sum, rescaled, scaled, settled, sum, DataView};
use crate::extent_laws::{extents, lemma_part_of_sum};
use crate::geometry::{Point, Rectangle};
use crate::layout::{placed_in, LayoutView};
use crate::layout_laws::lemma_flat_already;
use crate::placement::viewport_area;
use crate::queue::{blockers_of, QueueView};
use crate::scrolling::ScrollView;
use crate::strip::Strip;
use crate::strip_actions::ResizingChange;
use crate::tree::{visits, TreeModel};
use crate::tree_actions::barriers;
use crate::twins::{
    lemma_copy_twin, lemma_shape_twin, lemma_twin_adjacent, lemma_twin_chain, lemma_twin_has,
    lemma_twin_keyed, lemma_twin_of, lemma_twin_place,
};

verus! {

/// The longest group whose extents are sure to be found again: wider than any screen.
pub const EXACT_LENGTH: i32 = 0x100_0000;

/// A part of a whole that is scaled up and back is what it was.
proof fn lemma_scaled_back(part: int, from: int, to: int)
    requires
        0 <= part <= from,
        0 < from <= to <= EXACT_LENGTH,
    ensures
        scaled(scaled(part, from, to) as int, to, from) == part,
{
    let up = scaled(part, from, to) as int;
    lemma_scaled_part(part, from, to);
    if from == to {
        lemma_scaled_same(part, from);
    } else {
        lemma_scaled_part(up, to, from);
        let down = scaled(up, to, from) as int;
        assert(part * to <= from * to && from * up <= from * to && from * up == up * from)
            by (nonlinear_arith)
            requires
                part <= from,
                up <= to,
                0 < from,
                0 < to,
        ;
        assert(from * to <= 0x100_0000 * to) by (nonlinear_arith)
            requires
                from <= 0x100_0000,
                0 < to,
        ;
        let off = down - part;
        assert(off * to == to * down - part * to) by (nonlinear_arith)
            requires
                off == down - part,
        ;
        if off >= 1 {
            assert(off * to >= to) by (nonlinear_arith)
                requires
                    off >= 1,
                    0 < to,
            ;
        } else if off <= -1 {
            assert(off * to <= -to) by (nonlinear_arith)
                requires
                    off <= -1,
                    0 < to,
            ;
        }
    }
}

/// A part of a whole is the same part of the same whole.
proof fn lemma_scaled_same(part: int, length: int)
    requires
        0 <= part <= length,
        0 < length <= i32::MAX,
    ensures
        scaled(part, length, length) == part,
{
    lemma_scaled_part(part, length, length);
    let off = scaled(part, length, length) - part;
    assert(length * scaled(part, length, length) - part * length == off * length)
        by (nonlinear_arith)
        requires
            off == scaled(part, length, length) - part,
    ;
    assert(part * length <= 0x7fff_ffff * length) by (nonlinear_arith)
        requires
            part <= 0x7fff_ffff,
            0 < length,
    ;
    if off >= 1 {
        assert(off * length >= length) by (nonlinear_arith)
            requires
                off >= 1,
                0 < length,
        ;
    } else if off <= -1 {
        assert(off * length <= -length) by (nonlinear_arith)
            requires
                off <= -1,
                0 < length,
        ;
    }
}

/// The sum of extents that differ in the last one only.
proof fn lemma_same_start(first: Seq<i32>, second: Seq<i32>)
    requires
        first.len() == second.len(),
        first.len() > 0,
        forall|i: int| 0 <= i < first.len() - 1 ==> first[i] == second[i],
    ensures
        sum(first) - first.last() == sum(second) - second.last(),
{
    assert(first.drop_last() =~= second.drop_last());
}

/// Extents that are scaled up with their group and back are what they were.
proof fn lemma_extents_back(sizes: Seq<i32>, from: int, to: int)
    requires
        extents(sizes),
        sum(sizes) == from,
        0 < from <= to <= EXACT_LENGTH,
    ensures
        settled(rescaled(settled(rescaled(sizes, from, to), to), to, from), from) == sizes,
{
    let there = settled(rescaled(sizes, from, to), to);
    let back = rescaled(there, to, from);
    let after = settled(back, from);
    assert(sizes.len() > 0);
    let last = sizes.len() - 1;
    assert forall|i: int| 0 <= i < last implies back[i] == sizes[i] by {
        lemma_part_of_sum(sizes, i);
        lemma_scaled_back(sizes[i] as int, from, to);
        assert(there[i] == rescaled(sizes, from, to)[i]);
    }
    lemma_same_start(back, sizes);
    lemma_part_of_sum(sizes, last);
    assert(after =~= sizes);
}

impl DataView {
    /// Whether two nodes differ in nothing that a layout depends on.
    pub open spec fn stands_like(self, other: DataView) -> bool {
        match (self, other) {
            (
                DataView::Group { orientation, sizes, last_geometry, .. },
                DataView::Group { orientation: turned, sizes: parts, last_geometry: area, .. },
            ) => orientation == turned && sizes == parts && last_geometry == area,
            (DataView::Mapped { last_geometry, .. }, DataView::Mapped { last_geometry: area, .. }) => {
                last_geometry == area
            },
            (
                DataView::Placeholder { last_geometry, type_ },
                DataView::Placeholder { last_geometry: area, type_: kind },
            ) => last_geometry == area && type_ == kind,
            _ => false,
        }
    }

    /// Whether `other` is this node in another area.
    spec fn stretched_to(self, other: DataView) -> bool {
        match self {
            DataView::Group { orientation, .. } => {
                &&& other is Group
                &&& other.spec_orientation() == orientation
                &&& other->sizes == self.placed(other.geometry())->sizes
            },
            DataView::Mapped { .. } => other is Mapped,
            DataView::Placeholder { type_, .. } => {
                &&& other matches DataView::Placeholder { type_: kind, .. }
                &&& kind == type_
            },
        }
    }
}

impl TreeModel {
    /// Whether the other tree differs in nothing that a layout depends on.
    pub open spec fn stands_as(self, other: TreeModel) -> bool {
        &&& self.same_shape(other)
        &&& forall|id: NodeId| #[trigger]
            other.has(id) ==> self.data(id).stands_like(other.data(id))
    }

    /// Whether the other tree is this one with its nodes in other areas, under other ids.
    spec fn stretched(self, other: TreeModel, ids: Map<NodeId, NodeId>) -> bool {
        &&& self.twinned(other, ids)
        &&& forall|id: NodeId| #[trigger]
            self.has(id) ==> self.data(id).stretched_to(other.data(ids[id]))
    }

    /// Whether no place is kept open for a drop.
    pub open spec fn undropped(self) -> bool {
        forall|id: NodeId| #[trigger]
            self.has(id) ==> !(self.data(id) matches DataView::Placeholder { type_, .. }
                && type_ is DropZone)
    }

    /// Whether the children of every group share all of its area, of which there is some.
    pub open spec fn all_filled(self) -> bool {
        forall|id: NodeId| #[trigger]
            self.has(id) && self.data(id) is Group ==> self.data(id).filled() && self.data(
                id,
            ).geometry().extent(self.data(id).spec_orientation()) > 0
    }

    /// Whether every group is at least as long in the other tree, and not too long for its
    /// extents to be found again.
    pub open spec fn fits_into(self, other: TreeModel) -> bool {
        forall|id: NodeId| #[trigger]
            self.has(id) && self.data(id) is Group ==> {
                let orientation = self.data(id).spec_orientation();
                self.data(id).geometry().extent(orientation) <= other.data(
                    other.node_keyed(self.key(id)),
                ).geometry().extent(orientation) <= EXACT_LENGTH
            }
    }
}

/// A node in the area that it has is what it is.
proof fn lemma_stretched_same(data: DataView)
    requires
        data is Group ==> data.filled() && data.geometry().extent(data.spec_orientation()) > 0,
    ensures
        data.stretched_to(data),
{
    if data is Group {
        let sizes = data->sizes;
        let length = data.geometry().extent(data.spec_orientation()) as int;
        assert(rescaled(sizes, length, length) =~= sizes) by {
            assert forall|i: int| 0 <= i < sizes.len() implies rescaled(sizes, length, length)[i]
                == sizes[i] by {
                lemma_part_of_sum(sizes, i);
                lemma_scaled_same(sizes[i] as int, length);
            }
        }
    }
}

/// How far a part of a whole can be off when it was scaled to another length and back.
proof fn lemma_scaled_near(part: int, from: int, to: int)
    requires
        0 <= part <= from,
        0 < from <= EXACT_LENGTH,
        0 < to <= EXACT_LENGTH,
    ensures
        ({
            let back = scaled(scaled(part, from, to) as int, to, from);
            &&& 0 <= back <= from
            &&& -(from + to) <= 2 * to * (back - part) <= from + to
        }),
{
    let there = scaled(part, from, to) as int;
    lemma_scaled_part(part, from, to);
    lemma_scaled_part(there, to, from);
    let back = scaled(there, to, from) as int;
    assert(part * to <= from * to && there * from <= from * to && from * there == there * from)
        by (nonlinear_arith)
        requires
            part <= from,
            there <= to,
            0 < from,
            0 < to,
    ;
    assert(from * to <= 0x100_0000 * 0x100_0000) by (nonlinear_arith)
        requires
            0 < from <= 0x100_0000,
            0 < to <= 0x100_0000,
    ;
    assert(2 * to * (back - part) == 2 * (to * back) - 2 * (part * to)) by (nonlinear_arith);
}

/// How far extents can be off together.
proof fn lemma_extents_near(sizes: Seq<i32>, from: int, to: int)
    requires
        extents(sizes),
        sum(sizes) <= from,
        0 < from <= EXACT_LENGTH,
        0 < to <= EXACT_LENGTH,
    ensures
        ({
            let back = rescaled(rescaled(sizes, from, to), to, from);
            &&& 0 <= sum(back)
            &&& -(sizes.len() * (from + to)) <= 2 * to * (sum(back) - sum(sizes)) <= sizes.len()
                * (from + to)
        }),
    decreases sizes.len(),
{
    let back = rescaled(rescaled(sizes, from, to), to, from);
    if sizes.len() > 0 {
        let rest = sizes.drop_last();
        let last = sizes.last() as int;
        lemma_part_of_sum(sizes, sizes.len() - 1);
        lemma_extents_near(rest, from, to);
        lemma_scaled_near(last, from, to);
        let before = rescaled(rescaled(rest, from, to), to, from);
        assert(back.drop_last() =~= before);
        let near = back.last() as int;
        let count = rest.len() as int;
        assert(2 * to * ((sum(before) + near) - (sum(rest) + last)) == 2 * to * (sum(before) - sum(
            rest,
        )) + 2 * to * (near - last) && (count + 1) * (from + to) == count * (from + to) + (from
            + to)) by (nonlinear_arith);
    } else {
        assert(sum(back) == 0);
        assert(2 * to * 0 == 0 && 0 * (from + to) == 0) by (nonlinear_arith);
    }
}

/// A group that was brought to another length, even a shorter one, and back gives each of its
/// children the extent that it had, give or take half a pixel of each of the two lengths: for a
/// group that was half as long in between, at most one pixel. Only the last child can be off by
/// as much as all others together.
pub proof fn law_a_squeezed_group_is_nearly_restored(data: DataView, geometry: Rectangle)
    requires
        data.filled(),
        data->sizes.len() > 0,
        0 < data.geometry().extent(data.spec_orientation()) <= EXACT_LENGTH,
        0 < geometry.extent(data.spec_orientation()) <= EXACT_LENGTH,
        data->sizes.len() * (data.geometry().extent(data.spec_orientation()) + geometry.extent(
            data.spec_orientation(),
        )) <= i32::MAX,
    ensures
        ({
            let from = data.geometry().extent(data.spec_orientation()) as int;
            let to = geometry.extent(data.spec_orientation()) as int;
            let before = data->sizes;
            let after = data.placed(geometry).placed(data.geometry())->sizes;
            let last = before.len() - 1;
            &&& after.len() == before.len()
            &&& sum(after) == from
            &&& forall|i: int|
                0 <= i < last ==> -(from + to) <= 2 * to * (#[trigger] after[i] - before[i]) <= from
                    + to
            &&& -(last * (from + to)) <= 2 * to * (after[last] - before[last]) <= last * (from + to)
        }),
{
    let from = data.geometry().extent(data.spec_orientation()) as int;
    let to = geometry.extent(data.spec_orientation()) as int;
    let sizes = data->sizes;
    let last = sizes.len() - 1;
    let there = settled(rescaled(sizes, from, to), to);
    let back = rescaled(there, to, from);
    let after = settled(back, from);
    assert(after == data.placed(geometry).placed(data.geometry())->sizes);
    let rest = sizes.drop_last();
    let near = rescaled(rescaled(rest, from, to), to, from);
    lemma_part_of_sum(sizes, last);
    assert forall|i: int| 0 <= i < last implies -(from + to) <= 2 * to * (#[trigger] after[i]
        - sizes[i]) <= from + to && after[i] == near[i] by {
        lemma_part_of_sum(sizes, i);
        lemma_scaled_near(sizes[i] as int, from, to);
        assert(there[i] == rescaled(sizes, from, to)[i]);
        assert(rest[i] == sizes[i]);
    }
    lemma_extents_near(rest, from, to);
    assert(back.drop_last() =~= near) by {
        assert forall|i: int| 0 <= i < last implies back[i] == near[i] by {
            assert(after[i] == near[i]);
            assert(back[i] == after[i]);
        }
    }
    let off = sum(near) - sum(rest);
    assert(off <= last * (from + to)) by (nonlinear_arith)
        requires
            2 * to * off <= last * (from + to),
            to >= 1,
            last >= 0,
            from >= 1,
    ;
    assert(last * (from + to) <= sizes.len() * (from + to)) by (nonlinear_arith)
        requires
            last <= sizes.len(),
            from + to >= 0,
    ;
    lemma_settled_sum(back, from);
    assert(after.drop_last() =~= near);
    assert(after[last] - sizes[last] == -off);
    assert(2 * to * (-off) == -(2 * to * off)) by (nonlinear_arith);
}

/// What differs in nothing that a layout depends on is as stretched.
proof fn lemma_stretched_like(data: DataView, middle: DataView, other: DataView)
    requires
        data.stretched_to(middle),
        middle.stands_like(other),
    ensures
        data.stretched_to(other),
{
}

/// Clearing nodes of what a drag left changes nothing that a layout depends on, if no place is
/// kept open for a drop.
proof fn lemma_swept_stands(tree: TreeModel, order: Seq<NodeId>)
    requires
        tree.undropped(),
    ensures
        tree.stands_as(tree.swept(order, false)),
    decreases order.len(),
{
    if order.len() > 0 {
        let before = tree.swept(order.drop_last(), false);
        lemma_swept_stands(tree, order.drop_last());
        let id = order.last();
        let after = before.swept_at(id, false);
        if before.has(id) {
            assert(before.nodes.dom().contains(id));
            assert(tree.nodes.dom().contains(id));
            assert(tree.has(id));
            assert(tree.data(id).stands_like(before.data(id)));
        }
        assert(after.nodes.dom() =~= before.nodes.dom());
        assert forall|node: NodeId| #[trigger] after.has(node) implies before.has(node)
            && tree.has(node) && tree.data(node).stands_like(after.data(node)) && after.parent(node)
            == tree.parent(node) && after.children(node) == tree.children(node) && after.key(node)
            == tree.key(node) by {
            assert(after.nodes.dom().contains(node));
            assert(before.has(node));
            assert(tree.nodes.dom().contains(node));
            assert(tree.data(node).stands_like(before.data(node)));
        }
    } else {
        assert forall|node: NodeId| #[trigger] tree.has(node) implies tree.data(node).stands_like(
            tree.data(node),
        ) by {}
    }
}

/// Tidying a tree changes nothing that a layout depends on, if no place is kept open for a drop.
pub proof fn lemma_tidied_stands(tree: TreeModel, after: TreeModel, grabbed: Option<u64>)
    requires
        tree.undropped(),
        tree.tidied(after, grabbed),
    ensures
        tree.stands_as(after),
{
    match tree.root {
        Some(root) => {
            let order = choose|order: Seq<NodeId>| #[trigger]
                visits(tree.nodes, seq![root], order) && after == tree.swept(order, false)
                    && grabbed == tree.grabbed_among(order);
            lemma_swept_stands(tree, order);
        },
        None => {
            lemma_swept_stands(tree, seq![]);
        },
    }
}

/// A tree is stretched into what differs in nothing that a layout depends on.
proof fn lemma_stretched_stands(
    tree: TreeModel,
    middle: TreeModel,
    other: TreeModel,
    ids: Map<NodeId, NodeId>,
)
    requires
        tree.stretched(middle, ids),
        middle.stands_as(other),
    ensures
        tree.stretched(other, ids),
        forall|id: NodeId| #[trigger]
            tree.has(id) ==> other.data(ids[id]).geometry() == middle.data(ids[id]).geometry(),
{
    lemma_shape_twin(tree, middle, other, ids);
    assert forall|id: NodeId| #[trigger] tree.has(id) implies tree.data(id).stretched_to(
        other.data(ids[id]),
    ) && other.data(ids[id]).geometry() == middle.data(ids[id]).geometry() by {
        lemma_twin_has(tree, other, ids, id);
        lemma_stretched_like(tree.data(id), middle.data(ids[id]), other.data(ids[id]));
    }
}

/// A tree is stretched into a copy.
proof fn lemma_stretched_copy(
    tree: TreeModel,
    middle: TreeModel,
    other: TreeModel,
    first: Map<NodeId, NodeId>,
) -> (ids: Map<NodeId, NodeId>)
    requires
        tree.forest(),
        tree.stretched(middle, first),
        middle.copied(other),
    ensures
        tree.stretched(other, ids),
        forall|id: NodeId| #[trigger]
            tree.has(id) ==> other.data(ids[id]) == middle.data(first[id]),
{
    lemma_copy_twin(middle, other);
    let second = choose|second: Map<NodeId, NodeId>| #[trigger]
        middle.renamed(other, second) && middle.twinned(other, second);
    let ids = lemma_twin_chain(tree, middle, other, first, second);
    assert forall|id: NodeId| #[trigger] tree.has(id) implies other.data(ids[id]) == middle.data(
        first[id],
    ) && tree.data(id).stretched_to(other.data(ids[id])) by {
        lemma_twin_has(tree, middle, first, id);
        assert(middle.has(first[id]));
    }
    ids
}

/// Bringing the strip into a tree stretches it.
proof fn lemma_stretched_scrolled(
    tree: TreeModel,
    middle: TreeModel,
    other: TreeModel,
    ids: Map<NodeId, NodeId>,
    strip: Strip,
    origin: Point,
)
    requires
        tree.all_filled(),
        tree.twinned(middle, ids),
        forall|id: NodeId| #[trigger]
            tree.has(id) ==> tree.data(id).stands_like(middle.data(ids[id])),
        middle.scrolled(other, strip, origin),
    ensures
        tree.stretched(other, ids),
{
    lemma_shape_twin(tree, middle, other, ids);
    assert forall|id: NodeId| #[trigger] tree.has(id) implies tree.data(id).stretched_to(
        other.data(ids[id]),
    ) by {
        lemma_twin_has(tree, other, ids, id);
        assert(other.data(ids[id]) == middle.scrolled_data(other, ids[id], strip, origin));
        lemma_stretched_same(tree.data(id));
    }
}

/// What a node takes of its area does not depend on how far its tree is stretched.
proof fn lemma_same_cell(
    tree: TreeModel,
    other: TreeModel,
    ids: Map<NodeId, NodeId>,
    id: NodeId,
    area: Rectangle,
    inner: i32,
)
    requires
        tree.regular(),
        tree.stretched(other, ids),
        tree.has(id),
    ensures
        other.cell(ids[id], area, inner) == tree.cell(id, area, inner),
{
    lemma_branches(tree);
    assert(tree.data(id).stretched_to(other.data(ids[id])));
    assert forall|node: NodeId| #[trigger]
        tree.has(node) && tree.data(node) is Group implies other.data(ids[node]).spec_orientation()
        == tree.data(node).spec_orientation() by {
        assert(tree.data(node).stretched_to(other.data(ids[node])));
    }
    lemma_twin_adjacent(tree, other, ids, id, Direction::Left);
    lemma_twin_adjacent(tree, other, ids, id, Direction::Up);
    lemma_twin_adjacent(tree, other, ids, id, Direction::Right);
    lemma_twin_adjacent(tree, other, ids, id, Direction::Down);
}

/// Only groups of a tree in order have children.
pub proof fn lemma_branches(tree: TreeModel)
    requires
        tree.regular(),
    ensures
        tree.forest(),
        tree.groups_branch(),
{
    lemma_regular(tree);
    assert forall|id: NodeId|
        tree.has(id) && (#[trigger] tree.children(id)).len() > 0 implies tree.data(id) is Group by {
        assert(tree.excess(id) == 0);
    }
}

/// Every node of a stretched tree that is laid out is where it was in the tree.
proof fn lemma_laid_out_back(
    tree: TreeModel,
    other: TreeModel,
    after: TreeModel,
    ids: Map<NodeId, NodeId>,
    zone: Rectangle,
    inner: i32,
    id: NodeId,
    rank: Map<NodeId, nat>,
)
    requires
        tree.regular(),
        tree.all_filled(),
        tree.ranked(rank),
        tree.laid_out(tree, zone, inner),
        tree.stretched(other, ids),
        other.laid_out(after, zone, inner),
        forall|node: NodeId| #[trigger]
            tree.has(node) && tree.data(node) is Group ==> tree.data(node).geometry().extent(
                tree.data(node).spec_orientation(),
            ) <= other.data(ids[node]).geometry().extent(tree.data(node).spec_orientation())
                <= EXACT_LENGTH,
        tree.has(id),
    ensures
        after.data(ids[id]).geometry() == tree.data(id).geometry(),
        tree.data(id) is Group ==> after.data(ids[id]) is Group && after.data(ids[id])->sizes
            == tree.data(id)->sizes && after.data(ids[id]).spec_orientation() == tree.data(
            id,
        ).spec_orientation(),
    decreases rank[id],
{
    lemma_branches(tree);
    lemma_shape_twin(tree, other, after, ids);
    lemma_twin_has(tree, after, ids, id);
    lemma_twin_has(tree, other, ids, id);
    match tree.parent(id) {
        Some(parent) => {
            assert(tree.has(parent) && tree.children(parent).contains(id));
            assert(tree.children(parent).len() > 0);
            lemma_laid_out_back(tree, other, after, ids, zone, inner, parent, rank);
            lemma_twin_place(tree, after, ids, parent, id);
            assert(after.area(ids[id], zone) == tree.area(id, zone));
        },
        None => {
            assert(after.area(ids[id], zone) == tree.area(id, zone));
        },
    }
    let area = tree.area(id, zone);
    lemma_same_cell(tree, other, ids, id, area, inner);
    let cell = tree.cell(id, area, inner);
    assert(after.data(ids[id]) == other.data(ids[id]).placed(cell));
    assert(tree.data(id) == tree.data(id).placed(cell));
    assert(tree.data(id).geometry() == cell);
    assert(tree.data(id).stretched_to(other.data(ids[id])));
    if tree.data(id) is Group {
        let orientation = tree.data(id).spec_orientation();
        assert(tree.data(id).filled());
        lemma_extents_back(
            tree.data(id)->sizes,
            tree.data(id).geometry().extent(orientation) as int,
            other.data(ids[id]).geometry().extent(orientation) as int,
        );
    }
}

/// Laying a tree out that is laid out already changes nothing, if the children of every group
/// share all of its area.
pub proof fn law_laying_out_again_changes_nothing(
    tree: TreeModel,
    placed: TreeModel,
    zone: Rectangle,
    inner: i32,
)
    requires
        tree.regular(),
        tree.laid_out(placed, zone, inner),
        placed.all_filled(),
    ensures
        placed.laid_out(placed, zone, inner),
{
    let ids = Map::new(|id: NodeId| tree.nodes.dom().contains(id), |id: NodeId| id);
    assert(ids.dom() =~= tree.nodes.dom());
    assert(ids.values() =~= tree.nodes.dom()) by {
        assert forall|node: NodeId| #[trigger] tree.nodes.dom().contains(node) implies ids.values().contains(
            node,
        ) by {
            assert(ids.dom().contains(node) && ids[node] == node);
        }
    }
    lemma_branches(tree);
    assert forall|id: NodeId| #[trigger] tree.has(id) implies placed.has(id) && ids[id] == id
        && placed.children(id) == tree.children(id).map_values(|child: NodeId| ids[child])
        && tree.data(id).stretched_to(placed.data(id)) by {
        assert(tree.nodes.dom().contains(id));
        assert(placed.nodes.dom().contains(id));
        assert(placed.has(id));
        assert forall|i: int| 0 <= i < tree.children(id).len() implies ids[tree.children(id)[i]]
            == #[trigger] tree.children(id)[i] by {
            assert(tree.has(tree.children(id)[i]));
        }
        assert(tree.children(id).map_values(|child: NodeId| ids[child]) =~= tree.children(id));
    }
    assert forall|id: NodeId| #[trigger] tree.has(id) implies placed.parent(ids[id]) == match tree.parent(
        id,
    ) {
        Some(parent) => Some(ids[parent]),
        None => None,
    } by {
        match tree.parent(id) {
            Some(parent) => {
                assert(tree.has(parent));
            },
            None => {},
        }
    }
    match tree.root {
        Some(root) => {
            assert(tree.has(root));
        },
        None => {},
    }
    assert(tree.stretched(placed, ids));
    assert forall|id: NodeId| #[trigger] placed.has(id) implies placed.data(id) == placed.data(
        id,
    ).placed(placed.cell(id, placed.area(id, zone), inner)) by {
        assert(placed.nodes.dom().contains(id));
        assert(tree.has(id));
        lemma_same_cell(tree, placed, ids, id, placed.area(id, zone), inner);
        lemma_stretched_same(placed.data(id));
    }
}

/// A layout that was switched to scrolling shows its tree stretched.
#[verifier::rlimit(60)]
#[verifier::spinoff_prover]
proof fn lemma_switched_to_scrolling(
    layout: LayoutView,
    after: LayoutView,
    changes: Seq<ResizingChange>,
    configures: Seq<Configure>,
) -> (ids: Map<NodeId, NodeId>)
    requires
        layout.ready(),
        layout.newest().undropped(),
        layout.newest().all_filled(),
        layout.switches(after, TilingEngine::Scrolling, changes, configures),
    ensures
        layout.newest().stretched(after.newest(), ids),
        after.usable == layout.usable,
        after.gaps == layout.gaps,
{
    let engine = TilingEngine::Scrolling;
    let before = layout.newest();
    let (copy, tree, placed, grabbed) = choose|
        copy: TreeModel,
        tree: TreeModel,
        placed: TreeModel,
        grabbed: Option<u64>,
    |
        layout.newest().copied(copy) && #[trigger] copy.tidied(tree, grabbed)
            && #[trigger] layout.with_engine(engine, grabbed).positioned(
            after.scroll,
            tree,
            placed,
            configures,
            None,
        ) && changes == (match layout.live {
            Some(live) => copy.resizing_changes(live.tiles, false),
            None => seq![],
        }) && barriers(after.queue.trees, placed, blockers_of(layout.queue.trees)) && after == (
        LayoutView {
            queue: QueueView {
                trees: after.queue.trees,
                animation_start: None,
                retired: layout.queue.retired,
            },
            scroll: after.scroll,
            ..layout.with_engine(engine, grabbed)
        });
    let last = layout.queue.trees.len() - 1;
    assert(layout.queue.trees[last].tree.settled());
    lemma_sound(before);
    lemma_copy_twin(before, copy);
    let first = choose|ids: Map<NodeId, NodeId>| #[trigger]
        before.renamed(copy, ids) && before.twinned(copy, ids);
    assert(copy.undropped()) by {
        assert forall|node: NodeId| #[trigger] copy.has(node) implies !(copy.data(
            node,
        ) matches DataView::Placeholder { type_, .. } && type_ is DropZone) by {
            lemma_twin_of(before, copy, first, node);
            let id = choose|id: NodeId| #[trigger] before.has(id) && first[id] == node;
            assert(before.has(id));
        }
    }
    lemma_tidied_stands(copy, tree, grabbed);
    lemma_shape_twin(before, copy, tree, first);
    assert forall|id: NodeId| #[trigger] before.has(id) implies before.data(id).stands_like(
        tree.data(first[id]),
    ) by {
        lemma_twin_has(before, tree, first, id);
        assert(copy.data(first[id]) == before.data(id));
    }
    lemma_positioned_stretched(
        before,
        tree,
        placed,
        first,
        layout.scroll,
        after.scroll,
        configures,
        layout.usable,
        layout.gaps,
    );
    let end = after.queue.trees.len() - 1;
    assert(placed.copied(after.queue.trees[end].tree));
    lemma_stretched_copy(before, placed, after.newest(), first)
}

/// A geometry update of the strip stretches the tree that it is brought into.
#[verifier::rlimit(40)]
#[verifier::spinoff_prover]
proof fn lemma_positioned_stretched(
    before: TreeModel,
    tree: TreeModel,
    placed: TreeModel,
    ids: Map<NodeId, NodeId>,
    scroll: ScrollView,
    after: ScrollView,
    configures: Seq<Configure>,
    usable: Rectangle,
    gaps: (i32, i32),
)
    requires
        before.regular(),
        before.all_filled(),
        before.twinned(tree, ids),
        forall|id: NodeId| #[trigger]
            before.has(id) ==> before.data(id).stands_like(tree.data(ids[id])),
        scroll.arranged(after, tree, placed, configures, usable, gaps, None, false, None),
    ensures
        before.stretched(placed, ids),
{
    if tree.root is None {
        lemma_empty(before);
        assert(placed == tree);
    } else {
        let order = choose|order: Seq<NodeId>| #[trigger]
            scroll.arranged_over(
                after,
                tree,
                placed,
                configures,
                order,
                usable,
                gaps,
                None,
                false,
                None,
            );
        let origin = viewport_area(usable, gaps).loc;
        assert(tree.scrolled(placed, after.strip, origin));
        lemma_stretched_scrolled(before, tree, placed, ids, after.strip, origin);
    }
}

/// Switching to the scrolling layout and back leaves every node where it was, if the tree was
/// laid out and every group was at least as long on the strip.
#[verifier::rlimit(60)]
#[verifier::spinoff_prover]
pub proof fn lemma_coming_back(
    layout: LayoutView,
    scrolling: LayoutView,
    back: LayoutView,
    changes: Seq<ResizingChange>,
    configures: Seq<Configure>,
    more_changes: Seq<ResizingChange>,
    more_configures: Seq<Configure>,
)
    requires
        layout.ready(),
        scrolling.ready(),
        layout.newest().undropped(),
        layout.newest().all_filled(),
        layout.newest().laid_out(
            layout.newest(),
            outer_zone(layout.usable, layout.gaps.0),
            layout.gaps.1,
        ),
        layout.switches(scrolling, TilingEngine::Scrolling, changes, configures),
        scrolling.switches(back, TilingEngine::Classic, more_changes, more_configures),
        layout.newest().fits_into(scrolling.newest()),
    ensures
        back.engine == TilingEngine::Classic,
        back.queue.animation_start is None,
        layout.newest().mirrored(back.newest()),
        forall|id: NodeId| #[trigger]
            layout.newest().has(id) ==> back.newest().has_key(layout.newest().key(id))
                && back.newest().data(
                back.newest().node_keyed(layout.newest().key(id)),
            ).geometry() == layout.newest().data(id).geometry(),
{
    let engine = TilingEngine::Classic;
    let before = layout.newest();
    let middle = scrolling.newest();
    let zone = outer_zone(layout.usable, layout.gaps.0);
    let inner = layout.gaps.1;
    let there = lemma_switched_to_scrolling(layout, scrolling, changes, configures);
    let (copy, tree, placed, grabbed) = choose|
        copy: TreeModel,
        tree: TreeModel,
        placed: TreeModel,
        grabbed: Option<u64>,
    |
        scrolling.newest().copied(copy) && #[trigger] copy.tidied(tree, grabbed)
            && #[trigger] scrolling.with_engine(engine, grabbed).positioned(
            back.scroll,
            tree,
            placed,
            more_configures,
            None,
        ) && more_changes == (match scrolling.live {
            Some(live) => copy.resizing_changes(live.tiles, false),
            None => seq![],
        }) && barriers(back.queue.trees, placed, blockers_of(scrolling.queue.trees)) && back == (
        LayoutView {
            queue: QueueView {
                trees: back.queue.trees,
                animation_start: None,
                retired: scrolling.queue.retired,
            },
            scroll: back.scroll,
            ..scrolling.with_engine(engine, grabbed)
        });
    let last = layout.queue.trees.len() - 1;
    assert(layout.queue.trees[last].tree.settled());
    let shown = scrolling.queue.trees.len() - 1;
    assert(scrolling.queue.trees[shown].tree.settled());
    lemma_sound(before);
    law_copies_are_alike(middle, copy);
    let first = lemma_stretched_copy(before, middle, copy, there);
    assert(copy.undropped()) by {
        assert forall|node: NodeId| #[trigger] copy.has(node) implies !(copy.data(
            node,
        ) matches DataView::Placeholder { type_, .. } && type_ is DropZone) by {
            lemma_twin_of(before, copy, first, node);
            let id = choose|id: NodeId| #[trigger] before.has(id) && first[id] == node;
            assert(before.has(id));
            assert(before.data(id).stretched_to(copy.data(node)));
        }
    }
    lemma_tidied_stands(copy, tree, grabbed);
    lemma_stretched_stands(before, copy, tree, first);
    assert(tree.settled()) by {
        assert forall|id: NodeId| #[trigger] tree.has(id) implies (tree.data(id) is Group
            <==> copy.data(id) is Group) && tree.data(id).room() == copy.data(id).room() by {
            assert(copy.data(id).stands_like(tree.data(id)));
        }
        lemma_same_rooms(copy, tree);
    }
    assert forall|node: NodeId| #[trigger]
        before.has(node) && before.data(node) is Group implies before.data(node).geometry().extent(
        before.data(node).spec_orientation(),
    ) <= tree.data(first[node]).geometry().extent(before.data(node).spec_orientation())
        <= EXACT_LENGTH by {
        lemma_twin_keyed(before, middle, there, node);
        assert(tree.data(first[node]).geometry() == middle.data(there[node]).geometry());
    }
    lemma_arranged_back(
        before,
        tree,
        placed,
        first,
        more_configures,
        layout.usable,
        layout.gaps,
    );
    let end = back.queue.trees.len() - 1;
    assert(placed.copied(back.queue.trees[end].tree));
    lemma_shape_twin(before, tree, placed, first);
    lemma_copy_twin(placed, back.newest());
    let second = choose|second: Map<NodeId, NodeId>| #[trigger]
        placed.renamed(back.newest(), second) && placed.twinned(back.newest(), second);
    let ids = lemma_twin_chain(before, placed, back.newest(), first, second);
    assert(before.twinned(back.newest(), ids));
    assert forall|id: NodeId| #[trigger] before.has(id) implies back.newest().has_key(
        before.key(id),
    ) && back.newest().data(back.newest().node_keyed(before.key(id))).geometry() == before.data(
        id,
    ).geometry() by {
        lemma_twin_keyed(before, back.newest(), ids, id);
        lemma_twin_has(before, placed, first, id);
        assert(placed.has(first[id]));
        assert(back.newest().data(ids[id]) == placed.data(first[id]));
    }
}

/// Laying a stretched tree out puts every node where it was.
proof fn lemma_arranged_back(
    before: TreeModel,
    tree: TreeModel,
    placed: TreeModel,
    ids: Map<NodeId, NodeId>,
    configures: Seq<Configure>,
    usable: Rectangle,
    gaps: (i32, i32),
)
    requires
        before.regular(),
        before.all_filled(),
        before.laid_out(before, outer_zone(usable, gaps.0), gaps.1),
        before.stretched(tree, ids),
        tree.settled(),
        placed_in(tree, placed, configures, usable, gaps),
        forall|node: NodeId| #[trigger]
            before.has(node) && before.data(node) is Group ==> before.data(
                node,
            ).geometry().extent(before.data(node).spec_orientation()) <= tree.data(
                ids[node],
            ).geometry().extent(before.data(node).spec_orientation()) <= EXACT_LENGTH,
    ensures
        tree.same_shape(placed),
        forall|id: NodeId| #[trigger]
            before.has(id) ==> placed.data(ids[id]).geometry() == before.data(id).geometry(),
{
    let zone = outer_zone(usable, gaps.0);
    let inner = gaps.1;
    if tree.root is None {
        lemma_empty(before);
    } else {
        let (old_order, order) = choose|old_order: Seq<NodeId>, order: Seq<NodeId>| #[trigger]
            tree.arranged(placed, old_order, order, usable, gaps) && configures
                == placed.configures(order);
        lemma_flat_already(tree, old_order);
        lemma_branches(before);
        let rank = choose|rank: Map<NodeId, nat>| before.ranked(rank);
        assert forall|id: NodeId| #[trigger] before.has(id) implies placed.data(
            ids[id],
        ).geometry() == before.data(id).geometry() by {
            lemma_laid_out_back(before, tree, placed, ids, zone, inner, id, rank);
        }
    }
}

} // verus!
