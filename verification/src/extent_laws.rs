//! What holds of the extents that a group gives to its children.

use vstd::prelude::*;

use id_tree::NodeId;

use crate::actions::{Direction, ResizeDirection, ResizeEdge};
use crate::data::{
    equal_share, lemma_scaled_part, lemma_settled_sum, rescaled, scaled, sum, DataView,
};
use crate::focus_laws::lemma_levels;
use crate::geometry::{minus, plus, Orientation, Rectangle};
use crate::neighbours::{resize_minimum, TreeResize};
use crate::tree::TreeModel;

verus! {

/// Whether these are extents that children of one group can have.
pub open spec fn extents(sizes: Seq<i32>) -> bool {
    &&& sizes.len() <= i32::MAX
    &&& forall|i: int| 0 <= i < sizes.len() ==> #[trigger] sizes[i] >= 0
}

impl DataView {
    /// Whether the node is a group whose children share all of its area.
    pub open spec fn filled(self) -> bool {
        &&& self is Group
        &&& extents(self->sizes)
        &&& sum(self->sizes) == self.geometry().extent(self.spec_orientation())
    }
}

/// Extents are no longer than all of them together.
pub proof fn lemma_part_of_sum(sizes: Seq<i32>, index: int)
    requires
        extents(sizes),
        0 <= index < sizes.len(),
    ensures
        0 <= sizes[index] <= sum(sizes),
    decreases sizes.len(),
{
    let rest = sizes.drop_last();
    lemma_sum_positive(rest);
    if index < rest.len() {
        assert(rest[index] == sizes[index]);
        assert(sizes[sizes.len() - 1] >= 0);
        lemma_part_of_sum(rest, index);
    }
}

/// The sum of extents is not negative.
proof fn lemma_sum_positive(sizes: Seq<i32>)
    requires
        extents(sizes),
    ensures
        sum(sizes) >= 0,
    decreases sizes.len(),
{
    if sizes.len() > 0 {
        let rest = sizes.drop_last();
        assert(sizes[sizes.len() - 1] >= 0);
        assert forall|i: int| 0 <= i < rest.len() implies #[trigger] rest[i] >= 0 by {
            assert(rest[i] == sizes[i]);
        }
        lemma_sum_positive(rest);
    }
}

/// Extents in proportion are together as long as they should be, give or take half a pixel and
/// hardly more for each.
proof fn lemma_rescaled_sum(sizes: Seq<i32>, from: int, to: int)
    requires
        extents(sizes),
        sum(sizes) <= from,
        0 < from,
        0 <= to <= i32::MAX,
    ensures
        extents(rescaled(sizes, from, to)),
        0x4_0000_0000_0000 * (2 * (from * sum(rescaled(sizes, from, to))) - 2 * (sum(sizes) * to))
            <= 0x4_0000_0000_0000 * (sizes.len() * from) + sum(sizes) * to,
    decreases sizes.len(),
{
    let after = rescaled(sizes, from, to);
    assert forall|i: int| 0 <= i < after.len() implies #[trigger] after[i] >= 0 by {
        lemma_part_of_sum(sizes, i);
        lemma_scaled_part(sizes[i] as int, from, to);
    }
    if sizes.len() > 0 {
        let rest = sizes.drop_last();
        let last = sizes.last() as int;
        lemma_part_of_sum(sizes, sizes.len() - 1);
        lemma_sum_positive(rest);
        lemma_rescaled_sum(rest, from, to);
        assert(after.drop_last() =~= rescaled(rest, from, to));
        lemma_scaled_part(last, from, to);
        let before = sum(rescaled(rest, from, to));
        let part = scaled(last, from, to) as int;
        let count = rest.len() as int;
        assert(from * (before + part) == from * before + from * part && (sum(rest) + last) * to
            == sum(rest) * to + last * to && (count + 1) * from == count * from + from)
            by (nonlinear_arith);
    } else {
        assert(sum(after) == 0);
        assert(from * 0 == 0 && 0 * to == 0 && 0 * from == 0) by (nonlinear_arith);
    }
}

/// A bound on extents in proportion that does not speak of what they were.
proof fn lemma_rescaled_bound(sizes: Seq<i32>, from: int, to: int)
    requires
        extents(sizes),
        sum(sizes) <= from,
        0 < from,
        0 <= to <= i32::MAX,
    ensures
        extents(rescaled(sizes, from, to)),
        0 <= sum(rescaled(sizes, from, to)),
        2 * sum(rescaled(sizes, from, to)) <= 2 * to + sizes.len(),
{
    lemma_rescaled_sum(sizes, from, to);
    lemma_sum_positive(sizes);
    lemma_sum_positive(rescaled(sizes, from, to));
    let total = sum(rescaled(sizes, from, to));
    let before = sum(sizes);
    let count = sizes.len() as int;
    assert(before * to <= from * to) by (nonlinear_arith)
        requires
            before <= from,
            0 <= to,
    ;
    assert(from * to <= from * 0x7fff_ffff) by (nonlinear_arith)
        requires
            0 < from,
            to <= 0x7fff_ffff,
    ;
    if 2 * total > 2 * to + count {
        assert(2 * (from * total) >= 2 * (from * to) + count * from + from) by (nonlinear_arith)
            requires
                2 * total >= 2 * to + count + 1,
                0 < from,
        ;
        assert(from * 0x7fff_ffff == 0x7fff_ffff * from);
        assert(false);
    }
}

/// Two lists put together are as long as both.
proof fn lemma_insert_sum(sizes: Seq<i32>, index: int, size: i32)
    requires
        0 <= index <= sizes.len(),
    ensures
        sum(sizes.insert(index, size)) == sum(sizes) + size,
    decreases sizes.len(),
{
    let after = sizes.insert(index, size);
    if index == sizes.len() {
        assert(after.drop_last() =~= sizes);
    } else {
        lemma_insert_sum(sizes.drop_last(), index, size);
        assert(after.drop_last() =~= sizes.drop_last().insert(index, size));
        assert(after.last() == sizes.last());
    }
}

/// Taking one out shortens the sum by that one.
proof fn lemma_remove_sum(sizes: Seq<i32>, index: int)
    requires
        0 <= index < sizes.len(),
    ensures
        sum(sizes.remove(index)) == sum(sizes) - sizes[index],
{
    lemma_insert_sum(sizes.remove(index), index, sizes[index]);
    assert(sizes.remove(index).insert(index, sizes[index]) =~= sizes);
}

/// The children of a group that shares all of its area still do so in another area.
pub proof fn law_children_fill_a_new_area(data: DataView, geometry: Rectangle)
    requires
        data.filled(),
        data->sizes.len() > 0,
        data.geometry().extent(data.spec_orientation()) > 0,
        geometry.extent(data.spec_orientation()) >= 0,
    ensures
        sum(data.placed(geometry)->sizes) == geometry.extent(data.spec_orientation()),
        data.placed(geometry)->sizes.len() == data->sizes.len(),
{
    let sizes = data->sizes;
    let from = data.geometry().extent(data.spec_orientation()) as int;
    let to = geometry.extent(data.spec_orientation()) as int;
    let after = rescaled(sizes, from, to);
    lemma_rescaled_bound(sizes, from, to);
    lemma_part_of_sum(after, after.len() - 1);
    lemma_sum_positive(after.drop_last());
    lemma_part_of_sum(sizes, sizes.len() - 1);
    lemma_rescaled_bound(sizes.drop_last(), from, to);
    assert(after.drop_last() =~= rescaled(sizes.drop_last(), from, to));
    lemma_settled_sum(after, to);
}

/// A new child takes its room from the others, and together they still share all of the area.
pub proof fn law_a_new_child_shares_the_area(data: DataView, index: int)
    requires
        data.filled(),
        data.geometry().extent(data.spec_orientation()) > 0,
        0 <= index <= data->sizes.len(),
    ensures
        data.with_child(index)->sizes.len() == data->sizes.len() + 1,
        sum(data.with_child(index)->sizes) == sum(data->sizes),
{
    let sizes = data->sizes;
    let length = data.geometry().extent(data.spec_orientation()) as int;
    let count = sizes.len() as int;
    let share = equal_share(length, count);
    assert(0 <= share <= length) by (nonlinear_arith)
        requires
            share == length / (count + 1),
            count >= 0,
            length > 0,
    ;
    let rest = rescaled(sizes, length, length - share);
    lemma_rescaled_bound(sizes, length, length - share);
    lemma_insert_sum(rest, index, minus(length, sum(rest)));
}

/// What a child leaves goes to the others, and together they still share all of the area.
pub proof fn law_the_others_share_what_a_child_leaves(data: DataView, index: int)
    requires
        data.filled(),
        data->sizes.len() > 1,
        0 <= index < data->sizes.len(),
    ensures
        data.without_child(index)->sizes.len() == data->sizes.len() - 1,
        sum(data.without_child(index)->sizes) == sum(data->sizes),
{
    let sizes = data->sizes;
    let length = data.geometry().extent(data.spec_orientation()) as int;
    let rest = sizes.remove(index);
    let gone = sizes[index] as int;
    let grown = Seq::new(
        rest.len(),
        |i: int| plus(rest[i] as int, scaled(rest[i] as int, sum(rest), gone) as int),
    );
    lemma_remove_sum(sizes, index);
    lemma_part_of_sum(sizes, index);
    lemma_grown_sum(rest, sum(rest), gone);
    assert(grown =~= grown_by(rest, sum(rest), gone));
    let last = rest.len() - 1;
    lemma_part_of_sum(rest, last);
    lemma_grown_sum(rest.drop_last(), sum(rest), gone);
    assert(grown.drop_last() =~= grown_by(rest.drop_last(), sum(rest), gone));
    lemma_settled_sum(grown, length);
}

/// The extents after each grew by its part of `gone`.
spec fn grown_by(sizes: Seq<i32>, from: int, gone: int) -> Seq<i32> {
    Seq::new(
        sizes.len(),
        |i: int| plus(sizes[i] as int, scaled(sizes[i] as int, from, gone) as int),
    )
}

/// Growing extents are together as long as before, with their parts of `gone`.
proof fn lemma_grown_sum(sizes: Seq<i32>, from: int, gone: int)
    requires
        extents(sizes),
        0 <= sum(sizes) <= from,
        0 <= gone,
        from + gone <= i32::MAX,
    ensures
        0 <= sum(grown_by(sizes, from, gone)),
        2 * sum(grown_by(sizes, from, gone)) <= 2 * (sum(sizes) + gone) + sizes.len(),
{
    if from > 0 {
        lemma_rescaled_bound(sizes, from, gone);
        lemma_grown_parts(sizes, from, gone);
    } else {
        lemma_grown_of_nothing(sizes, gone);
    }
}

/// Growing adds the parts.
proof fn lemma_grown_parts(sizes: Seq<i32>, from: int, gone: int)
    requires
        extents(sizes),
        0 <= sum(sizes) <= from,
        0 < from,
        0 <= gone,
        from + gone <= i32::MAX,
    ensures
        sum(grown_by(sizes, from, gone)) == sum(sizes) + sum(rescaled(sizes, from, gone)),
    decreases sizes.len(),
{
    if sizes.len() > 0 {
        let last = sizes.len() - 1;
        lemma_part_of_sum(sizes, last);
        lemma_sum_positive(sizes.drop_last());
        lemma_grown_parts(sizes.drop_last(), from, gone);
        lemma_scaled_part(sizes[last] as int, from, gone);
        assert(grown_by(sizes, from, gone).drop_last() =~= grown_by(sizes.drop_last(), from, gone));
        assert(rescaled(sizes, from, gone).drop_last() =~= rescaled(sizes.drop_last(), from, gone));
    }
}

/// Extents of nothing do not grow.
proof fn lemma_grown_of_nothing(sizes: Seq<i32>, gone: int)
    requires
        extents(sizes),
        sum(sizes) == 0,
    ensures
        sum(grown_by(sizes, 0, gone)) == 0,
    decreases sizes.len(),
{
    if sizes.len() > 0 {
        let last = sizes.len() - 1;
        lemma_part_of_sum(sizes, last);
        lemma_sum_positive(sizes.drop_last());
        lemma_grown_of_nothing(sizes.drop_last(), gone);
        assert(grown_by(sizes, 0, gone).drop_last() =~= grown_by(sizes.drop_last(), 0, gone));
    }
}

/// Replacing one extent changes the sum by the difference.
proof fn lemma_update_sum(sizes: Seq<i32>, index: int, size: i32)
    requires
        0 <= index < sizes.len(),
    ensures
        sum(sizes.update(index, size)) == sum(sizes) - sizes[index] + size,
{
    lemma_remove_sum(sizes, index);
    lemma_remove_sum(sizes.update(index, size), index);
    assert(sizes.update(index, size).remove(index) =~= sizes.remove(index));
}

/// Resizing moves room from one child to another: the group keeps its length, the other
/// children keep their extents, and neither of the two gets shorter than the minimum unless it
/// was so before.
pub proof fn law_resizing_moves_room_between_two(
    data: DataView,
    shrinking: int,
    growing: int,
    amount: int,
)
    requires
        data is Group,
        extents(data->sizes),
        0 <= shrinking < data->sizes.len(),
        0 <= growing < data->sizes.len(),
        shrinking != growing,
        data->sizes[shrinking] + data->sizes[growing] <= i32::MAX,
        data.resizable(shrinking, growing),
        0 <= amount <= i32::MAX,
    ensures
        ({
            let before = data->sizes;
            let after = data.resized(shrinking, growing, amount)->sizes;
            let least = resize_minimum(data.spec_orientation());
            &&& after.len() == before.len()
            &&& sum(after) == sum(before)
            &&& after[shrinking] + after[growing] == before[shrinking] + before[growing]
            &&& after[shrinking] >= least
            &&& after[growing] >= before[growing] || after[growing] >= least
            &&& forall|i: int|
                0 <= i < before.len() && i != shrinking && i != growing ==> #[trigger] after[i]
                    == before[i]
        }),
{
    let before = data->sizes;
    let after = data.resized(shrinking, growing, amount)->sizes;
    assert(before[shrinking] >= 0);
    assert(before[growing] >= 0);
    lemma_update_sum(before, shrinking, after[shrinking]);
    lemma_update_sum(before.update(shrinking, after[shrinking]), growing, after[growing]);
}

/// Where the node that is resized and the one that it is resized against stand.
proof fn lemma_resize_places(
    tree: TreeModel,
    id: NodeId,
    level: nat,
    direction: ResizeDirection,
    edges: ResizeEdge,
)
    requires
        tree.forest(),
        tree.has(id),
    ensures
        match tree.resize_pair_at(id, level, direction, edges) {
            Some((group, shrinking, growing)) => {
                let (place, other) = if direction is Inwards {
                    (shrinking, growing)
                } else {
                    (growing, shrinking)
                };
                &&& tree.has(group)
                &&& tree.ancestor(id, level + 1) == Some(group)
                &&& 0 <= place < tree.children(group).len()
                &&& 0 <= other < tree.children(group).len()
                &&& tree.ancestor(id, level) == Some(tree.children(group)[place])
                &&& other == if edges.top || edges.left {
                    place - 1
                } else {
                    place + 1
                }
                &&& if tree.data(group)->orientation == Orientation::Vertical {
                    edges.left || edges.right
                } else {
                    edges.top || edges.bottom
                }
            },
            None => match (tree.ancestor(id, level), tree.ancestor(id, level + 1)) {
                (Some(child), Some(group)) => {
                    ||| edges.left && !edges.top && !edges.right && !edges.bottom && !tree.open_side(
                        group,
                        child,
                        Direction::Left,
                    )
                    ||| edges.right && !edges.left && !edges.top && !edges.bottom && !tree.open_side(
                        group,
                        child,
                        Direction::Right,
                    )
                    ||| edges.top && !edges.left && !edges.right && !edges.bottom && !tree.open_side(
                        group,
                        child,
                        Direction::Up,
                    )
                    ||| edges.bottom && !edges.left && !edges.right && !edges.top && !tree.open_side(
                        group,
                        child,
                        Direction::Down,
                    )
                    ||| !single_edge(edges)
                },
                _ => true,
            },
        },
{
    match (tree.ancestor(id, level), tree.ancestor(id, level + 1)) {
        (Some(child), Some(group)) => {
            lemma_levels(tree, id, level, child, group);
            let ids = tree.children(group);
            let at = ids.index_of(child);
            assert(ids[at] == child);
            if ids[0] != child {
                assert(at > 0);
            }
            if ids.last() != child {
                assert(at < ids.len() - 1);
            }
            if at > 0 {
                assert(ids[0] != ids[at]);
            }
            if at < ids.len() - 1 {
                assert(ids[ids.len() - 1] != ids[at]);
            }
        },
        _ => {},
    }
}

/// Whether exactly one edge is pulled.
pub open spec fn single_edge(edges: ResizeEdge) -> bool {
    ||| edges.left && !edges.right && !edges.top && !edges.bottom
    ||| edges.right && !edges.left && !edges.top && !edges.bottom
    ||| edges.top && !edges.left && !edges.right && !edges.bottom
    ||| edges.bottom && !edges.left && !edges.right && !edges.top
}

/// The direction that an edge lies in.
pub open spec fn edge_direction(edges: ResizeEdge) -> Direction {
    if edges.left {
        Direction::Left
    } else if edges.right {
        Direction::Right
    } else if edges.top {
        Direction::Up
    } else {
        Direction::Down
    }
}

/// Resizing a node at an edge makes it, or the group that it is in, longer if it is resized
/// outwards and shorter if it is resized inwards, by as much as asked for, unless the one that
/// gets shorter would get below the minimum. Its neighbour at that edge changes by the opposite
/// amount, and nothing else changes. This happens in the nearest group around the node that has
/// anything on that side, and there is no neighbour only if no group has.
pub proof fn law_resizing_grows_outwards_and_shrinks_inwards(
    tree: TreeModel,
    after: TreeModel,
    id: NodeId,
    direction: ResizeDirection,
    edges: ResizeEdge,
    amount: int,
    result: TreeResize,
)
    requires
        tree.forest(),
        tree.groups_branch(),
        tree.groups_fit(),
        tree.has(id),
        single_edge(edges),
        0 <= amount <= i32::MAX,
        tree.resized_as(id, direction, edges, amount, result, after),
    ensures
        result is NoNeighbour <==> forall|level: nat|
            match (tree.ancestor(id, level), #[trigger] tree.ancestor(id, level + 1)) {
                (Some(child), Some(group)) => !tree.open_side(
                    group,
                    child,
                    edge_direction(edges),
                ),
                _ => true,
            },
        !(result is Resized) ==> after == tree,
        !(result is NoNeighbour) ==> exists|level: nat, group: NodeId, place: int|
            #![trigger tree.ancestor(id, level + 1), tree.children(group)[place]]
            {
                let other = if edges.left || edges.top {
                    place - 1
                } else {
                    place + 1
                };
                let before = tree.data(group)->sizes;
                let sizes = after.data(group)->sizes;
                let least: int = if tree.data(group)->orientation == Orientation::Vertical {
                    360
                } else {
                    240
                };
                let (shrinking, growing) = if direction is Inwards {
                    (place, other)
                } else {
                    (other, place)
                };
                &&& tree.ancestor(id, level + 1) == Some(group)
                &&& 0 <= place < tree.children(group).len()
                &&& 0 <= other < tree.children(group).len()
                &&& tree.ancestor(id, level) == Some(tree.children(group)[place])
                &&& tree.open_side(group, tree.children(group)[place], edge_direction(edges))
                &&& forall|lower: nat|
                    lower < level ==> match (
                        tree.ancestor(id, lower),
                        #[trigger] tree.ancestor(id, lower + 1),
                    ) {
                        (Some(low), Some(up)) => !tree.open_side(up, low, edge_direction(edges)),
                        _ => true,
                    }
                &&& result is Resized <==> before[place] + before[other] >= 2 * least
                &&& result is Resized ==> {
                    &&& result->Resized_0 == group
                    &&& after.data(group) is Group
                    &&& sizes.len() == before.len()
                    &&& after == tree.with_data(group, tree.data(group).with_sizes(sizes))
                    &&& forall|i: int|
                        0 <= i < before.len() && i != place && i != other ==> #[trigger] sizes[i]
                            == before[i]
                    &&& before[place] + before[other] <= i32::MAX && before[shrinking] >= least
                        && before[growing] >= 0 ==> {
                        &&& sizes[place] + sizes[other] == before[place] + before[other]
                        &&& sizes[shrinking] >= least
                        &&& before[shrinking] - amount >= least ==> sizes[shrinking]
                            == before[shrinking] - amount
                        &&& before[shrinking] - amount < least ==> sizes[shrinking] == least
                    }
                }
            },
{
    assert forall|level: nat| (#[trigger] tree.resize_pair_at(id, level, direction, edges)) is None
        == match (tree.ancestor(id, level), tree.ancestor(id, level + 1)) {
        (Some(child), Some(group)) => !tree.open_side(group, child, edge_direction(edges)),
        _ => true,
    } by {
        lemma_resize_places(tree, id, level, direction, edges);
        match (tree.ancestor(id, level), tree.ancestor(id, level + 1)) {
            (Some(child), Some(group)) => {
                lemma_levels(tree, id, level, child, group);
                let ids = tree.children(group);
                let at = ids.index_of(child);
                assert(ids[at] == child);
                if at > 0 {
                    assert(ids[0] != ids[at]);
                }
                if at < ids.len() - 1 {
                    assert(ids[ids.len() - 1] != ids[at]);
                }
            },
            _ => {},
        }
    }
    if result is NoNeighbour {
        assert forall|level: nat| match (
            tree.ancestor(id, level),
            #[trigger] tree.ancestor(id, level + 1),
        ) {
            (Some(child), Some(group)) => !tree.open_side(group, child, edge_direction(edges)),
            _ => true,
        } by {
            assert(tree.resize_pair_at(id, level, direction, edges) is None);
        }
    } else {
        let level = choose|level: nat|
            #![trigger tree.resize_pair_at(id, level, direction, edges)]
            {
                &&& forall|lower: nat|
                    lower < level ==> (#[trigger] tree.resize_pair_at(
                        id,
                        lower,
                        direction,
                        edges,
                    )) is None
                &&& match tree.resize_pair_at(id, level, direction, edges) {
                    Some((group, shrinking, growing)) => if tree.data(group).resizable(
                        shrinking,
                        growing,
                    ) {
                        result == TreeResize::Resized(group) && after == tree.with_data(
                            group,
                            tree.data(group).resized(shrinking, growing, amount),
                        )
                    } else {
                        result is TooSmall && after == tree
                    },
                    None => false,
                }
            };
        lemma_resize_places(tree, id, level, direction, edges);
        let (group, shrinking, growing) = tree.resize_pair_at(id, level, direction, edges)->0;
        let (place, other) = if direction is Inwards {
            (shrinking, growing)
        } else {
            (growing, shrinking)
        };
        let child = tree.children(group)[place];
        lemma_levels(tree, id, level, child, group);
        assert(tree.data(group) is Group);
        assert(tree.data(group)->sizes.len() == tree.children(group).len());
        assert forall|lower: nat| lower < level implies match (
            tree.ancestor(id, lower),
            #[trigger] tree.ancestor(id, lower + 1),
        ) {
            (Some(low), Some(up)) => !tree.open_side(up, low, edge_direction(edges)),
            _ => true,
        } by {
            assert(tree.resize_pair_at(id, lower, direction, edges) is None);
        }
        assert(tree.open_side(group, child, edge_direction(edges))) by {
            assert(tree.resize_pair_at(id, level, direction, edges) is Some);
        }
        if result is Resized {
            let data = tree.data(group).resized(shrinking, growing, amount);
            assert(after.data(group) == data);
            let before = tree.data(group)->sizes;
            let sizes = data->sizes;
            assert(data == tree.data(group).with_sizes(sizes));
            assert(sizes.len() == before.len());
            assert(forall|i: int|
                0 <= i < before.len() && i != place && i != other ==> #[trigger] sizes[i]
                    == before[i]);
            assert(result->Resized_0 == group);
            let least: int = if tree.data(group)->orientation == Orientation::Vertical {
                360
            } else {
                240
            };
            assert(resize_minimum(tree.data(group).spec_orientation()) == least);
            assert(shrinking != growing);
            if before[place] + before[other] <= i32::MAX && before[shrinking] >= least
                && before[growing] >= 0 {
                assert(sizes[shrinking] == if before[shrinking] - amount > least {
                    before[shrinking] - amount
                } else {
                    least
                });
                assert(sizes[place] + sizes[other] == before[place] + before[other]);
            }
        }
        assert(result is Resized <==> tree.data(group).resizable(shrinking, growing));
        assert(tree.ancestor(id, level + 1) == Some(group) && tree.children(group)[place] == child);
    }
}

/// The longest side of a group whose parts are sure to be in proportion: wider than any screen.
pub const LONGEST_SIDE: i32 = 0x100_0000;

/// A part of a whole in proportion, to the nearest pixel.
pub proof fn lemma_nearest_part(len: int, from: int, to: int)
    requires
        0 <= len <= from,
        0 < from <= LONGEST_SIDE,
        0 <= to <= LONGEST_SIDE,
    ensures
        0 <= scaled(len, from, to) <= to,
        -from <= 2 * (from * scaled(len, from, to) - len * to) <= from,
        to <= from ==> scaled(len, from, to) <= len,
{
    lemma_scaled_part(len, from, to);
    let part = scaled(len, from, to) as int;
    assert(0 <= len * to <= 0x100_0000 * 0x100_0000) by (nonlinear_arith)
        requires
            0 <= len <= 0x100_0000,
            0 <= to <= 0x100_0000,
    ;
    if to <= from {
        assert(len * to <= len * from) by (nonlinear_arith)
            requires
                to <= from,
                0 <= len,
        ;
        assert(part <= len) by (nonlinear_arith)
            requires
                2 * (from * part - len * to) <= from,
                len * to <= len * from,
                0 < from,
        ;
    }
}

/// A new child gets about as much as each of the others would have in equal parts. All others
/// give for it in proportion to what they have, and none of them grows.
pub proof fn law_each_child_gives_its_part(data: DataView, index: int, other: int)
    requires
        data.filled(),
        0 < data.geometry().extent(data.spec_orientation()) <= LONGEST_SIDE,
        0 <= index <= data->sizes.len(),
        0 <= other < data->sizes.len(),
    ensures
        ({
            let before = data->sizes;
            let after = data.with_child(index)->sizes;
            let length = data.geometry().extent(data.spec_orientation()) as int;
            let left = length - length / (before.len() as int + 1);
            let there = if other < index {
                other
            } else {
                other + 1
            };
            &&& 0 <= after[there] <= before[other]
            &&& -length <= 2 * (length * after[there] - before[other] * left) <= length
            &&& data.with_child(index)->Group_orientation == data->Group_orientation
        }),
{
    let sizes = data->sizes;
    let length = data.geometry().extent(data.spec_orientation()) as int;
    let count = sizes.len() as int;
    let share = equal_share(length, count);
    assert(0 <= share <= length) by (nonlinear_arith)
        requires
            share == length / (count + 1),
            count >= 0,
            length > 0,
    ;
    lemma_part_of_sum(sizes, other);
    lemma_nearest_part(sizes[other] as int, length, length - share);
}

/// What a child leaves goes to the others in proportion to what they have, and none of them
/// shrinks; the last one makes up for what rounding leaves over.
pub proof fn law_each_child_takes_its_part(data: DataView, index: int, other: int)
    requires
        data.filled(),
        0 < data.geometry().extent(data.spec_orientation()) <= LONGEST_SIDE,
        0 <= index < data->sizes.len(),
        0 <= other < data->sizes.len(),
        other != index,
        sum(data->sizes) > data->sizes[index],
        (if other < index {
            other
        } else {
            other - 1
        }) < data->sizes.len() - 2,
    ensures
        ({
            let before = data->sizes;
            let after = data.without_child(index)->sizes;
            let length = data.geometry().extent(data.spec_orientation()) as int;
            let rest = length - before[index];
            let there = if other < index {
                other
            } else {
                other - 1
            };
            &&& before[other] <= after[there]
            &&& -rest <= 2 * (rest * (after[there] - before[other]) - before[other]
                * before[index]) <= rest
            &&& data.without_child(index)->Group_orientation == data->Group_orientation
        }),
{
    let sizes = data->sizes;
    let length = data.geometry().extent(data.spec_orientation()) as int;
    let rest = sizes.remove(index);
    let gone = sizes[index] as int;
    lemma_remove_sum(sizes, index);
    lemma_part_of_sum(sizes, index);
    lemma_part_of_sum(sizes, other);
    let there = if other < index {
        other
    } else {
        other - 1
    };
    assert(rest[there] == sizes[other]);
    assert(extents(rest)) by {
        assert forall|i: int| 0 <= i < rest.len() implies #[trigger] rest[i] >= 0 by {
            if i < index {
                assert(rest[i] == sizes[i]);
            } else {
                assert(rest[i] == sizes[i + 1]);
            }
        }
    }
    lemma_part_of_sum(rest, there);
    lemma_nearest_part(rest[there] as int, sum(rest), gone);
}

/// In another area the children of a group have as large a part of it as before, each to the
/// nearest pixel; the last one makes up for what rounding leaves over.
pub proof fn law_each_child_keeps_its_part(data: DataView, geometry: Rectangle, other: int)
    requires
        data.filled(),
        0 < data.geometry().extent(data.spec_orientation()) <= LONGEST_SIDE,
        0 <= geometry.extent(data.spec_orientation()) <= LONGEST_SIDE,
        0 <= other < data->sizes.len() - 1,
    ensures
        ({
            let from = data.geometry().extent(data.spec_orientation()) as int;
            let to = geometry.extent(data.spec_orientation()) as int;
            let after = data.placed(geometry);
            &&& -from <= 2 * (from * after->sizes[other] - data->sizes[other] * to) <= from
            &&& after.geometry() == geometry
            &&& after->Group_orientation == data->Group_orientation
        }),
{
    lemma_part_of_sum(data->sizes, other);
    lemma_nearest_part(
        data->sizes[other] as int,
        data.geometry().extent(data.spec_orientation()) as int,
        geometry.extent(data.spec_orientation()) as int,
    );
}

/// A group that is turned splits its area the other way, in rows instead of columns or in columns
/// instead of rows, or the way that it is told. Its children stay in their order, each with as
/// large a part of the other side as it had of the one before.
pub proof fn law_a_turned_group_splits_the_other_way(
    tree: TreeModel,
    node: NodeId,
    group: NodeId,
    orientation: Option<Orientation>,
    other: int,
)
    requires
        tree.has(group),
        tree.parent(node) == Some(group),
        tree.data(group).filled(),
        0 < tree.data(group).geometry().size.w <= LONGEST_SIDE,
        0 < tree.data(group).geometry().size.h <= LONGEST_SIDE,
        0 <= other < tree.data(group)->sizes.len() - 1,
    ensures
        ({
            let after = tree.turned(node, orientation);
            let before = tree.data(group)->Group_orientation;
            let turned = after.data(group);
            let size = tree.data(group).geometry().size;
            let (from, to) = if before is Vertical {
                (size.w as int, if turned->Group_orientation is Vertical {
                    size.w as int
                } else {
                    size.h as int
                })
            } else {
                (size.h as int, if turned->Group_orientation is Vertical {
                    size.w as int
                } else {
                    size.h as int
                })
            };
            &&& orientation is None ==> turned->Group_orientation is Vertical
                == before is Horizontal
            &&& orientation matches Some(asked) ==> turned->Group_orientation == asked
            &&& turned.geometry() == tree.data(group).geometry()
            &&& turned->sizes.len() == tree.data(group)->sizes.len()
            &&& -from <= 2 * (from * turned->sizes[other] - tree.data(group)->sizes[other] * to)
                <= from
            &&& after.children(group) == tree.children(group)
            &&& forall|id: NodeId| id != group ==> #[trigger] after.nodes[id] == tree.nodes[id]
        }),
{
    let data = tree.data(group);
    let turned = tree.turned(node, orientation).data(group);
    lemma_part_of_sum(data->sizes, other);
    lemma_nearest_part(
        data->sizes[other] as int,
        data.geometry().extent(data.spec_orientation()) as int,
        data.geometry().extent(turned.spec_orientation()) as int,
    );
}

} // verus!
