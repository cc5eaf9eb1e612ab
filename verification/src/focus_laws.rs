//! Where the focus goes in a tree, whatever is in it.

use vstd::prelude::*;

use id_tree::NodeId;

use crate::actions::{Direction, FocusDirection};
use crate::balance::lemma_sound;
use crate::classic::lemma_child;
use crate::data::DataView;
use crate::focus::{FocusView, SwapMark};
use crate::geometry::{Orientation, Rectangle};
use crate::lineage::{
    lemma_ancestor_add, lemma_ancestor_rank, lemma_below_parent, lemma_below_self, lemma_below_trans,
};
use crate::tree::TreeModel;

verus! {

/// Half of a length.
pub open spec fn half_of(length: i32) -> int {
    length as int / 2
}

/// The square of the distance between two points.
pub open spec fn squared(dx: int, dy: int) -> int {
    dx * dx + dy * dy
}

/// From where the focus leaves an area to where it would enter another one, sideways and
/// downwards: between the middles of the edges that face each other, a pixel of the first left
/// out; downwards to the upper right corner of the other.
pub open spec fn gap_between(from: Rectangle, to: Rectangle, direction: Direction) -> (int, int) {
    let middle_x = from.loc.x + half_of(from.size.w) - 1;
    let middle_y = from.loc.y + half_of(from.size.h) - 1;
    match direction {
        Direction::Left => (
            (to.loc.x + to.size.w) - from.loc.x,
            to.loc.y + half_of(to.size.h) - middle_y,
        ),
        Direction::Right => (
            to.loc.x - (from.loc.x + from.size.w),
            to.loc.y + half_of(to.size.h) - middle_y,
        ),
        Direction::Up => (
            to.loc.x + half_of(to.size.w) - middle_x,
            (to.loc.y + to.size.h) - from.loc.y,
        ),
        Direction::Down => (
            to.loc.x + to.size.w - middle_x,
            to.loc.y - (from.loc.y + from.size.h),
        ),
    }
}

/// The nearest of the first children is at none of the others' expense.
proof fn lemma_nearest(
    tree: TreeModel,
    group: NodeId,
    count: int,
    from: Rectangle,
    direction: Direction,
    other: int,
)
    requires
        0 <= other < count <= tree.children(group).len(),
        from.size.w >= 0,
        from.size.h >= 0,
        forall|k: int|
            0 <= k < count ==> tree.data(#[trigger] tree.children(group)[k]).geometry().size.w >= 0
                && tree.data(tree.children(group)[k]).geometry().size.h >= 0,
    ensures
        ({
            let best = tree.nearest(group, count, from, direction);
            let (x, y) = gap_between(
                from,
                tree.data(tree.children(group)[best]).geometry(),
                direction,
            );
            let (u, v) = gap_between(
                from,
                tree.data(tree.children(group)[other]).geometry(),
                direction,
            );
            &&& 0 <= best < count
            &&& squared(x, y) <= squared(u, v)
            &&& other < best ==> squared(x, y) < squared(u, v)
        }),
    decreases count,
{
    let best = tree.nearest(group, count, from, direction);
    let last = tree.data(tree.children(group)[count - 1]).geometry();
    lemma_distance(from, last, direction);
    if count > 1 {
        let before = tree.nearest(group, count - 1, from, direction);
        lemma_nearest(tree, group, count - 1, from, direction, 0);
        lemma_distance(from, tree.data(tree.children(group)[before]).geometry(), direction);
        if other < count - 1 {
            lemma_nearest(tree, group, count - 1, from, direction, other);
        }
    }
}

/// The distance between two areas is that between the middles of their edges.
proof fn lemma_distance(from: Rectangle, to: Rectangle, direction: Direction)
    requires
        from.size.w >= 0,
        from.size.h >= 0,
        to.size.w >= 0,
        to.size.h >= 0,
    ensures
        crate::focus::distance(from, to, direction) == ({
            let (x, y) = gap_between(from, to, direction);
            squared(x, y)
        }),
{
    let (x, y) = gap_between(from, to, direction);
    assert(x * x == (-x) * (-x) && y * y == (-y) * (-y)) by (nonlinear_arith);
}

/// The focus that comes to a group goes on to one of its children. In a group along the way that
/// is the first child it meets: the last one if it goes left or up, the first one if it goes
/// right or down. In a group across the way it is the child whose facing edge has its middle
/// nearest to that of the edge left behind, counted in both axes, and the first of those that are
/// equally near.
pub proof fn law_the_focus_enters_the_nearest_child(
    tree: TreeModel,
    group: NodeId,
    from: Rectangle,
    direction: Direction,
    steps: nat,
    result: FocusView,
)
    requires
        tree.data(group) is Group,
        tree.children(group).len() > 0,
        from.size.w >= 0,
        from.size.h >= 0,
        forall|k: int|
            0 <= k < tree.children(group).len() ==> tree.data(
                #[trigger] tree.children(group)[k],
            ).geometry().size.w >= 0 && tree.data(tree.children(group)[k]).geometry().size.h >= 0,
        tree.focus_into(group, from, direction, None, steps) == Some(result),
    ensures
        exists|at: int|
            {
                &&& 0 <= at < tree.children(group).len()
                &&& steps > 0
                &&& tree.focus_into(
                    #[trigger] tree.children(group)[at],
                    from,
                    direction,
                    None,
                    (steps - 1) as nat,
                ) == Some(result)
                &&& if (tree.data(group)->orientation == Orientation::Vertical) == (direction is Left
                    || direction is Right) {
                    at == if direction is Left || direction is Up {
                        tree.children(group).len() - 1
                    } else {
                        0
                    }
                } else {
                    forall|other: int|
                        0 <= other < tree.children(group).len() ==> ({
                            let (x, y) = gap_between(
                                from,
                                tree.data(tree.children(group)[at]).geometry(),
                                direction,
                            );
                            let (u, v) = gap_between(
                                from,
                                tree.data(#[trigger] tree.children(group)[other]).geometry(),
                                direction,
                            );
                            squared(x, y) <= squared(u, v) && (other < at ==> squared(x, y)
                                < squared(u, v))
                        })
                }
            },
{
    let ids = tree.children(group);
    let at = if (tree.data(group)->orientation == Orientation::Vertical) == (direction is Left
        || direction is Right) {
        if direction is Left || direction is Up {
            ids.len() - 1
        } else {
            0
        }
    } else {
        tree.nearest(group, ids.len() as int, from, direction)
    };
    if (tree.data(group)->orientation == Orientation::Vertical) != (direction is Left
        || direction is Right) {
        lemma_nearest(tree, group, ids.len() as int, from, direction, 0);
        assert forall|other: int| 0 <= other < ids.len() implies ({
            let (x, y) = gap_between(from, tree.data(tree.children(group)[at]).geometry(), direction);
            let (u, v) = gap_between(
                from,
                tree.data(#[trigger] tree.children(group)[other]).geometry(),
                direction,
            );
            squared(x, y) <= squared(u, v) && (other < at ==> squared(x, y) < squared(u, v))
        }) by {
            lemma_nearest(tree, group, ids.len() as int, from, direction, other);
        }
    }
    assert(tree.next_inside(group, from, direction) == tree.children(group)[at]);
}

/// A step sideways into windows that stand on each other leads to the one straight across, if
/// there is one, and else to none that is farther up or down than another one.
pub proof fn law_a_step_sideways_keeps_the_height(
    tree: TreeModel,
    group: NodeId,
    from: Rectangle,
    direction: Direction,
    steps: nat,
    result: FocusView,
    across: int,
)
    requires
        direction is Left || direction is Right,
        tree.data(group) is Group,
        tree.data(group)->orientation == Orientation::Horizontal,
        0 <= across < tree.children(group).len(),
        from.size.w >= 0,
        from.size.h >= 4,
        forall|k: int|
            0 <= k < tree.children(group).len() ==> ({
                let data = tree.data(#[trigger] tree.children(group)[k]);
                let first = tree.data(tree.children(group)[across]).geometry();
                &&& data is Mapped
                &&& data.geometry().loc.x == first.loc.x
                &&& data.geometry().size.w == first.size.w >= 0
                &&& data.geometry().size.h > 0
                &&& k < across ==> data.geometry().loc.y + data.geometry().size.h <= first.loc.y
                &&& across < k ==> first.loc.y + first.size.h <= data.geometry().loc.y
            }),
        tree.data(tree.children(group)[across]).geometry().loc.y == from.loc.y,
        tree.data(tree.children(group)[across]).geometry().size.h == from.size.h,
        tree.focus_into(group, from, direction, None, steps) == Some(result),
    ensures
        result == (FocusView::Window {
            window: tree.data(tree.children(group)[across])->mapped.id,
            whole: false,
        }),
{
    let ids = tree.children(group);
    law_the_focus_enters_the_nearest_child(tree, group, from, direction, steps, result);
    let at = choose|at: int|
        {
            &&& 0 <= at < tree.children(group).len()
            &&& steps > 0
            &&& tree.focus_into(
                #[trigger] tree.children(group)[at],
                from,
                direction,
                None,
                (steps - 1) as nat,
            ) == Some(result)
            &&& forall|other: int|
                0 <= other < tree.children(group).len() ==> ({
                    let (x, y) = gap_between(
                        from,
                        tree.data(tree.children(group)[at]).geometry(),
                        direction,
                    );
                    let (u, v) = gap_between(
                        from,
                        tree.data(#[trigger] tree.children(group)[other]).geometry(),
                        direction,
                    );
                    squared(x, y) <= squared(u, v) && (other < at ==> squared(x, y) < squared(
                        u,
                        v,
                    ))
                })
        };
    let chosen = tree.data(tree.children(group)[at]).geometry();
    let straight = tree.data(tree.children(group)[across]).geometry();
    let (x, y) = gap_between(from, chosen, direction);
    let (u, v) = gap_between(from, straight, direction);
    assert(squared(x, y) <= squared(u, v));
    assert(x == u && v == 1);
    if at != across {
        assert(y > 1 || y < -1);
        assert(y * y > 1) by (nonlinear_arith)
            requires
                y > 1 || y < -1,
        ;
        assert(v * v == 1) by (nonlinear_arith)
            requires
                v == 1,
        ;
    }
    assert(tree.data(tree.children(group)[at]) is Mapped);
}

impl TreeModel {
    /// Whether something lies on this side of a child of a group.
    pub open spec fn open_side(self, group: NodeId, child: NodeId, direction: Direction) -> bool {
        match direction {
            Direction::Left => self.data(group)->orientation == Orientation::Vertical
                && self.children(group)[0] != child,
            Direction::Right => self.data(group)->orientation == Orientation::Vertical
                && self.children(group).last() != child,
            Direction::Up => self.data(group)->orientation == Orientation::Horizontal
                && self.children(group)[0] != child,
            Direction::Down => self.data(group)->orientation == Orientation::Horizontal
                && self.children(group).last() != child,
        }
    }
}

/// A node two of whose ancestors are known.
pub proof fn lemma_levels(tree: TreeModel, id: NodeId, level: nat, child: NodeId, group: NodeId)
    requires
        tree.forest(),
        tree.has(id),
        tree.ancestor(id, level) == Some(child),
        tree.ancestor(id, level + 1) == Some(group),
    ensures
        tree.has(child),
        tree.has(group),
        tree.parent(child) == Some(group),
        tree.children(group).contains(child),
        tree.children(group).no_duplicates(),
{
    let rank = choose|rank: Map<NodeId, nat>| tree.ranked(rank);
    lemma_ancestor_rank(tree, rank, id, level);
    lemma_ancestor_rank(tree, rank, id, level + 1);
    lemma_ancestor_add(tree, id, level, 1);
    reveal_with_fuel(TreeModel::ancestor, 2);
    assert(tree.has(child));
    assert(tree.has(group));
}

/// Something lies next to a child if it is not the last one on that side.
proof fn lemma_open_side(tree: TreeModel, group: NodeId, child: NodeId, direction: Direction)
    requires
        tree.children(group).contains(child),
        tree.children(group).no_duplicates(),
    ensures
        tree.has_neighbour(group, child, direction) == tree.open_side(group, child, direction),
        0 <= tree.place(group, child) < tree.children(group).len(),
        tree.children(group)[tree.place(group, child)] == child,
{
    let ids = tree.children(group);
    let at = ids.index_of(child);
    assert(ids[at] == child);
    if at > 0 {
        assert(ids[0] != ids[at]);
    }
    let last = ids.len() - 1;
    if at < last {
        assert(ids[last] != ids[at]);
    }
}

/// A step leads to what lies on that side of a node, or of the nearest group around it that has
/// anything there: to the one before it if it goes left or up, to the one behind it if it goes
/// right or down. There is nothing to go to only if no group has anything on that side.
pub proof fn law_a_step_leads_to_what_lies_that_way(
    tree: TreeModel,
    id: NodeId,
    direction: Direction,
    result: FocusView,
)
    requires
        tree.settled(),
        tree.has(id),
        tree.steps_to(id, direction, None, result),
    ensures
        (forall|level: nat|
            match (tree.ancestor(id, level), #[trigger] tree.ancestor(id, level + 1)) {
                (Some(child), Some(group)) => !tree.open_side(group, child, direction),
                _ => true,
            }) ==> result is Unhandled,
        (exists|level: nat|
            match (tree.ancestor(id, level), #[trigger] tree.ancestor(id, level + 1)) {
                (Some(child), Some(group)) => tree.open_side(group, child, direction),
                _ => false,
            }) ==> exists|level: nat, group: NodeId, at: int, to: int, steps: nat|
            #![trigger tree.ancestor(id, level + 1), tree.children(group)[at], tree.focus_into(
                tree.children(group)[to],
                tree.data(id).geometry(),
                direction,
                None,
                steps,
            )]
            {
                &&& to == if direction is Left || direction is Up {
                    at - 1
                } else {
                    at + 1
                }
                &&& tree.ancestor(id, level + 1) == Some(group)
                &&& 0 <= at < tree.children(group).len()
                &&& 0 <= to < tree.children(group).len()
                &&& tree.ancestor(id, level) == Some(tree.children(group)[at])
                &&& (tree.data(group)->orientation == Orientation::Vertical) == (direction is Left
                    || direction is Right)
                &&& tree.focus_into(
                    tree.children(group)[to],
                    tree.data(id).geometry(),
                    direction,
                    None,
                    steps,
                ) == Some(result)
                &&& forall|lower: nat|
                    lower < level ==> match (
                        tree.ancestor(id, lower),
                        #[trigger] tree.ancestor(id, lower + 1),
                    ) {
                        (Some(low), Some(up)) => !tree.open_side(up, low, direction),
                        _ => true,
                    }
            },
{
    lemma_sound(tree);
    assert forall|level: nat| #[trigger] tree.neighbour_at(id, level, direction) == match (
        tree.ancestor(id, level),
        tree.ancestor(id, level + 1),
    ) {
        (Some(child), Some(group)) => tree.open_side(group, child, direction),
        _ => false,
    } by {
        match (tree.ancestor(id, level), tree.ancestor(id, level + 1)) {
            (Some(child), Some(group)) => {
                lemma_levels(tree, id, level, child, group);
                lemma_open_side(tree, group, child, direction);
            },
            _ => {},
        }
    }
    if tree.adjacent(id, direction) {
        let found = choose|level: nat| #[trigger] tree.neighbour_at(id, level, direction);
        assert(match (tree.ancestor(id, found), tree.ancestor(id, found + 1)) {
            (Some(child), Some(group)) => tree.open_side(group, child, direction),
            _ => false,
        });
        let (level, steps) = choose|level: nat, steps: nat|
            tree.first_neighbour(id, level, direction) && #[trigger] tree.focus_into(
                tree.next_at(id, level, direction),
                tree.data(id).geometry(),
                direction,
                None,
                steps,
            ) == Some(result);
        assert(tree.neighbour_at(id, level, direction));
        let child = tree.ancestor(id, level)->0;
        let group = tree.ancestor(id, level + 1)->0;
        lemma_levels(tree, id, level, child, group);
        lemma_open_side(tree, group, child, direction);
        let at = tree.place(group, child);
        assert(tree.children(group)[at] == child);
        assert forall|lower: nat| lower < level implies match (
            tree.ancestor(id, lower),
            #[trigger] tree.ancestor(id, lower + 1),
        ) {
            (Some(low), Some(up)) => !tree.open_side(up, low, direction),
            _ => true,
        } by {
            assert(!tree.neighbour_at(id, lower, direction));
        }
        let to = if direction is Left || direction is Up {
            at - 1
        } else {
            at + 1
        };
        assert(tree.next_at(id, level, direction) == tree.children(group)[to]);
        assert(tree.ancestor(id, level + 1) == Some(group) && tree.children(group)[at] == child
            && tree.focus_into(
            tree.children(group)[to],
            tree.data(id).geometry(),
            direction,
            None,
            steps,
        ) == Some(result));
    } else {
        assert forall|level: nat| match (
            tree.ancestor(id, level),
            #[trigger] tree.ancestor(id, level + 1),
        ) {
            (Some(child), Some(group)) => !tree.open_side(group, child, direction),
            _ => true,
        } by {
            assert(!tree.neighbour_at(id, level, direction));
        }
    }
}

/// The focus that comes to a node ends on a window there, and on no group: on the node itself if
/// that is a window, and then not on all of a stack.
pub proof fn law_the_focus_ends_on_a_window(
    tree: TreeModel,
    id: NodeId,
    from: Rectangle,
    direction: Direction,
    steps: nat,
    result: FocusView,
)
    requires
        tree.settled(),
        tree.has(id),
        tree.focus_into(id, from, direction, None, steps) == Some(result),
    ensures
        exists|leaf: NodeId|
            {
                &&& tree.has(leaf)
                &&& #[trigger] tree.below(leaf, id)
                &&& tree.data(id) is Mapped ==> leaf == id
                &&& match tree.data(leaf) {
                    DataView::Mapped { mapped, .. } => result == (FocusView::Window {
                        window: mapped.id,
                        whole: false,
                    }),
                    DataView::Placeholder { .. } => result is Unhandled,
                    DataView::Group { .. } => false,
                }
            },
    decreases steps,
{
    lemma_sound(tree);
    lemma_below_self(tree, id);
    if tree.data(id) is Group {
        let next = tree.next_inside(id, from, direction);
        assert(tree.excess(id) == 0);
        let ids = tree.children(id);
        let k = if tree.data(id).spec_orientation() != crate::surgery::along(direction) {
            tree.nearest(id, ids.len() as int, from, direction)
        } else if crate::moves::leading(direction) {
            ids.len() - 1
        } else {
            0
        };
        lemma_nearest_inside(tree, id, ids.len() as int, from, direction);
        lemma_child(tree, id, k);
        assert(tree.has(next) && tree.parent(next) == Some(id));
        law_the_focus_ends_on_a_window(tree, next, from, direction, (steps - 1) as nat, result);
        let leaf = choose|leaf: NodeId|
            {
                &&& tree.has(leaf)
                &&& #[trigger] tree.below(leaf, next)
                &&& tree.data(next) is Mapped ==> leaf == next
                &&& match tree.data(leaf) {
                    DataView::Mapped { mapped, .. } => result == (FocusView::Window {
                        window: mapped.id,
                        whole: false,
                    }),
                    DataView::Placeholder { .. } => result is Unhandled,
                    DataView::Group { .. } => false,
                }
            };
        lemma_below_parent(tree, next, id);
        lemma_below_trans(tree, leaf, next, id);
    }
}

/// The nearest child is one of them.
proof fn lemma_nearest_inside(
    tree: TreeModel,
    group: NodeId,
    count: int,
    from: Rectangle,
    direction: Direction,
)
    ensures
        0 <= tree.nearest(group, count, from, direction),
        count > 0 ==> tree.nearest(group, count, from, direction) < count,
    decreases count,
{
    if count > 1 {
        lemma_nearest_inside(tree, group, count - 1, from, direction);
    }
}

/// The focus that goes out of a node to the group around it, and in again, is where it was: on the
/// window, or on the group with what it remembered. What has nothing around it cannot be left.
pub proof fn law_going_out_and_in_comes_back(
    tree: TreeModel,
    id: NodeId,
    stack: Option<Seq<u64>>,
    out: FocusView,
    back: FocusView,
)
    requires
        tree.settled(),
        tree.keyed(),
        tree.has(id),
        tree.focuses(id, stack, FocusDirection::Out, None, out),
        out matches FocusView::Group { node, focus_stack } ==> tree.focuses(
            tree.node_keyed(node),
            Some(focus_stack),
            FocusDirection::In,
            None,
            back,
        ),
    ensures
        tree.parent(id) is None ==> out is Unhandled,
        tree.parent(id) matches Some(group) ==> {
            &&& out is Group
            &&& out->node == tree.key(group)
            &&& match tree.data(id) {
                DataView::Group { .. } => back == (FocusView::Group {
                    node: tree.key(id),
                    focus_stack: match stack {
                        Some(keys) => keys,
                        None => seq![],
                    },
                }),
                DataView::Mapped { mapped, .. } => back == (FocusView::Window {
                    window: mapped.id,
                    whole: mapped.stack,
                }),
                DataView::Placeholder { .. } => back is Unhandled,
            }
        },
{
    lemma_sound(tree);
    assert(tree.has(id));
    match tree.parent(id) {
        None => {},
        Some(group) => {
            let ids = tree.children(group);
            assert(tree.has(group) && ids.contains(id));
            crate::placement::lemma_node_keyed(tree, group);
            let keys = match stack {
                Some(keys) => keys.push(tree.key(id)),
                None => seq![tree.key(id)],
            };
            assert(out == (FocusView::Group { node: tree.key(group), focus_stack: keys }));
            assert(keys.last() == tree.key(id));
            let at = ids.index_of(id);
            assert(ids[at] == id);
            lemma_child_keyed(tree, group, at, ids.len() as int);
            assert(keys.drop_last() =~= match stack {
                Some(keys) => keys,
                None => seq![],
            });
        },
    }
}

/// A child is found by its key.
proof fn lemma_child_keyed(tree: TreeModel, group: NodeId, at: int, count: int)
    requires
        tree.forest(),
        tree.keyed(),
        tree.has(group),
        0 <= at < tree.children(group).len(),
        0 <= count <= tree.children(group).len(),
    ensures
        0 <= tree.child_keyed(group, tree.key(tree.children(group)[at]), count)
            < tree.children(group).len(),
        at < count ==> tree.child_keyed(group, tree.key(tree.children(group)[at]), count) == at,
        at >= count && at > 0 ==> tree.child_keyed(
            group,
            tree.key(tree.children(group)[at]),
            count,
        ) == 0,
    decreases count,
{
    let ids = tree.children(group);
    assert(tree.has(group) && ids.no_duplicates());
    if count > 0 {
        lemma_child_keyed(tree, group, at, count - 1);
        assert(tree.has(tree.children(group)[at]));
        assert(tree.has(tree.children(group)[count - 1]));
        assert(tree.has(tree.children(group)[0]));
        if tree.key(ids[count - 1]) == tree.key(ids[at]) {
            assert(ids[count - 1] == ids[at]);
        }
        if tree.key(ids[0]) == tree.key(ids[at]) {
            assert(ids[0] == ids[at]);
        }
    }
}

/// While a node waits to be exchanged, the focus that comes to the group around it goes to the node
/// itself, and from inside of it as well: nothing within it gets the focus.
pub proof fn law_the_focus_stops_at_what_waits(
    tree: TreeModel,
    id: NodeId,
    from: Rectangle,
    direction: Direction,
    mark: SwapMark,
    steps: nat,
)
    requires
        tree.children(id).contains(mark.node) || id != mark.node && tree.below(id, mark.node),
    ensures
        ({
            let result = tree.focus_into(id, from, direction, Some(mark), steps);
            &&& result is Some
            &&& tree.data(mark.node) is Mapped ==> result->0 == FocusView::Window {
                window: tree.data(mark.node)->mapped.id,
                whole: tree.data(mark.node)->mapped.stack && mark.whole,
            }
            &&& tree.data(mark.node) is Group ==> result->0 is Group && result->0->node == tree.key(
                mark.node,
            )
        }),
{
}

/// The focus on a group lists its children, and on a window it is the window; a stack counts as a
/// whole only where it is asked for as one.
pub proof fn law_the_focus_names_what_it_is_on(tree: TreeModel, id: NodeId, whole: bool, index: int)
    ensures
        ({
            let focus = tree.focus_on(id, whole);
            &&& tree.data(id) is Mapped ==> focus is Window && focus->window == tree.data(
                id,
            )->mapped.id && focus->whole == (whole && tree.data(id)->mapped.stack)
            &&& tree.data(id) is Group ==> focus is Group && focus->node == tree.key(id)
                && focus->focus_stack.len() == tree.children(id).len()
            &&& tree.data(id) is Group && 0 <= index < tree.children(id).len()
                ==> focus->focus_stack[index] == tree.key(tree.children(id)[index])
            &&& tree.data(id) is Placeholder ==> focus is Unhandled
        }),
{
}

} // verus!
