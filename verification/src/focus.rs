//! Where the keyboard focus goes in a tiling tree.

use vstd::prelude::*;

use id_tree::{NodeId, Tree};

use crate::actions::{Direction, FocusDirection};
use crate::balance::lemma_sound;
use crate::classic::{half_gap, lemma_child};
use crate::columns::copy_items;
use crate::data::{Data, DataView};
use crate::geometry::{Orientation, Rectangle};
use crate::lineage::{lemma_below_cases, lemma_below_has, lemma_below_parent, lemma_below_self};
use crate::moves::{leading, leads};
use crate::neighbours::neighbour_level;
use crate::surgery::{along, orientation_along, position_of};
use crate::tree::{child_ids, copy_id, get_node, model, parent_id, same_id, TreeModel, TreeNode};

verus! {

/// Where the focus goes.
#[derive(Debug)]
pub enum FocusResult {
    /// There is nothing in this layout to go to.
    Unhandled,
    /// The focus stays.
    Handled,
    /// The focus goes to a window, or to a whole stack of windows.
    Window { window: u64, whole: bool },
    /// The focus goes to a group. The focus stack says where it came from.
    Group { node: u64, focus_stack: Vec<u64> },
}

/// Where the focus goes, as the contracts speak of it.
#[verifier::ext_equal]
pub enum FocusView {
    Unhandled,
    Handled,
    Window { window: u64, whole: bool },
    Group { node: u64, focus_stack: Seq<u64> },
}

impl View for FocusResult {
    type V = FocusView;

    open spec fn view(&self) -> FocusView {
        match *self {
            FocusResult::Unhandled => FocusView::Unhandled,
            FocusResult::Handled => FocusView::Handled,
            FocusResult::Window { window, whole } => FocusView::Window { window, whole },
            FocusResult::Group { node, focus_stack } => FocusView::Group {
                node,
                focus_stack: focus_stack@,
            },
        }
    }
}

/// A node that waits to be exchanged with the one that is focused next.
pub struct SwapMark {
    pub node: NodeId,
    /// Whether all of the node is exchanged, not a single window of a stack.
    pub whole: bool,
}

/// The direction of a step across the layout.
pub open spec fn step_direction(direction: FocusDirection) -> Option<Direction> {
    match direction {
        FocusDirection::Left => Some(Direction::Left),
        FocusDirection::Right => Some(Direction::Right),
        FocusDirection::Up => Some(Direction::Up),
        FocusDirection::Down => Some(Direction::Down),
        _ => None,
    }
}

/// The direction of a step across the layout.
pub fn step_of(direction: FocusDirection) -> (step: Option<Direction>)
    ensures
        step == step_direction(direction),
{
    match direction {
        FocusDirection::Left => Some(Direction::Left),
        FocusDirection::Right => Some(Direction::Right),
        FocusDirection::Up => Some(Direction::Up),
        FocusDirection::Down => Some(Direction::Down),
        _ => None,
    }
}

/// The middle of the edge at which the focus leaves an area.
pub open spec fn exit_point(area: Rectangle, direction: Direction) -> (int, int) {
    let (x, y) = (area.loc.x as int, area.loc.y as int);
    match direction {
        Direction::Down => (x + half_gap(area.size.w) - 1, y + area.size.h),
        Direction::Up => (x + half_gap(area.size.w) - 1, y),
        Direction::Left => (x, y + half_gap(area.size.h) - 1),
        Direction::Right => (x + area.size.w, y + half_gap(area.size.h) - 1),
    }
}

/// The point at the edge of an area to which its distance is measured.
pub open spec fn entry_point(area: Rectangle, direction: Direction) -> (int, int) {
    let (x, y) = (area.loc.x as int, area.loc.y as int);
    match direction {
        Direction::Up => (x + half_gap(area.size.w), y + area.size.h),
        Direction::Down => (x + area.size.w, y),
        Direction::Right => (x, y + half_gap(area.size.h)),
        Direction::Left => (x + area.size.w, y + half_gap(area.size.h)),
    }
}

/// The square of the distance from one area to another.
pub open spec fn distance(from: Rectangle, to: Rectangle, direction: Direction) -> int {
    let (x, y) = exit_point(from, direction);
    let (u, v) = entry_point(to, direction);
    (u - x) * (u - x) + (v - y) * (v - y)
}

impl TreeModel {
    /// The nearest of the first children of a group: the first one of those at the least
    /// distance.
    pub open spec fn nearest(self, group: NodeId, count: int, from: Rectangle, direction: Direction) -> int
        decreases count,
    {
        if count <= 1 {
            0
        } else {
            let best = self.nearest(group, count - 1, from, direction);
            let last = self.data(self.children(group)[count - 1]).geometry();
            if distance(from, last, direction) < distance(
                from,
                self.data(self.children(group)[best]).geometry(),
                direction,
            ) {
                count - 1
            } else {
                best
            }
        }
    }

    /// Whether the focus meets the marked node on its way into `id`.
    pub open spec fn meets(self, id: NodeId, swap: Option<SwapMark>) -> bool {
        match swap {
            Some(mark) => (id != mark.node && self.below(id, mark.node)) || self.children(
                id,
            ).contains(mark.node),
            None => false,
        }
    }

    /// The focus on all of a node.
    pub open spec fn focus_on(self, id: NodeId, whole: bool) -> FocusView {
        match self.data(id) {
            DataView::Group { .. } => FocusView::Group {
                node: self.key(id),
                focus_stack: self.children(id).map_values(|child: NodeId| self.key(child)),
            },
            DataView::Mapped { mapped, .. } => FocusView::Window {
                window: mapped.id,
                whole: mapped.stack && whole,
            },
            DataView::Placeholder { .. } => FocusView::Unhandled,
        }
    }

    /// The child of a group that the focus goes on to.
    pub open spec fn next_inside(self, id: NodeId, from: Rectangle, direction: Direction) -> NodeId {
        let children = self.children(id);
        if self.data(id).spec_orientation() != along(direction) {
            children[self.nearest(id, children.len() as int, from, direction)]
        } else if leading(direction) {
            children.last()
        } else {
            children[0]
        }
    }

    /// Where the focus ends up that comes to `id` from an area, if it takes at most `steps`
    /// steps down the tree.
    pub open spec fn focus_into(
        self,
        id: NodeId,
        from: Rectangle,
        direction: Direction,
        swap: Option<SwapMark>,
        steps: nat,
    ) -> Option<FocusView>
        decreases steps,
    {
        if self.meets(id, swap) {
            Some(self.focus_on(swap->0.node, swap->0.whole))
        } else if !(self.data(id) is Group) {
            Some(self.focus_on(id, swap is Some && swap->0.node == id && swap->0.whole))
        } else if steps == 0 {
            None
        } else {
            self.focus_into(
                self.next_inside(id, from, direction),
                from,
                direction,
                swap,
                (steps - 1) as nat,
            )
        }
    }

    /// The node next to a node in this direction, `level` levels up.
    pub open spec fn next_at(self, id: NodeId, level: nat, direction: Direction) -> NodeId {
        let child = self.ancestor(id, level)->0;
        let parent = self.ancestor(id, level + 1)->0;
        let place = self.place(parent, child);
        self.children(parent)[if leading(direction) {
            place - 1
        } else {
            place + 1
        }]
    }

    /// Whether the focus goes from `id` across the layout to `result`: into the nearest node
    /// that lies in this direction.
    pub open spec fn steps_to(
        self,
        id: NodeId,
        direction: Direction,
        swap: Option<SwapMark>,
        result: FocusView,
    ) -> bool {
        if !self.adjacent(id, direction) {
            result is Unhandled
        } else {
            exists|level: nat, steps: nat|
                self.first_neighbour(id, level, direction) && #[trigger] self.focus_into(
                    self.next_at(id, level, direction),
                    self.data(id).geometry(),
                    direction,
                    swap,
                    steps,
                ) == Some(result)
        }
    }

    /// The place of the child with this key, or of the first child.
    pub open spec fn child_keyed(self, id: NodeId, key: u64, count: int) -> int
        decreases count,
    {
        if count <= 0 {
            0
        } else {
            let before = self.child_keyed(id, key, count - 1);
            if self.key(self.children(id)[before]) == key {
                before
            } else if self.key(self.children(id)[count - 1]) == key {
                count - 1
            } else {
                0
            }
        }
    }

    /// Where the focus goes that leaves a node for the group around it.
    pub open spec fn focus_out(self, id: NodeId, stack: Option<Seq<u64>>, swap: Option<SwapMark>) -> FocusView {
        match self.parent(id) {
            None => FocusView::Unhandled,
            Some(group) => if swap is Some && self.has(swap->0.node) && self.below(
                swap->0.node,
                group,
            ) {
                FocusView::Handled
            } else {
                FocusView::Group {
                    node: self.key(group),
                    focus_stack: match stack {
                        Some(keys) => keys.push(self.key(id)),
                        None => seq![self.key(id)],
                    },
                }
            },
        }
    }

    /// Where the focus goes that enters a group: to the child that it came from, or to the
    /// first one.
    pub open spec fn focus_in(self, id: NodeId, stack: Option<Seq<u64>>, swap: Option<SwapMark>) -> FocusView {
        if swap is Some && swap->0.node == id {
            FocusView::Handled
        } else {
            match stack {
                None => FocusView::Unhandled,
                Some(keys) => if self.children(id).len() == 0 {
                    FocusView::Unhandled
                } else {
                    let child = self.children(id)[self.child_keyed(
                        id,
                        keys.last(),
                        self.children(id).len() as int,
                    )];
                    match self.data(child) {
                        DataView::Group { .. } => FocusView::Group {
                            node: self.key(child),
                            focus_stack: keys.drop_last(),
                        },
                        _ => self.focus_on(child, true),
                    }
                },
            }
        }
    }

    /// Whether the focus goes from `id` to `result`.
    pub open spec fn focuses(
        self,
        id: NodeId,
        stack: Option<Seq<u64>>,
        direction: FocusDirection,
        swap: Option<SwapMark>,
        result: FocusView,
    ) -> bool {
        match step_direction(direction) {
            Some(step) => self.steps_to(id, step, swap, result),
            None => if direction is In {
                result == self.focus_in(id, stack, swap)
            } else {
                result == self.focus_out(id, stack, swap)
            },
        }
    }
}

/// The middle of the edge at which the focus leaves an area.
fn exit_of(area: Rectangle, direction: Direction) -> (point: (i64, i64))
    ensures
        (point.0 as int, point.1 as int) == exit_point(area, direction),
{
    let x: i64 = area.loc.x as i64;
    let y: i64 = area.loc.y as i64;
    let w: i64 = area.size.w as i64;
    let h: i64 = area.size.h as i64;
    let half_w: i64 = (area.size.w / 2) as i64;
    let half_h: i64 = (area.size.h / 2) as i64;
    match direction {
        Direction::Down => (x + half_w - 1, y + h),
        Direction::Up => (x + half_w - 1, y),
        Direction::Left => (x, y + half_h - 1),
        Direction::Right => (x + w, y + half_h - 1),
    }
}

/// The point at the edge of an area to which its distance is measured.
fn entry_of(area: Rectangle, direction: Direction) -> (point: (i64, i64))
    ensures
        (point.0 as int, point.1 as int) == entry_point(area, direction),
{
    let x: i64 = area.loc.x as i64;
    let y: i64 = area.loc.y as i64;
    let w: i64 = area.size.w as i64;
    let h: i64 = area.size.h as i64;
    let half_w: i64 = (area.size.w / 2) as i64;
    let half_h: i64 = (area.size.h / 2) as i64;
    match direction {
        Direction::Up => (x + half_w, y + h),
        Direction::Down => (x + w, y),
        Direction::Right => (x, y + half_h),
        Direction::Left => (x + w, y + half_h),
    }
}

/// The square of the distance from one area to another.
fn distance_between(from: Rectangle, to: Rectangle, direction: Direction) -> (square: i128)
    ensures
        square == distance(from, to, direction),
{
    let (x, y): (i64, i64) = exit_of(from, direction);
    let (u, v): (i64, i64) = entry_of(to, direction);
    let dx: i128 = u as i128 - x as i128;
    let dy: i128 = v as i128 - y as i128;
    assert(-0x8_0000_0000 <= dx <= 0x8_0000_0000 && -0x8_0000_0000 <= dy <= 0x8_0000_0000);
    assert(0 <= dx * dx <= 0x40_0000_0000_0000_0000 && 0 <= dy * dy <= 0x40_0000_0000_0000_0000)
        by (nonlinear_arith)
        requires
            -0x8_0000_0000 <= dx <= 0x8_0000_0000,
            -0x8_0000_0000 <= dy <= 0x8_0000_0000,
    ;
    dx * dx + dy * dy
}

/// Whether `id` is `top` or stands below it.
pub(crate) fn is_below(tree: &Tree<TreeNode>, id: &NodeId, top: &NodeId) -> (yes: bool)
    requires
        model(*tree).forest(),
        model(*tree).has(*id),
    ensures
        yes == model(*tree).below(*id, *top),
{
    let ghost shape = model(*tree);
    let ghost rank = choose|rank: Map<NodeId, nat>| shape.ranked(rank);
    let mut current: NodeId = copy_id(id);
    proof {
        lemma_below_self(shape, *top);
    }
    while !same_id(&current, top)
        invariant
            shape == model(*tree),
            shape.forest(),
            shape.ranked(rank),
            shape.has(current),
            shape.below(*id, *top) == shape.below(current, *top),
        decreases rank[current],
    {
        match parent_id(tree, &current) {
            Some(parent) => {
                proof {
                    assert(shape.has(current));
                    if shape.below(current, *top) {
                        lemma_below_cases(shape, current, *top);
                    }
                    if shape.below(parent, *top) {
                        lemma_below_parent(shape, current, *top);
                    }
                }
                current = parent;
            },
            None => {
                proof {
                    if shape.below(current, *top) {
                        lemma_below_cases(shape, current, *top);
                    }
                }
                return false;
            },
        }
    }
    true
}

/// Whether the focus meets the marked node on its way into `id`.
fn meets(tree: &Tree<TreeNode>, id: &NodeId, swap: &Option<SwapMark>) -> (yes: bool)
    requires
        model(*tree).forest(),
        model(*tree).has(*id),
    ensures
        yes == model(*tree).meets(*id, *swap),
{
    match swap {
        Some(mark) => {
            if !same_id(id, &mark.node) && is_below(tree, id, &mark.node) {
                return true;
            }
            let children: Vec<NodeId> = child_ids(tree, id);
            position_of(&children, &mark.node).is_some()
        },
        None => false,
    }
}

/// The area of a node.
fn area_of(tree: &Tree<TreeNode>, id: &NodeId) -> (area: Rectangle)
    requires
        model(*tree).has(*id),
    ensures
        area == model(*tree).data(*id).geometry(),
{
    match get_node(tree, id) {
        Some(node) => node.data.geometry(),
        None => Rectangle::new(0, 0, 0, 0),
    }
}

/// The key of a node.
pub(crate) fn key_of(tree: &Tree<TreeNode>, id: &NodeId) -> (key: u64)
    requires
        model(*tree).has(*id),
    ensures
        key == model(*tree).key(*id),
{
    match get_node(tree, id) {
        Some(node) => node.key,
        None => 0,
    }
}

/// The place of the nearest child of a group.
fn nearest_child(
    tree: &Tree<TreeNode>,
    group: &NodeId,
    children: &Vec<NodeId>,
    from: Rectangle,
    direction: Direction,
) -> (place: usize)
    requires
        model(*tree).regular(),
        model(*tree).has(*group),
        children@ == model(*tree).children(*group),
        children@.len() > 0,
    ensures
        place < children@.len(),
        place == model(*tree).nearest(*group, children@.len() as int, from, direction),
{
    let ghost shape = model(*tree);
    let mut best: usize = 0;
    let mut i: usize = 1;
    proof {
        lemma_child(shape, *group, 0);
    }
    let mut least: i128 = distance_between(from, area_of(tree, &children[0]), direction);
    while i < children.len()
        invariant
            1 <= i <= children@.len(),
            best < i,
            shape == model(*tree),
            shape.regular(),
            shape.has(*group),
            children@ == shape.children(*group),
            best == shape.nearest(*group, i as int, from, direction),
            least == distance(from, shape.data(children@[best as int]).geometry(), direction),
        decreases children@.len() - i,
    {
        proof {
            lemma_child(shape, *group, i as int);
        }
        let next: i128 = distance_between(from, area_of(tree, &children[i]), direction);
        if next < least {
            best = i;
            least = next;
        }
        i += 1;
    }
    best
}

/// The focus on all of a node.
fn focus_node(tree: &Tree<TreeNode>, id: &NodeId, whole: bool) -> (result: FocusResult)
    requires
        model(*tree).regular(),
        model(*tree).has(*id),
    ensures
        result@ == model(*tree).focus_on(*id, whole),
{
    let ghost shape = model(*tree);
    match get_node(tree, id) {
        Some(node) => match &node.data {
            Data::Group { .. } => {
                let children: Vec<NodeId> = child_ids(tree, id);
                let mut focus_stack: Vec<u64> = Vec::new();
                let mut i: usize = 0;
                while i < children.len()
                    invariant
                        i <= children@.len(),
                        shape == model(*tree),
                        shape.regular(),
                        shape.has(*id),
                        children@ == shape.children(*id),
                        focus_stack@.len() == i,
                        forall|j: int|
                            0 <= j < i ==> focus_stack@[j] == shape.key(#[trigger] children@[j]),
                    decreases children@.len() - i,
                {
                    proof {
                        lemma_child(shape, *id, i as int);
                    }
                    focus_stack.push(key_of(tree, &children[i]));
                    i += 1;
                }
                assert(focus_stack@ =~= shape.children(*id).map_values(
                    |child: NodeId| shape.key(child),
                ));
                FocusResult::Group { node: node.key, focus_stack }
            },
            Data::Mapped { mapped, .. } => FocusResult::Window {
                window: mapped.id,
                whole: mapped.stack && whole,
            },
            Data::Placeholder { .. } => FocusResult::Unhandled,
        },
        None => FocusResult::Unhandled,
    }
}

/// The child of a group that the focus goes on to.
fn go_on(tree: &Tree<TreeNode>, id: &NodeId, from: Rectangle, direction: Direction) -> (next: NodeId)
    requires
        model(*tree).settled(),
        model(*tree).has(*id),
        model(*tree).data(*id) is Group,
    ensures
        next == model(*tree).next_inside(*id, from, direction),
        model(*tree).has(next),
        model(*tree).parent(next) == Some(*id),
{
    let ghost shape = model(*tree);
    proof {
        lemma_sound(shape);
        assert(shape.excess(*id) == 0);
    }
    let children: Vec<NodeId> = child_ids(tree, id);
    let orientation: Orientation = match get_node(tree, id) {
        Some(node) => node.data.orientation(),
        None => Orientation::Horizontal,
    };
    let place: usize = if orientation != orientation_along(direction) {
        nearest_child(tree, id, &children, from, direction)
    } else if leads(direction) {
        children.len() - 1
    } else {
        0
    };
    proof {
        lemma_child(shape, *id, place as int);
    }
    copy_id(&children[place])
}

/// Follows the focus down the tree into `id`.
fn focus_down(
    tree: &Tree<TreeNode>,
    id: &NodeId,
    from: Rectangle,
    direction: Direction,
    swap: &Option<SwapMark>,
) -> (result: FocusResult)
    requires
        model(*tree).settled(),
        model(*tree).has(*id),
    ensures
        exists|steps: nat| #[trigger]
            model(*tree).focus_into(*id, from, direction, *swap, steps) == Some(result@),
{
    let ghost shape = model(*tree);
    let ghost rank = choose|rank: Map<NodeId, nat>| shape.ranked(rank);
    proof {
        lemma_sound(shape);
    }
    let mut current: NodeId = copy_id(id);
    let ghost mut depth: nat = 0;
    let ghost mut passed: Set<NodeId> = Set::empty();
    loop
        invariant
            shape == model(*tree),
            shape.settled(),
            shape.forest(),
            shape.regular(),
            shape.ranked(rank),
            shape.has(current),
            passed.subset_of(shape.nodes.dom()),
            passed.len() == depth,
            passed.finite(),
            forall|node: NodeId| #[trigger] passed.contains(node) ==> rank[node] < rank[current],
            forall|steps: nat| #[trigger]
                shape.focus_into(current, from, direction, *swap, steps) == shape.focus_into(
                    *id,
                    from,
                    direction,
                    *swap,
                    steps + depth,
                ),
        decreases shape.nodes.dom().len() - depth,
    {
        assert(shape.focus_into(current, from, direction, *swap, 0) == shape.focus_into(
            *id,
            from,
            direction,
            *swap,
            0 + depth,
        ));
        if meets(tree, &current, swap) {
            match swap {
                Some(mark) => {
                    proof {
                        lemma_met(shape, current, *mark);
                    }
                    return focus_node(tree, &mark.node, mark.whole);
                },
                None => {},
            }
        }
        let is_group: bool = match get_node(tree, &current) {
            Some(node) => node.data.is_group(),
            None => false,
        };
        if !is_group {
            let whole: bool = match swap {
                Some(mark) => same_id(&mark.node, &current) && mark.whole,
                None => false,
            };
            return focus_node(tree, &current, whole);
        }
        let next: NodeId = go_on(tree, &current, from, direction);
        proof {
            assert(shape.has(next));
            assert(rank[current] < rank[next]);
            assert(!passed.contains(current));
            let more = passed.insert(current);
            vstd::set_lib::lemma_len_subset(more, shape.nodes.dom());
            assert forall|steps: nat| #[trigger]
                shape.focus_into(next, from, direction, *swap, steps) == shape.focus_into(
                    *id,
                    from,
                    direction,
                    *swap,
                    steps + (depth + 1),
                ) by {
                assert(shape.focus_into(current, from, direction, *swap, steps + 1)
                    == shape.focus_into(*id, from, direction, *swap, (steps + 1) + depth));
                assert((steps + 1 - 1) as nat == steps);
            }
            passed = more;
            depth = depth + 1;
        }
        current = next;
    }
}

/// A marked node that the focus meets is in the tree.
proof fn lemma_met(tree: TreeModel, id: NodeId, mark: SwapMark)
    requires
        tree.forest(),
        tree.has(id),
        tree.meets(id, Some(mark)),
    ensures
        tree.has(mark.node),
{
    if tree.children(id).contains(mark.node) {
        let i = tree.children(id).index_of(mark.node);
        assert(tree.has(tree.children(id)[i]));
    } else {
        lemma_below_has(tree, id, mark.node);
    }
}

/// Follows the focus across the layout.
fn focus_across(tree: &Tree<TreeNode>, node: &NodeId, direction: Direction, swap: &Option<SwapMark>) -> (result:
    FocusResult)
    requires
        model(*tree).settled(),
        model(*tree).has(*node),
    ensures
        model(*tree).steps_to(*node, direction, *swap, result@),
{
    let ghost shape = model(*tree);
    assert(shape.forest() && shape.groups_branch() && shape.regular()) by {
        lemma_sound(shape);
        reveal(TreeModel::regular);
    }
    match neighbour_level(tree, node, direction) {
        None => FocusResult::Unhandled,
        Some((child, parent)) => {
            let ghost level = choose|level: nat| #[trigger]
                shape.first_neighbour(*node, level, direction) && shape.ancestor(*node, level)
                    == Some(child) && shape.ancestor(*node, level + 1) == Some(parent);
            assert(shape.neighbour_at(*node, level, direction));
            assert(shape.has(child));
            let children: Vec<NodeId> = child_ids(tree, &parent);
            let place: usize = match position_of(&children, &child) {
                Some(place) => place,
                None => 0,
            };
            assert(place == shape.place(parent, child));
            assert(children.len() == children@.len());
            let next_place: usize = if leads(direction) {
                place - 1
            } else {
                place + 1
            };
            let next: NodeId = copy_id(&children[next_place]);
            proof {
                lemma_child(shape, parent, next_place as int);
            }
            let from: Rectangle = area_of(tree, node);
            let result: FocusResult = focus_down(tree, &next, from, direction, swap);
            proof {
                let steps = choose|steps: nat| #[trigger]
                    shape.focus_into(next, from, direction, *swap, steps) == Some(result@);
                assert(next == shape.next_at(*node, level, direction));
                assert(shape.first_neighbour(*node, level, direction) && shape.focus_into(
                    shape.next_at(*node, level, direction),
                    shape.data(*node).geometry(),
                    direction,
                    *swap,
                    steps,
                ) == Some(result@));
            }
            result
        },
    }
}

/// Follows the focus out of a node, to the group around it.
fn focus_outwards(
    tree: &Tree<TreeNode>,
    node: &NodeId,
    stack: &Option<Vec<u64>>,
    swap: &Option<SwapMark>,
) -> (result: FocusResult)
    requires
        model(*tree).settled(),
        model(*tree).has(*node),
    ensures
        result@ == model(*tree).focus_out(*node, stack_view(*stack), *swap),
{
    let ghost shape = model(*tree);
    proof {
        lemma_sound(shape);
    }
    match parent_id(tree, node) {
        None => FocusResult::Unhandled,
        Some(group) => {
            assert(shape.has(*node));
            match swap {
                Some(mark) => {
                    if get_node(tree, &mark.node).is_some() && is_below(tree, &mark.node, &group) {
                        return FocusResult::Handled;
                    }
                },
                None => {},
            }
            let mut focus_stack: Vec<u64> = match stack {
                Some(keys) => copy_items(keys),
                None => Vec::new(),
            };
            focus_stack.push(key_of(tree, node));
            assert(focus_stack@ =~= match stack_view(*stack) {
                Some(keys) => keys.push(shape.key(*node)),
                None => seq![shape.key(*node)],
            });
            FocusResult::Group { node: key_of(tree, &group), focus_stack }
        },
    }
}

/// A focus stack as the contracts speak of it.
pub open spec fn stack_view(stack: Option<Vec<u64>>) -> Option<Seq<u64>> {
    match stack {
        Some(keys) => Some(keys@),
        None => None,
    }
}

/// The place of the child with this key, or of the first child.
fn child_with_key(tree: &Tree<TreeNode>, id: &NodeId, children: &Vec<NodeId>, key: u64) -> (place: usize)
    requires
        model(*tree).regular(),
        model(*tree).has(*id),
        children@ == model(*tree).children(*id),
        children@.len() > 0,
    ensures
        place < children@.len(),
        place == model(*tree).child_keyed(*id, key, children@.len() as int),
{
    let ghost shape = model(*tree);
    let mut found: usize = 0;
    let mut i: usize = 0;
    while i < children.len()
        invariant
            i <= children@.len(),
            found < children@.len(),
            shape == model(*tree),
            shape.regular(),
            shape.has(*id),
            children@ == shape.children(*id),
            found == shape.child_keyed(*id, key, i as int),
        decreases children@.len() - i,
    {
        proof {
            lemma_child(shape, *id, i as int);
            lemma_child(shape, *id, found as int);
        }
        if key_of(tree, &children[found]) != key {
            found = if key_of(tree, &children[i]) == key {
                i
            } else {
                0
            };
        }
        i += 1;
    }
    found
}

/// Follows the focus into a group.
fn focus_inwards(
    tree: &Tree<TreeNode>,
    node: &NodeId,
    stack: &Option<Vec<u64>>,
    swap: &Option<SwapMark>,
) -> (result: FocusResult)
    requires
        model(*tree).settled(),
        model(*tree).has(*node),
        match stack {
            Some(keys) => keys@.len() > 0,
            None => true,
        },
    ensures
        result@ == model(*tree).focus_in(*node, stack_view(*stack), *swap),
{
    let ghost shape = model(*tree);
    proof {
        lemma_sound(shape);
    }
    match swap {
        Some(mark) => {
            if same_id(&mark.node, node) {
                return FocusResult::Handled;
            }
        },
        None => {},
    }
    match stack {
        None => FocusResult::Unhandled,
        Some(keys) => {
            let children: Vec<NodeId> = child_ids(tree, node);
            if children.len() == 0 {
                return FocusResult::Unhandled;
            }
            let place: usize = child_with_key(tree, node, &children, keys[keys.len() - 1]);
            proof {
                lemma_child(shape, *node, place as int);
            }
            let child: &NodeId = &children[place];
            let is_group: bool = match get_node(tree, child) {
                Some(found) => found.data.is_group(),
                None => false,
            };
            if is_group {
                let mut focus_stack: Vec<u64> = copy_items(keys);
                let _ = focus_stack.pop();
                assert(focus_stack@ =~= keys@.drop_last());
                FocusResult::Group { node: key_of(tree, child), focus_stack }
            } else {
                focus_node(tree, child, true)
            }
        },
    }
}

/// Where the focus goes from `node`. `stack` is given for a group: the keys of the nodes that
/// the focus came from. `swap` marks a node that waits to be exchanged.
pub fn next_focus(
    tree: &Tree<TreeNode>,
    node: &NodeId,
    stack: &Option<Vec<u64>>,
    direction: FocusDirection,
    swap: &Option<SwapMark>,
) -> (result: FocusResult)
    requires
        model(*tree).settled(),
        model(*tree).has(*node),
        direction is In ==> match stack {
            Some(keys) => keys@.len() > 0,
            None => true,
        },
        match swap {
            Some(mark) => !(model(*tree).has(mark.node) && model(*tree).data(
                mark.node,
            ) is Placeholder),
            None => true,
        },
    ensures
        model(*tree).focuses(*node, stack_view(*stack), direction, *swap, result@),
{
    match step_of(direction) {
        Some(step) => focus_across(tree, node, step, swap),
        None => match direction {
            FocusDirection::In => focus_inwards(tree, node, stack, swap),
            _ => focus_outwards(tree, node, stack, swap),
        },
    }
}

} // verus!
