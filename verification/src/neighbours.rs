//! What lies next to a node of a tiling tree, and which edges it can be resized at.

use vstd::prelude::*;

use id_tree::{NodeId, Tree};

use crate::actions::{Direction, ResizeDirection, ResizeEdge};
use crate::data::{Data, DataView};
use crate::drops::lemma_alike_settled;
use crate::geometry::{minus, plus, sub_saturating, Orientation};
use crate::lineage::lemma_ancestor_add;
use crate::surgery::{along, lemma_forest_with_data, orientation_along, position_of};
use crate::tree::{
    child_ids, copy_id, get_node, get_node_mut, model, parent_id, TreeModel, TreeNode,
};

verus! {

/// The width below which a resize does not push a window.
pub const MIN_RESIZE_WIDTH: i32 = 360;

/// The height below which a resize does not push a window.
pub const MIN_RESIZE_HEIGHT: i32 = 240;

impl TreeModel {
    /// Whether only groups have children.
    pub open spec fn groups_branch(self) -> bool {
        forall|id: NodeId|
            self.has(id) && (#[trigger] self.children(id)).len() > 0 ==> self.data(id) is Group
    }

    /// Whether every group has room for each of its children.
    pub open spec fn groups_fit(self) -> bool {
        forall|id: NodeId|
            #![trigger self.data(id)]
            self.has(id) && self.data(id) is Group ==> self.data(id)->sizes.len() == self.children(
                id,
            ).len()
    }

    /// The place of a child among the children of `parent`.
    pub open spec fn place(self, parent: NodeId, child: NodeId) -> int {
        self.children(parent).index_of(child)
    }

    /// Whether `parent` has another child next to `child` in this direction.
    pub open spec fn has_neighbour(self, parent: NodeId, child: NodeId, direction: Direction) -> bool {
        &&& self.data(parent).spec_orientation() == along(direction)
        &&& match direction {
            Direction::Left | Direction::Up => self.place(parent, child) > 0,
            Direction::Right | Direction::Down => self.place(parent, child) < self.children(
                parent,
            ).len() - 1,
        }
    }

    /// Whether, `level` levels up, something lies next to a node in this direction.
    pub open spec fn neighbour_at(self, id: NodeId, level: nat, direction: Direction) -> bool {
        match (self.ancestor(id, level), self.ancestor(id, level + 1)) {
            (Some(child), Some(parent)) => self.has_neighbour(parent, child, direction),
            _ => false,
        }
    }

    /// Whether anything lies next to a node in this direction.
    pub open spec fn adjacent(self, id: NodeId, direction: Direction) -> bool {
        exists|level: nat| #[trigger] self.neighbour_at(id, level, direction)
    }

    /// Whether this is the lowest level at which something lies next to a node.
    pub open spec fn first_neighbour(self, id: NodeId, level: nat, direction: Direction) -> bool {
        &&& self.neighbour_at(id, level, direction)
        &&& forall|lower: nat| lower < level ==> !#[trigger] self.neighbour_at(id, lower, direction)
    }

    /// The separator in `parent` that moves when `child` is resized at one of `edge`: the one
    /// behind the child at this place.
    pub open spec fn separator(self, parent: NodeId, child: NodeId, edge: ResizeEdge) -> Option<int> {
        let place = self.place(parent, child);
        let last = self.children(parent).len() - 1;
        if self.data(parent).spec_orientation() == Orientation::Vertical {
            if place > 0 && edge.left {
                Some(place - 1)
            } else if place < last && edge.right {
                Some(place)
            } else {
                None
            }
        } else if place > 0 && edge.top {
            Some(place - 1)
        } else if place < last && edge.bottom {
            Some(place)
        } else {
            None
        }
    }

    /// The separator that moves, `level` levels up, when a node is resized.
    pub open spec fn separator_at(self, id: NodeId, level: nat, edge: ResizeEdge) -> Option<
        (NodeId, int, Orientation),
    > {
        match (self.ancestor(id, level), self.ancestor(id, level + 1)) {
            (Some(child), Some(parent)) => match self.separator(parent, child, edge) {
                Some(place) => Some((parent, place, self.data(parent).spec_orientation())),
                None => None,
            },
            _ => None,
        }
    }

    /// The children of `parent` that a resize of `child` at `edges` takes from and gives to.
    pub open spec fn resize_pair(
        self,
        parent: NodeId,
        child: NodeId,
        direction: ResizeDirection,
        edges: ResizeEdge,
    ) -> Option<(int, int)> {
        let place = self.place(parent, child);
        let other = if edges.top || edges.left {
            place - 1
        } else {
            place + 1
        };
        if !(if self.data(parent).spec_orientation() == Orientation::Vertical {
            edges.left || edges.right
        } else {
            edges.top || edges.bottom
        }) || !(0 <= other < self.children(parent).len()) {
            None
        } else if direction is Inwards {
            Some((place, other))
        } else {
            Some((other, place))
        }
    }

    /// The children that a resize of a node, `level` levels up, takes from and gives to.
    pub open spec fn resize_pair_at(
        self,
        id: NodeId,
        level: nat,
        direction: ResizeDirection,
        edges: ResizeEdge,
    ) -> Option<(NodeId, int, int)> {
        match (self.ancestor(id, level), self.ancestor(id, level + 1)) {
            (Some(child), Some(parent)) => match self.resize_pair(
                parent,
                child,
                direction,
                edges,
            ) {
                Some((shrinking, growing)) => Some((parent, shrinking, growing)),
                None => None,
            },
            _ => None,
        }
    }
}

/// The least extent that a resize leaves a child.
pub open spec fn resize_minimum(orientation: Orientation) -> int {
    if orientation == Orientation::Vertical {
        MIN_RESIZE_WIDTH as int
    } else {
        MIN_RESIZE_HEIGHT as int
    }
}

impl DataView {
    /// Whether two children are long enough to be resized against each other.
    pub open spec fn resizable(self, shrinking: int, growing: int) -> bool {
        self->sizes[shrinking] + self->sizes[growing] >= 2 * resize_minimum(
            self.spec_orientation(),
        )
    }

    /// A group after one child gave up to `amount` of its extent to another.
    pub open spec fn resized(self, shrinking: int, growing: int, amount: int) -> DataView {
        let before = self->sizes[shrinking];
        let wanted = minus(before as int, amount);
        let least = resize_minimum(self.spec_orientation());
        let after = if wanted > least {
            wanted
        } else {
            least as i32
        };
        let shrunk = self->sizes.update(shrinking, after);
        self.with_sizes(
            shrunk.update(growing, plus(shrunk[growing] as int, before - after)),
        )
    }
}

impl Data {
    /// Moves up to `amount` pixels from one child of a group to another, if both together are
    /// long enough for two. Returns whether they were.
    pub fn resize_children(&mut self, shrinking: usize, growing: usize, amount: i32) -> (resized:
        bool)
        requires
            old(self)@ is Group,
            shrinking < old(self)@->sizes.len(),
            growing < old(self)@->sizes.len(),
        ensures
            resized == old(self)@.resizable(shrinking as int, growing as int),
            final(self)@ == if resized {
                old(self)@.resized(shrinking as int, growing as int, amount as int)
            } else {
                old(self)@
            },
    {
        let ghost before = self@;
        match self {
            Data::Group { orientation, sizes, .. } => {
                let least: i32 = match *orientation {
                    Orientation::Vertical => MIN_RESIZE_WIDTH,
                    Orientation::Horizontal => MIN_RESIZE_HEIGHT,
                };
                let old_size: i32 = sizes[shrinking];
                if (old_size as i64) + (sizes[growing] as i64) < 2 * least as i64 {
                    return false;
                }
                let wanted: i32 = sub_saturating(old_size, amount);
                let size: i32 = if wanted > least { wanted } else { least };
                sizes.set(shrinking, size);
                let grown: i64 = sizes[growing] as i64 + (old_size as i64 - size as i64);
                let grown: i32 = if grown < i32::MIN as i64 {
                    i32::MIN
                } else if grown > i32::MAX as i64 {
                    i32::MAX
                } else {
                    grown as i32
                };
                sizes.set(growing, grown);
            },
            _ => {},
        }
        assert(self@ =~~= before.resized(shrinking as int, growing as int, amount as int));
        true
    }
}

/// Above a node without a parent there is nothing.
proof fn lemma_nothing_above(tree: TreeModel, id: NodeId, level: nat, top: NodeId, higher: nat)
    requires
        tree.ancestor(id, level) == Some(top),
        tree.has(top),
        tree.parent(top) is None,
        higher >= level,
    ensures
        tree.ancestor(id, higher + 1) is None,
{
    lemma_ancestor_add(tree, id, level, (higher + 1 - level) as nat);
    assert(tree.ancestor(top, (higher + 1 - level) as nat) is None);
}

/// One level further up is the parent.
proof fn lemma_next_level(tree: TreeModel, id: NodeId, level: nat, child: NodeId, parent: NodeId)
    requires
        tree.ancestor(id, level) == Some(child),
        tree.has(child),
        tree.parent(child) == Some(parent),
    ensures
        tree.ancestor(id, level + 1) == Some(parent),
{
    lemma_ancestor_add(tree, id, level, 1);
    assert(tree.ancestor(parent, 0) == Some(parent));
    assert(tree.ancestor(child, 1) == Some(parent));
}

/// Whether a group has another child next to one in this direction.
fn neighbour_in(tree: &Tree<TreeNode>, parent: &NodeId, child: &NodeId, direction: Direction) -> (yes:
    bool)
    requires
        model(*tree).forest(),
        model(*tree).groups_branch(),
        model(*tree).has(*child),
        model(*tree).parent(*child) == Some(*parent),
    ensures
        yes == model(*tree).has_neighbour(*parent, *child, direction),
{
    let ghost shape = model(*tree);
    assert(shape.has(*child));
    let children: Vec<NodeId> = child_ids(tree, parent);
    assert(shape.has(*parent));
    let place: usize = match position_of(&children, child) {
        Some(place) => place,
        None => 0,
    };
    let orientation: Orientation = match get_node(tree, parent) {
        Some(node) => node.data.orientation(),
        None => Orientation::Horizontal,
    };
    if orientation != orientation_along(direction) {
        return false;
    }
    match direction {
        Direction::Left | Direction::Up => place > 0,
        Direction::Right | Direction::Down => place < children.len() - 1,
    }
}

/// Finds the lowest group in which something lies next to a node, or to what holds the node.
/// Returns the child that the node is or is below, and the group.
pub(crate) fn neighbour_level(tree: &Tree<TreeNode>, node: &NodeId, direction: Direction) -> (result:
    Option<(NodeId, NodeId)>)
    requires
        model(*tree).forest(),
        model(*tree).groups_branch(),
        model(*tree).has(*node),
    ensures
        match result {
            Some((child, parent)) => model(*tree).has(child) && model(*tree).parent(child) == Some(
                parent,
            ) && model(*tree).has_neighbour(parent, child, direction) && exists|level: nat|
                #[trigger] model(*tree).first_neighbour(*node, level, direction) && model(
                    *tree,
                ).ancestor(*node, level) == Some(child) && model(*tree).ancestor(*node, level + 1)
                    == Some(parent),
            None => !model(*tree).adjacent(*node, direction),
        },
{
    let ghost shape = model(*tree);
    let ghost rank = choose|rank: Map<NodeId, nat>| shape.ranked(rank);
    let mut current: NodeId = copy_id(node);
    let ghost mut level: nat = 0;
    loop
        invariant
            shape == model(*tree),
            shape.forest(),
            shape.groups_branch(),
            shape.ranked(rank),
            shape.has(current),
            shape.has(*node),
            shape.ancestor(*node, level) == Some(current),
            forall|lower: nat|
                lower < level ==> !(#[trigger] shape.neighbour_at(*node, lower, direction)),
        ensures
            shape.parent(current) is None,
        decreases rank[current],
    {
        let parent: NodeId = match parent_id(tree, &current) {
            Some(parent) => parent,
            None => {
                break;
            },
        };
        proof {
            assert(shape.has(current));
            lemma_next_level(shape, *node, level, current, parent);
        }
        if neighbour_in(tree, &parent, &current, direction) {
            assert(shape.neighbour_at(*node, level, direction));
            assert(shape.first_neighbour(*node, level, direction));
            return Some((current, parent));
        }
        assert(!shape.neighbour_at(*node, level, direction));
        current = parent;
        proof {
            level = level + 1;
        }
    }
    proof {
        assert forall|higher: nat| !(#[trigger] shape.neighbour_at(*node, higher, direction)) by {
            if higher >= level {
                lemma_nothing_above(shape, *node, level, current, higher);
            }
        }
    }
    None
}

/// Whether anything lies next to a node in this direction, however far up the tree.
pub fn has_adjacent_node(tree: &Tree<TreeNode>, node: &NodeId, direction: Direction) -> (yes: bool)
    requires
        model(*tree).forest(),
        model(*tree).groups_branch(),
    ensures
        yes == (model(*tree).has(*node) && model(*tree).adjacent(*node, direction)),
{
    if get_node(tree, node).is_none() {
        return false;
    }
    neighbour_level(tree, node, direction).is_some()
}

/// Whether the group of a node has another child next to it in this direction.
pub fn has_sibling_node(tree: &Tree<TreeNode>, node: &NodeId, direction: Direction) -> (yes: bool)
    requires
        model(*tree).forest(),
        model(*tree).groups_branch(),
    ensures
        yes == (model(*tree).has(*node) && match model(*tree).parent(*node) {
            Some(parent) => model(*tree).has_neighbour(parent, *node, direction),
            None => false,
        }),
{
    match parent_id(tree, node) {
        Some(parent) => neighbour_in(tree, &parent, node, direction),
        None => false,
    }
}

/// The edges that a node can be resized at: those that something lies next to.
pub fn possible_resizes(tree: &Tree<TreeNode>, node: &NodeId) -> (edges: ResizeEdge)
    requires
        model(*tree).forest(),
        model(*tree).groups_branch(),
        model(*tree).has(*node),
    ensures
        edges.left == model(*tree).adjacent(*node, Direction::Left),
        edges.right == model(*tree).adjacent(*node, Direction::Right),
        edges.top == model(*tree).adjacent(*node, Direction::Up),
        edges.bottom == model(*tree).adjacent(*node, Direction::Down),
{
    ResizeEdge {
        left: has_adjacent_node(tree, node, Direction::Left),
        right: has_adjacent_node(tree, node, Direction::Right),
        top: has_adjacent_node(tree, node, Direction::Up),
        bottom: has_adjacent_node(tree, node, Direction::Down),
    }
}

/// The separator that a resize of a node at `edge` moves: the nearest one up the tree, as the
/// group, the place of the child in front of it, and the orientation of the group.
pub fn resize_request(tree: &Tree<TreeNode>, node: &NodeId, edge: ResizeEdge) -> (result: Option<
    (NodeId, usize, Orientation),
>)
    requires
        model(*tree).forest(),
        model(*tree).groups_branch(),
        model(*tree).has(*node),
    ensures
        match result {
            Some((group, place, orientation)) => exists|level: nat|
                #![trigger model(*tree).separator_at(*node, level, edge)]
                model(*tree).separator_at(*node, level, edge) == Some(
                    (group, place as int, orientation),
                ) && forall|lower: nat|
                    lower < level ==> (#[trigger] model(*tree).separator_at(
                        *node,
                        lower,
                        edge,
                    )) is None,
            None => forall|level: nat|
                (#[trigger] model(*tree).separator_at(*node, level, edge)) is None,
        },
{
    let ghost shape = model(*tree);
    let ghost rank = choose|rank: Map<NodeId, nat>| shape.ranked(rank);
    let mut current: NodeId = copy_id(node);
    let ghost mut level: nat = 0;
    loop
        invariant
            shape == model(*tree),
            shape.forest(),
            shape.groups_branch(),
            shape.ranked(rank),
            shape.has(current),
            shape.ancestor(*node, level) == Some(current),
            forall|lower: nat|
                lower < level ==> (#[trigger] shape.separator_at(*node, lower, edge)) is None,
        ensures
            shape.parent(current) is None,
        decreases rank[current],
    {
        let parent: NodeId = match parent_id(tree, &current) {
            Some(parent) => parent,
            None => {
                break;
            },
        };
        proof {
            assert(shape.has(current));
            lemma_next_level(shape, *node, level, current, parent);
        }
        let children: Vec<NodeId> = child_ids(tree, &parent);
        assert(shape.has(parent));
        let place: usize = match position_of(&children, &current) {
            Some(place) => place,
            None => 0,
        };
        let orientation: Orientation = match get_node(tree, &parent) {
            Some(found) => found.data.orientation(),
            None => Orientation::Horizontal,
        };
        let (before, behind): (bool, bool) = match orientation {
            Orientation::Vertical => (edge.left, edge.right),
            Orientation::Horizontal => (edge.top, edge.bottom),
        };
        let found: Option<usize> = if place > 0 && before {
            Some(place - 1)
        } else if place < children.len() - 1 && behind {
            Some(place)
        } else {
            None
        };
        if let Some(separator) = found {
            assert(shape.separator_at(*node, level, edge) == Some(
                (parent, separator as int, orientation),
            ));
            return Some((parent, separator, orientation));
        }
        assert(shape.separator_at(*node, level, edge) is None);
        current = parent;
        proof {
            level = level + 1;
        }
    }
    proof {
        assert forall|higher: nat| (#[trigger] shape.separator_at(*node, higher, edge)) is None by {
            if higher >= level {
                lemma_nothing_above(shape, *node, level, current, higher);
            }
        }
    }
    None
}

/// What became of a resize in the tree.
#[derive(Debug)]
pub enum TreeResize {
    /// There was nothing to resize against.
    NoNeighbour,
    /// The children of this group were too small.
    TooSmall,
    /// The children of this group were resized.
    Resized(NodeId),
}

impl TreeModel {
    /// Whether `result` and `after` are what becomes of a resize of a node: the nearest group
    /// up the tree in which it can be resized at `edges` changes, if the two children are long
    /// enough.
    pub open spec fn resized_as(
        self,
        id: NodeId,
        direction: ResizeDirection,
        edges: ResizeEdge,
        amount: int,
        result: TreeResize,
        after: TreeModel,
    ) -> bool {
        match result {
            TreeResize::NoNeighbour => after == self && forall|level: nat|
                (#[trigger] self.resize_pair_at(id, level, direction, edges)) is None,
            _ => exists|level: nat|
                #![trigger self.resize_pair_at(id, level, direction, edges)]
                {
                    &&& forall|lower: nat|
                        lower < level ==> (#[trigger] self.resize_pair_at(
                            id,
                            lower,
                            direction,
                            edges,
                        )) is None
                    &&& match self.resize_pair_at(id, level, direction, edges) {
                        Some((group, shrinking, growing)) => if self.data(group).resizable(
                            shrinking,
                            growing,
                        ) {
                            result == TreeResize::Resized(group) && after == self.with_data(
                                group,
                                self.data(group).resized(shrinking, growing, amount),
                            )
                        } else {
                            result is TooSmall && after == self
                        },
                        None => false,
                    }
                },
        }
    }
}

/// Resizes a node by moving up to `amount` pixels between it and its neighbour at `edges`, in
/// the nearest group up the tree where it has one.
pub fn resize_node(
    tree: &mut Tree<TreeNode>,
    node: &NodeId,
    direction: ResizeDirection,
    edges: ResizeEdge,
    amount: i32,
) -> (result: TreeResize)
    requires
        model(*old(tree)).forest(),
        model(*old(tree)).groups_branch(),
        model(*old(tree)).groups_fit(),
        model(*old(tree)).has(*node),
    ensures
        model(*old(tree)).resized_as(
            *node,
            direction,
            edges,
            amount as int,
            result,
            model(*final(tree)),
        ),
        model(*final(tree)).forest(),
        model(*old(tree)).settled() ==> model(*final(tree)).settled(),
        model(*old(tree)).keeps_keys(model(*final(tree))),
        match result {
            TreeResize::Resized(group) => model(*final(tree)).has(group),
            _ => true,
        },
{
    let ghost shape = model(*tree);
    let ghost rank = choose|rank: Map<NodeId, nat>| shape.ranked(rank);
    let mut current: NodeId = copy_id(node);
    let ghost mut level: nat = 0;
    loop
        invariant
            shape == model(*tree),
            shape == model(*old(tree)),
            shape.forest(),
            shape.groups_branch(),
            shape.groups_fit(),
            shape.ranked(rank),
            shape.has(current),
            shape.ancestor(*node, level) == Some(current),
            forall|lower: nat|
                lower < level ==> (#[trigger] shape.resize_pair_at(
                    *node,
                    lower,
                    direction,
                    edges,
                )) is None,
        ensures
            shape.parent(current) is None,
        decreases rank[current],
    {
        let parent: NodeId = match parent_id(tree, &current) {
            Some(parent) => parent,
            None => {
                break;
            },
        };
        proof {
            assert(shape.has(current));
            lemma_next_level(shape, *node, level, current, parent);
        }
        let children: Vec<NodeId> = child_ids(tree, &parent);
        assert(shape.has(parent));
        let count: usize = children.len();
        let place: usize = match position_of(&children, &current) {
            Some(place) => place,
            None => 0,
        };
        let orientation: Orientation = match get_node(tree, &parent) {
            Some(found) => found.data.orientation(),
            None => Orientation::Horizontal,
        };
        let fitting: bool = match orientation {
            Orientation::Vertical => edges.left || edges.right,
            Orientation::Horizontal => edges.top || edges.bottom,
        };
        let other: Option<usize> = if !fitting {
            None
        } else if edges.top || edges.left {
            if place > 0 {
                Some(place - 1)
            } else {
                None
            }
        } else if place + 1 < count {
            Some(place + 1)
        } else {
            None
        };
        if let Some(other) = other {
            let (shrinking, growing): (usize, usize) = match direction {
                ResizeDirection::Inwards => (place, other),
                ResizeDirection::Outwards => (other, place),
            };
            assert(shape.resize_pair_at(*node, level, direction, edges) == Some(
                (parent, shrinking as int, growing as int),
            ));
            assert(shape.data(parent)->sizes.len() == count);
            let mut resized: bool = false;
            if let Some(found) = get_node_mut(tree, &parent) {
                resized = found.data.resize_children(shrinking, growing, amount);
            }
            if resized {
                proof {
                    let data = shape.data(parent).resized(
                        shrinking as int,
                        growing as int,
                        amount as int,
                    );
                    lemma_forest_with_data(shape, parent, data);
                    if shape.settled() {
                        lemma_alike_settled(shape, parent, data);
                    }
                }
                return TreeResize::Resized(parent);
            }
            assert(model(*tree) =~~= shape);
            return TreeResize::TooSmall;
        }
        assert(shape.resize_pair_at(*node, level, direction, edges) is None);
        current = parent;
        proof {
            level = level + 1;
        }
    }
    proof {
        assert forall|higher: nat| (#[trigger] shape.resize_pair_at(
            *node,
            higher,
            direction,
            edges,
        )) is None by {
            if higher >= level {
                lemma_nothing_above(shape, *node, level, current, higher);
            }
        }
    }
    TreeResize::NoNeighbour
}

} // verus!
