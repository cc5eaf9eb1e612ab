//! Places where a dragged window can be dropped.

use vstd::prelude::*;

use id_tree::{NodeId, Tree};

use crate::actions::{Direction, FocusDirection};
use crate::balance::lemma_sound;
use crate::classic::lemma_child;
use crate::columns::ColumnDropTarget;
use crate::copies::node_by_key;
use crate::data::Data;
use crate::focus::FocusResult;
use crate::geometry::{Orientation, Rectangle};
use crate::moves::{leading, leads};
use crate::tree::{child_ids, get_node, model, preorder_ids, visits, TreeModel, TreeNode};

verus! {

/// A place where a dragged window can be dropped. Nodes go by their keys.
#[derive(Clone, Copy, Debug, PartialEq, Eq, Structural)]
pub enum TargetZone {
    /// An empty workspace.
    Initial,
    /// Where the window was taken from.
    InitialPlaceholder(u64),
    /// On top of another window, to be stacked with it.
    WindowStack(u64, Rectangle),
    /// Next to another window.
    WindowSplit(u64, Direction),
    /// At an edge of a group.
    GroupEdge(u64, Direction),
    /// Behind a child of a group.
    GroupInterior(u64, usize),
}

impl TargetZone {
    /// Whether the place is on a window.
    pub open spec fn on_window(self) -> bool {
        self is WindowStack || self is WindowSplit
    }

    /// Whether the place is on a window.
    pub fn is_window_zone(&self) -> (yes: bool)
        ensures
            yes == self.on_window(),
    {
        match self {
            TargetZone::WindowStack(..) | TargetZone::WindowSplit(..) => true,
            _ => false,
        }
    }
}

impl TreeModel {
    /// The key of the first tile among these nodes, or of the last one.
    pub open spec fn boundary_among(self, order: Seq<NodeId>, first: bool) -> Option<u64> {
        let tiles = self.tile_keys(order);
        if tiles.len() == 0 {
            None
        } else if first {
            Some(tiles[0])
        } else {
            Some(tiles.last())
        }
    }

    /// Whether `order` visits a node and all below it, and `tile` is the first tile there, or
    /// the last one.
    pub open spec fn ends_with(self, id: NodeId, order: Seq<NodeId>, first: bool, tile: Option<u64>) -> bool {
        visits(self.nodes, seq![id], order) && tile == self.boundary_among(order, first)
    }

    /// Whether this is the first tile in a node and below it, or the last one.
    pub open spec fn boundary_of(self, id: NodeId, first: bool, tile: Option<u64>) -> bool {
        exists|order: Seq<NodeId>| #[trigger] self.ends_with(id, order, first, tile)
    }

    /// Whether this is the first tile in a node and below it, or the last one, if there is
    /// such a node.
    pub open spec fn boundary_tile(self, node: Option<NodeId>, first: bool, tile: Option<u64>) -> bool {
        match node {
            Some(id) => self.boundary_of(id, first, tile),
            None => tile is None,
        }
    }

    /// The node with this key, if there is one.
    pub open spec fn found(self, key: u64) -> Option<NodeId> {
        if self.has_key(key) {
            Some(self.node_keyed(key))
        } else {
            None
        }
    }

    /// The child of a node at this place, if there is one.
    pub open spec fn nth_child(self, node: NodeId, index: int) -> Option<NodeId> {
        if 0 <= index < self.children(node).len() {
            Some(self.children(node)[index])
        } else {
            None
        }
    }

    /// Whether a drop at this place goes to `target` on the scrolling strip.
    pub open spec fn drops_to(self, zone: Option<TargetZone>, target: ColumnDropTarget) -> bool {
        match zone {
            None => target is Original,
            Some(TargetZone::InitialPlaceholder(_)) => target is Original,
            Some(TargetZone::Initial) => target is Last,
            Some(TargetZone::WindowStack(_, _)) => target is Discard,
            Some(TargetZone::WindowSplit(key, direction)) => target == match direction {
                Direction::Left => ColumnDropTarget::Before(key),
                Direction::Right => ColumnDropTarget::After(key),
                Direction::Up => ColumnDropTarget::Above(key),
                Direction::Down => ColumnDropTarget::Below(key),
            },
            Some(TargetZone::GroupEdge(key, direction)) => exists|tile: Option<u64>| #[trigger]
                self.boundary_tile(self.found(key), leading(direction), tile) && target == edge_target(direction, tile),
            Some(TargetZone::GroupInterior(key, index)) => match self.found(key) {
                None => target is Last,
                Some(group) => if !(self.data(group) is Group) {
                    target is Last
                } else {
                    exists|previous: Option<u64>, next: Option<u64>|
                        #![trigger self.boundary_tile(self.nth_child(group, index as int), false, previous), self.boundary_tile(self.nth_child(group, index + 1), true, next)]
                        self.boundary_tile(self.nth_child(group, index as int), false, previous)
                            && self.boundary_tile(self.nth_child(group, index + 1), true, next)
                            && target == interior_target(
                            self.data(group).spec_orientation(),
                            previous,
                            next,
                        )
                },
            },
        }
    }
}

/// Where a drop at an edge of a group goes: next to the tile at this edge, or to the end of the
/// strip.
pub open spec fn edge_target(direction: Direction, tile: Option<u64>) -> ColumnDropTarget {
    match tile {
        Some(key) => match direction {
            Direction::Left => ColumnDropTarget::Before(key),
            Direction::Right => ColumnDropTarget::After(key),
            Direction::Up => ColumnDropTarget::Above(key),
            Direction::Down => ColumnDropTarget::Below(key),
        },
        None => match direction {
            Direction::Left | Direction::Up => ColumnDropTarget::First,
            Direction::Right | Direction::Down => ColumnDropTarget::Last,
        },
    }
}

/// Where a drop between two children of a group goes: behind the first one's last tile, or else
/// before the second one's first tile.
pub open spec fn interior_target(
    orientation: Orientation,
    previous: Option<u64>,
    next: Option<u64>,
) -> ColumnDropTarget {
    match (previous, next) {
        (Some(key), _) => if orientation is Vertical {
            ColumnDropTarget::After(key)
        } else {
            ColumnDropTarget::Below(key)
        },
        (None, Some(key)) => if orientation is Vertical {
            ColumnDropTarget::Before(key)
        } else {
            ColumnDropTarget::Above(key)
        },
        (None, None) => ColumnDropTarget::Last,
    }
}

/// The first tile in a node and below it, or the last one.
fn boundary_tile(tree: &Tree<TreeNode>, node: &NodeId, first: bool) -> (tile: Option<u64>)
    requires
        model(*tree).settled(),
        model(*tree).has(*node),
    ensures
        model(*tree).boundary_tile(Some(*node), first, tile),
{
    let ghost shape = model(*tree);
    proof {
        lemma_sound(shape);
    }
    let order: Vec<NodeId> = preorder_ids(tree, node);
    assert forall|i: int| 0 <= i < order@.len() implies shape.has(#[trigger] order@[i]) by {
        assert(order@.contains(order@[i]));
    }
    let keys: Vec<u64> = crate::placement::tile_keys(tree, &order);
    let tile: Option<u64> = if keys.len() == 0 {
        None
    } else if first {
        Some(keys[0])
    } else {
        Some(keys[keys.len() - 1])
    };
    assert(shape.ends_with(*node, order@, first, tile));
    assert(shape.boundary_of(*node, first, tile));
    tile
}

/// The boundary tile of the child of a group at this place.
fn child_boundary(tree: &Tree<TreeNode>, group: &NodeId, index: Option<usize>, first: bool) -> (tile: Option<
    u64,
>)
    requires
        model(*tree).settled(),
        model(*tree).has(*group),
    ensures
        match index {
            Some(index) => model(*tree).boundary_tile(
                model(*tree).nth_child(*group, index as int),
                first,
                tile,
            ),
            None => tile is None,
        },
{
    let ghost shape = model(*tree);
    proof {
        lemma_sound(shape);
    }
    let children: Vec<NodeId> = child_ids(tree, group);
    match index {
        Some(index) => if index < children.len() {
            proof {
                lemma_child(shape, *group, index as int);
            }
            boundary_tile(tree, &children[index], first)
        } else {
            None
        },
        None => None,
    }
}

/// Where a drop at this place goes on the scrolling strip.
pub fn scrolling_drop_target(tree: &Tree<TreeNode>, zone: Option<TargetZone>) -> (target:
    ColumnDropTarget)
    requires
        model(*tree).settled(),
        model(*tree).keyed(),
    ensures
        model(*tree).drops_to(zone, target),
{
    let ghost shape = model(*tree);
    proof {
        lemma_sound(shape);
    }
    match zone {
        None => ColumnDropTarget::Original,
        Some(TargetZone::InitialPlaceholder(_)) => ColumnDropTarget::Original,
        Some(TargetZone::Initial) => ColumnDropTarget::Last,
        Some(TargetZone::WindowStack(_, _)) => ColumnDropTarget::Discard,
        Some(TargetZone::WindowSplit(key, direction)) => match direction {
            Direction::Left => ColumnDropTarget::Before(key),
            Direction::Right => ColumnDropTarget::After(key),
            Direction::Up => ColumnDropTarget::Above(key),
            Direction::Down => ColumnDropTarget::Below(key),
        },
        Some(TargetZone::GroupEdge(key, direction)) => {
            let first: bool = leads(direction);
            let tile: Option<u64> = match node_by_key(tree, key) {
                Some(node) => boundary_tile(tree, &node, first),
                None => None,
            };
            assert(shape.boundary_tile(shape.found(key), leading(direction), tile));
            match tile {
                Some(tile) => match direction {
                    Direction::Left => ColumnDropTarget::Before(tile),
                    Direction::Right => ColumnDropTarget::After(tile),
                    Direction::Up => ColumnDropTarget::Above(tile),
                    Direction::Down => ColumnDropTarget::Below(tile),
                },
                None => if first {
                    ColumnDropTarget::First
                } else {
                    ColumnDropTarget::Last
                },
            }
        },
        Some(TargetZone::GroupInterior(key, index)) => {
            let group: NodeId = match node_by_key(tree, key) {
                Some(group) => group,
                None => {
                    return ColumnDropTarget::Last;
                },
            };
            let orientation: Orientation = match get_node(tree, &group) {
                Some(node) => match &node.data {
                    Data::Group { orientation, .. } => *orientation,
                    _ => {
                        return ColumnDropTarget::Last;
                    },
                },
                None => {
                    return ColumnDropTarget::Last;
                },
            };
            let previous: Option<u64> = child_boundary(tree, &group, Some(index), false);
            let children: Vec<NodeId> = child_ids(tree, &group);
            let behind: Option<usize> = if index < children.len() {
                Some(index + 1)
            } else {
                None
            };
            let next: Option<u64> = child_boundary(tree, &group, behind, true);
            assert(shape.boundary_tile(shape.nth_child(group, index as int), false, previous));
            assert(shape.boundary_tile(shape.nth_child(group, index + 1), true, next));
            let vertical: bool = match orientation {
                Orientation::Vertical => true,
                Orientation::Horizontal => false,
            };
            match (previous, next) {
                (Some(tile), _) => if vertical {
                    ColumnDropTarget::After(tile)
                } else {
                    ColumnDropTarget::Below(tile)
                },
                (None, Some(tile)) => if vertical {
                    ColumnDropTarget::Before(tile)
                } else {
                    ColumnDropTarget::Above(tile)
                },
                (None, None) => ColumnDropTarget::Last,
            }
        },
    }
}

/// What becomes of a focus that reached the end of the scrolling strip: another workspace may
/// lie above or below.
pub fn scrolling_edge_focus_result(direction: FocusDirection) -> (result: FocusResult)
    ensures
        result@ == if direction is Up || direction is Down {
            crate::focus::FocusView::Unhandled
        } else {
            crate::focus::FocusView::Handled
        },
{
    match direction {
        FocusDirection::Up | FocusDirection::Down => FocusResult::Unhandled,
        _ => FocusResult::Handled,
    }
}

} // verus!
