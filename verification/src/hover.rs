//! Where a dragged window is: the place under the pointer that it could be dropped at, and what
//! the layout shows of it.

use vstd::prelude::*;

use id_tree::{NodeId, Tree};

use crate::actions::Direction;
use crate::balance::lemma_sound;
use crate::classic::{lemma_empty, Configure};
use crate::config::TilingEngine;
use crate::copies::{law_copies_are_alike, node_by_key};
use crate::data::{Data, DataView, PillIndicator, PlaceholderType};
use crate::geometry::{add_saturating, minus, plus, sub_saturating, Orientation, Point, Rectangle};
use crate::dragging::zone_of;
use crate::drops::{drop_beside, lemma_alike_settled, remove_node};
use crate::graft::lemma_visits_parent;
use crate::groupview::{geometries_for_groupview, GroupView, NodeArea, Overview};
use crate::keys::KeySource;
use crate::layout::{Hover, LayoutView, TilingLayout};
use crate::mapping::lemma_higher;
use crate::placement::all_nodes;
use crate::queue::{
    EasedArea, ANIMATION_DURATION, INITIAL_MOUSE_ANIMATION_DELAY, MOUSE_ANIMATION_DELAY,
};
use crate::reshape::lemma_added_keys;
use crate::surgery::{lemma_keeps_keys, lemma_rooted_well};
use crate::tree::{
    child_ids, copy_id, get_node, get_node_mut, insert_root, model, parent_id, preorder_ids,
    root_id, visits, NodeView, TreeModel, TreeNode,
};
use crate::units::{round_div, round_ratio, Float64, SUBPIXEL};
use crate::zones::TargetZone;

verus! {

/// How close to an edge of a group the pointer is at the edge, in pixels.
pub const EDGE_REACH: i32 = 32;

/// How close to an edge of a group the pointer stays at the edge, in pixels.
pub const EDGE_HOLD: i32 = 80;

/// A position of the pointer.
#[derive(Clone, Copy, Debug, PartialEq, Eq, Structural)]
pub struct PointerPosition {
    pub x: Float64,
    pub y: Float64,
}

/// A coordinate in subpixels, no farther away than any screen reaches.
pub open spec fn nearby(coordinate: Float64) -> int {
    let subpixels = if coordinate.finite() {
        coordinate.spec_subpixels()
    } else {
        coordinate.spec_pixel() * SUBPIXEL
    };
    if subpixels > 0x1000_0000_0000_0000 {
        0x1000_0000_0000_0000
    } else if subpixels < -0x1000_0000_0000_0000 {
        -0x1000_0000_0000_0000
    } else {
        subpixels
    }
}

/// Whether a coordinate is not a number.
pub open spec fn no_number(coordinate: Float64) -> bool {
    !coordinate.finite() && coordinate.fraction_field() != 0
}

impl PointerPosition {
    /// The pixel that the pointer is on.
    pub open spec fn spec_pixel(self) -> Point {
        Point { x: self.x.spec_pixel() as i32, y: self.y.spec_pixel() as i32 }
    }

    /// The pixel that the pointer is on.
    pub fn pixel(self) -> (pixel: Point)
        ensures
            pixel == self.spec_pixel(),
    {
        Point { x: self.x.pixel(), y: self.y.pixel() }
    }
}

/// A coordinate in subpixels, no farther away than any screen reaches.
fn to_nearby(coordinate: Float64) -> (subpixels: i128)
    ensures
        subpixels == nearby(coordinate),
        -0x1000_0000_0000_0000 <= subpixels <= 0x1000_0000_0000_0000,
{
    let subpixels: i128 = if coordinate.is_finite() {
        coordinate.subpixels()
    } else {
        coordinate.pixel() as i128 * SUBPIXEL
    };
    if subpixels > 0x1000_0000_0000_0000 {
        0x1000_0000_0000_0000
    } else if subpixels < -0x1000_0000_0000_0000 {
        -0x1000_0000_0000_0000
    } else {
        subpixels
    }
}

/// Whether a coordinate is not a number.
fn is_no_number(coordinate: Float64) -> (yes: bool)
    ensures
        yes == no_number(coordinate),
{
    !coordinate.is_finite() && coordinate.bits % 0x10_0000_0000_0000 != 0
}

/// Whether a distance from the start of something is in its first half, and the distance to the
/// nearer end, all in subpixels.
pub open spec fn nearer_end(offset: int, length: int) -> (bool, int) {
    if 2 * offset < length * SUBPIXEL {
        (true, offset)
    } else {
        (false, length * SUBPIXEL - offset)
    }
}

impl Rectangle {
    /// The side that a position is nearest to, relative to the size of the area.
    pub open spec fn nearest_side(self, position: PointerPosition) -> Direction {
        let (left, across) = nearer_end(
            nearby(position.x) - self.loc.x * SUBPIXEL,
            self.size.w as int,
        );
        let (up, along) = nearer_end(
            nearby(position.y) - self.loc.y * SUBPIXEL,
            self.size.h as int,
        );
        let beside = if left && !no_number(position.x) {
            Direction::Left
        } else {
            Direction::Right
        };
        let stacked = if up && !no_number(position.y) {
            Direction::Up
        } else {
            Direction::Down
        };
        if !no_number(position.x) && !no_number(position.y) && across * self.size.h < along
            * self.size.w {
            beside
        } else {
            stacked
        }
    }

    /// The third of an area in its middle.
    pub open spec fn middle(self) -> Rectangle {
        let w = round_ratio(self.size.w as int, 3);
        let h = round_ratio(self.size.h as int, 3);
        Rectangle::of(plus(self.loc.x as int, w), plus(self.loc.y as int, h), w as i32, h as i32)
    }

    /// The side that a position is nearest to, relative to the size of the area.
    fn side_near(self, position: PointerPosition) -> (side: Direction)
        ensures
            side == self.nearest_side(position),
    {
        let x: i128 = to_nearby(position.x) - self.loc.x as i128 * SUBPIXEL;
        let y: i128 = to_nearby(position.y) - self.loc.y as i128 * SUBPIXEL;
        let w: i128 = self.size.w as i128;
        let h: i128 = self.size.h as i128;
        let no_x: bool = is_no_number(position.x);
        let no_y: bool = is_no_number(position.y);
        let left: bool = 2 * x < w * SUBPIXEL;
        let across: i128 = if left {
            x
        } else {
            w * SUBPIXEL - x
        };
        let up: bool = 2 * y < h * SUBPIXEL;
        let along: i128 = if up {
            y
        } else {
            h * SUBPIXEL - y
        };
        let beside: Direction = if left && !no_x {
            Direction::Left
        } else {
            Direction::Right
        };
        let stacked: Direction = if up && !no_y {
            Direction::Up
        } else {
            Direction::Down
        };
        assert(-0x1_0000_0000_0000_0000_0000_0000_0000 <= across * h
            <= 0x1_0000_0000_0000_0000_0000_0000_0000) by (nonlinear_arith)
            requires
                -0x2000_0000_0000_0000 <= across <= 0x2000_0000_0000_0000,
                -0x8000_0000 <= h <= 0x8000_0000,
        ;
        assert(-0x1_0000_0000_0000_0000_0000_0000_0000 <= along * w
            <= 0x1_0000_0000_0000_0000_0000_0000_0000) by (nonlinear_arith)
            requires
                -0x2000_0000_0000_0000 <= along <= 0x2000_0000_0000_0000,
                -0x8000_0000 <= w <= 0x8000_0000,
        ;
        if !no_x && !no_y && across * h < along * w {
            beside
        } else {
            stacked
        }
    }

    /// The third of an area in its middle.
    fn middle_part(self) -> (area: Rectangle)
        ensures
            area == self.middle(),
    {
        let w: i32 = round_div(self.size.w as i128, 3) as i32;
        let h: i32 = round_div(self.size.h as i128, 3) as i32;
        Rectangle::new(add_saturating(self.loc.x, w), add_saturating(self.loc.y, h), w, h)
    }
}

/// How far an edge of a group reaches in.
pub open spec fn reach(key: u64, direction: Direction, hovered: Option<TargetZone>) -> i32 {
    if hovered == Some(TargetZone::GroupEdge(key, direction)) {
        EDGE_HOLD
    } else {
        EDGE_REACH
    }
}

/// The parts of a group at its edges: the left one, the right one, the upper and the lower one.
pub open spec fn edges(key: u64, area: Rectangle, hovered: Option<TargetZone>) -> (
    Rectangle,
    Rectangle,
    Rectangle,
    Rectangle,
) {
    let l = reach(key, Direction::Left, hovered);
    let t = reach(key, Direction::Up, hovered);
    let r = reach(key, Direction::Right, hovered);
    let b = reach(key, Direction::Down, hovered);
    let left = Rectangle::of(area.loc.x, area.loc.y, l, area.size.h);
    let x = plus(area.loc.x as int, l as int);
    let narrower = minus(area.size.w as int, l as int);
    let top = Rectangle::of(x, area.loc.y, narrower, t);
    let y = plus(area.loc.y as int, t as int);
    let lower = minus(area.size.h as int, t as int);
    let right = Rectangle::of(
        minus(plus(x as int, narrower as int) as int, r as int),
        y,
        r,
        lower,
    );
    let bottom = Rectangle::of(
        x,
        minus(plus(y as int, lower as int) as int, b as int),
        minus(narrower as int, r as int),
        b,
    );
    (left, right, top, bottom)
}

/// The edge of a group that a pixel is at.
pub open spec fn edge_at(key: u64, area: Rectangle, pixel: Point, hovered: Option<TargetZone>) -> Option<Direction> {
    let (left, right, top, bottom) = edges(key, area, hovered);
    if left.holds(pixel) {
        Some(Direction::Left)
    } else if right.holds(pixel) {
        Some(Direction::Right)
    } else if top.holds(pixel) {
        Some(Direction::Up)
    } else if bottom.holds(pixel) {
        Some(Direction::Down)
    } else {
        None
    }
}

/// How far an edge of a group reaches in.
fn reach_of(key: u64, direction: Direction, hovered: Option<TargetZone>) -> (reach_in: i32)
    ensures
        reach_in == reach(key, direction, hovered),
{
    match hovered {
        Some(zone) => if zone == TargetZone::GroupEdge(key, direction) {
            EDGE_HOLD
        } else {
            EDGE_REACH
        },
        None => EDGE_REACH,
    }
}

/// The edge of a group that a pixel is at.
fn find_edge(key: u64, area: Rectangle, pixel: Point, hovered: Option<TargetZone>) -> (edge: Option<
    Direction,
>)
    ensures
        edge == edge_at(key, area, pixel, hovered),
{
    let l: i32 = reach_of(key, Direction::Left, hovered);
    let t: i32 = reach_of(key, Direction::Up, hovered);
    let r: i32 = reach_of(key, Direction::Right, hovered);
    let b: i32 = reach_of(key, Direction::Down, hovered);
    let left: Rectangle = Rectangle::new(area.loc.x, area.loc.y, l, area.size.h);
    let x: i32 = add_saturating(area.loc.x, l);
    let narrower: i32 = sub_saturating(area.size.w, l);
    let top: Rectangle = Rectangle::new(x, area.loc.y, narrower, t);
    let y: i32 = add_saturating(area.loc.y, t);
    let lower: i32 = sub_saturating(area.size.h, t);
    let right: Rectangle = Rectangle::new(
        sub_saturating(add_saturating(x, narrower), r),
        y,
        r,
        lower,
    );
    let bottom: Rectangle = Rectangle::new(
        x,
        sub_saturating(add_saturating(y, lower), b),
        sub_saturating(narrower, r),
        b,
    );
    if left.contains(pixel) {
        Some(Direction::Left)
    } else if right.contains(pixel) {
        Some(Direction::Right)
    } else if top.contains(pixel) {
        Some(Direction::Up)
    } else if bottom.contains(pixel) {
        Some(Direction::Down)
    } else {
        None
    }
}

/// The area of the node with this key, among the areas from a place on.
pub open spec fn area_from(areas: Seq<NodeArea>, key: u64, from: int) -> Option<Rectangle>
    decreases areas.len() - from,
{
    if from < 0 || from >= areas.len() {
        None
    } else if areas[from].key == key {
        Some(areas[from].geometry)
    } else {
        area_from(areas, key, from + 1)
    }
}

/// The area of the node with this key.
pub(crate) fn area_keyed(areas: &Vec<NodeArea>, key: u64) -> (area: Option<Rectangle>)
    ensures
        area == area_from(areas@, key, 0),
{
    let mut i: usize = 0;
    while i < areas.len()
        invariant
            i <= areas@.len(),
            area_from(areas@, key, 0) == area_from(areas@, key, i as int),
        decreases areas@.len() - i,
    {
        if areas[i].key == key {
            return Some(areas[i].geometry);
        }
        i += 1;
    }
    None
}

/// The place on a window, or on a group that keeps room for something to be dropped.
pub open spec fn window_zone(
    window: u64,
    area: Rectangle,
    position: PointerPosition,
) -> TargetZone {
    if area.middle().holds(position.spec_pixel()) {
        TargetZone::WindowStack(window, area)
    } else {
        TargetZone::WindowSplit(window, area.nearest_side(position))
    }
}

impl TreeModel {
    /// Whether a node keeps room for something to be dropped.
    pub open spec fn is_drop_zone(self, id: NodeId) -> bool {
        self.data(id) matches DataView::Placeholder { type_, .. } && type_ is DropZone
    }

    /// Whether one of these nodes keeps room for something to be dropped, and the first of them.
    pub open spec fn drop_zone_among(self, nodes: Seq<NodeId>) -> Option<NodeId>
        decreases nodes.len(),
    {
        if nodes.len() == 0 {
            None
        } else {
            match self.drop_zone_among(nodes.drop_last()) {
                Some(id) => Some(id),
                None => if self.is_drop_zone(nodes.last()) {
                    Some(nodes.last())
                } else {
                    None
                },
            }
        }
    }

    /// The first window among these nodes.
    pub open spec fn window_among(self, nodes: Seq<NodeId>) -> Option<NodeId>
        decreases nodes.len(),
    {
        if nodes.len() == 0 {
            None
        } else {
            match self.window_among(nodes.drop_last()) {
                Some(id) => Some(id),
                None => if self.data(nodes.last()) is Mapped {
                    Some(nodes.last())
                } else {
                    None
                },
            }
        }
    }

    /// Whether a pixel is in the area of a node.
    pub open spec fn is_at(self, id: NodeId, areas: Seq<NodeArea>, pixel: Point) -> bool {
        area_from(areas, self.key(id), 0) matches Some(area) && area.holds(pixel)
    }

    /// The first of these nodes that a pixel is in the area of.
    pub open spec fn at_among(self, nodes: Seq<NodeId>, areas: Seq<NodeArea>, pixel: Point) -> Option<NodeId>
        decreases nodes.len(),
    {
        if nodes.len() == 0 {
            None
        } else {
            match self.at_among(nodes.drop_last(), areas, pixel) {
                Some(id) => Some(id),
                None => if self.is_at(nodes.last(), areas, pixel) {
                    Some(nodes.last())
                } else {
                    None
                },
            }
        }
    }

    /// The place of the first of these nodes that lies behind a pixel.
    pub open spec fn behind_among(
        self,
        nodes: Seq<NodeId>,
        orientation: Orientation,
        areas: Seq<NodeArea>,
        pixel: Point,
    ) -> Option<int>
        decreases nodes.len(),
    {
        if nodes.len() == 0 {
            None
        } else {
            match self.behind_among(nodes.drop_last(), orientation, areas, pixel) {
                Some(place) => Some(place),
                None => if self.is_behind(nodes.last(), orientation, areas, pixel) {
                    Some(nodes.len() - 1)
                } else {
                    None
                },
            }
        }
    }

    /// Whether a node lies behind a pixel.
    pub open spec fn is_behind(
        self,
        id: NodeId,
        orientation: Orientation,
        areas: Seq<NodeArea>,
        pixel: Point,
    ) -> bool {
        match area_from(areas, self.key(id), 0) {
            Some(area) => match orientation {
                Orientation::Vertical => pixel.x < area.loc.x,
                Orientation::Horizontal => pixel.y < area.loc.y,
            },
            None => false,
        }
    }

    /// Whether a group keeps room among its children for something to be dropped.
    pub open spec fn keeps_room(self, id: NodeId) -> bool {
        self.drop_zone_among(self.children(id)) is Some
    }

    /// The child under a pixel, of a group without room for something to be dropped.
    pub open spec fn next_under(self, id: NodeId, areas: Seq<NodeArea>, pixel: Point) -> Option<NodeId> {
        if self.data(id) is Group && !self.keeps_room(id) {
            self.at_among(self.children(id), areas, pixel)
        } else {
            None
        }
    }

    /// Whether `path` leads from a node to the innermost one under a pixel.
    pub open spec fn descends(self, path: Seq<NodeId>, top: NodeId, areas: Seq<NodeArea>, pixel: Point) -> bool {
        &&& path.len() > 0
        &&& path[0] == top
        &&& forall|k: int|
            0 <= k < path.len() - 1 ==> self.next_under(#[trigger] path[k], areas, pixel) == Some(
                path[k + 1],
            )
        &&& self.next_under(path.last(), areas, pixel) is None
    }

    /// Whether `found` is the innermost node under a pixel, from `top` on.
    pub open spec fn innermost(self, found: NodeId, top: NodeId, areas: Seq<NodeArea>, pixel: Point) -> bool {
        exists|path: Seq<NodeId>| #[trigger]
            self.descends(path, top, areas, pixel) && path.last() == found
    }

    /// The place between the children of a group.
    pub open spec fn interior_index(self, id: NodeId, areas: Seq<NodeArea>, pixel: Point) -> int {
        match self.behind_among(
            self.children(id),
            self.data(id).spec_orientation(),
            areas,
            pixel,
        ) {
            Some(place) => if place > 0 {
                place - 1
            } else {
                0
            },
            None => 0,
        }
    }

    /// The place that a pointer is at, in a node.
    pub open spec fn zone_in(
        self,
        id: NodeId,
        areas: Seq<NodeArea>,
        position: PointerPosition,
        hovered: Option<TargetZone>,
    ) -> TargetZone {
        let key = self.key(id);
        let area = area_from(areas, key, 0)->0;
        let pixel = position.spec_pixel();
        match self.data(id) {
            DataView::Group { .. } => if self.keeps_room(id) {
                window_zone(self.key(self.window_among(self.children(id))->0), area, position)
            } else {
                match edge_at(key, area, pixel, hovered) {
                    Some(direction) => TargetZone::GroupEdge(key, direction),
                    None => TargetZone::GroupInterior(
                        key,
                        self.interior_index(id, areas, pixel) as usize,
                    ),
                }
            },
            DataView::Placeholder { .. } => TargetZone::InitialPlaceholder(key),
            DataView::Mapped { .. } => window_zone(key, area, position),
        }
    }

    /// Whether `target` is the place that a pointer is at, in one of the nodes from `top` on.
    pub open spec fn zone_from(
        self,
        top: NodeId,
        areas: Seq<NodeArea>,
        position: PointerPosition,
        hovered: Option<TargetZone>,
        target: Option<TargetZone>,
    ) -> bool {
        if self.is_at(top, areas, position.spec_pixel()) {
            exists|found: NodeId| #[trigger]
                self.innermost(found, top, areas, position.spec_pixel()) && target == Some(
                    self.zone_in(found, areas, position, hovered),
                )
        } else {
            target is None
        }
    }

    /// Whether a window stands in every group that keeps room for something to be dropped.
    pub open spec fn room_beside_windows(self) -> bool {
        forall|id: NodeId| #[trigger]
            self.has(id) && self.data(id) is Group && self.keeps_room(id) ==> self.window_among(
                self.children(id),
            ) is Some
    }
}

/// The first node among these that keeps room for something to be dropped.
fn find_drop_zone(tree: &Tree<TreeNode>, nodes: &Vec<NodeId>) -> (found: Option<NodeId>)
    requires
        forall|k: int| 0 <= k < nodes@.len() ==> model(*tree).has(#[trigger] nodes@[k]),
    ensures
        found == model(*tree).drop_zone_among(nodes@),
        found matches Some(id) ==> model(*tree).has(id),
{
    let ghost shape = model(*tree);
    let mut i: usize = 0;
    assert(nodes@.take(0) =~= seq![]);
    while i < nodes.len()
        invariant
            i <= nodes@.len(),
            shape == model(*tree),
            forall|k: int| 0 <= k < nodes@.len() ==> shape.has(#[trigger] nodes@[k]),
            shape.drop_zone_among(nodes@.take(i as int)) is None,
        decreases nodes@.len() - i,
    {
        assert(nodes@.take(i + 1).drop_last() =~= nodes@.take(i as int));
        assert(shape.has(nodes@[i as int]));
        let hit: bool = match get_node(tree, &nodes[i]) {
            Some(node) => match &node.data {
                Data::Placeholder { type_, .. } => *type_ == PlaceholderType::DropZone,
                _ => false,
            },
            None => false,
        };
        if hit {
            proof {
                lemma_first_drop_zone(shape, nodes@, i + 1);
            }
            return Some(copy_id(&nodes[i]));
        }
        i += 1;
    }
    assert(nodes@.take(i as int) =~= nodes@);
    None
}

/// What is found among the first nodes is found among all.
proof fn lemma_first_drop_zone(tree: TreeModel, nodes: Seq<NodeId>, count: int)
    requires
        0 <= count <= nodes.len(),
        tree.drop_zone_among(nodes.take(count)) is Some,
    ensures
        tree.drop_zone_among(nodes) == tree.drop_zone_among(nodes.take(count)),
    decreases nodes.len(),
{
    if count == nodes.len() {
        assert(nodes.take(count) =~= nodes);
    } else {
        assert(nodes.drop_last().take(count) =~= nodes.take(count));
        lemma_first_drop_zone(tree, nodes.drop_last(), count);
    }
}

/// What is found among the first nodes is found among all.
proof fn lemma_first_window(tree: TreeModel, nodes: Seq<NodeId>, count: int)
    requires
        0 <= count <= nodes.len(),
        tree.window_among(nodes.take(count)) is Some,
    ensures
        tree.window_among(nodes) == tree.window_among(nodes.take(count)),
    decreases nodes.len(),
{
    if count == nodes.len() {
        assert(nodes.take(count) =~= nodes);
    } else {
        assert(nodes.drop_last().take(count) =~= nodes.take(count));
        lemma_first_window(tree, nodes.drop_last(), count);
    }
}

/// What is found among the first nodes is found among all.
proof fn lemma_first_at(
    tree: TreeModel,
    nodes: Seq<NodeId>,
    areas: Seq<NodeArea>,
    pixel: Point,
    count: int,
)
    requires
        0 <= count <= nodes.len(),
        tree.at_among(nodes.take(count), areas, pixel) is Some,
    ensures
        tree.at_among(nodes, areas, pixel) == tree.at_among(nodes.take(count), areas, pixel),
    decreases nodes.len(),
{
    if count == nodes.len() {
        assert(nodes.take(count) =~= nodes);
    } else {
        assert(nodes.drop_last().take(count) =~= nodes.take(count));
        lemma_first_at(tree, nodes.drop_last(), areas, pixel, count);
    }
}

/// What is found among the first nodes is found among all.
proof fn lemma_first_behind(
    tree: TreeModel,
    nodes: Seq<NodeId>,
    orientation: Orientation,
    areas: Seq<NodeArea>,
    pixel: Point,
    count: int,
)
    requires
        0 <= count <= nodes.len(),
        tree.behind_among(nodes.take(count), orientation, areas, pixel) is Some,
    ensures
        tree.behind_among(nodes, orientation, areas, pixel) == tree.behind_among(
            nodes.take(count),
            orientation,
            areas,
            pixel,
        ),
    decreases nodes.len(),
{
    if count == nodes.len() {
        assert(nodes.take(count) =~= nodes);
    } else {
        assert(nodes.drop_last().take(count) =~= nodes.take(count));
        lemma_first_behind(tree, nodes.drop_last(), orientation, areas, pixel, count);
    }
}

/// The key of the first window among nodes.
fn find_first_window(tree: &Tree<TreeNode>, nodes: &Vec<NodeId>) -> (found: Option<u64>)
    requires
        forall|k: int| 0 <= k < nodes@.len() ==> model(*tree).has(#[trigger] nodes@[k]),
    ensures
        found == match model(*tree).window_among(nodes@) {
            Some(id) => Some(model(*tree).key(id)),
            None => None,
        },
{
    let ghost shape = model(*tree);
    let mut i: usize = 0;
    assert(nodes@.take(0) =~= seq![]);
    while i < nodes.len()
        invariant
            i <= nodes@.len(),
            shape == model(*tree),
            forall|k: int| 0 <= k < nodes@.len() ==> shape.has(#[trigger] nodes@[k]),
            shape.window_among(nodes@.take(i as int)) is None,
        decreases nodes@.len() - i,
    {
        assert(nodes@.take(i + 1).drop_last() =~= nodes@.take(i as int));
        assert(shape.has(nodes@[i as int]));
        match get_node(tree, &nodes[i]) {
            Some(node) => if node.data.is_mapped(None) {
                proof {
                    lemma_first_window(shape, nodes@, i + 1);
                }
                return Some(node.key);
            },
            None => {},
        }
        i += 1;
    }
    assert(nodes@.take(i as int) =~= nodes@);
    None
}

/// Whether a pixel is in the area of a node.
fn is_at(tree: &Tree<TreeNode>, id: &NodeId, areas: &Vec<NodeArea>, pixel: Point) -> (yes: bool)
    requires
        model(*tree).has(*id),
    ensures
        yes == model(*tree).is_at(*id, areas@, pixel),
{
    match get_node(tree, id) {
        Some(node) => match area_keyed(areas, node.key) {
            Some(area) => area.contains(pixel),
            None => false,
        },
        None => false,
    }
}

/// The first node among these that a pixel is in the area of.
fn find_at(tree: &Tree<TreeNode>, nodes: &Vec<NodeId>, areas: &Vec<NodeArea>, pixel: Point) -> (found:
    Option<NodeId>)
    requires
        forall|k: int| 0 <= k < nodes@.len() ==> model(*tree).has(#[trigger] nodes@[k]),
    ensures
        found == model(*tree).at_among(nodes@, areas@, pixel),
        found matches Some(id) ==> nodes@.contains(id) && model(*tree).is_at(id, areas@, pixel),
{
    let ghost shape = model(*tree);
    let mut i: usize = 0;
    assert(nodes@.take(0) =~= seq![]);
    while i < nodes.len()
        invariant
            i <= nodes@.len(),
            shape == model(*tree),
            forall|k: int| 0 <= k < nodes@.len() ==> shape.has(#[trigger] nodes@[k]),
            shape.at_among(nodes@.take(i as int), areas@, pixel) is None,
        decreases nodes@.len() - i,
    {
        assert(nodes@.take(i + 1).drop_last() =~= nodes@.take(i as int));
        assert(shape.has(nodes@[i as int]));
        if is_at(tree, &nodes[i], areas, pixel) {
            proof {
                lemma_first_at(shape, nodes@, areas@, pixel, i + 1);
            }
            return Some(copy_id(&nodes[i]));
        }
        i += 1;
    }
    assert(nodes@.take(i as int) =~= nodes@);
    None
}

/// The place of the first node among these that lies behind a pixel.
fn find_behind(
    tree: &Tree<TreeNode>,
    nodes: &Vec<NodeId>,
    orientation: Orientation,
    areas: &Vec<NodeArea>,
    pixel: Point,
) -> (place: Option<usize>)
    requires
        forall|k: int| 0 <= k < nodes@.len() ==> model(*tree).has(#[trigger] nodes@[k]),
    ensures
        model(*tree).behind_among(nodes@, orientation, areas@, pixel) == match place {
            Some(place) => Some(place as int),
            None => None,
        },
{
    let ghost shape = model(*tree);
    let mut i: usize = 0;
    assert(nodes@.take(0) =~= seq![]);
    while i < nodes.len()
        invariant
            i <= nodes@.len(),
            shape == model(*tree),
            forall|k: int| 0 <= k < nodes@.len() ==> shape.has(#[trigger] nodes@[k]),
            shape.behind_among(nodes@.take(i as int), orientation, areas@, pixel) is None,
        decreases nodes@.len() - i,
    {
        assert(nodes@.take(i + 1).drop_last() =~= nodes@.take(i as int));
        assert(shape.has(nodes@[i as int]));
        let behind: bool = match get_node(tree, &nodes[i]) {
            Some(node) => match area_keyed(areas, node.key) {
                Some(area) => match orientation {
                    Orientation::Vertical => pixel.x < area.loc.x,
                    Orientation::Horizontal => pixel.y < area.loc.y,
                },
                None => false,
            },
            None => false,
        };
        if behind {
            proof {
                lemma_first_behind(shape, nodes@, orientation, areas@, pixel, i + 1);
            }
            return Some(i);
        }
        i += 1;
    }
    assert(nodes@.take(i as int) =~= nodes@);
    None
}

/// The child under a pixel, of a group without room for something to be dropped.
fn find_next(tree: &Tree<TreeNode>, id: &NodeId, areas: &Vec<NodeArea>, pixel: Point) -> (found: Option<
    NodeId,
>)
    requires
        model(*tree).forest(),
        model(*tree).has(*id),
    ensures
        found == model(*tree).next_under(*id, areas@, pixel),
        found matches Some(child) ==> model(*tree).has(child) && model(*tree).parent(child) == Some(
            *id,
        ) && model(*tree).is_at(child, areas@, pixel),
{
    let ghost shape = model(*tree);
    let children: Vec<NodeId> = child_ids(tree, id);
    assert forall|k: int| 0 <= k < children@.len() implies shape.has(#[trigger] children@[k]) by {
        assert(shape.has(shape.children(*id)[k]));
    }
    let group: bool = match get_node(tree, id) {
        Some(node) => node.data.is_group(),
        None => false,
    };
    if !group || find_drop_zone(tree, &children).is_some() {
        return None;
    }
    let found: Option<NodeId> = find_at(tree, &children, areas, pixel);
    proof {
        if found is Some {
            let child = found->0;
            let k = choose|k: int| 0 <= k < children@.len() && children@[k] == child;
            assert(shape.parent(shape.children(*id)[k]) == Some(*id));
        }
    }
    found
}

/// The innermost node under a pixel, from `top` on.
fn find_innermost(tree: &Tree<TreeNode>, top: &NodeId, areas: &Vec<NodeArea>, pixel: Point) -> (found:
    NodeId)
    requires
        model(*tree).forest(),
        model(*tree).has(*top),
        model(*tree).is_at(*top, areas@, pixel),
    ensures
        model(*tree).innermost(found, *top, areas@, pixel),
        model(*tree).has(found),
        model(*tree).is_at(found, areas@, pixel),
{
    let ghost shape = model(*tree);
    let order: Vec<NodeId> = preorder_ids(tree, top);
    let ghost mut place: int = 0;
    let ghost mut path: Seq<NodeId> = seq![*top];
    let mut current: NodeId = copy_id(top);
    loop
        invariant
            shape == model(*tree),
            shape.forest(),
            shape.has(*top),
            visits(shape.nodes, seq![*top], order@),
            order@.no_duplicates(),
            forall|other: NodeId| #[trigger]
                order@.contains(other) == (shape.has(other) && shape.below(other, *top)),
            0 <= place < order@.len(),
            order@[place] == current,
            path.len() > 0,
            path[0] == *top,
            path.last() == current,
            forall|k: int|
                0 <= k < path.len() - 1 ==> shape.next_under(#[trigger] path[k], areas@, pixel)
                    == Some(path[k + 1]),
            shape.has(current),
            shape.is_at(current, areas@, pixel),
        ensures
            shape.next_under(current, areas@, pixel) is None,
        decreases order@.len() - place,
    {
        match find_next(tree, &current, areas, pixel) {
            Some(next) => {
                proof {
                    assert(order@.contains(current));
                    lemma_below_child(shape, next, current, *top);
                    assert(order@.contains(next));
                    let i = choose|i: int| 0 <= i < order@.len() && order@[i] == next;
                    lemma_visits_parent(shape.nodes, seq![*top], order@, i);
                    if seq![*top].contains(next) {
                        lemma_not_above(shape, next, current);
                    }
                    let j = choose|j: int|
                        0 <= j < i && shape.nodes[#[trigger] order@[j]].children.contains(next);
                    assert(order@.contains(order@[j]));
                    let m = choose|m: int|
                        0 <= m < shape.children(order@[j]).len() && shape.children(order@[j])[m]
                            == next;
                    assert(shape.parent(shape.children(order@[j])[m]) == Some(order@[j]));
                    assert(j == place);
                    place = i;
                    let longer = path.push(next);
                    assert forall|k: int| 0 <= k < longer.len() - 1 implies shape.next_under(
                        #[trigger] longer[k],
                        areas@,
                        pixel,
                    ) == Some(longer[k + 1]) by {
                        if k < path.len() - 1 {
                            assert(shape.next_under(path[k], areas@, pixel) == Some(path[k + 1]));
                        }
                    }
                    path = longer;
                }
                current = next;
            },
            None => {
                break;
            },
        }
    }
    assert(shape.descends(path, *top, areas@, pixel));
    current
}

/// A child of something below a node is below it.
pub proof fn lemma_below_child(tree: TreeModel, child: NodeId, id: NodeId, top: NodeId)
    requires
        tree.has(child),
        tree.parent(child) == Some(id),
        tree.below(id, top),
    ensures
        tree.below(child, top),
{
    let steps = choose|steps: nat| #[trigger] tree.ancestor(id, steps) == Some(top);
    assert(tree.ancestor(child, steps + 1) == Some(top));
}

/// Nothing is below its own child.
pub proof fn lemma_not_above(tree: TreeModel, child: NodeId, id: NodeId)
    requires
        tree.forest(),
        tree.has(child),
        tree.has(id),
        tree.parent(child) == Some(id),
    ensures
        !tree.below(id, child),
{
    let rank = choose|rank: Map<NodeId, nat>| tree.ranked(rank);
    if tree.below(id, child) {
        let steps = choose|steps: nat| #[trigger] tree.ancestor(id, steps) == Some(child);
        lemma_rank_falls(tree, rank, id, steps);
        assert(tree.has(child));
    }
}

/// What is above a node is not numbered higher.
proof fn lemma_rank_falls(tree: TreeModel, rank: Map<NodeId, nat>, id: NodeId, steps: nat)
    requires
        tree.forest(),
        tree.ranked(rank),
        tree.has(id),
        tree.ancestor(id, steps) is Some,
    ensures
        rank[tree.ancestor(id, steps)->0] <= rank[id],
    decreases steps,
{
    if steps > 0 {
        assert(tree.has(id));
        lemma_rank_falls(tree, rank, tree.parent(id)->0, (steps - 1) as nat);
    }
}

/// The place on a window.
fn zone_on_window(window: u64, area: Rectangle, position: PointerPosition) -> (zone: TargetZone)
    ensures
        zone == window_zone(window, area, position),
{
    if area.middle_part().contains(position.pixel()) {
        TargetZone::WindowStack(window, area)
    } else {
        TargetZone::WindowSplit(window, area.side_near(position))
    }
}

/// The place that a pointer is at, in a node.
fn find_zone_in(
    tree: &Tree<TreeNode>,
    id: &NodeId,
    areas: &Vec<NodeArea>,
    position: PointerPosition,
    hovered: Option<TargetZone>,
) -> (zone: TargetZone)
    requires
        model(*tree).forest(),
        model(*tree).has(*id),
        model(*tree).is_at(*id, areas@, position.spec_pixel()),
        model(*tree).room_beside_windows(),
    ensures
        zone == model(*tree).zone_in(*id, areas@, position, hovered),
{
    let ghost shape = model(*tree);
    let pixel: Point = position.pixel();
    let children: Vec<NodeId> = child_ids(tree, id);
    assert forall|k: int| 0 <= k < children@.len() implies shape.has(#[trigger] children@[k]) by {
        assert(shape.has(shape.children(*id)[k]));
    }
    match get_node(tree, id) {
        Some(node) => {
            let key: u64 = node.key;
            let area: Rectangle = match area_keyed(areas, key) {
                Some(area) => area,
                None => Rectangle::new(0, 0, 0, 0),
            };
            match &node.data {
                Data::Group { orientation, .. } => if find_drop_zone(tree, &children).is_some() {
                    assert(shape.has(*id) && shape.data(*id) is Group);
                    let window: u64 = match find_first_window(tree, &children) {
                        Some(window) => window,
                        None => key,
                    };
                    zone_on_window(window, area, position)
                } else {
                    match find_edge(key, area, pixel, hovered) {
                        Some(direction) => TargetZone::GroupEdge(key, direction),
                        None => {
                            let index: usize = match find_behind(
                                tree,
                                &children,
                                *orientation,
                                areas,
                                pixel,
                            ) {
                                Some(place) => if place > 0 {
                                    place - 1
                                } else {
                                    0
                                },
                                None => 0,
                            };
                            TargetZone::GroupInterior(key, index)
                        },
                    }
                },
                Data::Placeholder { .. } => TargetZone::InitialPlaceholder(key),
                Data::Mapped { .. } => zone_on_window(key, area, position),
            }
        },
        None => TargetZone::Initial,
    }
}

/// The place that a pointer is at, in one of the nodes from `top` on.
fn find_zone(
    tree: &Tree<TreeNode>,
    top: &NodeId,
    areas: &Vec<NodeArea>,
    position: PointerPosition,
    hovered: Option<TargetZone>,
) -> (target: Option<TargetZone>)
    requires
        model(*tree).forest(),
        model(*tree).has(*top),
        model(*tree).room_beside_windows(),
    ensures
        model(*tree).zone_from(*top, areas@, position, hovered, target),
{
    let pixel: Point = position.pixel();
    if !is_at(tree, top, areas, pixel) {
        return None;
    }
    let found: NodeId = find_innermost(tree, top, areas, pixel);
    let zone: TargetZone = find_zone_in(tree, &found, areas, position, hovered);
    assert(model(*tree).innermost(found, *top, areas@, pixel));
    Some(zone)
}

/// The room that is kept for something to be dropped.
pub open spec fn drop_zone_item(key: u64) -> NodeView {
    NodeView {
        key,
        data: DataView::Placeholder {
            last_geometry: Rectangle::of(0, 0, 100, 100),
            type_: PlaceholderType::DropZone,
        },
    }
}

impl TreeModel {
    /// The tree with a bar in a group, or without one.
    pub open spec fn pilled(self, key: u64, pill: Option<PillIndicator>) -> TreeModel {
        if self.has_group(key) {
            self.with_data(self.node_keyed(key), self.data(self.node_keyed(key)).with_pill(pill))
        } else {
            self
        }
    }

    /// The room that is kept next to a node for something to be dropped.
    pub open spec fn room_near(self, key: u64) -> Option<NodeId> {
        if self.has_key(key) {
            match self.parent(self.node_keyed(key)) {
                Some(parent) => self.drop_zone_among(self.children(parent)),
                None => None,
            }
        } else {
            None
        }
    }

    /// The tree without what shows that something could be dropped at a place.
    pub open spec fn unmarked(self, zone: TargetZone) -> TreeModel {
        match zone {
            TargetZone::InitialPlaceholder(key) => if self.has_key(key) {
                self.unmapped(self.node_keyed(key))
            } else {
                self
            },
            TargetZone::WindowSplit(key, _) => match self.room_near(key) {
                Some(id) => self.unmapped(id),
                None => self,
            },
            TargetZone::GroupEdge(key, _) => self.pilled(key, None),
            TargetZone::GroupInterior(key, _) => self.pilled(key, None),
            _ => self,
        }
    }

    /// Whether something shows in the tree that a window could be dropped at a place.
    pub open spec fn can_mark(self, zone: TargetZone) -> bool {
        match zone {
            TargetZone::WindowSplit(key, _) => self.has_key(key),
            TargetZone::GroupEdge(key, _) => self.has_group(key),
            TargetZone::GroupInterior(key, _) => self.has_group(key),
            _ => false,
        }
    }

    /// Whether `after` is the tree with what shows that something could be dropped at a place.
    /// A new node has the key `base`, and a new group around it the next one.
    pub open spec fn marked(self, after: TreeModel, zone: TargetZone, base: u64) -> bool {
        match zone {
            TargetZone::WindowSplit(key, direction) => if self.has_key(key) {
                exists|id: NodeId| #[trigger]
                    self.dropped_beside(
                        after,
                        id,
                        drop_zone_item(base),
                        self.node_keyed(key),
                        direction,
                        (base + 1) as u64,
                    )
            } else {
                after == self
            },
            TargetZone::GroupEdge(key, direction) => after == self.pilled(
                key,
                Some(PillIndicator::Outer(direction)),
            ),
            TargetZone::GroupInterior(key, index) => after == self.pilled(
                key,
                Some(PillIndicator::Inner(index)),
            ),
            _ => after == self,
        }
    }

    /// The first of these nodes that a dragged window was taken from.
    pub open spec fn grabbed_in(self, order: Seq<NodeId>) -> Option<NodeId>
        decreases order.len(),
    {
        if order.len() == 0 {
            None
        } else {
            match self.grabbed_in(order.drop_last()) {
                Some(id) => Some(id),
                None => if self.is_grabbed(order.last()) {
                    Some(order.last())
                } else {
                    None
                },
            }
        }
    }

    /// Whether a drag starts at this place: where the window was taken from, if that is among
    /// the nodes in `order`.
    pub open spec fn drag_starts_along(self, root: NodeId, order: Seq<NodeId>, zone: TargetZone) -> bool {
        visits(self.nodes, seq![root], order) && zone == match self.grabbed_in(order) {
            Some(id) => TargetZone::InitialPlaceholder(self.key(id)),
            None => TargetZone::Initial,
        }
    }

    /// Whether a drag starts at this place.
    pub open spec fn drag_starts_at(self, root: NodeId, zone: TargetZone) -> bool {
        exists|order: Seq<NodeId>| #[trigger] self.drag_starts_along(root, order, zone)
    }
}

/// Whether a place shows something in the tree while a window could be dropped at it.
pub open spec fn leaves_marks(zone: TargetZone) -> bool {
    zone is InitialPlaceholder || zone is WindowSplit || zone is GroupEdge || zone is GroupInterior
}

/// How long the pointer has to be elsewhere before a place is left, in milliseconds.
pub open spec fn patience(zone: TargetZone) -> u64 {
    if zone is InitialPlaceholder {
        INITIAL_MOUSE_ANIMATION_DELAY
    } else {
        MOUSE_ANIMATION_DELAY
    }
}

/// How long it takes to show another place.
pub open spec fn hover_duration(from: TargetZone, to: TargetZone) -> u64 {
    if to.on_window() && !from.on_window() {
        (2 * ANIMATION_DURATION) as u64
    } else {
        ANIMATION_DURATION
    }
}

/// Whether an overview is shown, whether the pointer opened it, and the room around groups in
/// it.
#[derive(Clone, Copy, Debug, PartialEq, Eq, Structural)]
pub struct OverviewState {
    pub active: bool,
    pub by_pointer: bool,
    pub gap: i32,
}

/// What the windows have to be asked to do, if anything, as the contracts speak of it.
pub open spec fn configures_view(configures: Option<Vec<Configure>>) -> Option<Seq<Configure>> {
    match configures {
        Some(configures) => Some(configures@),
        None => None,
    }
}

impl OverviewState {
    /// The overview that places are looked up in.
    pub open spec fn asked(self) -> Overview {
        Overview {
            gap: self.gap,
            mouse: true,
            drawing: false,
            swap: None,
            stack_zone: None,
        }
    }
}

impl LayoutView {
    /// The layout with another place for a dragged window.
    pub open spec fn with_hover(self, hover: Option<Hover>) -> LayoutView {
        LayoutView { hover, ..self }
    }

    /// Whether `after` is this layout with `tree`: shown at once by the scrolling layout, else
    /// after everything before it.
    pub open spec fn turns_to(
        self,
        after: LayoutView,
        tree: TreeModel,
        duration: u64,
        configures: Seq<Configure>,
    ) -> bool {
        if self.engine is Scrolling {
            self.committed_directly(after, tree, configures)
        } else {
            self.appended(after, tree, duration, configures)
        }
    }

    /// Whether going from one place to another leads to `after`.
    pub open spec fn goes_on(
        self,
        after: LayoutView,
        from: TargetZone,
        to: TargetZone,
        base: u64,
        configures: Option<Seq<Configure>>,
    ) -> bool {
        let there = self.with_hover(Some(Hover { since: None, zone: to }));
        exists|copy: TreeModel, tree: TreeModel|
            self.newest().copied(copy) && #[trigger] copy.unmarked(from).marked(tree, to, base)
                && if leaves_marks(from) || copy.unmarked(from).can_mark(to) {
                configures is Some && there.turns_to(
                    after,
                    tree,
                    hover_duration(from, to),
                    configures->0,
                )
            } else {
                configures is None && after == there
            }
    }

    /// Whether finding the pointer at a place leads to `after`.
    pub open spec fn sees(
        self,
        after: LayoutView,
        root: NodeId,
        target: TargetZone,
        now: u64,
        base: u64,
        configures: Option<Seq<Configure>>,
    ) -> bool {
        match self.hover {
            None => configures is None && exists|zone: TargetZone| #[trigger]
                self.newest().drag_starts_at(root, zone) && after == self.with_hover(
                    Some(Hover { since: None, zone }),
                ),
            Some(hover) => if hover.zone == target {
                configures is None && after == self.with_hover(
                    Some(Hover { since: None, zone: target }),
                )
            } else {
                match hover.since {
                    None => configures is None && after == self.with_hover(
                        Some(Hover { since: Some(now), zone: hover.zone }),
                    ),
                    Some(since) => if now <= since + patience(hover.zone) {
                        configures is None && after == self
                    } else {
                        self.goes_on(after, hover.zone, target, base, configures)
                    },
                }
            },
        }
    }

    /// Whether finding the pointer at a position of a tree that is not empty leads to `after`.
    pub open spec fn looks_up(
        self,
        after: LayoutView,
        root: NodeId,
        position: PointerPosition,
        overview: OverviewState,
        now: u64,
        base: u64,
        configures: Option<Seq<Configure>>,
    ) -> bool {
        exists|view: GroupView, target: Option<TargetZone>|
            self.newest().shows_for(None, self.usable, None, overview.asked(), seq![], view)
                && #[trigger] self.newest().zone_from(
                root,
                view.areas@,
                position,
                zone_of(self.hover),
                target,
            ) && match target {
                Some(target) => self.sees(after, root, target, now, base, configures),
                None => configures is None && after == self,
            }
    }

    /// Whether room for something to be dropped is all that `after` has.
    pub open spec fn makes_room(self, after: LayoutView, base: u64, configures: Seq<Configure>) -> bool {
        exists|copy: TreeModel, id: NodeId|
            self.newest().copied(copy) && !copy.has(id) && self.turns_to(
                after,
                #[trigger] copy.rooted(id, drop_zone_item(base)),
                ANIMATION_DURATION,
                configures,
            )
    }

    /// Whether a pointer at a position leads to `after`. `configures` tells what the windows
    /// have to be asked to do, where the tree changes.
    pub open spec fn hovers(
        self,
        after: LayoutView,
        position: Option<PointerPosition>,
        overview: OverviewState,
        now: u64,
        base: u64,
        configures: Option<Seq<Configure>>,
    ) -> bool {
        match self.newest().root {
            None => if overview.by_pointer && position is Some {
                configures is Some && self.makes_room(after, base, configures->0)
            } else {
                configures is None && after == self
            },
            Some(root) => if !overview.active || position is None {
                configures is None && after == self.with_hover(None)
            } else if !overview.by_pointer {
                configures is None && after == self
            } else {
                self.looks_up(after, root, position->0, overview, now, base, configures)
            },
        }
    }
}

/// Puts a bar into a group, or takes it away. Returns whether there is such a group.
fn set_pill(tree: &mut Tree<TreeNode>, key: u64, pill: Option<PillIndicator>) -> (found: bool)
    requires
        model(*old(tree)).settled(),
        model(*old(tree)).keyed(),
    ensures
        found == model(*old(tree)).has_group(key),
        model(*final(tree)) == model(*old(tree)).pilled(key, pill),
        model(*final(tree)).settled(),
        model(*old(tree)).keeps_keys(model(*final(tree))),
{
    let ghost before = model(*tree);
    assert(before.regular()) by {
        lemma_sound(before);
    }
    proof {
        lemma_same_keys(before);
    }
    match node_by_key(tree, key) {
        Some(id) => {
            assert(before.has(id) && before.key(id) == key);
            let group: bool = match get_node(tree, &id) {
                Some(node) => node.data.is_group(),
                None => false,
            };
            if !group {
                return false;
            }
            proof {
                lemma_alike_settled(before, id, before.data(id).with_pill(pill));
            }
            match get_node_mut(tree, &id) {
                Some(node) => {
                    node.data.set_pill(pill);
                },
                None => {},
            }
            assert(model(*tree) =~~= before.pilled(key, pill));
            true
        },
        None => false,
    }
}

/// A tree has its own keys.
proof fn lemma_same_keys(tree: TreeModel)
    ensures
        tree.keeps_keys(tree),
{
    reveal(TreeModel::keeps_keys);
}

/// Takes away what shows that something could be dropped at a place.
fn clear_zone(tree: &mut Tree<TreeNode>, zone: TargetZone)
    requires
        model(*old(tree)).settled(),
        model(*old(tree)).keyed(),
    ensures
        model(*final(tree)) == model(*old(tree)).unmarked(zone),
        model(*final(tree)).settled(),
        model(*old(tree)).keeps_keys(model(*final(tree))),
{
    let ghost before = model(*tree);
    assert(before.forest() && before.regular()) by {
        lemma_sound(before);
    }
    proof {
        lemma_same_keys(before);
    }
    match zone {
        TargetZone::InitialPlaceholder(key) => match node_by_key(tree, key) {
            Some(id) => {
                assert(before.has(id) && before.key(id) == key);
                remove_node(tree, &id);
            },
            None => {},
        },
        TargetZone::WindowSplit(key, _) => match node_by_key(tree, key) {
            Some(id) => {
                assert(before.has(id) && before.key(id) == key);
                match parent_id(tree, &id) {
                    Some(parent) => {
                        assert(before.has(parent));
                        let children: Vec<NodeId> = child_ids(tree, &parent);
                        assert forall|k: int| 0 <= k < children@.len() implies before.has(
                            #[trigger] children@[k],
                        ) by {
                            assert(before.has(before.children(parent)[k]));
                        }
                        match find_drop_zone(tree, &children) {
                            Some(room) => {
                                remove_node(tree, &room);
                            },
                            None => {},
                        }
                    },
                    None => {},
                }
            },
            None => {},
        },
        TargetZone::GroupEdge(key, _) | TargetZone::GroupInterior(key, _) => {
            let _ = set_pill(tree, key, None);
        },
        _ => {},
    }
}

/// Shows that something could be dropped at a place. Returns whether it shows.
fn mark_zone(tree: &mut Tree<TreeNode>, zone: TargetZone, base: u64) -> (marked: bool)
    requires
        model(*old(tree)).settled(),
        model(*old(tree)).keyed(),
        model(*old(tree)).keys_below(base),
        base + 2 <= u64::MAX,
    ensures
        marked == model(*old(tree)).can_mark(zone),
        model(*old(tree)).marked(model(*final(tree)), zone, base),
        model(*final(tree)).settled(),
        model(*final(tree)).keyed(),
        model(*final(tree)).keys_below((base + 2) as u64),
{
    let ghost before = model(*tree);
    assert(before.forest() && before.regular()) by {
        lemma_sound(before);
    }
    match zone {
        TargetZone::WindowSplit(key, direction) => match node_by_key(tree, key) {
            Some(id) => {
                assert(before.has(id) && before.key(id) == key);
                let node: TreeNode = TreeNode {
                    key: base,
                    data: Data::Placeholder {
                        last_geometry: Rectangle::new(0, 0, 100, 100),
                        type_: PlaceholderType::DropZone,
                    },
                };
                let room: NodeId = drop_beside(tree, node, &id, direction, base + 1);
                proof {
                    reveal(TreeModel::grows_two);
                    assert(!before.has_key(base) && !before.has_key((base + 1) as u64));
                    assert(before.dropped_beside(
                        model(*tree),
                        room,
                        drop_zone_item(base),
                        before.node_keyed(key),
                        direction,
                        (base + 1) as u64,
                    ));
                }
                true
            },
            None => false,
        },
        TargetZone::GroupEdge(key, direction) => {
            let found: bool = set_pill(tree, key, Some(PillIndicator::Outer(direction)));
            proof {
                lemma_keeps_keys(before, model(*tree));
            }
            found
        },
        TargetZone::GroupInterior(key, index) => {
            let found: bool = set_pill(tree, key, Some(PillIndicator::Inner(index)));
            proof {
                lemma_keeps_keys(before, model(*tree));
            }
            found
        },
        _ => false,
    }
}

/// Where a drag starts.
fn find_start(tree: &Tree<TreeNode>, root: &NodeId) -> (zone: TargetZone)
    requires
        model(*tree).forest(),
        model(*tree).has(*root),
    ensures
        model(*tree).drag_starts_at(*root, zone),
{
    let ghost shape = model(*tree);
    let order: Vec<NodeId> = preorder_ids(tree, root);
    assert forall|k: int| 0 <= k < order@.len() implies shape.has(#[trigger] order@[k]) by {
        assert(order@.contains(order@[k]));
    }
    let mut found: Option<u64> = None;
    let mut i: usize = 0;
    assert(order@.take(0) =~= seq![]);
    while i < order.len()
        invariant
            i <= order@.len(),
            shape == model(*tree),
            forall|k: int| 0 <= k < order@.len() ==> shape.has(#[trigger] order@[k]),
            found == match shape.grabbed_in(order@.take(i as int)) {
                Some(id) => Some(shape.key(id)),
                None => None,
            },
        decreases order@.len() - i,
    {
        assert(order@.take(i + 1).drop_last() =~= order@.take(i as int));
        assert(shape.has(order@[i as int]));
        match get_node(tree, &order[i]) {
            Some(node) => {
                let grabbed: bool = match &node.data {
                    Data::Placeholder { type_, .. } => *type_ == PlaceholderType::GrabbedWindow,
                    _ => false,
                };
                if grabbed && found.is_none() {
                    found = Some(node.key);
                }
            },
            None => {},
        }
        i += 1;
    }
    assert(order@.take(i as int) =~= order@);
    let zone: TargetZone = match found {
        Some(key) => TargetZone::InitialPlaceholder(key),
        None => TargetZone::Initial,
    };
    assert(shape.drag_starts_along(*root, order@, zone));
    zone
}

/// A tree of nothing but room for something to be dropped is in order.
proof fn lemma_room(tree: TreeModel, id: NodeId, base: u64)
    requires
        tree.settled(),
        tree.keyed(),
        tree.keys_below(base),
        tree.root is None,
        !tree.has(id),
        base + 2 <= u64::MAX,
        tree.rooted(id, drop_zone_item(base)).forest(),
    ensures
        tree.rooted(id, drop_zone_item(base)).settled(),
        tree.rooted(id, drop_zone_item(base)).keyed(),
        tree.rooted(id, drop_zone_item(base)).keys_below((base + 2) as u64),
{
    let item = drop_zone_item(base);
    let after = tree.rooted(id, item);
    lemma_rooted_well(tree, id, item, (base + 1) as u64);
    lemma_added_keys(tree, after, id, item, (base + 1) as u64);
    reveal(TreeModel::grows_two);
    assert(!tree.has_key(base) && !tree.has_key((base + 1) as u64));
    reveal(TreeModel::added_well);
    lemma_sound(after);
    assert(after.excess(id) == 0);
}

impl TilingLayout {
    /// Whether a window stands in every group that keeps room for something to be dropped.
    pub fn has_room_beside_windows(&self) -> (yes: bool)
        requires
            self@.ready(),
        ensures
            yes == self@.newest().room_beside_windows(),
    {
        let tree: &Tree<TreeNode> = self.tree();
        let ghost shape = model(*tree);
        assert(shape.regular() && shape.forest()) by {
            lemma_sound(shape);
        }
        let root: NodeId = match root_id(tree) {
            Some(root) => root,
            None => {
                proof {
                    lemma_empty(shape);
                }
                return true;
            },
        };
        let order: Vec<NodeId> = all_nodes(tree, &root);
        let mut i: usize = 0;
        while i < order.len()
            invariant
                i <= order@.len(),
                shape == model(*tree),
                shape == self@.newest(),
                shape.forest(),
                forall|k: int| 0 <= k < order@.len() ==> shape.has(#[trigger] order@[k]),
                forall|k: int|
                    0 <= k < i && shape.data(#[trigger] order@[k]) is Group && shape.keeps_room(
                        order@[k],
                    ) ==> shape.window_among(shape.children(order@[k])) is Some,
            decreases order@.len() - i,
        {
            assert(shape.has(order@[i as int]));
            let group: bool = match get_node(tree, &order[i]) {
                Some(node) => node.data.is_group(),
                None => false,
            };
            if group {
                let children: Vec<NodeId> = child_ids(tree, &order[i]);
                if find_drop_zone(tree, &children).is_some() && find_first_window(
                    tree,
                    &children,
                ).is_none() {
                    assert(shape.has(order@[i as int]) && shape.keeps_room(order@[i as int]));
                    return false;
                }
            }
            i += 1;
        }
        assert forall|id: NodeId| #[trigger]
            shape.has(id) && shape.data(id) is Group && shape.keeps_room(
                id,
            ) implies shape.window_among(shape.children(id)) is Some by {
            let k = order@.index_of(id);
            assert(order@[k] == id);
        }
        true
    }

    /// Shows another tree: at once in the scrolling layout, else after everything before it.
    fn turn_to(&mut self, tree: Tree<TreeNode>, duration: u64) -> (configures: Vec<Configure>)
        requires
            old(self)@.ready(),
            model(tree).settled(),
            model(tree).keyed(),
        ensures
            old(self)@.turns_to(final(self)@, model(tree), duration, configures@),
            final(self)@.ready(),
            forall|bound: u64| #[trigger]
                old(self)@.wf(bound) && model(tree).keys_below(bound) ==> final(self)@.wf(bound),
    {
        assert(model(tree).sound()) by {
            lemma_sound(model(tree));
        }
        if self.tiling_engine == TilingEngine::Scrolling {
            self.commit_directly(tree)
        } else {
            self.append(tree, duration)
        }
    }

    /// Keeps room for something to be dropped in an empty layout.
    fn make_room(&mut self, keys: &mut KeySource) -> (configures: Vec<Configure>)
        requires
            old(self)@.wf(old(keys).next),
            old(self)@.newest().root is None,
            old(keys).next + 2 <= u64::MAX,
        ensures
            old(self)@.makes_room(final(self)@, old(keys).next, configures@),
            final(keys).next == old(keys).next + 2,
            final(self)@.wf(final(keys).next),
    {
        let ghost before = self@;
        let mut tree: Tree<TreeNode> = self.newest_copy();
        let ghost copy = model(tree);
        assert(copy.forest()) by {
            lemma_sound(copy);
        }
        proof {
            law_copies_are_alike(before.newest(), copy);
        }
        let base: u64 = keys.take();
        let _ = keys.take();
        let node: TreeNode = TreeNode {
            key: base,
            data: Data::Placeholder {
                last_geometry: Rectangle::new(0, 0, 100, 100),
                type_: PlaceholderType::DropZone,
            },
        };
        let id: NodeId = insert_root(&mut tree, node);
        proof {
            assert(node@ == drop_zone_item(base));
            lemma_room(copy, id, base);
            lemma_higher(before, base, keys.next);
        }
        let configures: Vec<Configure> = self.turn_to(tree, ANIMATION_DURATION);
        assert(before.newest().copied(copy) && !copy.has(id) && before.turns_to(
            self@,
            copy.rooted(id, drop_zone_item(base)),
            ANIMATION_DURATION,
            configures@,
        ));
        configures
    }

    /// Goes from one place to another.
    fn go_on(&mut self, from: TargetZone, to: TargetZone, keys: &mut KeySource) -> (configures: Option<
        Vec<Configure>,
    >)
        requires
            old(self)@.wf(old(keys).next),
            old(keys).next + 2 <= u64::MAX,
        ensures
            old(self)@.goes_on(
                final(self)@,
                from,
                to,
                old(keys).next,
                configures_view(configures),
            ),
            final(keys).next == old(keys).next + 2,
            final(self)@.wf(final(keys).next),
    {
        let ghost before = self@;
        let mut tree: Tree<TreeNode> = self.newest_copy();
        let ghost copy = model(tree);
        let base: u64 = keys.take();
        let _ = keys.take();
        clear_zone(&mut tree, from);
        let ghost clean = model(tree);
        proof {
            lemma_keeps_keys(copy, clean);
        }
        let marked: bool = mark_zone(&mut tree, to, base);
        let removed: bool = match from {
            TargetZone::InitialPlaceholder(_)
            | TargetZone::WindowSplit(_, _)
            | TargetZone::GroupEdge(_, _)
            | TargetZone::GroupInterior(_, _) => true,
            _ => false,
        };
        self.last_overview_hover = Some(Hover { since: None, zone: to });
        let ghost there = before.with_hover(Some(Hover { since: None, zone: to }));
        assert(self@ =~~= there);
        proof {
            lemma_higher(before, base, keys.next);
            assert(there.wf(keys.next));
            assert(before.newest().copied(copy) && copy.unmarked(from).marked(
                model(tree),
                to,
                base,
            ));
        }
        if removed || marked {
            let duration: u64 = if to.is_window_zone() && !from.is_window_zone() {
                2 * ANIMATION_DURATION
            } else {
                ANIMATION_DURATION
            };
            Some(self.turn_to(tree, duration))
        } else {
            None
        }
    }

    /// Takes note of the place that the pointer is found at.
    fn see(
        &mut self,
        root: &NodeId,
        start: TargetZone,
        target: TargetZone,
        now: u64,
        keys: &mut KeySource,
    ) -> (configures: Option<Vec<Configure>>)
        requires
            old(self)@.wf(old(keys).next),
            old(keys).next + 2 <= u64::MAX,
            old(self)@.newest().drag_starts_at(*root, start),
        ensures
            old(self)@.sees(
                final(self)@,
                *root,
                target,
                now,
                old(keys).next,
                configures_view(configures),
            ),
            final(keys).next == old(keys).next || final(keys).next == old(keys).next + 2,
            final(self)@.wf(final(keys).next),
    {
        let ghost before = self@;
        match self.last_overview_hover {
            None => {
                self.last_overview_hover = Some(Hover { since: None, zone: start });
                assert(self@ =~~= before.with_hover(self@.hover));
                assert(before.newest().drag_starts_at(*root, start));
                assert(self@.queue == before.queue);
                None
            },
            Some(hover) => {
                if hover.zone == target {
                    self.last_overview_hover = Some(Hover { since: None, zone: target });
                    assert(self@ =~~= before.with_hover(self@.hover));
                    return None;
                }
                match hover.since {
                    None => {
                        self.last_overview_hover = Some(
                            Hover { since: Some(now), zone: hover.zone },
                        );
                        assert(self@ =~~= before.with_hover(self@.hover));
                        None
                    },
                    Some(since) => {
                        let delay: u64 = match hover.zone {
                            TargetZone::InitialPlaceholder(_) => INITIAL_MOUSE_ANIMATION_DELAY,
                            _ => MOUSE_ANIMATION_DELAY,
                        };
                        if now <= since || now - since <= delay {
                            None
                        } else {
                            self.go_on(hover.zone, target, keys)
                        }
                    },
                }
            },
        }
    }

    /// Finds out where a dragged window could be dropped, and shows it. `now` is the time, in
    /// milliseconds. Returns what the windows have to be asked to do, where the tree changes.
    pub fn update_pointer_position(
        &mut self,
        position: Option<PointerPosition>,
        overview: OverviewState,
        now: u64,
        keys: &mut KeySource,
    ) -> (configures: Option<Vec<Configure>>)
        requires
            old(self)@.wf(old(keys).next),
            old(keys).next + 2 <= u64::MAX,
            old(self)@.newest().room_beside_windows(),
        ensures
            old(self)@.hovers(
                final(self)@,
                position,
                overview,
                now,
                old(keys).next,
                configures_view(configures),
            ),
            final(keys).next == old(keys).next || final(keys).next == old(keys).next + 2,
            final(self)@.wf(final(keys).next),
    {
        let ghost before = self@;
        let ghost newest = before.newest();
        let tree: &Tree<TreeNode> = self.tree();
        assert(newest.forest()) by {
            lemma_sound(newest);
        }
        let root: NodeId = match root_id(tree) {
            Some(root) => root,
            None => {
                if overview.by_pointer && position.is_some() {
                    return Some(self.make_room(keys));
                }
                return None;
            },
        };
        if !overview.active || position.is_none() {
            self.last_overview_hover = None;
            assert(self@ =~~= before.with_hover(None));
            return None;
        }
        if !overview.by_pointer {
            return None;
        }
        let position: PointerPosition = match position {
            Some(position) => position,
            None => {
                return None;
            },
        };
        let asked: Overview = Overview {
            gap: overview.gap,
            mouse: true,
            drawing: false,
            swap: None,
            stack_zone: None,
        };
        let eased: Vec<EasedArea> = Vec::new();
        assert(eased@ =~= seq![]);
        let view: GroupView = geometries_for_groupview(
            tree,
            self.usable,
            &None,
            asked,
            None,
            &eased,
        );
        let hovered: Option<TargetZone> = match self.last_overview_hover {
            Some(hover) => Some(hover.zone),
            None => None,
        };
        let target: Option<TargetZone> = find_zone(tree, &root, &view.areas, position, hovered);
        let start: TargetZone = find_start(tree, &root);
        assert(newest.shows_for(None, before.usable, None, overview.asked(), seq![], view)
            && newest.zone_from(root, view.areas@, position, zone_of(before.hover), target));
        match target {
            Some(target) => self.see(&root, start, target, now, keys),
            None => None,
        }
    }
}

} // verus!
