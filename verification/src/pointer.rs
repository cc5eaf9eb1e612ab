//! What is under the pointer: the windows to ask for a surface there, and the gap between windows
//! that can be dragged to resize them.

use vstd::prelude::*;

use id_tree::{NodeId, Tree};

use crate::balance::lemma_sound;
use crate::config::TilingEngine;
use crate::data::{Data, DataView};
use crate::geometry::{add_saturating, minus, plus, sub_saturating, Orientation, Point, Rectangle};
use crate::graft::lemma_visits_parent;
use crate::hover::{lemma_below_child, lemma_not_above, PointerPosition};
use crate::layout::{LayoutView, ScrollingResizeTarget, TilingLayout};
use crate::lookups::{focus_view, KeyboardFocus, KeyboardFocusView, WindowArea};
use crate::scrolling::tile_geometry;
use crate::tree::{
    child_ids, copy_id, get_node, model, preorder_ids, root_id, visits, TreeModel, TreeNode,
};

verus! {

/// What a window covers, relative to its tile, and whether it is maximized.
#[derive(Clone, Copy, Debug, PartialEq, Eq, Structural)]
pub struct WindowBounds {
    pub window: u64,
    pub bbox: Rectangle,
    pub maximized: bool,
}

/// A gap between windows that can be dragged to resize them.
#[derive(Clone, Copy, Debug, PartialEq, Eq, Structural)]
pub struct ResizeForkTarget {
    /// The key of the group.
    pub node: u64,
    /// The place of the child in front of the gap.
    pub left_up_idx: usize,
    pub orientation: Orientation,
    pub scrolling_resize: Option<ScrollingResizeTarget>,
}

/// What is under the pointer where no window has a surface there.
#[derive(Clone, Copy, Debug, PartialEq, Eq, Structural)]
pub enum Beneath {
    /// The tile of a window.
    Tile(WindowArea),
    /// A gap, and where it is.
    Fork(ResizeForkTarget, Point),
}

/// What is known of a window, from a place on.
pub open spec fn bounds_from(bounds: Seq<WindowBounds>, window: u64, from: int) -> Option<WindowBounds>
    decreases bounds.len() - from,
{
    if from < 0 || from >= bounds.len() {
        None
    } else if bounds[from].window == window {
        Some(bounds[from])
    } else {
        bounds_from(bounds, window, from + 1)
    }
}

/// A pixel relative to a corner.
pub open spec fn relative_to(pixel: Point, corner: Point) -> Point {
    Point { x: minus(pixel.x as int, corner.x as int), y: minus(pixel.y as int, corner.y as int) }
}

/// Whether a window can have something at a pixel. Surfaces of the window itself end where its
/// tile does (`tiled`), and maximized windows may be left out (`skipping`).
pub open spec fn can_be_at(
    area: WindowArea,
    bounds: Seq<WindowBounds>,
    pixel: Point,
    tiled: bool,
    skipping: bool,
) -> bool {
    match bounds_from(bounds, area.window, 0) {
        Some(known) => (tiled ==> area.geometry.holds(pixel)) && known.bbox.holds(
            relative_to(pixel, area.geometry.loc),
        ) && !(skipping && known.maximized),
        None => false,
    }
}

/// Those of some windows that can have something at a pixel.
pub open spec fn candidates(
    areas: Seq<WindowArea>,
    bounds: Seq<WindowBounds>,
    pixel: Point,
    tiled: bool,
    skipping: bool,
) -> Seq<WindowArea>
    decreases areas.len(),
{
    if areas.len() == 0 {
        seq![]
    } else {
        let rest = candidates(areas.drop_last(), bounds, pixel, tiled, skipping);
        if can_be_at(areas.last(), bounds, pixel, tiled, skipping) {
            rest.push(areas.last())
        } else {
            rest
        }
    }
}

/// What is known of a window.
fn find_bounds(bounds: &Vec<WindowBounds>, window: u64) -> (found: Option<WindowBounds>)
    ensures
        found == bounds_from(bounds@, window, 0),
{
    let mut i: usize = 0;
    while i < bounds.len()
        invariant
            i <= bounds@.len(),
            bounds_from(bounds@, window, 0) == bounds_from(bounds@, window, i as int),
        decreases bounds@.len() - i,
    {
        if bounds[i].window == window {
            return Some(bounds[i]);
        }
        i += 1;
    }
    None
}

/// Those of some windows that can have something at a pixel.
fn find_candidates(
    areas: &Vec<WindowArea>,
    bounds: &Vec<WindowBounds>,
    pixel: Point,
    tiled: bool,
    skipping: bool,
) -> (found: Vec<WindowArea>)
    ensures
        found@ == candidates(areas@, bounds@, pixel, tiled, skipping),
{
    let mut found: Vec<WindowArea> = Vec::new();
    let mut i: usize = 0;
    assert(areas@.take(0) =~= seq![]);
    while i < areas.len()
        invariant
            i <= areas@.len(),
            found@ == candidates(areas@.take(i as int), bounds@, pixel, tiled, skipping),
        decreases areas@.len() - i,
    {
        assert(areas@.take(i + 1).drop_last() =~= areas@.take(i as int));
        let area: WindowArea = areas[i];
        let here: bool = match find_bounds(bounds, area.window) {
            Some(known) => {
                let inside: Point = Point {
                    x: sub_saturating(pixel.x, area.geometry.loc.x),
                    y: sub_saturating(pixel.y, area.geometry.loc.y),
                };
                (!tiled || area.geometry.contains(pixel)) && known.bbox.contains(inside) && !(
                skipping && known.maximized)
            },
            None => false,
        };
        if here {
            found.push(area);
        }
        i += 1;
    }
    assert(areas@.take(i as int) =~= areas@);
    found
}

impl TreeModel {
    /// The first of these nodes whose tile a pixel is in.
    pub open spec fn tile_among(self, nodes: Seq<NodeId>, pixel: Point) -> Option<NodeId>
        decreases nodes.len(),
    {
        if nodes.len() == 0 {
            None
        } else {
            match self.tile_among(nodes.drop_last(), pixel) {
                Some(id) => Some(id),
                None => if self.data(nodes.last()).geometry().holds(pixel) {
                    Some(nodes.last())
                } else {
                    None
                },
            }
        }
    }

    /// The place of the first of these nodes whose tile lies behind a pixel.
    pub open spec fn tile_behind(self, nodes: Seq<NodeId>, orientation: Orientation, pixel: Point) -> Option<int>
        decreases nodes.len(),
    {
        if nodes.len() == 0 {
            None
        } else {
            match self.tile_behind(nodes.drop_last(), orientation, pixel) {
                Some(place) => Some(place),
                None => {
                    let loc = self.data(nodes.last()).geometry().loc;
                    if (match orientation {
                        Orientation::Vertical => pixel.x < loc.x,
                        Orientation::Horizontal => pixel.y < loc.y,
                    }) {
                        Some(nodes.len() - 1)
                    } else {
                        None
                    }
                },
            }
        }
    }

    /// The child of a group whose tile a pixel is in.
    pub open spec fn inner_tile(self, id: NodeId, pixel: Point) -> Option<NodeId> {
        if self.data(id) is Group {
            self.tile_among(self.children(id), pixel)
        } else {
            None
        }
    }

    /// Whether `path` leads from a node to the innermost one whose tile a pixel is in.
    pub open spec fn goes_in(self, path: Seq<NodeId>, top: NodeId, pixel: Point) -> bool {
        &&& path.len() > 0
        &&& path[0] == top
        &&& forall|k: int|
            0 <= k < path.len() - 1 ==> self.inner_tile(#[trigger] path[k], pixel) == Some(
                path[k + 1],
            )
        &&& self.inner_tile(path.last(), pixel) is None
    }

    /// Whether `found` is the innermost node whose tile a pixel is in, from `top` on.
    pub open spec fn innermost_tile(self, found: NodeId, top: NodeId, pixel: Point) -> bool {
        exists|path: Seq<NodeId>| #[trigger]
            self.goes_in(path, top, pixel) && path.last() == found
    }

    /// The gap between two children of a group: behind the child in front of the first one that
    /// lies behind a pixel.
    pub open spec fn fork_in(self, id: NodeId, pixel: Point) -> Option<Beneath> {
        let data = self.data(id);
        let children = self.children(id);
        match self.tile_behind(children, data.spec_orientation(), pixel) {
            Some(place) => if place > 0 {
                let corner = data.geometry().loc;
                let before = self.data(children[place - 1]).geometry();
                Some(
                    Beneath::Fork(
                        ResizeForkTarget {
                            node: self.key(id),
                            left_up_idx: (place - 1) as usize,
                            orientation: data.spec_orientation(),
                            scrolling_resize: None,
                        },
                        Point {
                            x: plus(corner.x as int, before.spec_right() as int),
                            y: plus(corner.y as int, before.spec_bottom() as int),
                        },
                    ),
                )
            } else {
                None
            },
            None => None,
        }
    }
}

impl LayoutView {
    /// Whether this is the tile of the strip that has the keyboard focus.
    pub open spec fn focused_tile(self, focus: Option<KeyboardFocusView>, tile: Option<u64>) -> bool {
        exists|key: Option<u64>| #[trigger]
            self.focused_window(focus, key) && tile == match key {
                Some(key) => if self.scroll.strip.contains(key) {
                    Some(key)
                } else {
                    None
                },
                None => None,
            }
    }

    /// The gap of the strip that can be dragged: at an edge of the tile that has the focus.
    pub open spec fn strip_fork(self, id: NodeId, tile: u64, position: PointerPosition) -> Option<Beneath> {
        let tree = self.newest();
        let strip = self.scroll.strip;
        match strip.row_edge(tree, tile, position.x, position.y) {
            Some((upper, lower, boundary)) => match tree.tile_geometry(tile) {
                Some(area) => Some(
                    Beneath::Fork(
                        ResizeForkTarget {
                            node: tree.key(id),
                            left_up_idx: 0,
                            orientation: Orientation::Horizontal,
                            scrolling_resize: Some(ScrollingResizeTarget::Rows { upper, lower }),
                        },
                        Point { x: area.loc.x, y: boundary },
                    ),
                ),
                None => None,
            },
            None => match strip.column_edge(tree, tile, position.x) {
                Some((anchor, boundary)) => Some(
                    Beneath::Fork(
                        ResizeForkTarget {
                            node: tree.key(id),
                            left_up_idx: 0,
                            orientation: Orientation::Vertical,
                            scrolling_resize: Some(ScrollingResizeTarget::Column { tile, anchor }),
                        },
                        Point { x: boundary, y: tree.data(id).geometry().loc.y },
                    ),
                ),
                None => None,
            },
        }
    }

    /// What a node is beneath the pointer, where `tile` of the strip has the focus.
    pub open spec fn is_beneath(self, id: NodeId, tile: Option<u64>, position: PointerPosition) -> Option<Beneath> {
        match self.newest().data(id) {
            DataView::Mapped { mapped, last_geometry, .. } => Some(
                Beneath::Tile(WindowArea { window: mapped.id, geometry: last_geometry }),
            ),
            DataView::Group { .. } => if self.engine is Scrolling {
                match tile {
                    Some(tile) => self.strip_fork(id, tile, position),
                    None => None,
                }
            } else {
                self.newest().fork_in(id, position.spec_pixel())
            },
            DataView::Placeholder { .. } => None,
        }
    }

    /// Whether `beneath` is what the pointer is on, in one of the nodes from `root` on.
    pub open spec fn beneath_from(
        self,
        root: NodeId,
        position: PointerPosition,
        focus: Option<KeyboardFocusView>,
        beneath: Option<Beneath>,
    ) -> bool {
        if self.newest().data(root).geometry().holds(position.spec_pixel()) {
            exists|found: NodeId, tile: Option<u64>|
                #[trigger] self.newest().innermost_tile(found, root, position.spec_pixel())
                    && #[trigger] self.focused_tile(focus, tile) && beneath == self.is_beneath(
                    found,
                    tile,
                    position,
                )
        } else {
            beneath is None
        }
    }

    /// Whether these windows are to be asked for something under the pointer, in this order.
    pub open spec fn asks(
        self,
        position: PointerPosition,
        bounds: Seq<WindowBounds>,
        tiled: bool,
        skipping: bool,
        found: Seq<WindowArea>,
    ) -> bool {
        exists|areas: Seq<WindowArea>| #[trigger]
            self.newest().lists(areas) && found == candidates(
                areas,
                bounds,
                position.spec_pixel(),
                tiled,
                skipping,
            )
    }
}

/// What is found among the first nodes is found among all.
proof fn lemma_first_tile(tree: TreeModel, nodes: Seq<NodeId>, pixel: Point, count: int)
    requires
        0 <= count <= nodes.len(),
        tree.tile_among(nodes.take(count), pixel) is Some,
    ensures
        tree.tile_among(nodes, pixel) == tree.tile_among(nodes.take(count), pixel),
    decreases nodes.len(),
{
    if count == nodes.len() {
        assert(nodes.take(count) =~= nodes);
    } else {
        assert(nodes.drop_last().take(count) =~= nodes.take(count));
        lemma_first_tile(tree, nodes.drop_last(), pixel, count);
    }
}

/// What is found among the first nodes is found among all.
proof fn lemma_first_behind(
    tree: TreeModel,
    nodes: Seq<NodeId>,
    orientation: Orientation,
    pixel: Point,
    count: int,
)
    requires
        0 <= count <= nodes.len(),
        tree.tile_behind(nodes.take(count), orientation, pixel) is Some,
    ensures
        tree.tile_behind(nodes, orientation, pixel) == tree.tile_behind(
            nodes.take(count),
            orientation,
            pixel,
        ),
    decreases nodes.len(),
{
    if count == nodes.len() {
        assert(nodes.take(count) =~= nodes);
    } else {
        assert(nodes.drop_last().take(count) =~= nodes.take(count));
        lemma_first_behind(tree, nodes.drop_last(), orientation, pixel, count);
    }
}

/// The first node among these whose tile a pixel is in.
fn find_tile(tree: &Tree<TreeNode>, nodes: &Vec<NodeId>, pixel: Point) -> (found: Option<NodeId>)
    requires
        forall|k: int| 0 <= k < nodes@.len() ==> model(*tree).has(#[trigger] nodes@[k]),
    ensures
        found == model(*tree).tile_among(nodes@, pixel),
        found matches Some(id) ==> nodes@.contains(id),
{
    let ghost shape = model(*tree);
    let mut i: usize = 0;
    assert(nodes@.take(0) =~= seq![]);
    while i < nodes.len()
        invariant
            i <= nodes@.len(),
            shape == model(*tree),
            forall|k: int| 0 <= k < nodes@.len() ==> shape.has(#[trigger] nodes@[k]),
            shape.tile_among(nodes@.take(i as int), pixel) is None,
        decreases nodes@.len() - i,
    {
        assert(nodes@.take(i + 1).drop_last() =~= nodes@.take(i as int));
        assert(shape.has(nodes@[i as int]));
        let here: bool = match get_node(tree, &nodes[i]) {
            Some(node) => node.data.geometry().contains(pixel),
            None => false,
        };
        if here {
            proof {
                lemma_first_tile(shape, nodes@, pixel, i + 1);
            }
            return Some(copy_id(&nodes[i]));
        }
        i += 1;
    }
    assert(nodes@.take(i as int) =~= nodes@);
    None
}

/// The place of the first node among these whose tile lies behind a pixel.
fn find_behind(tree: &Tree<TreeNode>, nodes: &Vec<NodeId>, orientation: Orientation, pixel: Point) -> (place:
    Option<usize>)
    requires
        forall|k: int| 0 <= k < nodes@.len() ==> model(*tree).has(#[trigger] nodes@[k]),
    ensures
        model(*tree).tile_behind(nodes@, orientation, pixel) == match place {
            Some(place) => Some(place as int),
            None => None,
        },
        place matches Some(place) ==> place < nodes@.len(),
{
    let ghost shape = model(*tree);
    let mut i: usize = 0;
    assert(nodes@.take(0) =~= seq![]);
    while i < nodes.len()
        invariant
            i <= nodes@.len(),
            shape == model(*tree),
            forall|k: int| 0 <= k < nodes@.len() ==> shape.has(#[trigger] nodes@[k]),
            shape.tile_behind(nodes@.take(i as int), orientation, pixel) is None,
        decreases nodes@.len() - i,
    {
        assert(nodes@.take(i + 1).drop_last() =~= nodes@.take(i as int));
        assert(shape.has(nodes@[i as int]));
        let behind: bool = match get_node(tree, &nodes[i]) {
            Some(node) => match orientation {
                Orientation::Vertical => pixel.x < node.data.geometry().loc.x,
                Orientation::Horizontal => pixel.y < node.data.geometry().loc.y,
            },
            None => false,
        };
        if behind {
            proof {
                lemma_first_behind(shape, nodes@, orientation, pixel, i + 1);
            }
            return Some(i);
        }
        i += 1;
    }
    assert(nodes@.take(i as int) =~= nodes@);
    None
}

/// The child of a group whose tile a pixel is in.
fn find_inner(tree: &Tree<TreeNode>, id: &NodeId, pixel: Point) -> (found: Option<NodeId>)
    requires
        model(*tree).forest(),
        model(*tree).has(*id),
    ensures
        found == model(*tree).inner_tile(*id, pixel),
        found matches Some(child) ==> model(*tree).has(child) && model(*tree).parent(child) == Some(
            *id,
        ),
{
    let ghost shape = model(*tree);
    let children: Vec<NodeId> = child_ids(tree, id);
    assert forall|k: int| 0 <= k < children@.len() implies shape.has(#[trigger] children@[k]) by {
        assert(shape.has(shape.children(*id)[k]));
    }
    let group: bool = match get_node(tree, id) {
        Some(node) => node.data.is_group(),
        None => false,
    };
    if !group {
        return None;
    }
    let found: Option<NodeId> = find_tile(tree, &children, pixel);
    proof {
        if found is Some {
            let child = found->0;
            let k = choose|k: int| 0 <= k < children@.len() && children@[k] == child;
            assert(shape.parent(shape.children(*id)[k]) == Some(*id));
        }
    }
    found
}

/// The innermost node whose tile a pixel is in, from `top` on.
fn find_innermost(tree: &Tree<TreeNode>, top: &NodeId, pixel: Point) -> (found: NodeId)
    requires
        model(*tree).forest(),
        model(*tree).has(*top),
    ensures
        model(*tree).innermost_tile(found, *top, pixel),
        model(*tree).has(found),
{
    let ghost shape = model(*tree);
    let order: Vec<NodeId> = preorder_ids(tree, top);
    let ghost mut place: int = 0;
    let ghost mut path: Seq<NodeId> = seq![*top];
    let mut current: NodeId = copy_id(top);
    loop
        invariant
            shape == model(*tree),
            shape.forest(),
            shape.has(*top),
            visits(shape.nodes, seq![*top], order@),
            order@.no_duplicates(),
            forall|other: NodeId| #[trigger]
                order@.contains(other) == (shape.has(other) && shape.below(other, *top)),
            0 <= place < order@.len(),
            order@[place] == current,
            path.len() > 0,
            path[0] == *top,
            path.last() == current,
            forall|k: int|
                0 <= k < path.len() - 1 ==> shape.inner_tile(#[trigger] path[k], pixel) == Some(
                    path[k + 1],
                ),
            shape.has(current),
        ensures
            shape.inner_tile(current, pixel) is None,
        decreases order@.len() - place,
    {
        match find_inner(tree, &current, pixel) {
            Some(next) => {
                proof {
                    assert(order@.contains(current));
                    lemma_below_child(shape, next, current, *top);
                    assert(order@.contains(next));
                    let i = choose|i: int| 0 <= i < order@.len() && order@[i] == next;
                    lemma_visits_parent(shape.nodes, seq![*top], order@, i);
                    if seq![*top].contains(next) {
                        lemma_not_above(shape, next, current);
                    }
                    let j = choose|j: int|
                        0 <= j < i && shape.nodes[#[trigger] order@[j]].children.contains(next);
                    assert(order@.contains(order@[j]));
                    let m = choose|m: int|
                        0 <= m < shape.children(order@[j]).len() && shape.children(order@[j])[m]
                            == next;
                    assert(shape.parent(shape.children(order@[j])[m]) == Some(order@[j]));
                    assert(j == place);
                    place = i;
                    let longer = path.push(next);
                    assert forall|k: int| 0 <= k < longer.len() - 1 implies shape.inner_tile(
                        #[trigger] longer[k],
                        pixel,
                    ) == Some(longer[k + 1]) by {
                        if k < path.len() - 1 {
                            assert(shape.inner_tile(path[k], pixel) == Some(path[k + 1]));
                        }
                    }
                    path = longer;
                }
                current = next;
            },
            None => {
                break;
            },
        }
    }
    assert(shape.goes_in(path, *top, pixel));
    current
}

/// The gap between two children of a group at a pixel.
fn find_fork(tree: &Tree<TreeNode>, id: &NodeId, pixel: Point) -> (fork: Option<Beneath>)
    requires
        model(*tree).forest(),
        model(*tree).has(*id),
        model(*tree).data(*id) is Group,
    ensures
        fork == model(*tree).fork_in(*id, pixel),
{
    let ghost shape = model(*tree);
    let children: Vec<NodeId> = child_ids(tree, id);
    assert forall|k: int| 0 <= k < children@.len() implies shape.has(#[trigger] children@[k]) by {
        assert(shape.has(shape.children(*id)[k]));
    }
    let (key, orientation, corner): (u64, Orientation, Point) = match get_node(tree, id) {
        Some(node) => (node.key, node.data.orientation(), node.data.geometry().loc),
        None => {
            return None;
        },
    };
    match find_behind(tree, &children, orientation, pixel) {
        Some(place) => if place > 0 {
            assert(shape.has(children@[place - 1]));
            let before: Rectangle = match get_node(tree, &children[place - 1]) {
                Some(node) => node.data.geometry(),
                None => Rectangle::new(0, 0, 0, 0),
            };
            Some(
                Beneath::Fork(
                    ResizeForkTarget {
                        node: key,
                        left_up_idx: place - 1,
                        orientation,
                        scrolling_resize: None,
                    },
                    Point {
                        x: add_saturating(corner.x, before.right()),
                        y: add_saturating(corner.y, before.bottom()),
                    },
                ),
            )
        } else {
            None
        },
        None => None,
    }
}

impl TilingLayout {
    /// The windows to ask for a popup under the pointer that takes the keyboard focus, in this
    /// order.
    pub fn popup_element_under(&self, position: PointerPosition, bounds: &Vec<WindowBounds>) -> (found:
        Vec<WindowArea>)
        requires
            self@.ready(),
        ensures
            self@.asks(position, bounds@, false, false, found@),
    {
        let areas: Vec<WindowArea> = self.mapped();
        assert(self@.newest().lists(areas@));
        find_candidates(&areas, bounds, position.pixel(), false, false)
    }

    /// The windows to ask for a surface of their own under the pointer that takes the keyboard
    /// focus, in this order.
    pub fn toplevel_element_under(&self, position: PointerPosition, bounds: &Vec<WindowBounds>) -> (found:
        Vec<WindowArea>)
        requires
            self@.ready(),
        ensures
            self@.asks(position, bounds@, true, false, found@),
    {
        let areas: Vec<WindowArea> = self.mapped();
        assert(self@.newest().lists(areas@));
        find_candidates(&areas, bounds, position.pixel(), true, false)
    }

    /// The windows to ask for a popup under the pointer, in this order: none in an overview.
    pub fn popup_surface_under(
        &self,
        position: PointerPosition,
        in_overview: bool,
        bounds: &Vec<WindowBounds>,
    ) -> (found: Vec<WindowArea>)
        requires
            self@.ready(),
        ensures
            if in_overview {
                found@.len() == 0
            } else {
                self@.asks(position, bounds@, false, true, found@)
            },
    {
        if in_overview {
            return Vec::new();
        }
        let areas: Vec<WindowArea> = self.mapped();
        assert(self@.newest().lists(areas@));
        find_candidates(&areas, bounds, position.pixel(), false, true)
    }

    /// The windows to ask for a surface of their own under the pointer, in this order, and what
    /// is there if none of them has one: none of it in an overview.
    pub fn toplevel_surface_under(
        &self,
        position: PointerPosition,
        in_overview: bool,
        focus: &Option<KeyboardFocus>,
        bounds: &Vec<WindowBounds>,
    ) -> (result: (Vec<WindowArea>, Option<Beneath>))
        requires
            self@.ready(),
        ensures
            if in_overview {
                result.0@.len() == 0 && result.1 is None
            } else {
                self@.asks(position, bounds@, true, true, result.0@) && (
                match self@.newest().root {
                    Some(root) => self@.beneath_from(
                        root,
                        position,
                        focus_view(*focus),
                        result.1,
                    ),
                    None => result.1 is None,
                })
            },
    {
        if in_overview {
            return (Vec::new(), None);
        }
        let areas: Vec<WindowArea> = self.mapped();
        assert(self@.newest().lists(areas@));
        let found: Vec<WindowArea> = find_candidates(
            &areas,
            bounds,
            position.pixel(),
            true,
            true,
        );
        let tree: &Tree<TreeNode> = self.tree();
        assert(model(*tree).forest()) by {
            lemma_sound(model(*tree));
        }
        match root_id(tree) {
            Some(root) => {
                let beneath: Option<Beneath> = self.find_beneath(&root, position, focus);
                (found, beneath)
            },
            None => (found, None),
        }
    }

    /// The gap of the strip that can be dragged.
    fn find_strip_fork(&self, id: &NodeId, tile: u64, position: PointerPosition) -> (fork: Option<
        Beneath,
    >)
        requires
            self@.ready(),
            self@.newest().has(*id),
        ensures
            fork == self@.strip_fork(*id, tile, position),
    {
        let tree: &Tree<TreeNode> = self.tree();
        assert(model(*tree).regular()) by {
            lemma_sound(model(*tree));
        }
        let (key, corner): (u64, Point) = match get_node(tree, id) {
            Some(node) => (node.key, node.data.geometry().loc),
            None => {
                return None;
            },
        };
        match self.scrolling.row_resize_edge_at(tree, tile, position.x, position.y) {
            Some((upper, lower, boundary)) => match tile_geometry(tree, tile) {
                Some(area) => Some(
                    Beneath::Fork(
                        ResizeForkTarget {
                            node: key,
                            left_up_idx: 0,
                            orientation: Orientation::Horizontal,
                            scrolling_resize: Some(ScrollingResizeTarget::Rows { upper, lower }),
                        },
                        Point { x: area.loc.x, y: boundary },
                    ),
                ),
                None => None,
            },
            None => match self.scrolling.resize_edge_at(tree, tile, position.x) {
                Some((anchor, boundary)) => Some(
                    Beneath::Fork(
                        ResizeForkTarget {
                            node: key,
                            left_up_idx: 0,
                            orientation: Orientation::Vertical,
                            scrolling_resize: Some(ScrollingResizeTarget::Column { tile, anchor }),
                        },
                        Point { x: boundary, y: corner.y },
                    ),
                ),
                None => None,
            },
        }
    }

    /// The tile of the strip that has the keyboard focus.
    fn find_focused_tile(&self, focus: &Option<KeyboardFocus>) -> (tile: Option<u64>)
        requires
            self@.ready(),
        ensures
            self@.focused_tile(focus_view(*focus), tile),
    {
        let key: Option<u64> = self.focused_window(focus);
        assert(self@.focused_window(focus_view(*focus), key));
        match key {
            Some(key) => if self.scrolling.contains(key) {
                Some(key)
            } else {
                None
            },
            None => None,
        }
    }

    /// What the pointer is on, in one of the nodes from `root` on.
    fn find_beneath(&self, root: &NodeId, position: PointerPosition, focus: &Option<KeyboardFocus>) -> (beneath:
        Option<Beneath>)
        requires
            self@.ready(),
            self@.newest().has(*root),
        ensures
            self@.beneath_from(*root, position, focus_view(*focus), beneath),
    {
        let tree: &Tree<TreeNode> = self.tree();
        assert(model(*tree).forest()) by {
            lemma_sound(model(*tree));
        }
        let pixel: Point = position.pixel();
        let inside: bool = match get_node(tree, root) {
            Some(node) => node.data.geometry().contains(pixel),
            None => false,
        };
        if !inside {
            return None;
        }
        let found: NodeId = find_innermost(tree, root, pixel);
        let tile: Option<u64> = self.find_focused_tile(focus);
        let beneath: Option<Beneath> = match get_node(tree, &found) {
            Some(node) => match &node.data {
                Data::Mapped { mapped, last_geometry, .. } => Some(
                    Beneath::Tile(WindowArea { window: mapped.id, geometry: *last_geometry }),
                ),
                Data::Group { .. } => if self.tiling_engine == TilingEngine::Scrolling {
                    match tile {
                        Some(tile) => self.find_strip_fork(&found, tile, position),
                        None => None,
                    }
                } else {
                    find_fork(tree, &found, pixel)
                },
                Data::Placeholder { .. } => None,
            },
            None => None,
        };
        assert(self@.newest().innermost_tile(found, *root, pixel));
        assert(self@.focused_tile(focus_view(*focus), tile));
        assert(beneath == self@.is_beneath(found, tile, position));
        beneath
    }
}

} // verus!
