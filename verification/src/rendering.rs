//! What is drawn of a layout: the windows that fade out, the nodes on their way, and how each of
//! them is drawn. Colors, opacity and the drawing itself are left to the renderer.

use vstd::prelude::*;

use id_tree::{NodeId, Tree};

use crate::actions::{Direction, ResizeEdge};
use crate::balance::lemma_sound;
use crate::columns::{contains_item, copy_items};
use crate::config::TilingEngine;
use crate::copies::node_by_key;
use crate::data::{Data, DataView};
use crate::focus::is_below;
use crate::fitting::{swap_area, swap_geometry};
use crate::geometry::{add_saturating, minus, plus, sub_saturating, Rectangle, Size};
use crate::groupview::{
    geometries_for_groupview, Decoration, GroupView, NodeArea, Overview, GAP_KEYBOARD,
    WINDOW_BACKDROP_BORDER,
};
use crate::hover::{area_from, area_keyed};
use crate::layout::{LayoutView, TilingLayout};
use crate::lookups::{focus_view, KeyboardFocus, KeyboardFocusView};
use crate::navigation::NodeDesc;
use crate::neighbours::possible_resizes;
use crate::placement::all_nodes;
use crate::queue::{EasedArea, QueueView};
use crate::tree::{get_node, model, preorder_ids, root_id, visits, TreeModel, TreeNode};

verus! {

/// Whether a window changes its width on the scrolling strip, and nothing else of its size.
pub open spec fn animated_width(
    is_scrolling: bool,
    is_overview: bool,
    animating: bool,
    animated: Rectangle,
    target: Rectangle,
) -> bool {
    is_scrolling && !is_overview && animating && animated.size.w != target.size.w
        && animated.size.h == target.size.h
}

/// Whether a window changes its width on the scrolling strip, and nothing else of its size.
pub fn tiled_window_has_animated_width(
    is_scrolling: bool,
    is_overview: bool,
    animating: bool,
    animated_geometry: Rectangle,
    target_geometry: Rectangle,
) -> (yes: bool)
    ensures
        yes == animated_width(
            is_scrolling,
            is_overview,
            animating,
            animated_geometry,
            target_geometry,
        ),
{
    is_scrolling && !is_overview && animating && animated_geometry.size.w
        != target_geometry.size.w && animated_geometry.size.h == target_geometry.size.h
}

/// The size that the contents of a window are drawn with, before they are fitted into its area.
pub open spec fn render_max_size(
    is_scrolling: bool,
    is_overview: bool,
    animating: bool,
    live_resize: bool,
    animated: Rectangle,
    target: Rectangle,
    committed: Size,
) -> Option<Size> {
    if is_overview {
        None
    } else if live_resize {
        Some(committed)
    } else if animated_width(is_scrolling, is_overview, animating, animated, target) {
        Some(target.size)
    } else {
        Some(animated.size)
    }
}

/// The size that the contents of a window are drawn with, before they are fitted into its area.
pub fn tiled_window_render_max_size(
    is_scrolling: bool,
    is_overview: bool,
    animating: bool,
    live_resize: bool,
    animated_geometry: Rectangle,
    target_geometry: Rectangle,
    committed_size: Size,
) -> (size: Option<Size>)
    ensures
        size == render_max_size(
            is_scrolling,
            is_overview,
            animating,
            live_resize,
            animated_geometry,
            target_geometry,
            committed_size,
        ),
{
    if is_overview {
        None
    } else if live_resize {
        Some(committed_size)
    } else if tiled_window_has_animated_width(
        is_scrolling,
        is_overview,
        animating,
        animated_geometry,
        target_geometry,
    ) {
        Some(target_geometry.size)
    } else {
        Some(animated_geometry.size)
    }
}

/// How the contents of a window are fitted into its area.
#[derive(Clone, Copy, Debug, PartialEq, Eq, Structural)]
pub enum Constraint {
    /// Scaled to fit, in the middle.
    Fit,
    /// Stretched, from the upper left corner.
    Stretch,
    /// Cut off, from the upper left corner.
    CutOff,
}

/// What is drawn above what.
#[derive(Clone, Copy, Debug, PartialEq, Eq, Structural)]
pub enum Layer {
    /// With what is being exchanged.
    Swap,
    /// With the windows at rest.
    Rest,
    /// With the windows that move, below the others.
    Moving,
}

/// A window that is gone, and fades out.
#[derive(Clone, Copy, Debug, PartialEq, Eq, Structural)]
pub struct Fading {
    pub window: u64,
    /// Where the window was.
    pub original: Rectangle,
    /// Where it is drawn, unless it shrinks to where it is minimized.
    pub geometry: Rectangle,
    /// Where it is minimized.
    pub minimize: Option<Rectangle>,
}

/// A node that is drawn.
#[derive(Clone, Copy, Debug, PartialEq, Eq, Structural)]
pub struct Shown {
    pub key: u64,
    /// The window in it.
    pub window: Option<u64>,
    pub group: bool,
    /// The area that the layout gives to it.
    pub original: Rectangle,
    /// Where it is going.
    pub target: Rectangle,
    /// Where it comes from. What comes from nowhere fades in.
    pub from: Option<Rectangle>,
    /// Whether it comes from where it was minimized.
    pub restored: bool,
}

impl Shown {
    /// Whether the node moves.
    pub open spec fn moves(self) -> bool {
        self.from matches Some(from) && from != self.target
    }

    /// Whether the node moves.
    pub fn is_animating(&self) -> (yes: bool)
        ensures
            yes == self.moves(),
    {
        match self.from {
            Some(from) => from != self.target,
            None => false,
        }
    }
}

impl TreeModel {
    /// Where a node is drawn: its area, fitted into the one that it has in an overview.
    pub open spec fn drawn_at(self, id: NodeId, areas: Seq<NodeArea>) -> Rectangle {
        match area_from(areas, self.key(id), 0) {
            Some(area) => self.data(id).geometry().spec_fitted(area),
            None => self.data(id).geometry(),
        }
    }

    /// Whether a window is somewhere in the tree.
    pub open spec fn has_window(self, window: u64) -> bool {
        exists|id: NodeId| #[trigger] self.has(id) && self.data(id).is_window(window)
    }

    /// What fades out of a node: a window that is not in another tree, or any in a swap.
    pub open spec fn fading_at(self, id: NodeId, next: TreeModel, areas: Seq<NodeArea>, swapping: bool) -> Option<Fading> {
        match self.data(id) {
            DataView::Mapped { mapped, last_geometry, minimize_rect, .. } => if !mapped.maximized
                && (swapping || !next.has_window(mapped.id)) {
                Some(
                    Fading {
                        window: mapped.id,
                        original: last_geometry,
                        geometry: self.drawn_at(id, areas),
                        minimize: minimize_rect,
                    },
                )
            } else {
                None
            },
            _ => None,
        }
    }

    /// What fades out of these nodes.
    pub open spec fn fading_of(
        self,
        order: Seq<NodeId>,
        next: TreeModel,
        areas: Seq<NodeArea>,
        swapping: bool,
    ) -> Seq<Fading>
        decreases order.len(),
    {
        if order.len() == 0 {
            seq![]
        } else {
            let rest = self.fading_of(order.drop_last(), next, areas, swapping);
            match self.fading_at(order.last(), next, areas, swapping) {
                Some(fading) => rest.push(fading),
                None => rest,
            }
        }
    }

    /// Whether these are the windows that fade out on the way to another tree.
    pub open spec fn fades(self, next: TreeModel, areas: Seq<NodeArea>, swapping: bool, fading: Seq<Fading>) -> bool {
        match self.root {
            Some(root) => exists|order: Seq<NodeId>| #[trigger]
                visits(self.nodes, seq![root], order) && fading == self.fading_of(
                    order,
                    next,
                    areas,
                    swapping,
                ),
            None => fading.len() == 0,
        }
    }

    /// Where a node comes from: where it was minimized, or where it was in the tree before.
    pub open spec fn comes_from(
        self,
        id: NodeId,
        before: Option<TreeModel>,
        old_areas: Seq<NodeArea>,
    ) -> Option<Rectangle> {
        match self.data(id) {
            DataView::Mapped { minimize_rect: Some(rect), .. } => Some(rect),
            _ => match before {
                Some(before) => if before.has_key(self.key(id)) {
                    Some(before.drawn_at(before.node_keyed(self.key(id)), old_areas))
                } else {
                    None
                },
                None => None,
            },
        }
    }

    /// How a node is drawn, unless it is a maximized window.
    pub open spec fn shown_at(
        self,
        id: NodeId,
        before: Option<TreeModel>,
        areas: Seq<NodeArea>,
        old_areas: Seq<NodeArea>,
        swap: Option<NodeDesc>,
    ) -> Option<Shown> {
        let data = self.data(id);
        let key = self.key(id);
        let stays = swap matches Some(swap) && !(swap.node != key && swap.whole);
        if data matches DataView::Mapped { mapped, .. } && mapped.maximized {
            None
        } else {
            Some(
                Shown {
                    key,
                    window: match data {
                        DataView::Mapped { mapped, .. } => Some(mapped.id),
                        _ => None,
                    },
                    group: data is Group,
                    original: data.geometry(),
                    target: self.drawn_at(id, areas),
                    from: if stays {
                        None
                    } else {
                        self.comes_from(id, before, old_areas)
                    },
                    restored: data matches DataView::Mapped { minimize_rect, .. }
                        && minimize_rect is Some,
                },
            )
        }
    }

    /// How these nodes are drawn.
    pub open spec fn shown_of(
        self,
        order: Seq<NodeId>,
        before: Option<TreeModel>,
        areas: Seq<NodeArea>,
        old_areas: Seq<NodeArea>,
        swap: Option<NodeDesc>,
    ) -> Seq<Shown>
        decreases order.len(),
    {
        if order.len() == 0 {
            seq![]
        } else {
            let rest = self.shown_of(order.drop_last(), before, areas, old_areas, swap);
            match self.shown_at(order.last(), before, areas, old_areas, swap) {
                Some(shown) => rest.push(shown),
                None => rest,
            }
        }
    }

    /// Whether this is how a branch is drawn.
    pub open spec fn draws_branch(
        self,
        top: NodeId,
        before: Option<TreeModel>,
        areas: Seq<NodeArea>,
        old_areas: Seq<NodeArea>,
        swap: Option<NodeDesc>,
        shown: Seq<Shown>,
    ) -> bool {
        exists|order: Seq<NodeId>| #[trigger]
            visits(self.nodes, seq![top], order) && shown == self.shown_of(
                order,
                before,
                areas,
                old_areas,
                swap,
            )
    }

    /// Whether this is how the tree is drawn, and the branch of another tree that waits to be
    /// exchanged.
    pub open spec fn draws(
        self,
        before: Option<TreeModel>,
        guest: Option<TreeModel>,
        areas: Seq<NodeArea>,
        old_areas: Seq<NodeArea>,
        swap: Option<NodeDesc>,
        own: Seq<Shown>,
        other: Seq<Shown>,
    ) -> bool {
        &&& match self.root {
            Some(root) => self.draws_branch(root, before, areas, old_areas, swap, own),
            None => own.len() == 0,
        }
        &&& match (guest, swap) {
            (Some(guest), Some(waiting)) => if waiting.whole {
                guest.draws_branch(
                    guest.node_keyed(waiting.node),
                    before,
                    areas,
                    old_areas,
                    swap,
                    other,
                )
            } else {
                other.len() == 0
            },
            _ => other.len() == 0,
        }
    }
}

/// Where a node is drawn.
fn draw_at(node: &TreeNode, areas: &Vec<NodeArea>) -> (area: Rectangle)
    ensures
        area == match area_from(areas@, node@.key, 0) {
            Some(area) => node@.data.geometry().spec_fitted(area),
            None => node@.data.geometry(),
        },
{
    match area_keyed(areas, node.key) {
        Some(area) => node.data.geometry().fitted(area),
        None => node.data.geometry(),
    }
}

/// Whether a window is somewhere in a tree.
fn has_window(tree: &Tree<TreeNode>, window: u64) -> (yes: bool)
    requires
        model(*tree).settled(),
    ensures
        yes == model(*tree).has_window(window),
{
    let ghost shape = model(*tree);
    assert(shape.regular()) by {
        lemma_sound(shape);
    }
    let root: NodeId = match root_id(tree) {
        Some(root) => root,
        None => {
            proof {
                crate::classic::lemma_empty(shape);
            }
            return false;
        },
    };
    let order: Vec<NodeId> = all_nodes(tree, &root);
    let mut i: usize = 0;
    while i < order.len()
        invariant
            i <= order@.len(),
            shape == model(*tree),
            forall|k: int| 0 <= k < order@.len() ==> shape.has(#[trigger] order@[k]),
            forall|k: int| 0 <= k < i ==> !shape.data(#[trigger] order@[k]).is_window(window),
        decreases order@.len() - i,
    {
        assert(shape.has(order@[i as int]));
        let here: bool = match get_node(tree, &order[i]) {
            Some(node) => node.data.is_mapped(Some(window)),
            None => false,
        };
        if here {
            return true;
        }
        i += 1;
    }
    assert forall|id: NodeId| #[trigger] shape.has(id) implies !shape.data(id).is_window(window) by {
        assert(order@.contains(id));
        let k = choose|k: int| 0 <= k < order@.len() && order@[k] == id;
        assert(!shape.data(order@[k]).is_window(window));
    }
    false
}

/// The windows that fade out on the way to another tree.
pub fn render_old_tree(
    reference_tree: &Tree<TreeNode>,
    target_tree: &Tree<TreeNode>,
    areas: &Vec<NodeArea>,
    is_swap_mode: bool,
) -> (fading: Vec<Fading>)
    requires
        model(*reference_tree).settled(),
        model(*target_tree).settled(),
    ensures
        model(*reference_tree).fades(model(*target_tree), areas@, is_swap_mode, fading@),
{
    let ghost shape = model(*reference_tree);
    let ghost next = model(*target_tree);
    let mut fading: Vec<Fading> = Vec::new();
    assert(shape.regular()) by {
        lemma_sound(shape);
    }
    let root: NodeId = match root_id(reference_tree) {
        Some(root) => root,
        None => {
            return fading;
        },
    };
    let order: Vec<NodeId> = all_nodes(reference_tree, &root);
    let mut i: usize = 0;
    assert(order@.take(0) =~= seq![]);
    while i < order.len()
        invariant
            i <= order@.len(),
            shape == model(*reference_tree),
            next == model(*target_tree),
            next.settled(),
            forall|k: int| 0 <= k < order@.len() ==> shape.has(#[trigger] order@[k]),
            fading@ == shape.fading_of(order@.take(i as int), next, areas@, is_swap_mode),
        decreases order@.len() - i,
    {
        assert(order@.take(i + 1).drop_last() =~= order@.take(i as int));
        assert(shape.has(order@[i as int]));
        match get_node(reference_tree, &order[i]) {
            Some(node) => match &node.data {
                Data::Mapped { mapped, last_geometry, minimize_rect, .. } => {
                    if !mapped.maximized && (is_swap_mode || !has_window(target_tree, mapped.id)) {
                        fading.push(
                            Fading {
                                window: mapped.id,
                                original: *last_geometry,
                                geometry: draw_at(node, areas),
                                minimize: *minimize_rect,
                            },
                        );
                    }
                },
                _ => {},
            },
            None => {},
        }
        i += 1;
    }
    assert(order@.take(i as int) =~= order@);
    fading
}

/// Where a node was in the tree before.
fn place_before(reference_tree: Option<&Tree<TreeNode>>, key: u64, old_areas: &Vec<NodeArea>) -> (area:
    Option<Rectangle>)
    requires
        reference_tree matches Some(before) ==> model(*before).settled() && model(*before).keyed(),
    ensures
        area == match reference_tree {
            Some(before) => if model(*before).has_key(key) {
                Some(model(*before).drawn_at(model(*before).node_keyed(key), old_areas@))
            } else {
                None
            },
            None => None,
        },
{
    match reference_tree {
        Some(before) => {
            assert(model(*before).regular()) by {
                lemma_sound(model(*before));
            }
            match node_by_key(before, key) {
                Some(id) => {
                    assert(model(*before).has(id) && model(*before).key(id) == key);
                    match get_node(before, &id) {
                        Some(node) => Some(draw_at(node, old_areas)),
                        None => None,
                    }
                },
                None => None,
            }
        },
        None => None,
    }
}

/// The tree before, if any, as the contracts speak of it.
pub open spec fn tree_view(tree: Option<&Tree<TreeNode>>) -> Option<TreeModel> {
    match tree {
        Some(tree) => Some(model(*tree)),
        None => None,
    }
}

/// How a branch is drawn.
fn draw_branch(
    tree: &Tree<TreeNode>,
    top: &NodeId,
    reference_tree: Option<&Tree<TreeNode>>,
    areas: &Vec<NodeArea>,
    old_areas: &Vec<NodeArea>,
    swap: Option<NodeDesc>,
) -> (shown: Vec<Shown>)
    requires
        model(*tree).settled(),
        model(*tree).has(*top),
        reference_tree matches Some(before) ==> model(*before).settled() && model(*before).keyed(),
    ensures
        model(*tree).draws_branch(
            *top,
            tree_view(reference_tree),
            areas@,
            old_areas@,
            swap,
            shown@,
        ),
{
    let ghost shape = model(*tree);
    let ghost before = tree_view(reference_tree);
    assert(shape.forest()) by {
        lemma_sound(shape);
    }
    let order: Vec<NodeId> = preorder_ids(tree, top);
    assert forall|k: int| 0 <= k < order@.len() implies shape.has(#[trigger] order@[k]) by {
        assert(order@.contains(order@[k]));
    }
    let mut shown: Vec<Shown> = Vec::new();
    let mut i: usize = 0;
    assert(order@.take(0) =~= seq![]);
    while i < order.len()
        invariant
            i <= order@.len(),
            shape == model(*tree),
            before == tree_view(reference_tree),
            reference_tree matches Some(before) ==> model(*before).settled() && model(
                *before,
            ).keyed(),
            forall|k: int| 0 <= k < order@.len() ==> shape.has(#[trigger] order@[k]),
            shown@ == shape.shown_of(order@.take(i as int), before, areas@, old_areas@, swap),
        decreases order@.len() - i,
    {
        assert(order@.take(i + 1).drop_last() =~= order@.take(i as int));
        assert(shape.has(order@[i as int]));
        match get_node(tree, &order[i]) {
            Some(node) => {
                let key: u64 = node.key;
                let (window, maximized, rect): (Option<u64>, bool, Option<Rectangle>) =
                    match &node.data {
                    Data::Mapped { mapped, minimize_rect, .. } => (
                        Some(mapped.id),
                        mapped.maximized,
                        *minimize_rect,
                    ),
                    _ => (None, false, None),
                };
                if !maximized {
                    let stays: bool = match swap {
                        Some(swap) => !(swap.node != key && swap.whole),
                        None => false,
                    };
                    let from: Option<Rectangle> = if stays {
                        None
                    } else if rect.is_some() {
                        rect
                    } else {
                        place_before(reference_tree, key, old_areas)
                    };
                    shown.push(
                        Shown {
                            key,
                            window,
                            group: node.data.is_group(),
                            original: node.data.geometry(),
                            target: draw_at(node, areas),
                            from,
                            restored: rect.is_some(),
                        },
                    );
                }
            },
            None => {},
        }
        i += 1;
    }
    assert(order@.take(i as int) =~= order@);
    shown
}

/// How a tree is drawn, and the branch of another tree that waits to be exchanged.
pub fn render_new_tree(
    target_tree: &Tree<TreeNode>,
    reference_tree: Option<&Tree<TreeNode>>,
    areas: &Vec<NodeArea>,
    old_areas: &Vec<NodeArea>,
    swap_tree: Option<&Tree<TreeNode>>,
    swap: Option<NodeDesc>,
) -> (shown: Vec<Shown>)
    requires
        model(*target_tree).settled(),
        reference_tree matches Some(before) ==> model(*before).settled() && model(*before).keyed(),
        swap_tree matches Some(guest) ==> model(*guest).settled() && model(*guest).keyed() && (
        swap matches Some(swap) ==> (swap.whole ==> model(*guest).has_key(swap.node))),
    ensures
        exists|own: Seq<Shown>, other: Seq<Shown>| #[trigger]
            model(*target_tree).draws(
                tree_view(reference_tree),
                tree_view(swap_tree),
                areas@,
                old_areas@,
                swap,
                own,
                other,
            ) && shown@ == own + other,
{
    let ghost shape = model(*target_tree);
    assert(shape.forest()) by {
        lemma_sound(shape);
    }
    let mut shown: Vec<Shown> = match root_id(target_tree) {
        Some(root) => draw_branch(target_tree, &root, reference_tree, areas, old_areas, swap),
        None => Vec::new(),
    };
    let mut other: Vec<Shown> = match (swap_tree, swap) {
        (Some(guest), Some(waiting)) => if waiting.whole {
            assert(model(*guest).regular()) by {
                lemma_sound(model(*guest));
            }
            match node_by_key(guest, waiting.node) {
                Some(top) => draw_branch(guest, &top, reference_tree, areas, old_areas, swap),
                None => Vec::new(),
            }
        } else {
            Vec::new()
        },
        _ => Vec::new(),
    };
    assert(shape.draws(
        tree_view(reference_tree),
        tree_view(swap_tree),
        areas@,
        old_areas@,
        swap,
        shown@,
        other@,
    ));
    shown.append(&mut other);
    shown
}

/// What is known while a layout is drawn.
#[derive(Clone, Copy, Debug, PartialEq, Eq, Structural)]
pub struct DrawState {
    pub is_overview: bool,
    pub is_scrolling: bool,
    /// The key of the node with the focus.
    pub focused: Option<u64>,
    /// The node that waits to be exchanged.
    pub swap: Option<NodeDesc>,
    /// Whether the window that shows in the stack with the focus is the one that waits to be
    /// exchanged, if there is such a stack and such a window.
    pub swap_window_shows: Option<bool>,
    /// The thickness of the frame around the window with the focus.
    pub indicator_thickness: u8,
    /// Whether it is shown which edges can be moved.
    pub resizing: bool,
}

/// How a node is drawn.
#[derive(Clone, Copy, Debug, PartialEq, Eq, Structural)]
pub struct NodeDrawing {
    /// The thickness of the frame around the node.
    pub indicator: Option<u8>,
    /// Whether a filled area is behind a group, and whether it is below everything else.
    pub backdrop: Option<bool>,
    /// How far inside of a group its frame is.
    pub outer_gap: i32,
    /// Whether it is shown that the node would be exchanged with the one that waits.
    pub swap_indicator: bool,
    /// The edges that can be moved.
    pub resize_edges: Option<ResizeEdge>,
    /// Whether the window that waits to be exchanged is dimmed.
    pub overlay: bool,
    pub layer: Layer,
    pub constraint: Constraint,
    /// The size that the contents of a window are drawn with.
    pub max_size: Option<Size>,
    /// Whether what is drawn around a window is drawn for that size too.
    pub from_source: bool,
}

impl TreeModel {
    /// The edges that a node can be resized at, if there are any.
    pub open spec fn edges_of(self, key: u64) -> Option<ResizeEdge> {
        if self.has_key(key) {
            let id = self.node_keyed(key);
            let edges = ResizeEdge {
                left: self.adjacent(id, Direction::Left),
                right: self.adjacent(id, Direction::Right),
                top: self.adjacent(id, Direction::Up),
                bottom: self.adjacent(id, Direction::Down),
            };
            if edges.left || edges.right || edges.top || edges.bottom {
                Some(edges)
            } else {
                None
            }
        } else {
            None
        }
    }

    /// Whether a node is exchanged as a whole, itself or as part of another one.
    pub open spec fn is_swapped(self, key: u64, swap: Option<NodeDesc>) -> bool {
        swap matches Some(swap) && swap.whole && (swap.node == key || !self.has_key(key)
            || self.inside_of(self.node_keyed(key), swap.node))
    }

    /// How a node is drawn at `geometry`. `live` are the tiles that are being resized, and
    /// `committed` is the size of the contents.
    pub open spec fn drawing_of(
        self,
        shown: Shown,
        geometry: Rectangle,
        committed: Size,
        live: Seq<u64>,
        state: DrawState,
    ) -> NodeDrawing {
        let waits = state.swap matches Some(swap) && swap.node == shown.key;
        let focused = state.focused == Some(shown.key);
        let apart = state.swap matches Some(swap) && !swap.whole;
        let framed = (waits || focused) && (state.indicator_thickness > 0 || shown.group);
        let resized = !state.is_overview && live.contains(shown.key);
        NodeDrawing {
            indicator: if framed && (!apart || focused) {
                Some(
                    if shown.group {
                        4
                    } else {
                        state.indicator_thickness
                    },
                )
            } else {
                None
            },
            backdrop: if framed && shown.group {
                Some(focused)
            } else {
                None
            },
            outer_gap: if state.is_overview {
                GAP_KEYBOARD
            } else {
                4
            },
            swap_indicator: framed && focused && (!waits || apart && state.swap_window_shows
                == Some(false)),
            resize_edges: if (waits || focused) && state.resizing {
                self.edges_of(shown.key)
            } else {
                None
            },
            overlay: shown.window is Some && waits && apart && state.swap_window_shows == Some(
                true,
            ),
            layer: if self.is_swapped(shown.key, state.swap) {
                Layer::Swap
            } else if shown.moves() {
                Layer::Moving
            } else {
                Layer::Rest
            },
            constraint: if state.is_overview {
                Constraint::Fit
            } else if shown.moves() || resized {
                Constraint::Stretch
            } else {
                Constraint::CutOff
            },
            max_size: render_max_size(
                state.is_scrolling,
                state.is_overview,
                shown.moves(),
                resized,
                geometry,
                shown.original,
                committed,
            ),
            from_source: resized || animated_width(
                state.is_scrolling,
                state.is_overview,
                shown.moves(),
                geometry,
                shown.original,
            ),
        }
    }
}

/// The edges that a node can be resized at, if there are any.
fn find_edges(tree: &Tree<TreeNode>, key: u64) -> (edges: Option<ResizeEdge>)
    requires
        model(*tree).settled(),
        model(*tree).keyed(),
    ensures
        edges == model(*tree).edges_of(key),
{
    let ghost shape = model(*tree);
    assert(shape.regular() && shape.forest() && shape.groups_branch()) by {
        lemma_sound(shape);
        reveal(TreeModel::regular);
    }
    match node_by_key(tree, key) {
        Some(id) => {
            assert(shape.has(id) && shape.key(id) == key);
            let edges: ResizeEdge = possible_resizes(tree, &id);
            if edges.left || edges.right || edges.top || edges.bottom {
                Some(edges)
            } else {
                None
            }
        },
        None => None,
    }
}

/// Whether a node is exchanged as a whole, itself or as part of another one.
fn is_swapped(tree: &Tree<TreeNode>, key: u64, swap: Option<NodeDesc>) -> (yes: bool)
    requires
        model(*tree).settled(),
        model(*tree).keyed(),
    ensures
        yes == model(*tree).is_swapped(key, swap),
{
    let ghost shape = model(*tree);
    assert(shape.regular() && shape.forest()) by {
        lemma_sound(shape);
    }
    match swap {
        Some(swap) => {
            if !swap.whole {
                return false;
            }
            if swap.node == key {
                return true;
            }
            match node_by_key(tree, key) {
                Some(id) => {
                    assert(shape.has(id) && shape.key(id) == key);
                    match node_by_key(tree, swap.node) {
                        Some(top) => {
                            assert(shape.has(top) && shape.key(top) == swap.node);
                            is_below(tree, &id, &top)
                        },
                        None => false,
                    }
                },
                None => true,
            }
        },
        None => false,
    }
}

/// How a node is drawn at `geometry`. `live` are the tiles that are being resized, and
/// `committed` is the size of the contents.
pub fn draw_node(
    tree: &Tree<TreeNode>,
    shown: &Shown,
    geometry: Rectangle,
    committed: Size,
    live: &Vec<u64>,
    state: DrawState,
) -> (drawing: NodeDrawing)
    requires
        model(*tree).settled(),
        model(*tree).keyed(),
    ensures
        drawing == model(*tree).drawing_of(*shown, geometry, committed, live@, state),
{
    let (waits, apart): (bool, bool) = match state.swap {
        Some(swap) => (swap.node == shown.key, !swap.whole),
        None => (false, false),
    };
    let focused: bool = match state.focused {
        Some(key) => key == shown.key,
        None => false,
    };
    let framed: bool = (waits || focused) && (state.indicator_thickness > 0 || shown.group);
    let resized: bool = !state.is_overview && contains_item(live, shown.key);
    let (other_shows, same_shows): (bool, bool) = match state.swap_window_shows {
        Some(shows) => (!shows, shows),
        None => (false, false),
    };
    let animating: bool = shown.is_animating();
    NodeDrawing {
        indicator: if framed && (!apart || focused) {
            Some(
                if shown.group {
                    4
                } else {
                    state.indicator_thickness
                },
            )
        } else {
            None
        },
        backdrop: if framed && shown.group {
            Some(focused)
        } else {
            None
        },
        outer_gap: if state.is_overview {
            GAP_KEYBOARD
        } else {
            4
        },
        swap_indicator: framed && focused && (!waits || apart && other_shows),
        resize_edges: if (waits || focused) && state.resizing {
            find_edges(tree, shown.key)
        } else {
            None
        },
        overlay: shown.window.is_some() && waits && apart && same_shows,
        layer: if is_swapped(tree, shown.key, state.swap) {
            Layer::Swap
        } else if animating {
            Layer::Moving
        } else {
            Layer::Rest
        },
        constraint: if state.is_overview {
            Constraint::Fit
        } else if animating || resized {
            Constraint::Stretch
        } else {
            Constraint::CutOff
        },
        max_size: tiled_window_render_max_size(
            state.is_scrolling,
            state.is_overview,
            animating,
            resized,
            geometry,
            shown.original,
            committed,
        ),
        from_source: resized || tiled_window_has_animated_width(
            state.is_scrolling,
            state.is_overview,
            animating,
            geometry,
            shown.original,
        ),
    }
}

impl TreeModel {
    /// Whether this is the node that is drawn with the focus: a group with the keyboard focus,
    /// or else the node of the window with the focus.
    pub open spec fn draws_focus(
        self,
        focus: Option<KeyboardFocusView>,
        focused: Option<(u64, u64)>,
        key: Option<u64>,
    ) -> bool {
        match focus {
            Some(KeyboardFocusView::Group { node, .. }) => key == if self.has_group(node) {
                Some(node)
            } else {
                None
            },
            _ => key == match focused {
                Some((node, window)) => if self.has_key(node) && self.data(
                    self.node_keyed(node),
                ).is_window(window) {
                    Some(node)
                } else {
                    None
                },
                None => None,
            },
        }
    }

    /// The area of the node that is drawn with the focus, or else all of what there is room for.
    pub open spec fn focus_area(self, key: Option<u64>, areas: Seq<NodeArea>, zone: Rectangle) -> Rectangle {
        let border = WINDOW_BACKDROP_BORDER;
        let rest = zone.inset(border, border, border, border);
        match key {
            Some(key) => match area_from(areas, key, 0) {
                Some(area) => area,
                None => if self.has_key(key) {
                    self.data(self.node_keyed(key)).geometry()
                } else {
                    rest
                },
            },
            None => rest,
        }
    }
}

/// The key of the node that is drawn with the focus. `focused` is the window with the focus, with
/// the key of its node.
pub fn drawn_focus(tree: &Tree<TreeNode>, focus: &Option<KeyboardFocus>, focused: Option<(u64, u64)>) -> (key:
    Option<u64>)
    requires
        model(*tree).settled(),
        model(*tree).keyed(),
    ensures
        model(*tree).draws_focus(focus_view(*focus), focused, key),
{
    let ghost shape = model(*tree);
    assert(shape.regular()) by {
        lemma_sound(shape);
    }
    match focus {
        Some(KeyboardFocus::Group { node, .. }) => match node_by_key(tree, *node) {
            Some(id) => {
                assert(shape.has(id) && shape.key(id) == *node);
                match get_node(tree, &id) {
                    Some(found) => if found.data.is_group() {
                        Some(*node)
                    } else {
                        None
                    },
                    None => None,
                }
            },
            None => None,
        },
        _ => match focused {
            Some((node, window)) => match node_by_key(tree, node) {
                Some(id) => {
                    assert(shape.has(id) && shape.key(id) == node);
                    match get_node(tree, &id) {
                        Some(found) => if found.data.is_mapped(Some(window)) {
                            Some(node)
                        } else {
                            None
                        },
                        None => None,
                    }
                },
                None => None,
            },
            None => None,
        },
    }
}

/// The area of the node that is drawn with the focus, or else all of what there is room for.
pub fn focus_area(tree: &Tree<TreeNode>, key: Option<u64>, areas: &Vec<NodeArea>, zone: Rectangle) -> (area:
    Rectangle)
    requires
        model(*tree).settled(),
        model(*tree).keyed(),
    ensures
        area == model(*tree).focus_area(key, areas@, zone),
{
    let ghost shape = model(*tree);
    assert(shape.regular()) by {
        lemma_sound(shape);
    }
    let border: i32 = WINDOW_BACKDROP_BORDER;
    let rest: Rectangle = zone.shrunk_by(border, border, border, border);
    match key {
        Some(key) => match area_keyed(areas, key) {
            Some(area) => area,
            None => match node_by_key(tree, key) {
                Some(id) => {
                    assert(shape.has(id) && shape.key(id) == key);
                    match get_node(tree, &id) {
                        Some(node) => node.data.geometry(),
                        None => rest,
                    }
                },
                None => rest,
            },
        },
        None => rest,
    }
}

/// How the nodes of a tree are drawn, and what is drawn where a swap goes to an empty workspace.
#[derive(Debug)]
pub struct TreeDrawing {
    pub nodes: Vec<NodeDrawing>,
    pub placeholder: Option<Rectangle>,
}

/// How nodes are drawn: node `i` at `geometries[i]`, with contents of the size `committed[i]`.
pub fn render_new_tree_windows(
    tree: &Tree<TreeNode>,
    shown: &Vec<Shown>,
    geometries: &Vec<Rectangle>,
    committed: &Vec<Size>,
    areas: &Vec<NodeArea>,
    zone: Rectangle,
    live: &Vec<u64>,
    state: DrawState,
) -> (drawing: TreeDrawing)
    requires
        model(*tree).settled(),
        model(*tree).keyed(),
        shown@.len() == geometries@.len(),
        shown@.len() == committed@.len(),
    ensures
        drawing.nodes@ == Seq::new(
            shown@.len(),
            |i: int|
                model(*tree).drawing_of(shown@[i], geometries@[i], committed@[i], live@, state),
        ),
        drawing.placeholder == if model(*tree).root is None && state.swap is Some {
            Some(model(*tree).focus_area(state.focused, areas@, zone))
        } else {
            None
        },
{
    let mut nodes: Vec<NodeDrawing> = Vec::new();
    let mut i: usize = 0;
    while i < shown.len()
        invariant
            i <= shown@.len(),
            shown@.len() == geometries@.len(),
            shown@.len() == committed@.len(),
            model(*tree).settled(),
            model(*tree).keyed(),
            nodes@.len() == i,
            forall|k: int|
                0 <= k < i ==> #[trigger] nodes@[k] == model(*tree).drawing_of(
                    shown@[k],
                    geometries@[k],
                    committed@[k],
                    live@,
                    state,
                ),
        decreases shown@.len() - i,
    {
        nodes.push(draw_node(tree, &shown[i], geometries[i], committed[i], live, state));
        i += 1;
    }
    assert(nodes@ =~= Seq::new(
        shown@.len(),
        |i: int| model(*tree).drawing_of(shown@[i], geometries@[i], committed@[i], live@, state),
    ));
    let placeholder: Option<Rectangle> = if root_id(tree).is_none() && state.swap.is_some() {
        Some(focus_area(tree, state.focused, areas, zone))
    } else {
        None
    };
    TreeDrawing { nodes, placeholder }
}

/// Where a window of a stack comes from and goes to while it waits to be exchanged. It comes from
/// the area of the stack in `focused`, shortened by the tabs, which are `tabs` high, and moved to
/// the right by as much.
pub fn stack_swap_areas(focused: Rectangle, size: Size, tabs: i32) -> (areas: (Rectangle, Rectangle))
    ensures
        areas.0 == Rectangle::of(
            plus(focused.loc.x as int, tabs as int),
            focused.loc.y,
            focused.size.w,
            minus(focused.size.h as int, tabs as int),
        ),
        areas.1 == swap_area(size, focused),
{
    (
        Rectangle::new(
            add_saturating(focused.loc.x, tabs),
            focused.loc.y,
            focused.size.w,
            sub_saturating(focused.size.h, tabs),
        ),
        swap_geometry(size, focused),
    )
}

/// The thickness of the frame around the window with the focus on the way to an overview. `change`
/// is how far it is on the way to four pixels.
pub fn overview_thickness(thickness: u8, change: u8) -> (result: u8)
    requires
        thickness < 4 ==> change <= 4 - thickness,
        thickness >= 4 ==> change <= thickness - 4,
    ensures
        result == if thickness < 3 {
            thickness + change
        } else {
            thickness - change
        },
{
    if thickness < 3 {
        thickness + change
    } else {
        thickness - change
    }
}

/// A layout as it is drawn.
#[derive(Debug)]
pub struct Scene {
    pub fading: Vec<Fading>,
    pub shown: Vec<Shown>,
    /// The areas of the nodes in an overview.
    pub areas: Vec<NodeArea>,
    pub decorations: Vec<Decoration>,
    /// The tiles that are being resized.
    pub live: Vec<u64>,
}

/// The windows of a layout whose popups are drawn.
#[derive(Debug)]
pub struct PopupScene {
    pub fading: Vec<Fading>,
    pub shown: Vec<Shown>,
}

/// The windows among what is drawn.
pub open spec fn windows_among(shown: Seq<Shown>) -> Seq<Shown>
    decreases shown.len(),
{
    if shown.len() == 0 {
        seq![]
    } else {
        let rest = windows_among(shown.drop_last());
        if shown.last().window is Some {
            rest.push(shown.last())
        } else {
            rest
        }
    }
}

impl QueueView {
    /// The tree that is shown, or that a transition leads to.
    pub open spec fn drawn(self) -> TreeModel {
        if self.animation_start is Some {
            self.trees[1].tree
        } else {
            self.trees[0].tree
        }
    }

    /// The tree that a transition comes from.
    pub open spec fn drawn_before(self) -> Option<TreeModel> {
        if self.animation_start is Some {
            Some(self.trees[0].tree)
        } else {
            None
        }
    }
}

/// What is asked for in an overview.
#[derive(Clone, Copy, Debug, PartialEq, Eq, Structural)]
pub struct RenderState {
    pub zone: Rectangle,
    pub overview: Option<Overview>,
    /// Whether this is the output that the user works on.
    pub active_output: bool,
    pub swap: Option<NodeDesc>,
}

/// Whether these are the areas in an overview, if there is one.
pub open spec fn overview_areas(
    tree: TreeModel,
    guest: Option<TreeModel>,
    focus: Option<KeyboardFocusView>,
    state: RenderState,
    eased: Seq<EasedArea>,
    view: GroupView,
) -> bool {
    match state.overview {
        Some(asked) => tree.shows_for(guest, state.zone, focus, asked, eased, view),
        None => view.is_bare(),
    }
}

impl LayoutView {
    /// Whether these windows fade out.
    pub open spec fn fades_out(
        self,
        guest: Option<TreeModel>,
        focus: Option<KeyboardFocusView>,
        state: RenderState,
        old_eased: Seq<EasedArea>,
        old_view: GroupView,
        fading: Seq<Fading>,
    ) -> bool {
        match self.queue.drawn_before() {
            Some(before) => overview_areas(before, guest, focus, state, old_eased, old_view)
                && before.fades(self.queue.drawn(), old_view.areas@, state.swap is Some, fading),
            None => old_view.is_bare() && fading.len() == 0,
        }
    }

    /// Whether this is how the layout is drawn.
    pub open spec fn renders(
        self,
        guest: Option<TreeModel>,
        focus: Option<KeyboardFocusView>,
        state: RenderState,
        old_eased: Seq<EasedArea>,
        eased: Seq<EasedArea>,
        old_view: GroupView,
        view: GroupView,
        own: Seq<Shown>,
        other: Seq<Shown>,
        scene: Scene,
    ) -> bool {
        &&& self.fades_out(guest, focus, state, old_eased, old_view, scene.fading@)
        &&& overview_areas(self.queue.drawn(), guest, focus, state, eased, view)
        &&& self.queue.drawn().draws(
            self.queue.drawn_before(),
            if state.active_output {
                guest
            } else {
                None
            },
            view.areas@,
            old_view.areas@,
            if state.active_output {
                state.swap
            } else {
                None
            },
            own,
            other,
        )
        &&& scene.shown@ == own + other
        &&& scene.areas@ == view.areas@
        &&& scene.decorations@ == view.decorations@
        &&& scene.live@ == match self.live {
            Some(live) => if self.engine is Scrolling {
                live.tiles
            } else {
                seq![]
            },
            None => seq![],
        }
    }
}

/// The areas in an overview, if there is one.
fn view_of(
    tree: &Tree<TreeNode>,
    guest: Option<&Tree<TreeNode>>,
    focus: &Option<KeyboardFocus>,
    state: RenderState,
    eased: &Vec<EasedArea>,
) -> (view: GroupView)
    requires
        model(*tree).settled(),
        model(*tree).keyed(),
        guest matches Some(guest) ==> model(*guest).settled() && model(*guest).keyed() && (
        state.overview matches Some(asked) ==> (asked.swap matches Some(swap) ==> (swap.whole
            ==> model(*guest).has_key(swap.node)))),
    ensures
        overview_areas(
            model(*tree),
            tree_view(guest),
            focus_view(*focus),
            state,
            eased@,
            view,
        ),
{
    match state.overview {
        Some(asked) => geometries_for_groupview(tree, state.zone, focus, asked, guest, eased),
        None => GroupView { areas: Vec::new(), decorations: Vec::new(), moves: Vec::new() },
    }
}

impl TilingLayout {
    /// What of the layout is drawn. `guest` is the tree that a node that waits to be exchanged
    /// comes from, and `old_eased` and `eased` are the areas of what is on its way in the tree
    /// before a transition and in the one that is shown.
    pub fn render(
        &self,
        focus: &Option<KeyboardFocus>,
        state: RenderState,
        guest: Option<&Tree<TreeNode>>,
        old_eased: &Vec<EasedArea>,
        eased: &Vec<EasedArea>,
    ) -> (scene: Scene)
        requires
            self@.ready(),
            guest matches Some(guest) ==> model(*guest).settled() && model(*guest).keyed() && (
            state.overview matches Some(asked) ==> (asked.swap matches Some(swap) ==> (swap.whole
                ==> model(*guest).has_key(swap.node)))) && (state.swap matches Some(swap) ==> (
            swap.whole ==> model(*guest).has_key(swap.node))),
        ensures
            exists|old_view: GroupView, view: GroupView, own: Seq<Shown>, other: Seq<Shown>|
                #[trigger] self@.renders(
                    tree_view(guest),
                    focus_view(*focus),
                    state,
                    old_eased@,
                    eased@,
                    old_view,
                    view,
                    own,
                    other,
                    scene,
                ),
    {
        let moving: bool = self.queue.animation_start.is_some();
        let at: usize = if moving {
            1
        } else {
            0
        };
        assert(self@.queue.trees[0] == self.queue.trees@[0]@);
        assert(self@.queue.trees[at as int] == self.queue.trees@[at as int]@);
        assert(self@.queue.trees[0].tree.settled() && self@.queue.trees[at as int].tree.settled());
        let target: &Tree<TreeNode> = &self.queue.trees[at].tree;
        let before: Option<&Tree<TreeNode>> = if moving {
            Some(&self.queue.trees[0].tree)
        } else {
            None
        };
        let (old_view, fading): (GroupView, Vec<Fading>) = match before {
            Some(before) => {
                let view: GroupView = view_of(before, guest, focus, state, old_eased);
                let fading: Vec<Fading> = render_old_tree(
                    before,
                    target,
                    &view.areas,
                    state.swap.is_some(),
                );
                (view, fading)
            },
            None => (
                GroupView { areas: Vec::new(), decorations: Vec::new(), moves: Vec::new() },
                Vec::new(),
            ),
        };
        let view: GroupView = view_of(target, guest, focus, state, eased);
        let (visitor, swap): (Option<&Tree<TreeNode>>, Option<NodeDesc>) = if state.active_output {
            (guest, state.swap)
        } else {
            (None, None)
        };
        let shown: Vec<Shown> = render_new_tree(
            target,
            before,
            &view.areas,
            &old_view.areas,
            visitor,
            swap,
        );
        let ghost (own, other) = choose|own: Seq<Shown>, other: Seq<Shown>| #[trigger]
            model(*target).draws(
                tree_view(before),
                tree_view(visitor),
                view.areas@,
                old_view.areas@,
                swap,
                own,
                other,
            ) && shown@ == own + other;
        let live: Vec<u64> = match &self.scrolling_live_resize {
            Some(live) => if self.tiling_engine == TilingEngine::Scrolling {
                copy_items(&live.tiles)
            } else {
                Vec::new()
            },
            None => Vec::new(),
        };
        let ghost ended = view;
        let scene: Scene = Scene {
            fading,
            shown,
            areas: view.areas,
            decorations: view.decorations,
            live,
        };
        assert(self@.renders(
            tree_view(guest),
            focus_view(*focus),
            state,
            old_eased@,
            eased@,
            old_view,
            ended,
            own,
            other,
            scene,
        ));
        scene
    }

    /// The windows whose popups are drawn, and where: those that fade out, and those among what
    /// is drawn.
    pub fn render_popups(
        &self,
        focus: &Option<KeyboardFocus>,
        state: RenderState,
        guest: Option<&Tree<TreeNode>>,
        old_eased: &Vec<EasedArea>,
        eased: &Vec<EasedArea>,
    ) -> (popups: PopupScene)
        requires
            self@.ready(),
            guest matches Some(guest) ==> model(*guest).settled() && model(*guest).keyed() && (
            state.overview matches Some(asked) ==> (asked.swap matches Some(swap) ==> (swap.whole
                ==> model(*guest).has_key(swap.node)))) && (state.swap matches Some(swap) ==> (
            swap.whole ==> model(*guest).has_key(swap.node))),
        ensures
            exists|old_view: GroupView, view: GroupView, own: Seq<Shown>, other: Seq<Shown>, scene: Scene|
                #[trigger] self@.renders(
                    tree_view(guest),
                    focus_view(*focus),
                    state,
                    old_eased@,
                    eased@,
                    old_view,
                    view,
                    own,
                    other,
                    scene,
                ) && popups.fading@ == scene.fading@ && popups.shown@ == windows_among(
                    scene.shown@,
                ),
    {
        let scene: Scene = self.render(focus, state, guest, old_eased, eased);
        let mut shown: Vec<Shown> = Vec::new();
        let mut i: usize = 0;
        assert(scene.shown@.take(0) =~= seq![]);
        while i < scene.shown.len()
            invariant
                i <= scene.shown@.len(),
                shown@ == windows_among(scene.shown@.take(i as int)),
            decreases scene.shown@.len() - i,
        {
            assert(scene.shown@.take(i as int + 1).drop_last() =~= scene.shown@.take(i as int));
            if scene.shown[i].window.is_some() {
                shown.push(scene.shown[i]);
            }
            i += 1;
        }
        assert(scene.shown@.take(scene.shown@.len() as int) =~= scene.shown@);
        let ghost whole = scene;
        let ghost (old_view, view, own, other) = choose|
            old_view: GroupView,
            view: GroupView,
            own: Seq<Shown>,
            other: Seq<Shown>,
        | #[trigger]
            self@.renders(
                tree_view(guest),
                focus_view(*focus),
                state,
                old_eased@,
                eased@,
                old_view,
                view,
                own,
                other,
                whole,
            );
        PopupScene { fading: scene.fading, shown }
    }

    /// How far a transition is: the time since it started and the time that it takes, in
    /// milliseconds. Without one there is none.
    pub fn progress(&self, now: u64) -> (progress: Option<(u64, u64)>)
        requires
            self@.queue.wf(),
        ensures
            progress == match self@.queue.animation_start {
                Some(start) => Some(
                    (
                        if now > start {
                            (now - start) as u64
                        } else {
                            0
                        },
                        self@.queue.trees[1].duration,
                    ),
                ),
                None => None,
            },
    {
        match self.queue.animation_start {
            Some(start) => {
                assert(self@.queue.trees[1] == self.queue.trees@[1]@);
                let since: u64 = if now > start {
                    now - start
                } else {
                    0
                };
                Some((since, self.queue.trees[1].duration))
            },
            None => None,
        }
    }
}

} // verus!
