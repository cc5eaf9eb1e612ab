//! The scrolling layout: a strip of columns, seen through the usable area of an output.

use vstd::prelude::*;

use id_tree::{NodeId, Tree};

use crate::actions::{Direction, FocusDirection, ResizeDirection};
use crate::classic::Configure;
use crate::columns::{copy_items, ColumnDropTarget, ColumnModel, ColumnResizeAnchor, TileMove};
use crate::data::{Data, DataView};
use crate::geometry::{add_saturating, larger, Rectangle};
use crate::laws::law_reconciled;
use crate::placement::{
    all_nodes, arrange_tiles, find_key, first_active, lemma_node_keyed, lemma_scrolled_sound,
    scrolling_viewport, tile_keys, viewport_area, LiveResize,
};
use crate::strip::Strip;
use crate::tree::{get_node, model, root_id, visits, TreeModel, TreeNode};
use crate::units::{round_ratio, saturate_i32, to_nearest_pixel, Float64, SUBPIXEL};

verus! {

/// Where the focus goes on the strip.
#[derive(Clone, Copy, Debug, PartialEq, Eq, Structural)]
pub enum FocusNavigation {
    Target(u64),
    Edge,
    Unavailable,
}

/// The scrolling layout of a workspace.
#[derive(Debug)]
pub struct ScrollingLayout {
    pub model: ColumnModel,
    /// The tile whose column the next geometry update centers.
    pub pending_center: Option<u64>,
}

/// The scrolling layout, as the contracts speak of it.
#[verifier::ext_equal]
pub struct ScrollView {
    pub strip: Strip,
    pub pending_center: Option<u64>,
}

impl View for ScrollingLayout {
    type V = ScrollView;

    open spec fn view(&self) -> ScrollView {
        ScrollView { strip: self.model@, pending_center: self.pending_center }
    }
}

impl Default for ScrollingLayout {
    fn default() -> (layout: Self)
        ensures
            layout@ == (ScrollView { strip: Strip::empty(), pending_center: None }),
            layout@.strip.wf(),
            layout@.strip.tidy(),
    {
        ScrollingLayout::new()
    }
}

impl TreeModel {
    /// The area of the window or placeholder with this key.
    pub open spec fn tile_geometry(self, tile: u64) -> Option<Rectangle> {
        if self.has_key(tile) {
            match self.data(self.node_keyed(tile)) {
                DataView::Group { .. } => None,
                DataView::Mapped { last_geometry, .. } => Some(last_geometry),
                DataView::Placeholder { last_geometry, .. } => Some(last_geometry),
            }
        } else {
            None
        }
    }

    /// Whether the node with this key is a window.
    pub open spec fn shows_window(self, tile: u64) -> bool {
        self.has_key(tile) && self.data(self.node_keyed(tile)) is Mapped
    }
}

impl Strip {
    /// The strip after a geometry update for these tiles and this viewport. An update that
    /// keeps the viewport brings only one back onto the strip that the user positioned, and not
    /// during a resize.
    pub open spec fn updated(
        self,
        pending_center: Option<u64>,
        tiles: Seq<u64>,
        activated: Option<u64>,
        viewport: Rectangle,
        gap: int,
        requested: Option<u64>,
        preserve: bool,
        live: bool,
    ) -> Strip {
        let sized = Strip {
            column_height: viewport.size.h as int,
            ..self.reconciled(tiles).measured(viewport.size.w as int, gap)
        };
        if preserve {
            if sized.columns.len() == 0 {
                sized
            } else {
                let kept = Strip { viewport_x: self.viewport_x, ..sized };
                if !live && kept.user_positioned_viewport {
                    kept.clamped()
                } else {
                    kept
                }
            }
        } else {
            let shown = sized.preferred_revealed(requested, activated);
            match pending_center {
                Some(tile) if shown.contains(tile) => shown.centered(tile),
                _ => shown.only_tile_centered(),
            }
        }
    }

    /// Where the focus goes from a tile.
    pub open spec fn navigated(self, tree: TreeModel, tile: u64, direction: FocusDirection) -> FocusNavigation {
        let target = match direction {
            FocusDirection::Left => self.beside(tile, -1),
            FocusDirection::Right => self.beside(tile, 1),
            FocusDirection::Up => self.below(tile, -1),
            FocusDirection::Down => self.below(tile, 1),
            _ => None,
        };
        if direction is In || direction is Out {
            FocusNavigation::Unavailable
        } else {
            match target {
                None => if self.contains(tile) {
                    FocusNavigation::Edge
                } else {
                    FocusNavigation::Unavailable
                },
                Some(found) => if tree.shows_window(found) {
                    FocusNavigation::Target(found)
                } else {
                    FocusNavigation::Unavailable
                },
            }
        }
    }

    /// The first of the tiles, from `start` on, that is on the strip and has an area.
    pub open spec fn first_shown(self, tree: TreeModel, tiles: Seq<u64>, start: int) -> Option<u64>
        decreases tiles.len() - start,
    {
        if start < 0 || start >= tiles.len() {
            None
        } else if self.contains(tiles[start]) && tree.tile_geometry(tiles[start]) is Some {
            Some(tiles[start])
        } else {
            self.first_shown(tree, tiles, start + 1)
        }
    }

    /// The tile that shows where the viewport is: the focused one, or else the first one with
    /// an area.
    pub open spec fn viewport_anchor(self, tree: TreeModel) -> Option<u64> {
        match self.focused {
            Some(tile) if self.contains(tile) && tree.tile_geometry(tile) is Some => Some(tile),
            _ => self.first_shown(tree, self.tiles(), 0),
        }
    }

    /// The strip with the viewport where the areas in the tree show it.
    pub open spec fn synced(self, tree: TreeModel, origin_x: i32) -> Strip {
        match self.viewport_anchor(tree) {
            Some(tile) => {
                let (column, _) = self.position(tile)->0;
                let area = tree.tile_geometry(tile)->0;
                Strip {
                    viewport_x: SUBPIXEL * origin_x + self.left_edge(column) - SUBPIXEL
                        * area.loc.x,
                    ..self
                }
            },
            None => self,
        }
    }
}

/// The area of the window or placeholder with this key.
pub fn tile_geometry(tree: &Tree<TreeNode>, tile: u64) -> (area: Option<Rectangle>)
    requires
        model(*tree).regular(),
        model(*tree).keyed(),
    ensures
        area == model(*tree).tile_geometry(tile),
{
    let ghost shape = model(*tree);
    let root: NodeId = match root_id(tree) {
        Some(root) => root,
        None => {
            proof {
                crate::classic::lemma_empty(shape);
            }
            return None;
        },
    };
    let order: Vec<NodeId> = all_nodes(tree, &root);
    match find_key(tree, &order, tile) {
        Some(id) => {
            proof {
                lemma_node_keyed(shape, id);
            }
            match get_node(tree, &id) {
                Some(node) => match &node.data {
                    Data::Group { .. } => None,
                    Data::Mapped { last_geometry, .. } => Some(*last_geometry),
                    Data::Placeholder { last_geometry, .. } => Some(*last_geometry),
                },
                None => None,
            }
        },
        None => {
            assert forall|id: NodeId| shape.has(id) implies #[trigger] shape.key(id) != tile by {
                let i = order@.index_of(id);
                assert(order@[i] == id);
            }
            None
        },
    }
}

/// Whether the node with this key is a window.
pub(crate) fn shows_window(tree: &Tree<TreeNode>, tile: u64) -> (yes: bool)
    requires
        model(*tree).regular(),
        model(*tree).keyed(),
    ensures
        yes == model(*tree).shows_window(tile),
{
    let ghost shape = model(*tree);
    let root: NodeId = match root_id(tree) {
        Some(root) => root,
        None => {
            proof {
                crate::classic::lemma_empty(shape);
            }
            return false;
        },
    };
    let order: Vec<NodeId> = all_nodes(tree, &root);
    match find_key(tree, &order, tile) {
        Some(id) => {
            proof {
                lemma_node_keyed(shape, id);
            }
            match get_node(tree, &id) {
                Some(node) => node.data.is_mapped(None),
                None => false,
            }
        },
        None => {
            assert forall|id: NodeId| shape.has(id) implies #[trigger] shape.key(id) != tile by {
                let i = order@.index_of(id);
                assert(order@[i] == id);
            }
            false
        },
    }
}

impl ScrollingLayout {
    /// A layout without columns.
    pub fn new() -> (layout: ScrollingLayout)
        ensures
            layout@ == (ScrollView { strip: Strip::empty(), pending_center: None }),
            layout@.strip.wf(),
            layout@.strip.tidy(),
    {
        ScrollingLayout { model: ColumnModel::default(), pending_center: None }
    }

    /// Reconciles the strip with the tiles of the tree and applies its geometry to the tree.
    /// Returns what the windows are asked to do.
    pub fn update_positions(
        &mut self,
        tree: &mut Tree<TreeNode>,
        usable: Rectangle,
        gaps: (i32, i32),
    ) -> (configures: Vec<Configure>)
        requires
            old(self)@.strip.wf(),
            model(*old(tree)).regular(),
            model(*old(tree)).keyed(),
        ensures
            old(self)@.arranged(
                final(self)@,
                model(*old(tree)),
                model(*final(tree)),
                configures@,
                usable,
                gaps,
                None,
                false,
                None,
            ),
            final(self)@.strip.wf(),
            model(*old(tree)).forest() ==> model(*final(tree)).forest(),
            model(*old(tree)).sound() ==> model(*final(tree)).sound(),
            model(*old(tree)).settled() ==> model(*final(tree)).settled(),
            model(*final(tree)).keyed(),
    {
        self.update_positions_ensuring(tree, usable, gaps, None)
    }

    /// Applies the geometry while preferring a requested tile over the activated one, which
    /// can be stale for a moment.
    pub fn update_positions_ensuring(
        &mut self,
        tree: &mut Tree<TreeNode>,
        usable: Rectangle,
        gaps: (i32, i32),
        requested_focus: Option<u64>,
    ) -> (configures: Vec<Configure>)
        requires
            old(self)@.strip.wf(),
            model(*old(tree)).regular(),
            model(*old(tree)).keyed(),
        ensures
            old(self)@.arranged(
                final(self)@,
                model(*old(tree)),
                model(*final(tree)),
                configures@,
                usable,
                gaps,
                requested_focus,
                false,
                None,
            ),
            final(self)@.strip.wf(),
            model(*old(tree)).forest() ==> model(*final(tree)).forest(),
            model(*old(tree)).sound() ==> model(*final(tree)).sound(),
            model(*old(tree)).settled() ==> model(*final(tree)).settled(),
            model(*final(tree)).keyed(),
    {
        self.update_positions_internal(tree, usable, gaps, requested_focus, false, &None)
    }

    /// Applies the geometry without moving the viewport that a grab chose. One that the user
    /// positioned stays on the strip.
    pub fn update_positions_preserving_viewport(
        &mut self,
        tree: &mut Tree<TreeNode>,
        usable: Rectangle,
        gaps: (i32, i32),
    ) -> (configures: Vec<Configure>)
        requires
            old(self)@.strip.wf(),
            model(*old(tree)).regular(),
            model(*old(tree)).keyed(),
        ensures
            old(self)@.arranged(
                final(self)@,
                model(*old(tree)),
                model(*final(tree)),
                configures@,
                usable,
                gaps,
                None,
                true,
                None,
            ),
            final(self)@.strip.wf(),
            model(*old(tree)).forest() ==> model(*final(tree)).forest(),
            model(*old(tree)).sound() ==> model(*final(tree)).sound(),
            model(*old(tree)).settled() ==> model(*final(tree)).settled(),
            model(*final(tree)).keyed(),
    {
        self.update_positions_internal(tree, usable, gaps, None, true, &None)
    }

    /// Applies the geometry of a resize that follows the pointer. Only the resized tiles are
    /// told of their sizes: during motion after they committed the one before, and at release.
    pub fn update_positions_for_live_resize(
        &mut self,
        tree: &mut Tree<TreeNode>,
        usable: Rectangle,
        gaps: (i32, i32),
        resize: LiveResize,
    ) -> (configures: Vec<Configure>)
        requires
            old(self)@.strip.wf(),
            model(*old(tree)).regular(),
            model(*old(tree)).keyed(),
        ensures
            old(self)@.arranged(
                final(self)@,
                model(*old(tree)),
                model(*final(tree)),
                configures@,
                usable,
                gaps,
                None,
                true,
                Some(resize),
            ),
            final(self)@.strip.wf(),
            model(*old(tree)).forest() ==> model(*final(tree)).forest(),
            model(*old(tree)).sound() ==> model(*final(tree)).sound(),
            model(*old(tree)).settled() ==> model(*final(tree)).settled(),
            model(*final(tree)).keyed(),
    {
        self.update_positions_internal(tree, usable, gaps, None, true, &Some(resize))
    }

    fn update_positions_internal(
        &mut self,
        tree: &mut Tree<TreeNode>,
        usable: Rectangle,
        gaps: (i32, i32),
        requested_focus: Option<u64>,
        preserve_viewport: bool,
        live_resize: &Option<LiveResize>,
    ) -> (configures: Vec<Configure>)
        requires
            old(self)@.strip.wf(),
            model(*old(tree)).regular(),
            model(*old(tree)).keyed(),
        ensures
            old(self)@.arranged(
                final(self)@,
                model(*old(tree)),
                model(*final(tree)),
                configures@,
                usable,
                gaps,
                requested_focus,
                preserve_viewport,
                *live_resize,
            ),
            final(self)@.strip.wf(),
            model(*old(tree)).forest() ==> model(*final(tree)).forest(),
            model(*old(tree)).sound() ==> model(*final(tree)).sound(),
            model(*old(tree)).settled() ==> model(*final(tree)).settled(),
            model(*final(tree)).keyed(),
    {
        let ghost before = self@;
        let ghost shape = model(*tree);
        let requested_center: Option<u64> = self.pending_center;
        self.pending_center = None;
        let preserved: i128 = self.model.viewport_x;
        let root: NodeId = match root_id(tree) {
            Some(root) => root,
            None => {
                let none: [u64; 0] = [];
                self.model.reconcile(none.as_slice());
                assert(none@ =~= Seq::<u64>::empty());
                return Vec::new();
            },
        };
        let order: Vec<NodeId> = all_nodes(tree, &root);
        let activated: Option<u64> = first_active(tree, &order);
        let tiles: Vec<u64> = tile_keys(tree, &order);
        self.model.reconcile(tiles.as_slice());
        let ghost reconciled = self@.strip;
        proof {
            law_reconciled(before.strip, tiles@);
        }
        let viewport: Rectangle = scrolling_viewport(usable, gaps);
        self.model.set_metrics(viewport.size.w, larger(gaps.1, 0));
        self.model.set_column_height(viewport.size.h);
        let ghost sized = self@.strip;
        assert(sized.columns == reconciled.columns);
        if preserve_viewport {
            if self.model.columns.len() > 0 {
                self.model.viewport_x = preserved;
                assert(self@.strip =~~= (Strip { viewport_x: preserved as int, ..sized }));
                if live_resize.is_none() && self.model.user_positioned_viewport {
                    self.model.clamp_viewport();
                }
            }
        } else {
            self.model.ensure_preferred_visible(requested_focus, activated);
            match requested_center {
                Some(tile) if self.model.contains(tile) => {
                    self.model.center_column(tile);
                },
                _ => {
                    self.model.center_only_tile();
                },
            }
        }
        proof {
            assert(self@.strip.columns == reconciled.columns);
            assert forall|tile: u64| #[trigger]
                self@.strip.contains(tile) <==> shape.tile_keys(order@).contains(tile) by {
                assert(reconciled.contains(tile) <==> tiles@.contains(tile));
            }
        }
        let configures: Vec<Configure> = arrange_tiles(
            tree,
            &order,
            &root,
            &self.model,
            viewport.loc,
            live_resize,
        );
        proof {
            lemma_scrolled_sound(shape, model(*tree), self@.strip, viewport.loc);
            assert(before.arranged_over(
                self@,
                shape,
                model(*tree),
                configures@,
                order@,
                usable,
                gaps,
                requested_focus,
                preserve_viewport,
                *live_resize,
            ));
        }
        configures
    }
}

impl ScrollView {
    /// Whether `after` is this layout after a geometry update for the tiles among the nodes
    /// `order`, `tree_after` the tree with the strip brought into it, and `configures` what
    /// the windows are asked to do.
    pub open spec fn arranged_over(
        self,
        after: ScrollView,
        tree: TreeModel,
        tree_after: TreeModel,
        configures: Seq<Configure>,
        order: Seq<NodeId>,
        usable: Rectangle,
        gaps: (i32, i32),
        requested: Option<u64>,
        preserve: bool,
        live: Option<LiveResize>,
    ) -> bool {
        let viewport = viewport_area(usable, gaps);
        &&& visits(tree.nodes, seq![tree.root->0], order)
        &&& after.pending_center is None
        &&& after.strip == self.strip.updated(
            self.pending_center,
            tree.tile_keys(order),
            tree.first_active(order),
            viewport,
            if gaps.1 > 0 {
                gaps.1 as int
            } else {
                0
            },
            requested,
            preserve,
            live is Some,
        )
        &&& tree.scrolled(tree_after, after.strip, viewport.loc)
        &&& configures == tree.tile_configures(
            after.strip.tiles(),
            after.strip,
            viewport.loc,
            live,
        )
    }

    /// Whether a geometry update leads to `after`, `tree_after` and `configures`. Without
    /// tiles it only empties the strip.
    pub open spec fn arranged(
        self,
        after: ScrollView,
        tree: TreeModel,
        tree_after: TreeModel,
        configures: Seq<Configure>,
        usable: Rectangle,
        gaps: (i32, i32),
        requested: Option<u64>,
        preserve: bool,
        live: Option<LiveResize>,
    ) -> bool {
        if tree.root is None {
            &&& after == ScrollView {
                strip: self.strip.reconciled(Seq::empty()),
                pending_center: None,
            }
            &&& tree_after == tree
            &&& configures.len() == 0
        } else {
            exists|order: Seq<NodeId>| #[trigger]
                self.arranged_over(
                    after,
                    tree,
                    tree_after,
                    configures,
                    order,
                    usable,
                    gaps,
                    requested,
                    preserve,
                    live,
                )
        }
    }
}

impl Strip {
    /// How far from a separator a pointer still meets it, in pixels.
    pub open spec fn edge_tolerance(self) -> int {
        saturate_i32((if self.gap > 1 {
            self.gap
        } else {
            1
        }) + 1)
    }

    /// The distance of a coordinate from a separator that it meets, to the nearest pixel.
    pub open spec fn edge_distance(self, boundary: i32, at: Float64) -> Option<int> {
        let difference = SUBPIXEL * boundary - at.spec_subpixels();
        let distance = if difference >= 0 {
            difference
        } else {
            -difference
        };
        if at.finite() && distance <= SUBPIXEL * self.edge_tolerance() {
            Some(round_ratio(distance, SUBPIXEL as int))
        } else {
            None
        }
    }

    /// The nearer of two separators that a coordinate may meet, the first one if they are as
    /// near.
    pub open spec fn nearer_edge(self, first: Option<i32>, second: Option<i32>, at: Float64) -> Option<
        bool,
    > {
        let one = match first {
            Some(boundary) => self.edge_distance(boundary, at),
            None => None,
        };
        let other = match second {
            Some(boundary) => self.edge_distance(boundary, at),
            None => None,
        };
        match (one, other) {
            (None, None) => None,
            (Some(_), None) => Some(true),
            (None, Some(_)) => Some(false),
            (Some(near), Some(far)) => Some(near <= far),
        }
    }

    /// The separator above or below a tile that a pointer inside its column meets: the tiles
    /// above and below it, and where it lies.
    pub open spec fn row_edge(self, tree: TreeModel, tile: u64, x: Float64, y: Float64) -> Option<
        (u64, u64, i32),
    > {
        match (self.position(tile), tree.tile_geometry(tile)) {
            (Some((column, row)), Some(area)) => {
                let tiles = self.columns[column].tiles;
                let upper = if row > 0 {
                    tree.tile_geometry(tiles[row - 1])
                } else {
                    None
                };
                if !(area.loc.x <= x.spec_pixel() < area.spec_right()) || (row > 0
                    && upper is None) {
                    None
                } else {
                    let above = match upper {
                        Some(found) => Some(found.spec_bottom()),
                        None => None,
                    };
                    let below = if row + 1 < tiles.len() {
                        Some(area.spec_bottom())
                    } else {
                        None
                    };
                    match self.nearer_edge(above, below, y) {
                        None => None,
                        Some(first) => if first {
                            Some((tiles[row - 1], tile, above->0))
                        } else {
                            Some((tile, tiles[row + 1], below->0))
                        },
                    }
                }
            },
            _ => None,
        }
    }

    /// The area of the first tile of a column that has one.
    pub open spec fn column_geometry(self, tree: TreeModel, column: int, row: int) -> Option<Rectangle>
        decreases self.columns[column].tiles.len() - row,
    {
        if row < 0 || row >= self.columns[column].tiles.len() {
            None
        } else {
            match tree.tile_geometry(self.columns[column].tiles[row]) {
                Some(area) => Some(area),
                None => self.column_geometry(tree, column, row + 1),
            }
        }
    }

    /// The separator left or right of the column of a tile that a pointer meets: the edge of
    /// the column that stays, and where the separator lies.
    pub open spec fn column_edge(self, tree: TreeModel, tile: u64, x: Float64) -> Option<
        (ColumnResizeAnchor, i32),
    > {
        match self.position(tile) {
            None => None,
            Some((column, _)) => {
                let left = if column > 0 {
                    match self.column_geometry(tree, column - 1, 0) {
                        Some(area) => Some(area.spec_right()),
                        None => None,
                    }
                } else {
                    None
                };
                let right = match self.column_geometry(tree, column, 0) {
                    Some(area) => Some(area.spec_right()),
                    None => None,
                };
                match self.nearer_edge(left, right, x) {
                    None => None,
                    Some(first) => if first {
                        Some((ColumnResizeAnchor::Right, left->0))
                    } else {
                        Some((ColumnResizeAnchor::Left, right->0))
                    },
                }
            },
        }
    }
}

impl ScrollingLayout {
    /// The tiles of the column that holds a tile.
    pub fn tiles_in_column(&self, tile: u64) -> (tiles: Option<Vec<u64>>)
        ensures
            match tiles {
                Some(found) => self@.strip.position(tile) matches Some((column, _)) && found@
                    == self@.strip.columns[column].tiles,
                None => !self@.strip.contains(tile),
            },
    {
        match self.model.tile_position(tile) {
            Some((column, _)) => {
                assert(self@.strip.columns[column as int].tiles
                    == self.model.columns@[column as int].tiles@);
                Some(copy_items(&self.model.columns[column].tiles))
            },
            None => None,
        }
    }

    /// Where the focus goes from a tile.
    pub fn next_focus(&self, tree: &Tree<TreeNode>, current: u64, direction: FocusDirection) -> (result:
        FocusNavigation)
        requires
            model(*tree).regular(),
            model(*tree).keyed(),
        ensures
            result == self@.strip.navigated(model(*tree), current, direction),
    {
        let target: Option<u64> = match direction {
            FocusDirection::Left => self.model.adjacent_column(current, -1),
            FocusDirection::Right => self.model.adjacent_column(current, 1),
            FocusDirection::Up => self.model.adjacent_tile(current, -1),
            FocusDirection::Down => self.model.adjacent_tile(current, 1),
            _ => {
                return FocusNavigation::Unavailable;
            },
        };
        match target {
            None => if self.model.contains(current) {
                FocusNavigation::Edge
            } else {
                FocusNavigation::Unavailable
            },
            Some(found) => if shows_window(tree, found) {
                FocusNavigation::Target(found)
            } else {
                FocusNavigation::Unavailable
            },
        }
    }

    /// Focuses a tile and moves the viewport just enough to show its column. Returns whether
    /// the viewport moved.
    pub fn ensure_visible(&mut self, current: u64) -> (moved: bool)
        requires
            old(self)@.strip.wf(),
        ensures
            final(self)@ == (ScrollView { strip: old(self)@.strip.revealed(current), ..old(self)@ }),
            moved == (final(self)@.strip.viewport_x != old(self)@.strip.viewport_x),
            final(self)@.strip.wf(),
    {
        self.model.ensure_visible(current)
    }

    /// Pans the strip without changing focus or order. Returns whether the viewport moved.
    pub fn pan_viewport(&mut self, delta_x: Float64) -> (moved: bool)
        requires
            old(self)@.strip.wf(),
        ensures
            final(self)@ == (ScrollView {
                strip: if delta_x.finite() {
                    old(self)@.strip.panned(delta_x.spec_subpixels())
                } else {
                    old(self)@.strip
                },
                ..old(self)@
            }),
            moved == (final(self)@.strip.viewport_x != old(self)@.strip.viewport_x),
            final(self)@.strip.wf(),
    {
        self.model.pan_viewport(delta_x)
    }

    /// Whether a pan would move the viewport.
    pub fn pan_viewport_would_change(&self, delta_x: Float64) -> (yes: bool)
        requires
            self@.strip.wf(),
        ensures
            yes == (delta_x.finite() && self@.strip.panned(delta_x.spec_subpixels()).viewport_x
                != self@.strip.viewport_x),
    {
        self.model.pan_viewport_would_change(delta_x)
    }

    /// The first of the tiles that is on the strip and has an area.
    fn first_shown(&self, tree: &Tree<TreeNode>, tiles: &Vec<u64>) -> (found: Option<u64>)
        requires
            model(*tree).regular(),
            model(*tree).keyed(),
        ensures
            found == self@.strip.first_shown(model(*tree), tiles@, 0),
            found is Some ==> self@.strip.contains(found->0) && model(*tree).tile_geometry(
                found->0,
            ) is Some,
    {
        let mut i: usize = 0;
        while i < tiles.len()
            invariant
                i <= tiles@.len(),
                model(*tree).regular(),
                model(*tree).keyed(),
                self@.strip.first_shown(model(*tree), tiles@, 0) == self@.strip.first_shown(
                    model(*tree),
                    tiles@,
                    i as int,
                ),
            decreases tiles@.len() - i,
        {
            if self.model.contains(tiles[i]) && tile_geometry(tree, tiles[i]).is_some() {
                return Some(tiles[i]);
            }
            i += 1;
        }
        None
    }

    /// Recovers the viewport that the areas in a tree show. Returns whether there was a tile
    /// to go by.
    pub fn sync_viewport_from_tree(
        &mut self,
        tree: &Tree<TreeNode>,
        usable: Rectangle,
        gaps: (i32, i32),
    ) -> (found: bool)
        requires
            old(self)@.strip.wf(),
            model(*tree).regular(),
            model(*tree).keyed(),
        ensures
            final(self)@ == (ScrollView {
                strip: old(self)@.strip.synced(model(*tree), viewport_area(usable, gaps).loc.x),
                ..old(self)@
            }),
            found == (old(self)@.strip.viewport_anchor(model(*tree)) is Some),
            final(self)@.strip.wf(),
    {
        let ghost before = self@;
        let origin_x: i32 = scrolling_viewport(usable, gaps).loc.x;
        let focused: Option<u64> = match self.model.focused {
            Some(tile) => if self.model.contains(tile) && tile_geometry(tree, tile).is_some() {
                Some(tile)
            } else {
                None
            },
            None => None,
        };
        let anchor: Option<u64> = match focused {
            Some(tile) => Some(tile),
            None => {
                let tiles: Vec<u64> = self.model.all_tiles();
                self.first_shown(tree, &tiles)
            },
        };
        match anchor {
            Some(tile) => match (self.model.tile_position(tile), tile_geometry(tree, tile)) {
                (Some((column, _)), Some(area)) => {
                    let left: i128 = self.model.layout_x(column);
                    self.model.viewport_x = SUBPIXEL * origin_x as i128 + left - SUBPIXEL
                        * area.loc.x as i128;
                    assert(self@.strip =~~= before.strip.synced(model(*tree), origin_x));
                    true
                },
                _ => false,
            },
            None => false,
        }
    }

    /// Asks for a column to be centered during the next geometry update. Returns whether that
    /// moves the viewport.
    pub fn request_center(&mut self, current: u64) -> (asked: bool)
        requires
            old(self)@.strip.wf(),
        ensures
            asked == (old(self)@.strip.centered(current).viewport_x
                != old(self)@.strip.viewport_x),
            final(self)@ == (ScrollView {
                strip: old(self)@.strip,
                pending_center: if asked {
                    Some(current)
                } else {
                    old(self)@.pending_center
                },
            }),
    {
        if !self.model.centering_changes_viewport(current) {
            return false;
        }
        self.pending_center = Some(current);
        true
    }

    /// Remembers where a tile is that will be dragged.
    pub fn begin_drag(&mut self, current: u64) -> (begun: bool)
        requires
            old(self)@.strip.wf(),
        ensures
            begun == (old(self)@.strip.drag is None && old(self)@.strip.contains(current)),
            final(self)@ == (ScrollView {
                strip: if begun {
                    Strip { drag: old(self)@.strip.snapshot(current), ..old(self)@.strip }
                } else {
                    old(self)@.strip
                },
                ..old(self)@
            }),
            final(self)@.strip.wf(),
    {
        self.model.begin_drag(current)
    }

    /// Whether a tile is being dragged.
    pub fn has_pending_drag(&self) -> (yes: bool)
        ensures
            yes == (self@.strip.drag is Some),
    {
        self.model.pending_drag.is_some()
    }

    /// Ends a drag in a drop.
    pub fn finish_drag(&mut self, final_tile: Option<u64>, target: ColumnDropTarget)
        requires
            old(self)@.strip.wf(),
        ensures
            final(self)@ == (ScrollView {
                strip: old(self)@.strip.drag_finished(final_tile, target),
                ..old(self)@
            }),
            final(self)@.strip.wf(),
    {
        self.model.finish_drag(final_tile, target);
    }

    /// Takes a drag back.
    pub fn cancel_drag(&mut self)
        requires
            old(self)@.strip.wf(),
        ensures
            final(self)@ == (ScrollView { strip: old(self)@.strip.drag_cancelled(), ..old(self)@ }),
            final(self)@.strip.wf(),
    {
        self.model.cancel_drag();
    }

    /// Moves a tile sideways, and shows it. A tile leaves a shared column first; a lone tile
    /// moves with its column.
    pub fn move_column(&mut self, current: u64, direction: Direction) -> (moved: bool)
        requires
            old(self)@.strip.wf(),
        ensures
            match old(self)@.strip.stepped(current, direction) {
                Some(after) => moved && final(self)@ == (ScrollView {
                    strip: after.revealed(current),
                    ..old(self)@
                }),
                None => !moved && final(self)@ == old(self)@,
            },
            final(self)@.strip.wf(),
    {
        let delta: isize = match direction {
            Direction::Left => -1,
            Direction::Right => 1,
            Direction::Up | Direction::Down => {
                return false;
            },
        };
        if !self.model.move_by(current, delta) {
            return false;
        }
        self.model.ensure_visible(current);
        true
    }

    /// Moves a tile up or down, and shows it.
    pub fn move_tile_vertical(&mut self, current: u64, direction: Direction) -> (result: TileMove)
        requires
            old(self)@.strip.wf(),
        ensures
            ({
                let (moved, after) = old(self)@.strip.shifted(current, direction);
                &&& result == moved
                &&& final(self)@ == (ScrollView {
                    strip: if moved is Moved {
                        after.revealed(current)
                    } else {
                        old(self)@.strip
                    },
                    ..old(self)@
                })
            }),
            final(self)@.strip.wf(),
    {
        let delta: isize = match direction {
            Direction::Up => -1,
            Direction::Down => 1,
            Direction::Left | Direction::Right => {
                return TileMove::Unavailable;
            },
        };
        let result: TileMove = self.model.move_tile_vertical(current, delta);
        if result == TileMove::Moved {
            self.model.ensure_visible(current);
        }
        result
    }

    /// Gives a column the next preset width, and shows it.
    pub fn cycle_column_width(&mut self, current: u64, direction: ResizeDirection) -> (changed: bool)
        requires
            old(self)@.strip.wf(),
        ensures
            match old(self)@.strip.width_cycled(current, direction) {
                Some(after) => changed && final(self)@ == (ScrollView {
                    strip: after.revealed(current),
                    ..old(self)@
                }),
                None => !changed && final(self)@ == old(self)@,
            },
            final(self)@.strip.wf(),
    {
        if !self.model.cycle_column_width(current, direction) {
            return false;
        }
        self.model.ensure_visible(current);
        true
    }

    /// Whether a tile is on the strip.
    pub fn contains(&self, current: u64) -> (yes: bool)
        ensures
            yes == self@.strip.contains(current),
    {
        self.model.contains(current)
    }

    /// Puts a new window in a column of its own right of the focused one.
    pub fn insert_new_toplevel(&mut self, tile: u64, focused: Option<u64>)
        requires
            old(self)@.strip.wf(),
        ensures
            final(self)@ == (ScrollView {
                strip: old(self)@.strip.with_new_toplevel(tile, focused),
                ..old(self)@
            }),
            final(self)@.strip.wf(),
    {
        self.model.insert_new_toplevel(tile, focused);
    }

    /// Resizes a column. Returns whether that changed it, if there is such a column.
    pub fn resize_column_by_pixels(
        &mut self,
        current: u64,
        delta: i32,
        anchor: ColumnResizeAnchor,
    ) -> (changed: Option<bool>)
        requires
            old(self)@.strip.wf(),
        ensures
            match old(self)@.strip.column_resized(current, delta as int, anchor) {
                Some((resized, _, after)) => changed == Some(resized) && final(self)@ == (ScrollView {
                    strip: after,
                    ..old(self)@
                }),
                None => changed is None && final(self)@ == old(self)@,
            },
            final(self)@.strip.wf(),
    {
        match self.model.resize_column_by_pixels(current, delta, anchor) {
            Some((changed, _)) => Some(changed),
            None => None,
        }
    }

    /// Centers the only tile after a resize.
    pub fn finish_column_resize(&mut self)
        requires
            old(self)@.strip.wf(),
        ensures
            final(self)@ == (ScrollView {
                strip: old(self)@.strip.only_tile_centered(),
                ..old(self)@
            }),
            final(self)@.strip.wf(),
    {
        self.model.center_only_tile();
    }

    /// The pair of neighbouring rows that a tile is the upper or the lower one of.
    pub fn row_pair(&self, current: u64, delta: isize) -> (pair: Option<(u64, u64)>)
        ensures
            pair == self@.strip.rows_at(current, delta as int),
    {
        self.model.row_pair(current, delta)
    }

    /// Moves the separator between two rows. Returns whether that changed them, if they are
    /// neighbours.
    pub fn resize_rows_by_pixels(&mut self, upper: u64, lower: u64, delta: i32) -> (changed: Option<
        bool,
    >)
        requires
            old(self)@.strip.wf(),
        ensures
            match old(self)@.strip.rows_resized(upper, lower, delta as int) {
                Some((resized, after)) => changed == Some(resized) && final(self)@ == (ScrollView {
                    strip: after,
                    ..old(self)@
                }),
                None => changed is None && final(self)@ == old(self)@,
            },
            final(self)@.strip.wf(),
    {
        self.model.resize_rows_by_pixels(upper, lower, delta)
    }

    /// The distance of a coordinate from a separator that it meets, to the nearest pixel.
    fn edge_distance(&self, boundary: i32, at: Float64) -> (distance: Option<i32>)
        requires
            self@.strip.wf(),
        ensures
            match distance {
                Some(pixels) => self@.strip.edge_distance(boundary, at) == Some(pixels as int),
                None => self@.strip.edge_distance(boundary, at) is None,
            },
    {
        if !at.is_finite() {
            return None;
        }
        let difference: i128 = SUBPIXEL * boundary as i128 - at.subpixels();
        let distance: i128 = if difference >= 0 {
            difference
        } else {
            -difference
        };
        let tolerance: i32 = add_saturating(larger(self.model.gap, 1), 1);
        if distance <= SUBPIXEL * tolerance as i128 {
            proof {
                crate::units::lemma_round_ratio(distance as int, SUBPIXEL as int);
                let rounded = round_ratio(distance as int, SUBPIXEL as int);
                assert(0 <= rounded <= i32::MAX) by (nonlinear_arith)
                    requires
                        2 * SUBPIXEL * rounded <= 2 * distance + SUBPIXEL,
                        2 * distance - SUBPIXEL <= 2 * SUBPIXEL * rounded,
                        0 <= distance <= SUBPIXEL * i32::MAX,
                        SUBPIXEL == 1_048_576,
                ;
            }
            Some(to_nearest_pixel(distance))
        } else {
            None
        }
    }

    /// The nearer of two separators that a coordinate may meet.
    fn nearer_edge(&self, first: Option<i32>, second: Option<i32>, at: Float64) -> (result: Option<bool>)
        requires
            self@.strip.wf(),
        ensures
            result == self@.strip.nearer_edge(first, second, at),
    {
        let one: Option<i32> = match first {
            Some(boundary) => self.edge_distance(boundary, at),
            None => None,
        };
        let other: Option<i32> = match second {
            Some(boundary) => self.edge_distance(boundary, at),
            None => None,
        };
        match (one, other) {
            (None, None) => None,
            (Some(_), None) => Some(true),
            (None, Some(_)) => Some(false),
            (Some(near), Some(far)) => Some(near <= far),
        }
    }

    /// The separator above or below a tile that a pointer inside its column meets: the tiles
    /// above and below it, and where it lies.
    pub fn row_resize_edge_at(&self, tree: &Tree<TreeNode>, current: u64, x: Float64, y: Float64) -> (edge:
        Option<(u64, u64, i32)>)
        requires
            self@.strip.wf(),
            model(*tree).regular(),
            model(*tree).keyed(),
        ensures
            edge == self@.strip.row_edge(model(*tree), current, x, y),
    {
        let (column, row): (usize, usize) = match self.model.tile_position(current) {
            Some(found) => found,
            None => {
                return None;
            },
        };
        let area: Rectangle = match tile_geometry(tree, current) {
            Some(area) => area,
            None => {
                return None;
            },
        };
        let tiles: &Vec<u64> = &self.model.columns[column].tiles;
        assert(self@.strip.columns[column as int].tiles == tiles@);
        let x: i32 = x.pixel();
        if x < area.loc.x || x >= area.right() {
            return None;
        }
        let above: Option<i32> = if row > 0 {
            match tile_geometry(tree, tiles[row - 1]) {
                Some(upper) => Some(upper.bottom()),
                None => {
                    return None;
                },
            }
        } else {
            None
        };
        let last: usize = tiles.len() - 1;
        let below: Option<i32> = if row < last {
            Some(area.bottom())
        } else {
            None
        };
        match self.nearer_edge(above, below, y) {
            None => None,
            Some(first) => if first {
                match above {
                    Some(boundary) => Some((tiles[row - 1], current, boundary)),
                    None => None,
                }
            } else {
                match below {
                    Some(boundary) => Some((current, tiles[row + 1], boundary)),
                    None => None,
                }
            },
        }
    }

    /// The area of the first tile of a column that has one.
    fn column_geometry(&self, tree: &Tree<TreeNode>, column: usize) -> (area: Option<Rectangle>)
        requires
            column < self.model.columns@.len(),
            model(*tree).regular(),
            model(*tree).keyed(),
        ensures
            area == self@.strip.column_geometry(model(*tree), column as int, 0),
    {
        let tiles: &Vec<u64> = &self.model.columns[column].tiles;
        assert(self@.strip.columns[column as int].tiles == tiles@);
        let mut row: usize = 0;
        while row < tiles.len()
            invariant
                row <= tiles@.len(),
                column < self.model.columns@.len(),
                self@.strip.columns[column as int].tiles == tiles@,
                model(*tree).regular(),
                model(*tree).keyed(),
                self@.strip.column_geometry(model(*tree), column as int, 0)
                    == self@.strip.column_geometry(model(*tree), column as int, row as int),
            decreases tiles@.len() - row,
        {
            match tile_geometry(tree, tiles[row]) {
                Some(area) => {
                    return Some(area);
                },
                None => {},
            }
            row += 1;
        }
        None
    }

    /// The separator left or right of the column of a tile that a pointer meets: the edge of
    /// the column that stays, and where the separator lies.
    pub fn resize_edge_at(&self, tree: &Tree<TreeNode>, current: u64, x: Float64) -> (edge: Option<
        (ColumnResizeAnchor, i32),
    >)
        requires
            self@.strip.wf(),
            model(*tree).regular(),
            model(*tree).keyed(),
        ensures
            edge == self@.strip.column_edge(model(*tree), current, x),
    {
        let column: usize = match self.model.tile_position(current) {
            Some((column, _)) => column,
            None => {
                return None;
            },
        };
        let left: Option<i32> = if column > 0 {
            match self.column_geometry(tree, column - 1) {
                Some(area) => Some(area.right()),
                None => None,
            }
        } else {
            None
        };
        let right: Option<i32> = match self.column_geometry(tree, column) {
            Some(area) => Some(area.right()),
            None => None,
        };
        match self.nearer_edge(left, right, x) {
            None => None,
            Some(first) => if first {
                match left {
                    Some(boundary) => Some((ColumnResizeAnchor::Right, boundary)),
                    None => None,
                }
            } else {
                match right {
                    Some(boundary) => Some((ColumnResizeAnchor::Left, boundary)),
                    None => None,
                }
            },
        }
    }
}

impl Strip {
    /// The strip after a tile moved a step sideways, if it can.
    pub open spec fn stepped(self, tile: u64, direction: Direction) -> Option<Strip> {
        match direction {
            Direction::Left => self.moved_sideways(tile, -1),
            Direction::Right => self.moved_sideways(tile, 1),
            _ => None,
        }
    }

    /// Whether, and to what, the strip changes when a tile moves a step up or down.
    pub open spec fn shifted(self, tile: u64, direction: Direction) -> (TileMove, Strip) {
        match direction {
            Direction::Up => self.moved_vertically(tile, -1),
            Direction::Down => self.moved_vertically(tile, 1),
            _ => (TileMove::Unavailable, self),
        }
    }
}

} // verus!
