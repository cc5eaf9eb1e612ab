//! What users do to the strip of a scrolling layout.

use vstd::prelude::*;

use id_tree::{NodeId, Tree};

use crate::actions::{ResizeDirection, ResizeEdge};
use crate::balance::lemma_sound;
use crate::classic::Configure;
use crate::columns::{copy_items, ColumnResizeAnchor};
use crate::config::TilingEngine;
use crate::copies::{law_copies_are_alike, node_by_key};
use crate::data::Data;
use crate::focus::key_of;
use crate::keys::{lemma_interrupted_keys, lemma_pushed_keys};
use crate::layout::{
    lemma_arranged_keys, LayoutView, LiveView, ScrollingLiveResize, ScrollingResizeTarget,
    TilingLayout,
};
use crate::lookups::{currently_focused_node, focus_view, KeyboardFocus, KeyboardFocusView};
use crate::placement::{viewport_area, LiveResize};
use crate::queue::{EasedArea, ANIMATION_DURATION};
use crate::scrolling::{shows_window, ScrollView};
use crate::strip::Strip;
use crate::tree::{get_node, model, TreeModel, TreeNode};
use crate::units::Float64;

verus! {

impl LayoutView {
    /// The layout with another strip.
    pub open spec fn with_strip(self, strip: Strip) -> LayoutView {
        LayoutView { scroll: ScrollView { strip, ..self.scroll }, ..self }
    }

    /// Whether `after` is this layout ready for an immediate change of `tree`: a transition on
    /// the way is stopped, and the strip is scrolled to what is shown.
    pub open spec fn prepared(self, after: LayoutView, tree: TreeModel, eased: Seq<EasedArea>) -> bool {
        &&& if self.queue.animation_start is Some || self.queue.trees.len() > 1
            && !self.queue.direct_pending() {
            self.queue.interrupted(after.queue, tree, eased)
        } else {
            after.queue == self.queue && self.newest().copied(tree)
        }
        &&& after == LayoutView {
            queue: after.queue,
            ..self.with_strip(
                self.scroll.strip.synced(tree, viewport_area(self.usable, self.gaps).loc.x),
            )
        }
    }

    /// Whether the node with the keyboard focus has this key.
    pub open spec fn focus_key(self, focus: Option<KeyboardFocusView>, key: Option<u64>) -> bool {
        match focus {
            Some(focus) => exists|found: Option<NodeId>| #[trigger]
                self.newest().focused_node(focus, found) && key == self.newest().key_at(found),
            None => key is None,
        }
    }

    /// Whether the window with the keyboard focus has this key; without one there is none.
    pub open spec fn focused_window(self, focus: Option<KeyboardFocusView>, key: Option<u64>) -> bool {
        match focus {
            Some(KeyboardFocusView::Window(_)) => self.focus_key(focus, key),
            _ => key is None,
        }
    }
}

impl TilingLayout {
    /// The key of the node with the keyboard focus.
    pub(crate) fn focus_key(&self, focus: &Option<KeyboardFocus>) -> (key: Option<u64>)
        requires
            self@.ready(),
        ensures
            self@.focus_key(focus_view(*focus), key),
            match key {
                Some(key) => self@.newest().has_key(key) && (match focus_view(*focus) {
                    Some(KeyboardFocusView::Window(window)) => self@.newest().data(
                        self@.newest().node_keyed(key),
                    ).is_window(window),
                    Some(KeyboardFocusView::Group { .. }) => self@.newest().data(
                        self@.newest().node_keyed(key),
                    ) is Group,
                    None => false,
                }),
                None => true,
            },
    {
        match focus {
            Some(focus) => {
                let tree: &Tree<TreeNode> = self.tree();
                let found: Option<NodeId> = currently_focused_node(tree, focus);
                assert(self@.newest().focused_node(focus@, found));
                match found {
                    Some(id) => {
                        let key: u64 = key_of(tree, &id);
                        proof {
                            crate::placement::lemma_node_keyed(model(*tree), id);
                        }
                        Some(key)
                    },
                    None => None,
                }
            },
            None => None,
        }
    }

    /// The key of the window with the keyboard focus.
    pub(crate) fn focused_window(&self, focus: &Option<KeyboardFocus>) -> (key: Option<u64>)
        requires
            self@.ready(),
        ensures
            self@.focused_window(focus_view(*focus), key),
            match key {
                Some(key) => self@.newest().has_key(key) && self@.newest().data(
                    self@.newest().node_keyed(key),
                ) is Mapped,
                None => true,
            },
    {
        match focus {
            Some(KeyboardFocus::Window(_)) => self.focus_key(focus),
            _ => None,
        }
    }

    /// Stops a transition that is on the way, and scrolls the strip to what is shown. Returns
    /// the tree to change.
    pub(crate) fn prepare_scrolling_direct_tree(&mut self, eased: &Vec<EasedArea>) -> (tree: Tree<
        TreeNode,
    >)
        requires
            old(self)@.ready(),
        ensures
            old(self)@.prepared(final(self)@, model(tree), eased@),
            final(self)@.ready(),
            model(tree).settled(),
            model(tree).keyed(),
            forall|bound: u64| #[trigger]
                old(self)@.wf(bound) ==> final(self)@.wf(bound) && model(tree).keys_below(bound),
    {
        let ghost before = self@;
        let tree: Tree<TreeNode> = self.queue.prepare_direct_tree(eased);
        assert(model(tree).regular()) by {
            lemma_sound(model(tree));
        }
        let _ = self.scrolling.sync_viewport_from_tree(&tree, self.usable, self.gaps);
        assert forall|bound: u64| #[trigger] before.wf(bound) implies self@.wf(bound) && model(
            tree,
        ).keys_below(bound) by {
            if before.queue.animation_start is Some || before.queue.trees.len() > 1
                && !before.queue.direct_pending() {
                lemma_interrupted_keys(before.queue, self@.queue, model(tree), eased@, bound);
            } else {
                law_copies_are_alike(before.newest(), model(tree));
                assert(before.queue.trees[before.queue.trees.len() - 1].tree.keys_below(bound));
            }
        }
        tree
    }

    /// Scrolls so that the column of a window is seen. Returns what the windows have to be
    /// asked to do, if anything moved.
    pub fn ensure_visible(&mut self, node: Option<u64>, eased: &Vec<EasedArea>) -> (result: Option<
        Vec<Configure>,
    >)
        requires
            old(self)@.ready(),
        ensures
            ({
                let shown = old(self)@.with_strip(old(self)@.scroll.strip.revealed(node->0));
                if old(self)@.engine is Classic || node is None {
                    result is None && final(self)@ == old(self)@
                } else if shown.scroll.strip.viewport_x == old(self)@.scroll.strip.viewport_x {
                    result is None && final(self)@ == shown
                } else {
                    exists|copy: TreeModel| #[trigger]
                        old(self)@.newest().copied(copy) && result is Some && shown.committed(
                            final(self)@,
                            copy,
                            ANIMATION_DURATION,
                            eased@,
                            result->0@,
                            node,
                        )
                }
            }),
            final(self)@.ready(),
            forall|bound: u64| #[trigger] old(self)@.wf(bound) ==> final(self)@.wf(bound),
    {
        let ghost before = self@;
        if self.tiling_engine != TilingEngine::Scrolling {
            return None;
        }
        let key: u64 = match node {
            Some(key) => key,
            None => {
                return None;
            },
        };
        if !self.scrolling.ensure_visible(key) {
            return None;
        }
        let ghost shown = self@;
        assert(shown == before.with_strip(before.scroll.strip.revealed(key)));
        let tree: Tree<TreeNode> = self.newest_copy();
        let ghost copy = model(tree);
        assert(copy.sound()) by {
            lemma_sound(copy);
        }
        assert forall|bound: u64| #[trigger] before.wf(bound) implies shown.wf(bound)
            && copy.keys_below(bound) by {
            assert(shown.queue.keys_below(bound));
        }
        let configures: Vec<Configure> = self.commit(tree, ANIMATION_DURATION, eased, Some(key));
        assert(before.newest().copied(copy));
        Some(configures)
    }

    /// Scrolls the strip at once. Focus, order and sizes of the windows stay. Returns whether
    /// that was possible, and what the windows have to be asked to do.
    pub fn pan_scrolling_viewport(&mut self, delta_x: Float64, eased: &Vec<EasedArea>) -> (result: (
        bool,
        Vec<Configure>,
    ))
        requires
            old(self)@.ready(),
        ensures
            old(self)@.pans(final(self)@, delta_x, eased@, result.0, result.1@),
            final(self)@.ready(),
            forall|bound: u64| #[trigger] old(self)@.wf(bound) ==> final(self)@.wf(bound),
    {
        let ghost before = self@;
        if self.tiling_engine != TilingEngine::Scrolling || !delta_x.is_finite() {
            return (false, Vec::new());
        }
        if !self.scrolling.pan_viewport_would_change(delta_x) {
            return (false, Vec::new());
        }
        let tree: Tree<TreeNode> = self.prepare_scrolling_direct_tree(eased);
        let ghost ready = self@;
        let ghost shape = model(tree);
        let moved: bool = self.scrolling.pan_viewport(delta_x);
        let ghost panned = self@;
        assert(panned == ready.with_strip(ready.scroll.strip.panned(delta_x.spec_subpixels())));
        assert forall|bound: u64| #[trigger] before.wf(bound) implies panned.wf(bound)
            && shape.keys_below(bound) by {
            assert(ready.queue.keys_below(bound));
        }
        assert(before.prepared(ready, shape, eased@));
        if !moved {
            return (true, Vec::new());
        }
        let configures: Vec<Configure> = self.commit_kept(tree);
        (true, configures)
    }
}

impl LayoutView {
    /// Whether scrolling the strip at once leads to `after`.
    pub open spec fn pans(
        self,
        after: LayoutView,
        delta_x: Float64,
        eased: Seq<EasedArea>,
        done: bool,
        configures: Seq<Configure>,
    ) -> bool {
        let strip = self.scroll.strip;
        if self.engine is Classic || !delta_x.finite() || strip.panned(
            delta_x.spec_subpixels(),
        ).viewport_x == strip.viewport_x {
            !done && after == self && configures.len() == 0
        } else {
            done && exists|ready: LayoutView, tree: TreeModel| #[trigger]
                self.prepared(ready, tree, eased) && {
                    let panned = ready.with_strip(
                        ready.scroll.strip.panned(delta_x.spec_subpixels()),
                    );
                    if panned.scroll.strip.viewport_x == ready.scroll.strip.viewport_x {
                        after == panned && configures.len() == 0
                    } else {
                        panned.committed_live(after, tree, configures, None)
                    }
                }
        }
    }
}

impl LayoutView {
    /// Whether the next preset width for the column of a tile leads to `after`.
    pub open spec fn cycles(
        self,
        after: LayoutView,
        node: u64,
        direction: ResizeDirection,
        eased: Seq<EasedArea>,
        result: Option<Seq<Configure>>,
    ) -> bool {
        let cycled = self.scroll.strip.width_cycled(node, direction);
        if self.engine is Classic || cycled is None {
            result is None && after == self
        } else {
            result is Some && exists|copy: TreeModel| #[trigger]
                self.newest().copied(copy) && self.with_strip(
                    cycled->0.revealed(node),
                ).committed(after, copy, ANIMATION_DURATION, eased, result->0, Some(node))
        }
    }

    /// Whether centering the column of a tile leads to `after`.
    pub open spec fn centers(
        self,
        after: LayoutView,
        node: u64,
        eased: Seq<EasedArea>,
        result: Option<Seq<Configure>>,
    ) -> bool {
        let window = self.newest().data(self.newest().node_keyed(node))->mapped;
        if self.engine is Classic || window.maximized || window.fullscreen
            || self.scroll.strip.centered(node).viewport_x == self.scroll.strip.viewport_x {
            result is None && after == self
        } else {
            result is Some && exists|copy: TreeModel| #[trigger]
                self.newest().copied(copy) && (LayoutView {
                    scroll: ScrollView { pending_center: Some(node), ..self.scroll },
                    ..self
                }).committed(after, copy, ANIMATION_DURATION, eased, result->0, None)
        }
    }
}

/// What the windows have to be asked to do, if anything, as the contracts speak of it.
pub open spec fn asked_view(asked: Option<Vec<Configure>>) -> Option<Seq<Configure>> {
    match asked {
        Some(configures) => Some(configures@),
        None => None,
    }
}

impl TilingLayout {
    /// Gives the column of a tile the next preset width.
    pub fn cycle_scrolling_column_width_for(
        &mut self,
        node: u64,
        direction: ResizeDirection,
        eased: &Vec<EasedArea>,
    ) -> (result: Option<Vec<Configure>>)
        requires
            old(self)@.ready(),
        ensures
            old(self)@.cycles(final(self)@, node, direction, eased@, asked_view(result)),
            final(self)@.ready(),
            forall|bound: u64| #[trigger] old(self)@.wf(bound) ==> final(self)@.wf(bound),
    {
        let ghost before = self@;
        if self.tiling_engine != TilingEngine::Scrolling {
            return None;
        }
        let tree: Tree<TreeNode> = self.newest_copy();
        let ghost copy = model(tree);
        if !self.scrolling.cycle_column_width(node, direction) {
            return None;
        }
        let ghost cycled = self@;
        assert(copy.sound()) by {
            lemma_sound(copy);
        }
        assert forall|bound: u64| #[trigger] before.wf(bound) implies cycled.wf(bound)
            && copy.keys_below(bound) by {
            assert(before.queue.keys_below(bound));
        }
        let configures: Vec<Configure> = self.commit(tree, ANIMATION_DURATION, eased, Some(node));
        assert(before.newest().copied(copy));
        Some(configures)
    }

    /// Gives the column of the focused window the next preset width.
    pub fn cycle_scrolling_column_width(
        &mut self,
        direction: ResizeDirection,
        focus: &Option<KeyboardFocus>,
        eased: &Vec<EasedArea>,
    ) -> (result: Option<Vec<Configure>>)
        requires
            old(self)@.ready(),
        ensures
            exists|key: Option<u64>| #[trigger]
                old(self)@.focused_window(focus_view(*focus), key) && match key {
                    Some(node) => old(self)@.cycles(
                        final(self)@,
                        node,
                        direction,
                        eased@,
                        asked_view(result),
                    ),
                    None => result is None && final(self)@ == old(self)@,
                },
            final(self)@.ready(),
            forall|bound: u64| #[trigger] old(self)@.wf(bound) ==> final(self)@.wf(bound),
    {
        let ghost before = self@;
        let key: Option<u64> = self.focused_window(focus);
        assert(before.focused_window(focus_view(*focus), key));
        match key {
            Some(node) => self.cycle_scrolling_column_width_for(node, direction, eased),
            None => None,
        }
    }

    /// Scrolls so that the column of the focused window is in the middle.
    pub fn center_scrolling_column(&mut self, focus: &Option<KeyboardFocus>, eased: &Vec<EasedArea>) -> (result:
        Option<Vec<Configure>>)
        requires
            old(self)@.ready(),
        ensures
            exists|key: Option<u64>| #[trigger]
                old(self)@.focused_window(focus_view(*focus), key) && match key {
                    Some(node) => old(self)@.centers(
                        final(self)@,
                        node,
                        eased@,
                        asked_view(result),
                    ),
                    None => result is None && final(self)@ == old(self)@,
                },
            final(self)@.ready(),
            forall|bound: u64| #[trigger] old(self)@.wf(bound) ==> final(self)@.wf(bound),
    {
        let ghost before = self@;
        let key: Option<u64> = self.focused_window(focus);
        assert(before.focused_window(focus_view(*focus), key));
        let node: u64 = match key {
            Some(node) => node,
            None => {
                return None;
            },
        };
        if self.tiling_engine != TilingEngine::Scrolling {
            return None;
        }
        let free: bool = {
            let newest: &Tree<TreeNode> = self.tree();
            assert(model(*newest).regular()) by {
                lemma_sound(model(*newest));
            }
            match node_by_key(newest, node) {
                Some(id) => match get_node(newest, &id) {
                    Some(found) => match &found.data {
                        Data::Mapped { mapped, .. } => !mapped.maximized && !mapped.fullscreen,
                        _ => false,
                    },
                    None => false,
                },
                None => false,
            }
        };
        if !free {
            return None;
        }
        let tree: Tree<TreeNode> = self.newest_copy();
        let ghost copy = model(tree);
        if !self.scrolling.request_center(node) {
            return None;
        }
        let ghost asked = self@;
        assert(copy.sound()) by {
            lemma_sound(copy);
        }
        assert forall|bound: u64| #[trigger] before.wf(bound) implies asked.wf(bound)
            && copy.keys_below(bound) by {
            assert(before.queue.keys_below(bound));
        }
        let configures: Vec<Configure> = self.commit(tree, ANIMATION_DURATION, eased, None);
        assert(before.newest().copied(copy));
        Some(configures)
    }
}

/// A window that has to be told that it is being resized, or no longer is.
#[derive(Clone, Copy, Debug, PartialEq, Eq, Structural)]
pub struct ResizingChange {
    pub tile: u64,
    pub resizing: bool,
}

impl TreeModel {
    /// The windows among these tiles, which have to be told whether they are being resized.
    pub open spec fn resizing_changes(self, tiles: Seq<u64>, resizing: bool) -> Seq<ResizingChange>
        decreases tiles.len(),
    {
        if tiles.len() == 0 {
            seq![]
        } else {
            let rest = self.resizing_changes(tiles.drop_last(), resizing);
            if self.shows_window(tiles.last()) {
                rest.push(ResizingChange { tile: tiles.last(), resizing })
            } else {
                rest
            }
        }
    }

    /// The tiles among these whose windows did not get to their last sizes yet.
    pub open spec fn pending_tiles(self, tiles: Seq<u64>) -> Seq<u64>
        decreases tiles.len(),
    {
        if tiles.len() == 0 {
            seq![]
        } else {
            let rest = self.pending_tiles(tiles.drop_last());
            if self.shows_window(tiles.last()) && {
                let window = self.data(self.node_keyed(tiles.last()))->mapped;
                !window.latest_size_committed || window.resizing
            } {
                rest.push(tiles.last())
            } else {
                rest
            }
        }
    }
}

/// Whether the window of a tile is not at its last size yet.
pub fn live_resize_tile_is_pending(latest_size_committed: bool, resizing: bool) -> (yes: bool)
    ensures
        yes == (!latest_size_committed || resizing),
{
    !latest_size_committed || resizing
}

/// The windows among these tiles, which have to be told whether they are being resized.
pub(crate) fn resizing_changes(tree: &Tree<TreeNode>, tiles: &Vec<u64>, resizing: bool) -> (changes: Vec<
    ResizingChange,
>)
    requires
        model(*tree).settled(),
        model(*tree).keyed(),
    ensures
        changes@ == model(*tree).resizing_changes(tiles@, resizing),
{
    let ghost shape = model(*tree);
    assert(shape.regular()) by {
        lemma_sound(shape);
    }
    let mut changes: Vec<ResizingChange> = Vec::new();
    let mut i: usize = 0;
    assert(tiles@.take(0) =~= seq![]);
    while i < tiles.len()
        invariant
            i <= tiles@.len(),
            shape == model(*tree),
            shape.regular(),
            shape.keyed(),
            changes@ == shape.resizing_changes(tiles@.take(i as int), resizing),
        decreases tiles@.len() - i,
    {
        assert(tiles@.take(i as int + 1).drop_last() =~= tiles@.take(i as int));
        if shows_window(tree, tiles[i]) {
            changes.push(ResizingChange { tile: tiles[i], resizing });
        }
        i += 1;
    }
    assert(tiles@.take(tiles@.len() as int) =~= tiles@);
    changes
}

/// The tiles among these whose windows did not get to their last sizes yet.
fn pending_tiles(tree: &Tree<TreeNode>, tiles: &Vec<u64>) -> (pending: Vec<u64>)
    requires
        model(*tree).settled(),
        model(*tree).keyed(),
    ensures
        pending@ == model(*tree).pending_tiles(tiles@),
{
    let ghost shape = model(*tree);
    assert(shape.regular()) by {
        lemma_sound(shape);
    }
    let mut pending: Vec<u64> = Vec::new();
    let mut i: usize = 0;
    assert(tiles@.take(0) =~= seq![]);
    while i < tiles.len()
        invariant
            i <= tiles@.len(),
            shape == model(*tree),
            shape.regular(),
            shape.keyed(),
            pending@ == shape.pending_tiles(tiles@.take(i as int)),
        decreases tiles@.len() - i,
    {
        assert(tiles@.take(i as int + 1).drop_last() =~= tiles@.take(i as int));
        match node_by_key(tree, tiles[i]) {
            Some(id) => {
                assert(shape.has(id) && shape.key(id) == tiles@[i as int]);
                match get_node(tree, &id) {
                    Some(found) => match &found.data {
                        Data::Mapped { mapped, .. } => {
                            if live_resize_tile_is_pending(
                                mapped.latest_size_committed,
                                mapped.resizing,
                            ) {
                                pending.push(tiles[i]);
                            }
                        },
                        _ => {},
                    },
                    None => {},
                }
            },
            None => {},
        }
        i += 1;
    }
    assert(tiles@.take(tiles@.len() as int) =~= tiles@);
    pending
}

impl LayoutView {
    /// The layout with a resize that goes on.
    pub open spec fn with_live(self, live: Option<LiveView>) -> LayoutView {
        LayoutView { live, ..self }
    }

    /// Whether a resize of these tiles goes on already.
    pub open spec fn resizes_already(self, target: ScrollingResizeTarget) -> bool {
        self.live matches Some(live) && !live.finishing && live.target == target
    }

    /// The layout with a resize of these tiles going on.
    pub open spec fn resizing(self, target: ScrollingResizeTarget, tiles: Seq<u64>) -> LayoutView {
        if self.resizes_already(target) {
            self
        } else {
            self.with_live(Some(LiveView { target, tiles, finishing: false }))
        }
    }

    /// Which windows have to be told about a resize of these tiles.
    pub open spec fn told(self, tree: TreeModel, target: ScrollingResizeTarget, tiles: Seq<u64>) -> Seq<
        ResizingChange,
    > {
        if self.resizes_already(target) {
            seq![]
        } else {
            (match self.live {
                Some(live) => tree.resizing_changes(live.tiles, false),
                None => seq![],
            }) + tree.resizing_changes(tiles, true)
        }
    }

    /// Whether `after` is this layout with the tree shown at once during a resize of these
    /// tiles.
    pub open spec fn committed_live(
        self,
        after: LayoutView,
        tree: TreeModel,
        configures: Seq<Configure>,
        live: Option<LiveResize>,
    ) -> bool {
        exists|placed: TreeModel| #[trigger]
            self.scroll.arranged(
                after.scroll,
                tree,
                placed,
                configures,
                self.usable,
                self.gaps,
                None,
                true,
                live,
            ) && after == (LayoutView {
                queue: self.queue.pushed_direct(placed, None),
                scroll: after.scroll,
                ..self
            })
    }

    /// Whether a resize of these tiles leads to `after`.
    pub open spec fn resizes_live(
        self,
        after: LayoutView,
        tree: TreeModel,
        target: ScrollingResizeTarget,
        tiles: Seq<u64>,
        changes: Seq<ResizingChange>,
        configures: Seq<Configure>,
    ) -> bool {
        changes == self.told(tree, target, tiles) && exists|live: LiveResize|
            live.tiles@ == tiles && !live.final_configure && #[trigger] self.resizing(
                target,
                tiles,
            ).committed_live(after, tree, configures, Some(live))
    }
}

/// What a resize leads to: whether anything changed, which windows have to be told that they
/// are being resized, and what the windows have to be asked to do.
#[derive(Debug)]
pub struct LiveChange {
    pub changed: bool,
    pub changes: Vec<ResizingChange>,
    pub configures: Vec<Configure>,
}

impl TilingLayout {
    /// Lets a resize of these tiles go on.
    fn set_scrolling_live_resize(
        &mut self,
        tree: &Tree<TreeNode>,
        target: ScrollingResizeTarget,
        tiles: Vec<u64>,
    ) -> (changes: Vec<ResizingChange>)
        requires
            model(*tree).settled(),
            model(*tree).keyed(),
        ensures
            changes@ == old(self)@.told(model(*tree), target, tiles@),
            final(self)@ == old(self)@.resizing(target, tiles@),
    {
        let ghost before = self@;
        let same: bool = match &self.scrolling_live_resize {
            Some(live) => !live.finishing && live.target == target,
            None => false,
        };
        if same {
            return Vec::new();
        }
        let mut changes: Vec<ResizingChange> = match &self.scrolling_live_resize {
            Some(previous) => resizing_changes(tree, &previous.tiles, false),
            None => Vec::new(),
        };
        let mut more: Vec<ResizingChange> = resizing_changes(tree, &tiles, true);
        changes.append(&mut more);
        self.scrolling_live_resize = Some(ScrollingLiveResize { target, tiles, finishing: false });
        assert(self@ =~~= before.resizing(target, tiles@));
        changes
    }

    /// Shows a tree at once during a resize.
    fn commit_live(&mut self, tree: Tree<TreeNode>, live: LiveResize) -> (configures: Vec<Configure>)
        requires
            old(self)@.ready(),
            model(tree).settled(),
            model(tree).keyed(),
        ensures
            old(self)@.committed_live(final(self)@, model(tree), configures@, Some(live)),
            final(self)@.ready(),
            forall|bound: u64| #[trigger]
                old(self)@.wf(bound) && model(tree).keys_below(bound) ==> final(self)@.wf(bound),
    {
        let ghost before = self@;
        let ghost shape = model(tree);
        let ghost resize = live;
        let mut placed: Tree<TreeNode> = tree;
        assert(shape.regular()) by {
            lemma_sound(shape);
        }
        let configures: Vec<Configure> = self.scrolling.update_positions_for_live_resize(
            &mut placed,
            self.usable,
            self.gaps,
            live,
        );
        self.queue.push_direct_tree(placed, None);
        proof {
            lemma_arranged_keys(
                before.scroll,
                self@.scroll,
                shape,
                model(placed),
                configures@,
                before.usable,
                before.gaps,
                None,
                true,
                Some(resize),
            );
            assert forall|bound: u64| #[trigger] before.wf(bound) && shape.keys_below(
                bound,
            ) implies self@.wf(bound) by {
                lemma_pushed_keys(before.queue, model(placed), 0, None, bound);
            }
            assert(before.scroll.arranged(
                self@.scroll,
                shape,
                model(placed),
                configures@,
                before.usable,
                before.gaps,
                None,
                true,
                Some(resize),
            ) && self@ == (LayoutView {
                queue: before.queue.pushed_direct(model(placed), None),
                scroll: self@.scroll,
                ..before
            }));
        }
        configures
    }
}

impl Strip {
    /// The tiles of the column of a tile; the tile alone where it is not on the strip.
    pub open spec fn column_tiles(self, tile: u64) -> Seq<u64> {
        match self.position(tile) {
            Some((column, _)) => self.columns[column].tiles,
            None => seq![tile],
        }
    }
}

impl LayoutView {
    /// Whether changing the width of a column leads to `after`.
    pub open spec fn resizes_column(
        self,
        after: LayoutView,
        node: u64,
        delta: i32,
        anchor: ColumnResizeAnchor,
        eased: Seq<EasedArea>,
        result: Option<LiveChange>,
    ) -> bool {
        if self.engine is Classic {
            result is None && after == self
        } else {
            exists|ready: LayoutView, tree: TreeModel| #[trigger]
                self.prepared(ready, tree, eased) && match ready.scroll.strip.column_resized(
                    node,
                    delta as int,
                    anchor,
                ) {
                    None => result is None && after == ready,
                    Some((changed, _, strip)) => result matches Some(change) && change.changed
                        == changed && if changed {
                        ready.with_strip(strip).resizes_live(
                            after,
                            tree,
                            ScrollingResizeTarget::Column { tile: node, anchor },
                            strip.column_tiles(node),
                            change.changes@,
                            change.configures@,
                        )
                    } else {
                        after == ready.with_strip(strip) && change.changes@.len() == 0
                            && change.configures@.len() == 0
                    },
                }
        }
    }

    /// Whether changing the heights of two tiles leads to `after`.
    pub open spec fn resizes_rows(
        self,
        after: LayoutView,
        upper: u64,
        lower: u64,
        delta: i32,
        eased: Seq<EasedArea>,
        result: Option<LiveChange>,
    ) -> bool {
        if self.engine is Classic {
            result is None && after == self
        } else {
            exists|ready: LayoutView, tree: TreeModel| #[trigger]
                self.prepared(ready, tree, eased) && match ready.scroll.strip.rows_resized(
                    upper,
                    lower,
                    delta as int,
                ) {
                    None => result is None && after == ready,
                    Some((changed, strip)) => result matches Some(change) && change.changed
                        == changed && if changed {
                        ready.with_strip(strip).resizes_live(
                            after,
                            tree,
                            ScrollingResizeTarget::Rows { upper, lower },
                            seq![upper, lower],
                            change.changes@,
                            change.configures@,
                        )
                    } else {
                        after == ready.with_strip(strip) && change.changes@.len() == 0
                            && change.configures@.len() == 0
                    },
                }
        }
    }

    /// The layout at the end of a resize, before it is shown.
    pub open spec fn finishing(self) -> LayoutView {
        match self.live {
            Some(live) => {
                let ended = self.with_live(Some(LiveView { finishing: true, ..live }));
                if live.target is Column {
                    ended.with_strip(self.scroll.strip.only_tile_centered())
                } else {
                    ended
                }
            },
            None => self.with_strip(self.scroll.strip.only_tile_centered()),
        }
    }

    /// Whether the end of a resize leads to `after`.
    pub open spec fn finishes(
        self,
        after: LayoutView,
        eased: Seq<EasedArea>,
        changes: Seq<ResizingChange>,
        configures: Seq<Configure>,
    ) -> bool {
        if self.engine is Classic {
            after == self && changes.len() == 0 && configures.len() == 0
        } else {
            exists|ready: LayoutView, tree: TreeModel| #[trigger]
                self.prepared(ready, tree, eased) && match ready.live {
                    Some(live) => changes == tree.resizing_changes(live.tiles, false)
                        && exists|resize: LiveResize|
                        resize.tiles@ == live.tiles && resize.final_configure
                            && #[trigger] ready.finishing().committed_live(
                            after,
                            tree,
                            configures,
                            Some(resize),
                        ),
                    None => changes.len() == 0 && ready.finishing().committed_live(
                        after,
                        tree,
                        configures,
                        None,
                    ),
                }
        }
    }

    /// Whether what a resize changes is on the strip.
    pub open spec fn target_exists(self, target: ScrollingResizeTarget) -> bool {
        match target {
            ScrollingResizeTarget::Column { tile, .. } => self.scroll.strip.contains(tile),
            ScrollingResizeTarget::Rows { upper, lower } => self.scroll.strip.rows_at(upper, 1)
                == Some((upper, lower)),
        }
    }

    /// The layout some time later: a resize of what is no longer there is over, and so is one
    /// whose windows all have their last sizes.
    pub open spec fn live_updated(self) -> LayoutView {
        match self.live {
            None => self,
            Some(live) => if !self.target_exists(live.target) {
                self.with_live(None)
            } else if !live.finishing {
                self
            } else {
                let pending = self.newest().pending_tiles(live.tiles);
                if pending.len() == 0 {
                    self.with_live(None)
                } else {
                    self.with_live(Some(LiveView { tiles: pending, ..live }))
                }
            },
        }
    }

    /// Which windows are no longer resized some time later.
    pub open spec fn live_released(self) -> Seq<ResizingChange> {
        match self.live {
            Some(live) => if !self.target_exists(live.target) {
                self.newest().resizing_changes(live.tiles, false)
            } else {
                seq![]
            },
            None => seq![],
        }
    }

    /// What a pointer at these edges of the focused tile resizes.
    pub open spec fn resize_target(self, tile: u64, edge: ResizeEdge) -> Option<ScrollingResizeTarget> {
        let rows = |delta: int|
            match self.scroll.strip.rows_at(tile, delta) {
                Some((upper, lower)) => Some(ScrollingResizeTarget::Rows { upper, lower }),
                None => None,
            };
        if edge.left {
            Some(ScrollingResizeTarget::Column { tile, anchor: ColumnResizeAnchor::Right })
        } else if edge.right {
            Some(ScrollingResizeTarget::Column { tile, anchor: ColumnResizeAnchor::Left })
        } else if edge.top {
            rows(-1)
        } else if edge.bottom {
            rows(1)
        } else {
            None
        }
    }
}

impl TilingLayout {
    /// Shows a resize of these tiles at once.
    fn show_resize(&mut self, tree: Tree<TreeNode>, target: ScrollingResizeTarget, tiles: Vec<u64>) -> (change:
        LiveChange)
        requires
            old(self)@.ready(),
            model(tree).settled(),
            model(tree).keyed(),
        ensures
            change.changed,
            old(self)@.resizes_live(
                final(self)@,
                model(tree),
                target,
                tiles@,
                change.changes@,
                change.configures@,
            ),
            final(self)@.ready(),
            forall|bound: u64| #[trigger]
                old(self)@.wf(bound) && model(tree).keys_below(bound) ==> final(self)@.wf(bound),
    {
        let ghost before = self@;
        let ghost shape = model(tree);
        let resized: Vec<u64> = copy_items(&tiles);
        let changes: Vec<ResizingChange> = self.set_scrolling_live_resize(&tree, target, tiles);
        let ghost begun = self@;
        assert forall|bound: u64| #[trigger] before.wf(bound) implies begun.wf(bound) by {}
        let live = LiveResize { tiles: resized, final_configure: false };
        let ghost resize = live;
        let configures: Vec<Configure> = self.commit_live(tree, live);
        assert(resize.tiles@ == tiles@ && !resize.final_configure && before.resizing(
            target,
            tiles@,
        ).committed_live(self@, shape, configures@, Some(resize)));
        LiveChange { changed: true, changes, configures }
    }

    /// Changes the width of the column of a tile by some pixels; the edge at `anchor` stays.
    pub fn resize_scrolling_column(
        &mut self,
        node: u64,
        delta: i32,
        anchor: ColumnResizeAnchor,
        eased: &Vec<EasedArea>,
    ) -> (result: Option<LiveChange>)
        requires
            old(self)@.ready(),
        ensures
            old(self)@.resizes_column(final(self)@, node, delta, anchor, eased@, result),
            final(self)@.ready(),
            forall|bound: u64| #[trigger] old(self)@.wf(bound) ==> final(self)@.wf(bound),
    {
        let ghost before = self@;
        if self.tiling_engine != TilingEngine::Scrolling {
            return None;
        }
        let tree: Tree<TreeNode> = self.prepare_scrolling_direct_tree(eased);
        let ghost ready = self@;
        let ghost shape = model(tree);
        assert(before.prepared(ready, shape, eased@));
        let changed: bool = match self.scrolling.resize_column_by_pixels(node, delta, anchor) {
            Some(changed) => changed,
            None => {
                return None;
            },
        };
        let ghost sized = self@;
        assert forall|bound: u64| #[trigger] before.wf(bound) implies sized.wf(bound)
            && shape.keys_below(bound) by {
            assert(ready.wf(bound));
        }
        if !changed {
            return Some(
                LiveChange { changed: false, changes: Vec::new(), configures: Vec::new() },
            );
        }
        let tiles: Vec<u64> = match self.scrolling.tiles_in_column(node) {
            Some(tiles) => tiles,
            None => {
                let mut tiles: Vec<u64> = Vec::new();
                tiles.push(node);
                tiles
            },
        };
        assert(tiles@ =~= sized.scroll.strip.column_tiles(node));
        Some(
            self.show_resize(tree, ScrollingResizeTarget::Column { tile: node, anchor }, tiles),
        )
    }

    /// Changes the heights of two tiles on top of each other by some pixels.
    pub fn resize_scrolling_rows(
        &mut self,
        upper: u64,
        lower: u64,
        delta: i32,
        eased: &Vec<EasedArea>,
    ) -> (result: Option<LiveChange>)
        requires
            old(self)@.ready(),
        ensures
            old(self)@.resizes_rows(final(self)@, upper, lower, delta, eased@, result),
            final(self)@.ready(),
            forall|bound: u64| #[trigger] old(self)@.wf(bound) ==> final(self)@.wf(bound),
    {
        let ghost before = self@;
        if self.tiling_engine != TilingEngine::Scrolling {
            return None;
        }
        let tree: Tree<TreeNode> = self.prepare_scrolling_direct_tree(eased);
        let ghost ready = self@;
        let ghost shape = model(tree);
        assert(before.prepared(ready, shape, eased@));
        let changed: bool = match self.scrolling.resize_rows_by_pixels(upper, lower, delta) {
            Some(changed) => changed,
            None => {
                return None;
            },
        };
        let ghost sized = self@;
        assert forall|bound: u64| #[trigger] before.wf(bound) implies sized.wf(bound)
            && shape.keys_below(bound) by {
            assert(ready.wf(bound));
        }
        if !changed {
            return Some(
                LiveChange { changed: false, changes: Vec::new(), configures: Vec::new() },
            );
        }
        let mut tiles: Vec<u64> = Vec::new();
        tiles.push(upper);
        tiles.push(lower);
        assert(tiles@ =~= seq![upper, lower]);
        Some(self.show_resize(tree, ScrollingResizeTarget::Rows { upper, lower }, tiles))
    }

    /// Shows a tree at once, with the viewport where it is.
    fn commit_kept(&mut self, tree: Tree<TreeNode>) -> (configures: Vec<Configure>)
        requires
            old(self)@.ready(),
            model(tree).settled(),
            model(tree).keyed(),
        ensures
            old(self)@.committed_live(final(self)@, model(tree), configures@, None),
            final(self)@.ready(),
            forall|bound: u64| #[trigger]
                old(self)@.wf(bound) && model(tree).keys_below(bound) ==> final(self)@.wf(bound),
    {
        let ghost before = self@;
        let ghost shape = model(tree);
        let mut tree: Tree<TreeNode> = tree;
        assert(shape.regular()) by {
            lemma_sound(shape);
        }
        let configures: Vec<Configure> = self.scrolling.update_positions_preserving_viewport(
            &mut tree,
            self.usable,
            self.gaps,
        );
        let ghost placed = model(tree);
        self.queue.push_direct_tree(tree, None);
        proof {
            lemma_arranged_keys(
                before.scroll,
                self@.scroll,
                shape,
                placed,
                configures@,
                before.usable,
                before.gaps,
                None,
                true,
                None,
            );
            assert forall|bound: u64| #[trigger] before.wf(bound) && shape.keys_below(
                bound,
            ) implies self@.wf(bound) by {
                lemma_pushed_keys(before.queue, placed, 0, None, bound);
            }
            assert(before.scroll.arranged(
                self@.scroll,
                shape,
                placed,
                configures@,
                before.usable,
                before.gaps,
                None,
                true,
                None,
            ) && self@ == (LayoutView {
                queue: before.queue.pushed_direct(placed, None),
                scroll: self@.scroll,
                ..before
            }));
        }
        configures
    }

    /// Ends a resize: the windows get their last sizes.
    pub fn finish_scrolling_resize(&mut self, eased: &Vec<EasedArea>) -> (result: (
        Vec<ResizingChange>,
        Vec<Configure>,
    ))
        requires
            old(self)@.ready(),
        ensures
            old(self)@.finishes(final(self)@, eased@, result.0@, result.1@),
            final(self)@.ready(),
            forall|bound: u64| #[trigger] old(self)@.wf(bound) ==> final(self)@.wf(bound),
    {
        let ghost before = self@;
        if self.tiling_engine != TilingEngine::Scrolling {
            return (Vec::new(), Vec::new());
        }
        let mut tree: Tree<TreeNode> = self.prepare_scrolling_direct_tree(eased);
        let ghost ready = self@;
        let ghost shape = model(tree);
        assert(before.prepared(ready, shape, eased@));
        match &self.scrolling_live_resize {
            Some(resize) => {
                let target: ScrollingResizeTarget = resize.target;
                let tiles: Vec<u64> = copy_items(&resize.tiles);
                let kept: Vec<u64> = copy_items(&resize.tiles);
                let column: bool = match target {
                    ScrollingResizeTarget::Column { .. } => true,
                    ScrollingResizeTarget::Rows { .. } => false,
                };
                if column {
                    self.scrolling.finish_column_resize();
                }
                self.scrolling_live_resize = Some(
                    ScrollingLiveResize { target, tiles: kept, finishing: true },
                );
                let ghost ended = self@;
                assert(ended =~~= ready.finishing());
                assert forall|bound: u64| #[trigger] before.wf(bound) implies ended.wf(bound)
                    && shape.keys_below(bound) by {
                    assert(ready.wf(bound));
                }
                let changes: Vec<ResizingChange> = resizing_changes(&tree, &tiles, false);
                let live = LiveResize { tiles, final_configure: true };
                let ghost resize_view = live;
                let configures: Vec<Configure> = self.commit_live(tree, live);
                assert(resize_view.tiles@ == ready.live->0.tiles && resize_view.final_configure
                    && ready.finishing().committed_live(
                    self@,
                    shape,
                    configures@,
                    Some(resize_view),
                ));
                (changes, configures)
            },
            None => {
                self.scrolling.finish_column_resize();
                let ghost ended = self@;
                assert(ended =~~= ready.finishing());
                assert forall|bound: u64| #[trigger] before.wf(bound) implies ended.wf(bound)
                    && shape.keys_below(bound) by {
                    assert(ready.wf(bound));
                }
                let configures: Vec<Configure> = self.commit_kept(tree);
                (Vec::new(), configures)
            },
        }
    }

    /// Whether what a resize changes is on the strip.
    fn scrolling_live_resize_target_exists(&self, target: ScrollingResizeTarget) -> (yes: bool)
        ensures
            yes == self@.target_exists(target),
    {
        match target {
            ScrollingResizeTarget::Column { tile, .. } => self.scrolling.contains(tile),
            ScrollingResizeTarget::Rows { upper, lower } => match self.scrolling.row_pair(upper, 1) {
                Some((first, second)) => first == upper && second == lower,
                None => false,
            },
        }
    }

    /// Lets a resize be over whose windows have their last sizes. Returns which windows are no
    /// longer resized because what was resized is gone.
    pub fn update_scrolling_live_resize_state(&mut self) -> (changes: Vec<ResizingChange>)
        requires
            old(self)@.ready(),
        ensures
            final(self)@ == old(self)@.live_updated(),
            changes@ == old(self)@.live_released(),
            final(self)@.ready(),
            forall|bound: u64| #[trigger] old(self)@.wf(bound) ==> final(self)@.wf(bound),
    {
        let ghost before = self@;
        match &self.scrolling_live_resize {
            None => Vec::new(),
            Some(resize) => {
                let target: ScrollingResizeTarget = resize.target;
                let finishing: bool = resize.finishing;
                if !self.scrolling_live_resize_target_exists(target) {
                    let changes: Vec<ResizingChange> = resizing_changes(
                        self.tree(),
                        &resize.tiles,
                        false,
                    );
                    self.scrolling_live_resize = None;
                    assert(self@ =~~= before.live_updated());
                    return changes;
                }
                if !finishing {
                    return Vec::new();
                }
                let pending: Vec<u64> = pending_tiles(self.tree(), &resize.tiles);
                if pending.len() == 0 {
                    self.scrolling_live_resize = None;
                } else {
                    self.scrolling_live_resize = Some(
                        ScrollingLiveResize { target, tiles: pending, finishing },
                    );
                }
                assert(self@ =~~= before.live_updated());
                Vec::new()
            },
        }
    }

    /// The key of the focused window, if it is on the strip of a scrolling layout.
    fn scrolling_focused_tile(&self, focus: &Option<KeyboardFocus>) -> (tile: Option<u64>)
        requires
            self@.ready(),
        ensures
            exists|key: Option<u64>| #[trigger]
                self@.focused_window(focus_view(*focus), key) && tile == if self@.engine is Scrolling
                    && key is Some && self@.scroll.strip.contains(key->0) {
                    key
                } else {
                    None
                },
    {
        let key: Option<u64> = self.focused_window(focus);
        assert(self@.focused_window(focus_view(*focus), key));
        if self.tiling_engine != TilingEngine::Scrolling {
            return None;
        }
        match key {
            Some(tile) => if self.scrolling.contains(tile) {
                Some(tile)
            } else {
                None
            },
            None => None,
        }
    }

    /// What a pointer at these edges of a tile resizes, if the tile has the focus.
    pub fn scrolling_resize_target(
        &self,
        requested: u64,
        edge: ResizeEdge,
        focus: &Option<KeyboardFocus>,
    ) -> (target: Option<ScrollingResizeTarget>)
        requires
            self@.ready(),
        ensures
            exists|key: Option<u64>| #[trigger]
                self@.focused_window(focus_view(*focus), key) && target == if self@.engine is Scrolling
                    && key == Some(requested) && self@.scroll.strip.contains(requested) {
                    self@.resize_target(requested, edge)
                } else {
                    None
                },
    {
        let focused: u64 = match self.scrolling_focused_tile(focus) {
            Some(tile) => tile,
            None => {
                return None;
            },
        };
        if requested != focused {
            return None;
        }
        if edge.left {
            return Some(
                ScrollingResizeTarget::Column {
                    tile: focused,
                    anchor: ColumnResizeAnchor::Right,
                },
            );
        }
        if edge.right {
            return Some(
                ScrollingResizeTarget::Column { tile: focused, anchor: ColumnResizeAnchor::Left },
            );
        }
        let delta: isize = if edge.top {
            -1
        } else if edge.bottom {
            1
        } else {
            return None;
        };
        match self.scrolling.row_pair(focused, delta) {
            Some((upper, lower)) => Some(ScrollingResizeTarget::Rows { upper, lower }),
            None => None,
        }
    }
}

} // verus!
