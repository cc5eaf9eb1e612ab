//! Dragging windows out of the layout and dropping them into it.

use vstd::prelude::*;

use id_tree::{NodeId, Tree};

use crate::balance::lemma_sound;
use crate::classic::Configure;
use crate::columns::ColumnDropTarget;
use crate::config::TilingEngine;
use crate::copies::{lemma_copied_item, node_by_key};
use crate::data::{Data, DataView, PlaceholderType, Window};
use crate::drops::{
    drop_at_edge, drop_beside, drop_inside, has_drag_state, left_by_drag, set_leaf, sweep_drag,
};
use crate::geometry::{Point, Rectangle};
use crate::keys::KeySource;
use crate::layout::{Hover, LayoutView, TilingLayout};
use crate::mapping::lemma_higher;
use crate::queue::{EasedArea, QueueView, QueuedTree, QueuedView, ANIMATION_DURATION};
use crate::reshape::{lemma_added_keys, set_window};
use crate::scrolling::tile_geometry;
use crate::surgery::{lemma_keeps_keys, map_to_tree, new_window};
use crate::tree::{get_node, get_node_mut, model, visits, TreeModel, TreeNode};
use crate::unmapping::lemma_minimized;
use crate::zones::{scrolling_drop_target, TargetZone};

verus! {

impl TreeModel {
    /// Whether the node with this key is a group.
    pub open spec fn has_group(self, key: u64) -> bool {
        self.has_key(key) && self.data(self.node_keyed(key)) is Group
    }

    /// Whether the node with this key is a window or a placeholder.
    pub open spec fn has_leaf(self, key: u64) -> bool {
        self.has_key(key) && !(self.data(self.node_keyed(key)) is Group)
    }

    /// The key of the node that a dropped window ends up in. A new node has the key `base`.
    pub open spec fn drop_key(self, zone: Option<TargetZone>, base: u64) -> u64 {
        match zone {
            Some(TargetZone::InitialPlaceholder(key)) if self.has_leaf(key) => key,
            Some(TargetZone::WindowStack(key, _)) if self.shows_window(key) => key,
            _ => base,
        }
    }

    /// Whether a dropped window is stacked with another one.
    pub open spec fn drops_on_window(self, zone: Option<TargetZone>) -> bool {
        zone matches Some(TargetZone::WindowStack(key, _)) && self.shows_window(key)
    }

    /// Whether `after` is this tree with a window dropped at a place. Where it is dropped on a
    /// window, `stack` takes the place of that one. Where the place is gone, the window is
    /// added next to everything.
    pub open spec fn takes_drop(
        self,
        after: TreeModel,
        id: NodeId,
        zone: Option<TargetZone>,
        window: Window,
        stack: Window,
        output_size: crate::geometry::Size,
        base: u64,
    ) -> bool {
        let item = new_window(base, window, None);
        let group_key = (base + 1) as u64;
        match zone {
            Some(TargetZone::GroupEdge(key, direction)) if self.has_group(key) => !self.has(id)
                && self.dropped_at_edge(
                after,
                id,
                item,
                self.node_keyed(key),
                direction,
                group_key,
            ),
            Some(TargetZone::GroupInterior(key, index)) if self.has_group(key) => !self.has(id)
                && after == self.dropped_inside(id, item, self.node_keyed(key), index as int),
            Some(TargetZone::InitialPlaceholder(key)) if self.has_leaf(key) => id
                == self.node_keyed(key) && after == self.with_data(
                id,
                DataView::Mapped {
                    mapped: window,
                    last_geometry: self.data(id).geometry(),
                    minimize_rect: None,
                },
            ),
            Some(TargetZone::WindowSplit(key, direction)) if self.has_key(key) => !self.has(id)
                && self.dropped_beside(
                after,
                id,
                item,
                self.node_keyed(key),
                direction,
                group_key,
            ),
            Some(TargetZone::WindowStack(key, _)) if self.shows_window(key) => id
                == self.node_keyed(key) && after == self.with_other_window(id, stack),
            _ => !self.has(id) && self.mapped_as(
                after,
                id,
                item,
                group_key,
                output_size,
                None,
                None,
            ),
        }
    }

    /// Whether `after` is this tree without anything that a drag left there.
    pub open spec fn swept_clean(self, after: TreeModel) -> bool {
        match self.root {
            Some(root) => exists|order: Seq<NodeId>| #[trigger]
                visits(self.nodes, seq![root], order) && after == self.swept(order, true),
            None => after == self,
        }
    }

    /// Whether `after` is this tree with a window dropped at a place, and nothing else left of
    /// the drag. The window comes from `source`.
    pub open spec fn with_drop(
        self,
        after: TreeModel,
        zone: Option<TargetZone>,
        window: Window,
        stack: Window,
        source: Option<Rectangle>,
        output_size: crate::geometry::Size,
        base: u64,
    ) -> bool {
        exists|taken: TreeModel, clean: TreeModel, id: NodeId| #[trigger]
            self.takes_drop(taken, id, zone, window, stack, output_size, base)
                && #[trigger] taken.swept_clean(clean) && after == match source {
                Some(source) => clean.minimized_at(self.drop_key(zone, base), source),
                None => clean,
            }
    }

    /// Whether a drag left anything in the tree.
    pub open spec fn shows_drag(self, yes: bool) -> bool {
        match self.root {
            Some(root) => exists|order: Seq<NodeId>| #[trigger]
                visits(self.nodes, seq![root], order) && yes == left_by_drag(self, order),
            None => !yes,
        }
    }
}

/// The zone that a dragged window is over.
pub open spec fn zone_of(hover: Option<Hover>) -> Option<TargetZone> {
    match hover {
        Some(hover) => Some(hover.zone),
        None => None,
    }
}

impl LayoutView {
    /// Where a window dropped at `target` goes on the strip: while the tree-based layout is
    /// shown it keeps its place there, unless it is stacked.
    pub open spec fn strip_target(self, target: ColumnDropTarget) -> ColumnDropTarget {
        if self.engine is Classic && !(target is Discard) {
            ColumnDropTarget::Original
        } else {
            target
        }
    }

    /// The layout with a drag over on the strip, where there is one.
    pub open spec fn drag_finished(self, key: u64, target: ColumnDropTarget) -> LayoutView {
        if self.engine is Scrolling || self.scroll.strip.drag is Some {
            self.with_strip(
                self.scroll.strip.drag_finished(Some(key), self.strip_target(target)),
            )
        } else {
            self
        }
    }

    /// Whether dropping a window leads to `after`, with the window in the node `key`.
    pub open spec fn drops(
        self,
        after: LayoutView,
        window: Window,
        stack: Window,
        source: Rectangle,
        base: u64,
        eased: Seq<EasedArea>,
        key: u64,
        configures: Seq<Configure>,
    ) -> bool {
        exists|copy: TreeModel, tree: TreeModel, target: ColumnDropTarget|
            {
                &&& self.newest().copied(copy)
                &&& #[trigger] copy.drops_to(zone_of(self.hover), target)
                &&& #[trigger] copy.with_drop(
                    tree,
                    zone_of(self.hover),
                    window,
                    stack,
                    self.drop_source(copy, source),
                    self.output_size,
                    base,
                )
                &&& key == copy.drop_key(zone_of(self.hover), base)
                &&& self.drag_finished(key, target).committed(
                    after,
                    tree,
                    ANIMATION_DURATION,
                    eased,
                    configures,
                    Some(key),
                )
            }
    }

    /// Where a dropped window comes from: on a scrolling layout it starts where it is shown,
    /// unless it is stacked.
    pub open spec fn drop_source(self, tree: TreeModel, source: Rectangle) -> Option<Rectangle> {
        if self.engine is Scrolling && !tree.drops_on_window(zone_of(self.hover)) {
            Some(source)
        } else {
            None
        }
    }
}

/// What came of a drop: the key of the node that the window is in, whether it is stacked there,
/// where it is, and what the windows have to be asked to do.
#[derive(Debug)]
pub struct Dropped {
    pub node: u64,
    pub stacked: bool,
    pub location: Option<Point>,
    pub configures: Vec<Configure>,
}

impl TilingLayout {
    /// Puts a dropped window into a tree. Returns the key of the node that it is in.
    fn take_drop(
        &self,
        tree: &mut Tree<TreeNode>,
        zone: Option<TargetZone>,
        window: Window,
        stack: Window,
        base: u64,
        group_key: u64,
    ) -> (key: u64)
        requires
            model(*old(tree)).settled(),
            model(*old(tree)).keyed(),
            model(*old(tree)).keys_below(base),
            base + 2 <= u64::MAX,
            group_key == base + 1,
        ensures
            key == model(*old(tree)).drop_key(zone, base),
            exists|id: NodeId| #[trigger]
                model(*old(tree)).takes_drop(
                    model(*final(tree)),
                    id,
                    zone,
                    window,
                    stack,
                    self.output_size,
                    base,
                ),
            model(*final(tree)).settled(),
            model(*final(tree)).keyed(),
            model(*final(tree)).keys_below((base + 2) as u64),
    {
        let ghost before = model(*tree);
        assert(before.regular() && before.forest()) by {
            lemma_sound(before);
        }
        assert(!before.has_key(base) && !before.has_key(group_key));
        let node = TreeNode {
            key: base,
            data: Data::Mapped {
                mapped: window,
                last_geometry: Rectangle::new(0, 0, 100, 100),
                minimize_rect: None,
            },
        };
        let ghost item = node@;
        assert(item == new_window(base, window, None));
        let found: Option<NodeId> = match zone {
            Some(TargetZone::GroupEdge(key, _)) => node_by_key(tree, key),
            Some(TargetZone::GroupInterior(key, _)) => node_by_key(tree, key),
            Some(TargetZone::InitialPlaceholder(key)) => node_by_key(tree, key),
            Some(TargetZone::WindowSplit(key, _)) => node_by_key(tree, key),
            Some(TargetZone::WindowStack(key, _)) => node_by_key(tree, key),
            _ => None,
        };
        if let Some(target) = found {
            let (group, mapped, geometry): (bool, bool, Rectangle) = match get_node(tree, &target) {
                Some(there) => (
                    there.data.is_group(),
                    there.data.is_mapped(None),
                    there.data.geometry(),
                ),
                None => (false, false, Rectangle::new(0, 0, 0, 0)),
            };
            assert(before.has(target) && before.key(target) == match zone->0 {
                TargetZone::GroupEdge(key, _) => key,
                TargetZone::GroupInterior(key, _) => key,
                TargetZone::InitialPlaceholder(key) => key,
                TargetZone::WindowSplit(key, _) => key,
                TargetZone::WindowStack(key, _) => key,
                TargetZone::Initial => 0,
            });
            match zone {
                Some(TargetZone::GroupEdge(_, direction)) => {
                    if group {
                        let id: NodeId = drop_at_edge(tree, node, &target, direction, group_key);
                        proof {
                            reveal(TreeModel::grows_two);
                            assert(before.takes_drop(
                                model(*tree),
                                id,
                                zone,
                                window,
                                stack,
                                self.output_size,
                                base,
                            ));
                        }
                        return base;
                    }
                },
                Some(TargetZone::GroupInterior(_, index)) => {
                    if group {
                        let id: NodeId = drop_inside(tree, node, &target, index);
                        proof {
                            reveal(TreeModel::grows_keys);
                            assert(before.takes_drop(
                                model(*tree),
                                id,
                                zone,
                                window,
                                stack,
                                self.output_size,
                                base,
                            ));
                        }
                        return base;
                    }
                },
                Some(TargetZone::InitialPlaceholder(key)) => {
                    if !group {
                        set_leaf(
                            tree,
                            &target,
                            Data::Mapped {
                                mapped: window,
                                last_geometry: geometry,
                                minimize_rect: None,
                            },
                        );
                        proof {
                            lemma_keeps_keys(before, model(*tree));
                            assert(before.takes_drop(
                                model(*tree),
                                target,
                                zone,
                                window,
                                stack,
                                self.output_size,
                                base,
                            ));
                        }
                        return key;
                    }
                },
                Some(TargetZone::WindowSplit(_, direction)) => {
                    let id: NodeId = drop_beside(tree, node, &target, direction, group_key);
                    proof {
                        reveal(TreeModel::grows_two);
                        assert(before.takes_drop(
                            model(*tree),
                            id,
                            zone,
                            window,
                            stack,
                            self.output_size,
                            base,
                        ));
                    }
                    return base;
                },
                Some(TargetZone::WindowStack(key, _)) => {
                    if mapped {
                        set_window(tree, &target, stack);
                        proof {
                            lemma_keeps_keys(before, model(*tree));
                            assert(before.takes_drop(
                                model(*tree),
                                target,
                                zone,
                                window,
                                stack,
                                self.output_size,
                                base,
                            ));
                        }
                        return key;
                    }
                },
                _ => {},
            }
        }
        assert(model(*tree).regular()) by {
            lemma_sound(model(*tree));
        }
        let id: NodeId = map_to_tree(
            tree,
            window,
            self.output_size,
            None,
            None,
            None,
            base,
            group_key,
        );
        proof {
            lemma_added_keys(before, model(*tree), id, item, group_key);
            reveal(TreeModel::grows_two);
            assert(before.takes_drop(
                model(*tree),
                id,
                zone,
                window,
                stack,
                self.output_size,
                base,
            ));
        }
        base
    }
}

impl TilingLayout {
    /// Puts a dropped window into a tree, and leaves nothing else of the drag there. Returns
    /// the key of the node that it is in.
    fn drop_into(
        &self,
        tree: &mut Tree<TreeNode>,
        zone: Option<TargetZone>,
        window: Window,
        stack: Window,
        source: Option<Rectangle>,
        base: u64,
        group_key: u64,
    ) -> (key: u64)
        requires
            model(*old(tree)).settled(),
            model(*old(tree)).keyed(),
            model(*old(tree)).keys_below(base),
            base + 2 <= u64::MAX,
            group_key == base + 1,
        ensures
            key == model(*old(tree)).drop_key(zone, base),
            model(*old(tree)).with_drop(
                model(*final(tree)),
                zone,
                window,
                stack,
                source,
                self.output_size,
                base,
            ),
            model(*final(tree)).settled(),
            model(*final(tree)).keyed(),
            model(*final(tree)).keys_below((base + 2) as u64),
    {
        let ghost before = model(*tree);
        let key: u64 = self.take_drop(tree, zone, window, stack, base, group_key);
        let ghost taken = model(*tree);
        let ghost id = choose|id: NodeId| #[trigger]
            before.takes_drop(taken, id, zone, window, stack, self.output_size, base);
        sweep_drag(tree);
        let ghost clean = model(*tree);
        proof {
            assert(taken.swept_clean(clean));
            lemma_keeps_keys(taken, clean);
        }
        if let Some(source) = source {
            assert(clean.regular()) by {
                lemma_sound(clean);
            }
            match node_by_key(tree, key) {
                Some(node) => {
                    assert(clean.has(node) && clean.key(node) == key);
                    match get_node_mut(tree, &node) {
                        Some(found) => {
                            found.data.set_minimize_rect(Some(source));
                        },
                        None => {},
                    }
                },
                None => {},
            }
            proof {
                assert(model(*tree) =~~= clean.minimized_at(key, source));
                lemma_minimized(clean, key, source);
            }
        }
        assert(before.takes_drop(taken, id, zone, window, stack, self.output_size, base)
            && taken.swept_clean(clean));
        key
    }

    /// Drops a window where it is dragged to. `stack` is the stack that it becomes part of where
    /// it is dropped on another window, and `source` where it is shown now.
    pub fn drop_window(
        &mut self,
        window: Window,
        stack: Window,
        source: Rectangle,
        keys: &mut KeySource,
        eased: &Vec<EasedArea>,
    ) -> (dropped: Dropped)
        requires
            old(self)@.wf(old(keys).next),
            old(keys).next + 2 <= u64::MAX,
        ensures
            old(self)@.drops(
                final(self)@,
                window,
                stack,
                source,
                old(keys).next,
                eased@,
                dropped.node,
                dropped.configures@,
            ),
            dropped.stacked == old(self)@.newest().drops_on_window(zone_of(old(self)@.hover)),
            dropped.location == match final(self)@.newest().tile_geometry(dropped.node) {
                Some(geometry) => Some(geometry.loc),
                None => None,
            },
            final(keys).next == old(keys).next + 2,
            final(self)@.wf(final(keys).next),
    {
        let ghost before = self@;
        let ghost newest = before.newest();
        let mut tree: Tree<TreeNode> = self.newest_copy();
        let ghost copy = model(tree);
        assert(copy.keys_below(keys.next));
        assert(newest.keyed()) by {
            assert(before.queue.trees[before.queue.trees.len() - 1].tree.keyed());
        }
        let update_model: bool = self.tiling_engine == TilingEngine::Scrolling
            || self.scrolling.has_pending_drag();
        let zone: Option<TargetZone> = match self.last_overview_hover {
            Some(hover) => Some(hover.zone),
            None => None,
        };
        let target: ColumnDropTarget = scrolling_drop_target(&tree, zone);
        let on_strip: ColumnDropTarget = if self.tiling_engine == TilingEngine::Classic && target
            != ColumnDropTarget::Discard {
            ColumnDropTarget::Original
        } else {
            target
        };
        let stacked: bool = match zone {
            Some(TargetZone::WindowStack(key, _)) => {
                assert(copy.regular()) by {
                    lemma_sound(copy);
                }
                proof {
                    if newest.has_key(key) {
                        lemma_copied_item(newest, copy, key);
                    }
                }
                crate::scrolling::shows_window(&tree, key)
            },
            _ => false,
        };
        assert(stacked == copy.drops_on_window(zone) && stacked == newest.drops_on_window(zone));
        let base: u64 = keys.take();
        let group_key: u64 = keys.take();
        let origin: Option<Rectangle> = if self.tiling_engine == TilingEngine::Scrolling
            && !stacked {
            Some(source)
        } else {
            None
        };
        assert(origin == before.drop_source(copy, source));
        let key: u64 = self.drop_into(&mut tree, zone, window, stack, origin, base, group_key);
        if update_model {
            self.scrolling.finish_drag(Some(key), on_strip);
        }
        let ghost finished = self@;
        assert(finished =~~= before.drag_finished(key, target));
        proof {
            assert(model(tree).sound()) by {
                lemma_sound(model(tree));
            }
            lemma_higher(before, base, keys.next);
            assert(finished.wf(keys.next));
        }
        let configures: Vec<Configure> = self.commit(tree, ANIMATION_DURATION, eased, Some(key));
        assert(newest.copied(copy) && copy.drops_to(zone, target) && copy.with_drop(
            model(tree),
            zone,
            window,
            stack,
            before.drop_source(copy, source),
            before.output_size,
            base,
        ));
        let newest_now: &Tree<TreeNode> = self.tree();
        assert(model(*newest_now).regular()) by {
            lemma_sound(model(*newest_now));
        }
        let location: Option<Point> = match tile_geometry(newest_now, key) {
            Some(geometry) => Some(geometry.loc),
            None => None,
        };
        Dropped { node: key, stacked, location, configures }
    }

    /// Leaves nothing of a drag in the layout.
    pub fn cleanup_drag(&mut self) -> (result: Option<Vec<Configure>>)
        requires
            old(self)@.ready(),
        ensures
            ({
                let cancelled = old(self)@.with_strip(old(self)@.scroll.strip.drag_cancelled());
                &&& old(self)@.newest().shows_drag(result is Some)
                &&& match result {
                    Some(configures) => exists|copy: TreeModel, clean: TreeModel|
                        old(self)@.newest().copied(copy) && #[trigger] copy.swept_clean(clean)
                            && if old(self)@.engine is Scrolling {
                            cancelled.committed_directly(final(self)@, clean, configures@)
                        } else {
                            cancelled.appended(
                                final(self)@,
                                clean,
                                ANIMATION_DURATION,
                                configures@,
                            )
                        },
                    None => final(self)@ == cancelled,
                }
            }),
            final(self)@.ready(),
            forall|bound: u64| #[trigger] old(self)@.wf(bound) ==> final(self)@.wf(bound),
    {
        let ghost before = self@;
        self.scrolling.cancel_drag();
        let ghost cancelled = self@;
        let left: bool = has_drag_state(self.tree());
        assert(before.newest().shows_drag(left));
        if !left {
            return None;
        }
        let mut tree: Tree<TreeNode> = self.newest_copy();
        let ghost copy = model(tree);
        sweep_drag(&mut tree);
        let ghost clean = model(tree);
        proof {
            assert(copy.swept_clean(clean));
            lemma_keeps_keys(copy, clean);
            assert(clean.sound()) by {
                lemma_sound(clean);
            }
            assert forall|bound: u64| #[trigger] before.wf(bound) implies cancelled.wf(bound)
                && clean.keys_below(bound) by {
                assert(cancelled.queue.keys_below(bound));
            }
            assert(before.newest().copied(copy));
        }
        let configures: Vec<Configure> = if self.tiling_engine == TilingEngine::Scrolling {
            self.commit_directly(tree)
        } else {
            self.append(tree, ANIMATION_DURATION)
        };
        Some(configures)
    }

    /// The area of the window that a dragged one would be stacked with.
    pub fn stacking_indicator(&self) -> (area: Option<Rectangle>)
        ensures
            area == match zone_of(self@.hover) {
                Some(TargetZone::WindowStack(_, geometry)) => Some(geometry),
                _ => None,
            },
    {
        match self.last_overview_hover {
            Some(hover) => match hover.zone {
                TargetZone::WindowStack(_, geometry) => Some(geometry),
                _ => None,
            },
            None => None,
        }
    }
}

impl QueueView {
    /// The queue with a placeholder in the place of a window of the newest tree.
    pub open spec fn with_placeholder(self, key: u64, type_: PlaceholderType) -> QueueView {
        let last = self.trees.len() - 1;
        let tree = self.trees[last].tree;
        let id = tree.node_keyed(key);
        QueueView {
            trees: self.trees.update(
                last,
                QueuedView {
                    tree: tree.with_data(
                        id,
                        DataView::Placeholder { last_geometry: tree.data(id).geometry(), type_ },
                    ),
                    ..self.trees[last]
                },
            ),
            ..self
        }
    }
}

impl LayoutView {
    /// The layout with a drag of a tile begun on the strip, where none goes on.
    pub open spec fn drag_begun(self, key: u64) -> LayoutView {
        let strip = self.scroll.strip;
        LayoutView {
            hover: Some(Hover { since: None, zone: TargetZone::InitialPlaceholder(key) }),
            ..self.with_strip(
                if strip.drag is None && strip.contains(key) {
                    crate::strip::Strip { drag: strip.snapshot(key), ..strip }
                } else {
                    strip
                },
            )
        }
    }

    /// The layout with a placeholder in the place of a window.
    pub open spec fn with_placeholder(self, key: u64, type_: PlaceholderType) -> LayoutView {
        let begun = if type_ is GrabbedWindow {
            self.drag_begun(key)
        } else {
            self
        };
        LayoutView { queue: self.queue.with_placeholder(key, type_), ..begun }
    }

    /// Whether a scrolling layout was stopped at what it shows.
    pub open spec fn halted(self, ready: LayoutView, eased: Seq<EasedArea>) -> bool {
        if self.engine is Scrolling {
            exists|tree: TreeModel| #[trigger] self.prepared(ready, tree, eased)
        } else {
            ready == self
        }
    }

    /// Whether taking a window out and leaving a placeholder leads to `after`.
    pub open spec fn lifts(
        self,
        after: LayoutView,
        node: Option<u64>,
        type_: PlaceholderType,
        eased: Seq<EasedArea>,
        result: Option<u64>,
    ) -> bool {
        match node {
            None => result is None && after == self,
            Some(key) => exists|ready: LayoutView| #[trigger]
                self.halted(ready, eased) && if ready.newest().has_leaf(key) {
                    result == node && after == ready.with_placeholder(key, type_)
                } else {
                    result is None && after == ready
                },
        }
    }
}

impl TilingLayout {
    /// Puts a placeholder in the place of a window of the newest tree. Returns whether it is
    /// there.
    fn leave_placeholder(&mut self, key: u64, type_: PlaceholderType) -> (left: bool)
        requires
            old(self)@.ready(),
        ensures
            left == old(self)@.newest().has_leaf(key),
            final(self)@ == (LayoutView {
                queue: if left {
                    old(self)@.queue.with_placeholder(key, type_)
                } else {
                    old(self)@.queue
                },
                ..old(self)@
            }),
            final(self)@.ready(),
            forall|bound: u64| #[trigger] old(self)@.wf(bound) ==> final(self)@.wf(bound),
    {
        let ghost before = self@;
        let ghost trees = before.queue.trees;
        let last: usize = self.queue.trees.len() - 1;
        assert(trees[last as int] == self.queue.trees@[last as int]@);
        assert(trees[last as int].tree.settled() && trees[last as int].tree.keyed());
        let found: Option<(NodeId, Rectangle)> = {
            let tree: &Tree<TreeNode> = self.tree();
            assert(model(*tree).regular()) by {
                lemma_sound(model(*tree));
            }
            match node_by_key(tree, key) {
                Some(id) => {
                    assert(model(*tree).has(id) && model(*tree).key(id) == key);
                    match get_node(tree, &id) {
                        Some(node) => if node.data.is_group() {
                            None
                        } else {
                            Some((id, node.data.geometry()))
                        },
                        None => None,
                    }
                },
                None => None,
            }
        };
        let (id, geometry): (NodeId, Rectangle) = match found {
            Some(found) => found,
            None => {
                return false;
            },
        };
        let QueuedTree { mut tree, duration, blocker, retargetable } = self.queue.trees.remove(last);
        let ghost shape = model(tree);
        set_leaf(&mut tree, &id, Data::Placeholder { last_geometry: geometry, type_ });
        proof {
            lemma_keeps_keys(shape, model(tree));
        }
        self.queue.trees.push(QueuedTree { tree, duration, blocker, retargetable });
        proof {
            let after = before.queue.with_placeholder(key, type_);
            assert(self@.queue.trees =~= after.trees);
            assert forall|i: int| 0 <= i < after.trees.len() implies (
            #[trigger] after.trees[i]).tree.settled() && after.trees[i].tree.keyed() by {
                assert(trees[i].tree.settled());
            }
            assert forall|bound: u64| #[trigger] before.wf(bound) implies self@.wf(bound) by {
                assert forall|i: int| 0 <= i < after.trees.len() implies (
                #[trigger] after.trees[i]).tree.keys_below(bound) by {
                    assert(trees[i].tree.keys_below(bound));
                }
            }
        }
        true
    }

    /// Takes a window out and leaves a placeholder. `node` is the key of its node. A drag that
    /// starts this way knows where the window came from.
    pub fn unmap_as_placeholder(
        &mut self,
        node: Option<u64>,
        type_: PlaceholderType,
        eased: &Vec<EasedArea>,
    ) -> (result: Option<u64>)
        requires
            old(self)@.ready(),
        ensures
            old(self)@.lifts(final(self)@, node, type_, eased@, result),
            final(self)@.ready(),
            forall|bound: u64| #[trigger] old(self)@.wf(bound) ==> final(self)@.wf(bound),
    {
        let ghost before = self@;
        let key: u64 = match node {
            Some(key) => key,
            None => {
                return None;
            },
        };
        if self.tiling_engine == TilingEngine::Scrolling {
            let tree: Tree<TreeNode> = self.prepare_scrolling_direct_tree(eased);
            assert(before.prepared(self@, model(tree), eased@));
        }
        let ghost ready = self@;
        assert(before.halted(ready, eased@));
        if !self.leave_placeholder(key, type_) {
            return None;
        }
        let ghost left = self@;
        if type_ == PlaceholderType::GrabbedWindow {
            let _ = self.scrolling.begin_drag(key);
            self.last_overview_hover = Some(
                Hover { since: None, zone: TargetZone::InitialPlaceholder(key) },
            );
        }
        assert(self@ =~~= ready.with_placeholder(key, type_));
        assert forall|bound: u64| #[trigger] before.wf(bound) implies self@.wf(bound) by {
            assert(ready.wf(bound));
            assert(left.wf(bound));
        }
        Some(key)
    }
}

} // verus!
