//! What users do to the tree of a layout, and what the compositor tells it.

use vstd::prelude::*;

use id_tree::{NodeId, Tree};

use crate::actions::{ResizeDirection, ResizeEdge};
use crate::balance::lemma_sound;
use crate::classic::Configure;
use crate::columns::copy_items;
use crate::config::TilingEngine;
use crate::copies::{duplicate, law_copies_are_alike, lemma_copied_item, node_by_key};
use crate::data::{Data, DataView, Window};
use crate::drops::clear_transient_tree_state;
use crate::geometry::{Orientation, Rectangle, Size};
use crate::graft::{replace_with_window, windows_below};
use crate::keys::{lemma_pushed_keys, lemma_shape_keys, KeySource};
use crate::layout::{Hover, LayoutView, TilingLayout};
use crate::lookups::{
    focus_of, focus_view, mapped_windows, KeyboardFocus, KeyboardFocusView, WindowArea,
};
use crate::mapping::lemma_higher;
use crate::neighbours::{resize_node, TreeResize};
use crate::queue::{
    blockers_of, lemma_ready_trees, ready_trees, released, EasedArea, QueueView, QueuedTree,
    QueuedView, WaitState, ANIMATION_DURATION,
};
use crate::reshape::{set_window, spread_windows, turn_group};
use crate::scrolling::{shows_window, tile_geometry};
use crate::strip_actions::{resizing_changes, ResizingChange};
use crate::surgery::lemma_keeps_keys;
use crate::tree::{copy_id, get_node, model, parent_id, preorder_ids, visits, TreeModel, TreeNode};
use crate::zones::TargetZone;

verus! {

impl TreeModel {
    /// Whether `after` is this tree without what a drag left there, and `grabbed` the key of
    /// the placeholder for the window that is dragged.
    pub open spec fn tidied(self, after: TreeModel, grabbed: Option<u64>) -> bool {
        match self.root {
            Some(root) => exists|order: Seq<NodeId>| #[trigger]
                visits(self.nodes, seq![root], order) && after == self.swept(order, false)
                    && grabbed == self.grabbed_among(order),
            None => after == self && grabbed is None,
        }
    }
}

/// Whether all these trees are copies of `placed` that are shown at once, the first without
/// waiting and each other one after one of the waits.
pub open spec fn barriers(trees: Seq<QueuedView>, placed: TreeModel, waits: Seq<u64>) -> bool {
    &&& trees.len() == waits.len() + 1
    &&& forall|i: int|
        0 <= i < trees.len() ==> placed.copied((#[trigger] trees[i]).tree) && trees[i].duration == 0
            && !trees[i].retargetable && trees[i].blocker == if i == 0 {
            None
        } else {
            Some(waits[i - 1])
        }
}

impl LayoutView {
    /// The layout with another engine and nothing left of a resize or a drag.
    pub open spec fn with_engine(self, engine: TilingEngine, grabbed: Option<u64>) -> LayoutView {
        LayoutView {
            engine,
            live: None,
            hover: match grabbed {
                Some(key) => Some(
                    Hover { since: None, zone: TargetZone::InitialPlaceholder(key) },
                ),
                None => None,
            },
            ..self
        }
    }

    /// Whether `after` is this layout with another engine. The newest tree is shown at once,
    /// and what older ones waited for still is waited for.
    pub open spec fn switches(
        self,
        after: LayoutView,
        engine: TilingEngine,
        changes: Seq<ResizingChange>,
        configures: Seq<Configure>,
    ) -> bool {
        exists|copy: TreeModel, tree: TreeModel, placed: TreeModel, grabbed: Option<u64>|
            self.newest().copied(copy) && #[trigger] copy.tidied(tree, grabbed)
                && #[trigger] self.with_engine(engine, grabbed).positioned(
                after.scroll,
                tree,
                placed,
                configures,
                None,
            ) && changes == (match self.live {
                Some(live) => copy.resizing_changes(live.tiles, false),
                None => seq![],
            }) && barriers(after.queue.trees, placed, blockers_of(self.queue.trees)) && after
                == (LayoutView {
                queue: QueueView {
                    trees: after.queue.trees,
                    animation_start: None,
                    retired: self.queue.retired,
                },
                scroll: after.scroll,
                ..self.with_engine(engine, grabbed)
            })
    }
}

/// The waits among these trees.
fn waits_of(trees: &Vec<QueuedTree>) -> (waits: Vec<u64>)
    ensures
        waits@ == blockers_of(crate::queue::queued_views(trees@)),
{
    let ghost views = crate::queue::queued_views(trees@);
    let mut waits: Vec<u64> = Vec::new();
    let mut i: usize = 0;
    assert(views.take(0) =~= seq![]);
    while i < trees.len()
        invariant
            i <= trees@.len(),
            views == crate::queue::queued_views(trees@),
            waits@ == blockers_of(views.take(i as int)),
        decreases trees@.len() - i,
    {
        assert(views.take(i as int + 1).drop_last() =~= views.take(i as int));
        assert(views[i as int] == trees@[i as int]@);
        match trees[i].blocker {
            Some(blocker) => {
                waits.push(blocker);
            },
            None => {},
        }
        i += 1;
    }
    assert(views.take(views.len() as int) =~= views);
    waits
}

impl TilingLayout {
    /// Copies of a tree that are shown at once, one without waiting and one after each wait.
    fn barrier_trees(placed: &Tree<TreeNode>, waits: &Vec<u64>) -> (trees: Vec<QueuedTree>)
        requires
            model(*placed).settled(),
            model(*placed).keyed(),
        ensures
            barriers(crate::queue::queued_views(trees@), model(*placed), waits@),
            forall|i: int|
                0 <= i < trees@.len() ==> model((#[trigger] trees@[i]).tree).settled() && model(
                    trees@[i].tree,
                ).keyed(),
    {
        let mut trees: Vec<QueuedTree> = Vec::new();
        trees.push(
            QueuedTree {
                tree: duplicate(placed),
                duration: 0,
                blocker: None,
                retargetable: false,
            },
        );
        let mut i: usize = 0;
        while i < waits.len()
            invariant
                i <= waits@.len(),
                model(*placed).settled(),
                model(*placed).keyed(),
                trees@.len() == i + 1,
                forall|k: int|
                    0 <= k < trees@.len() ==> model(*placed).copied(
                        model((#[trigger] trees@[k]).tree),
                    ) && model(trees@[k].tree).settled() && model(trees@[k].tree).keyed()
                        && trees@[k].duration == 0 && !trees@[k].retargetable
                        && trees@[k].blocker == if k == 0 {
                        None
                    } else {
                        Some(waits@[k - 1])
                    },
            decreases waits@.len() - i,
        {
            trees.push(
                QueuedTree {
                    tree: duplicate(placed),
                    duration: 0,
                    blocker: Some(waits[i]),
                    retargetable: false,
                },
            );
            i += 1;
        }
        proof {
            let views = crate::queue::queued_views(trees@);
            assert forall|k: int| 0 <= k < views.len() implies model(*placed).copied(
                (#[trigger] views[k]).tree,
            ) && views[k].duration == 0 && !views[k].retargetable && views[k].blocker == if k
                == 0 {
                None
            } else {
                Some(waits@[k - 1])
            } by {
                assert(views[k] == trees@[k]@);
            }
        }
        trees
    }

    /// Switches to another engine, without a change of the tree, the windows or the strip. The
    /// newest tree is shown at once. Returns which windows are no longer being resized, and
    /// what the windows have to be asked to do; what that has to be waited for is handed back
    /// with [`TilingLayout::push_barrier`].
    pub fn set_mode(&mut self, tiling_engine: TilingEngine) -> (result: Option<
        (Vec<ResizingChange>, Vec<Configure>),
    >)
        requires
            old(self)@.ready(),
        ensures
            match result {
                None => tiling_engine == old(self)@.engine && final(self)@ == old(self)@,
                Some((changes, configures)) => tiling_engine != old(self)@.engine && old(
                    self,
                )@.switches(final(self)@, tiling_engine, changes@, configures@),
            },
            final(self)@.ready(),
            forall|bound: u64| #[trigger] old(self)@.wf(bound) ==> final(self)@.wf(bound),
    {
        let ghost before = self@;
        if self.tiling_engine == tiling_engine {
            return None;
        }
        let mut tree: Tree<TreeNode> = self.newest_copy();
        let ghost copy = model(tree);
        let changes: Vec<ResizingChange> = match &self.scrolling_live_resize {
            Some(live) => resizing_changes(&tree, &live.tiles, false),
            None => Vec::new(),
        };
        self.scrolling_live_resize = None;
        let waits: Vec<u64> = waits_of(&self.queue.trees);
        self.tiling_engine = tiling_engine;
        let grabbed: Option<u64> = clear_transient_tree_state(&mut tree);
        let ghost tidy = model(tree);
        self.last_overview_hover = match grabbed {
            Some(key) => Some(Hover { since: None, zone: TargetZone::InitialPlaceholder(key) }),
            None => None,
        };
        assert(copy.tidied(tidy, grabbed));
        assert(self@ =~~= before.with_engine(tiling_engine, grabbed));
        proof {
            lemma_keeps_keys(copy, tidy);
            assert(tidy.sound()) by {
                lemma_sound(tidy);
            }
        }
        let configures: Vec<Configure> = self.update_positions_for(&mut tree, None);
        let ghost placed = model(tree);
        self.queue.trees = TilingLayout::barrier_trees(&tree, &waits);
        self.queue.animation_start = None;
        proof {
            let trees = self@.queue.trees;
            assert(barriers(trees, placed, waits@));
            assert forall|i: int| 0 <= i < trees.len() implies (
            #[trigger] trees[i]).tree.settled() && trees[i].tree.keyed() by {
                assert(trees[i] == self.queue.trees@[i]@);
            }
            assert forall|bound: u64| #[trigger] before.wf(bound) implies self@.wf(bound) by {
                assert(copy.keys_below(bound));
                assert forall|i: int| 0 <= i < trees.len() implies (
                #[trigger] trees[i]).tree.keys_below(bound) by {
                    law_copies_are_alike(placed, trees[i].tree);
                }
            }
            assert(before.newest().copied(copy) && copy.tidied(tidy, grabbed)
                && before.with_engine(tiling_engine, grabbed).positioned(
                self@.scroll,
                tidy,
                placed,
                configures@,
                None,
            ));
        }
        Some((changes, configures))
    }

    /// Shows the newest tree once more, after waiting for windows that were asked to change
    /// their sizes.
    pub fn push_barrier(&mut self, blocker: u64)
        requires
            old(self)@.ready(),
        ensures
            exists|copy: TreeModel| #[trigger]
                old(self)@.newest().copied(copy) && final(self)@ == (LayoutView {
                    queue: old(self)@.queue.pushed(copy, 0, Some(blocker)),
                    ..old(self)@
                }),
            final(self)@.ready(),
            forall|bound: u64| #[trigger] old(self)@.wf(bound) ==> final(self)@.wf(bound),
    {
        let ghost before = self@;
        let tree: Tree<TreeNode> = self.newest_copy();
        let ghost copy = model(tree);
        self.queue.push_tree(tree, 0, Some(blocker));
        assert forall|bound: u64| #[trigger] before.wf(bound) implies self@.wf(bound) by {
            assert(copy.keys_below(bound));
            lemma_pushed_keys(before.queue, copy, 0, Some(blocker), bound);
        }
        assert(before.newest().copied(copy));
    }

    /// Arranges the windows anew.
    pub fn recalculate(&mut self) -> (configures: Vec<Configure>)
        requires
            old(self)@.ready(),
        ensures
            exists|copy: TreeModel| #[trigger]
                old(self)@.newest().copied(copy) && old(self)@.appended(
                    final(self)@,
                    copy,
                    ANIMATION_DURATION,
                    configures@,
                ),
            final(self)@.ready(),
            forall|bound: u64| #[trigger] old(self)@.wf(bound) ==> final(self)@.wf(bound),
    {
        let ghost before = self@;
        let tree: Tree<TreeNode> = self.newest_copy();
        let ghost copy = model(tree);
        assert(copy.sound()) by {
            lemma_sound(copy);
        }
        let configures: Vec<Configure> = self.append(tree, ANIMATION_DURATION);
        assert(before.newest().copied(copy));
        configures
    }

    /// Arranges the windows on another output, at once.
    pub fn set_output(&mut self, usable: Rectangle, output_size: Size) -> (configures: Vec<Configure>)
        requires
            old(self)@.ready(),
        ensures
            exists|copy: TreeModel| #[trigger]
                old(self)@.newest().copied(copy) && (LayoutView {
                    usable,
                    output_size,
                    ..old(self)@
                }).appended(final(self)@, copy, 0, configures@),
            final(self)@.ready(),
            forall|bound: u64| #[trigger] old(self)@.wf(bound) ==> final(self)@.wf(bound),
    {
        let ghost before = self@;
        let tree: Tree<TreeNode> = self.newest_copy();
        let ghost copy = model(tree);
        assert(copy.sound()) by {
            lemma_sound(copy);
        }
        self.usable = usable;
        self.output_size = output_size;
        let ghost moved = self@;
        assert forall|bound: u64| #[trigger] before.wf(bound) implies moved.wf(bound)
            && copy.keys_below(bound) by {
            assert(before.queue.keys_below(bound));
        }
        let configures: Vec<Configure> = self.append(tree, 0);
        assert(before.newest().copied(copy));
        configures
    }

    /// Puts another window in the place of one. `node` is the key of its node.
    pub fn replace_window(&mut self, old_window: u64, node: Option<u64>, new: Window) -> (result: Option<
        Vec<Configure>,
    >)
        requires
            old(self)@.ready(),
        ensures
            match result {
                Some(configures) => (node matches Some(node) && old(self)@.newest().has_window_at(
                    node,
                    old_window,
                )) && exists|copy: TreeModel| #[trigger]
                    old(self)@.newest().copied(copy) && old(self)@.appended(
                        final(self)@,
                        copy.with_other_window(copy.node_keyed(node->0), new),
                        ANIMATION_DURATION,
                        configures@,
                    ),
                None => !(node matches Some(node) && old(self)@.newest().has_window_at(
                    node,
                    old_window,
                )) && final(self)@ == old(self)@,
            },
            final(self)@.ready(),
            forall|bound: u64| #[trigger] old(self)@.wf(bound) ==> final(self)@.wf(bound),
    {
        let ghost before = self@;
        let ghost newest = before.newest();
        let key: u64 = match node {
            Some(key) => key,
            None => {
                return None;
            },
        };
        let mut tree: Tree<TreeNode> = self.newest_copy();
        let ghost copy = model(tree);
        assert(newest.keyed()) by {
            assert(before.queue.trees[before.queue.trees.len() - 1].tree.keyed());
        }
        assert(copy.regular()) by {
            lemma_sound(copy);
        }
        let id: NodeId = match node_by_key(&tree, key) {
            Some(id) => id,
            None => {
                return None;
            },
        };
        proof {
            assert(copy.has(id) && copy.key(id) == key);
            assert(copy.has_key(key));
            lemma_copied_item(newest, copy, key);
        }
        let here: bool = match get_node(&tree, &id) {
            Some(found) => found.data.is_mapped(Some(old_window)),
            None => false,
        };
        if !here {
            return None;
        }
        set_window(&mut tree, &id, new);
        proof {
            lemma_keeps_keys(copy, model(tree));
            assert(model(tree).sound()) by {
                lemma_sound(model(tree));
            }
        }
        let configures: Vec<Configure> = self.append(tree, ANIMATION_DURATION);
        assert(newest.copied(copy));
        Some(configures)
    }

    /// Turns the group around what has the focus: to the given orientation, or to the other
    /// one.
    pub fn update_orientation(
        &mut self,
        new_orientation: Option<Orientation>,
        focus: &Option<KeyboardFocus>,
        eased: &Vec<EasedArea>,
    ) -> (result: Option<Vec<Configure>>)
        requires
            old(self)@.ready(),
        ensures
            exists|node: Option<u64>| #[trigger]
                old(self)@.focus_key(focus_view(*focus), node) && old(self)@.turns(
                    final(self)@,
                    node,
                    new_orientation,
                    eased@,
                    crate::strip_actions::asked_view(result),
                ),
            final(self)@.ready(),
            forall|bound: u64| #[trigger] old(self)@.wf(bound) ==> final(self)@.wf(bound),
    {
        let ghost before = self@;
        let node: Option<u64> = self.focus_key(focus);
        assert(before.focus_key(focus_view(*focus), node));
        let key: u64 = match node {
            Some(key) => key,
            None => {
                assert(before.turns(before, node, new_orientation, eased@, None));
                return None;
            },
        };
        let mut tree: Tree<TreeNode> = self.newest_copy();
        let ghost copy = model(tree);
        assert(copy.regular()) by {
            lemma_sound(copy);
        }
        let id: NodeId = match node_by_key(&tree, key) {
            Some(id) => id,
            None => {
                assert(false);
                return None;
            },
        };
        let turned: bool = turn_group(&mut tree, &id, new_orientation);
        assert(before.newest().copied(copy));
        if !turned {
            assert(before.turns(before, node, new_orientation, eased@, None));
            return None;
        }
        proof {
            lemma_keeps_keys(copy, model(tree));
            assert(model(tree).sound()) by {
                lemma_sound(model(tree));
            }
        }
        let configures: Vec<Configure> = self.commit(tree, ANIMATION_DURATION, eased, None);
        assert(before.turns(self@, node, new_orientation, eased@, Some(configures@)));
        Some(configures)
    }
}

impl LayoutView {
    /// Whether turning the group around a node leads to `after`.
    pub open spec fn turns(
        self,
        after: LayoutView,
        node: Option<u64>,
        orientation: Option<Orientation>,
        eased: Seq<EasedArea>,
        result: Option<Seq<Configure>>,
    ) -> bool {
        match node {
            None => result is None && after == self,
            Some(node) => exists|copy: TreeModel| #[trigger]
                self.newest().copied(copy) && {
                    let id = copy.node_keyed(node);
                    match result {
                        Some(configures) => copy.parent(id) is Some && self.committed(
                            after,
                            copy.turned(id, orientation),
                            ANIMATION_DURATION,
                            eased,
                            configures,
                            None,
                        ),
                        None => copy.parent(id) is None && after == self,
                    }
                },
        }
    }
}

/// A stack that was dissolved into windows, or windows that became a stack: what has the focus,
/// and what the windows have to be asked to do.
#[derive(Debug)]
pub struct Restacked {
    pub focus: KeyboardFocus,
    /// The keys of the nodes whose windows had the focus since, the one that has it now last.
    pub entered: Vec<u64>,
    /// The windows that the stack of a group takes.
    pub windows: Vec<u64>,
    pub configures: Vec<Configure>,
}

/// The nodes that the windows of a dissolved stack are in, in the order in which they had the
/// focus: from the last one to the first, and at the end the one that has the focus. `count`
/// nodes are new; their keys are every other one from `base` on.
pub open spec fn focus_order(node: u64, base: u64, count: int, focused: Option<usize>) -> Seq<u64> {
    let new_keys = Seq::new(count as nat, |i: int| (base + 2 * i) as u64);
    let all = seq![node] + new_keys;
    match focused {
        Some(i) if i < count => all.remove(i + 1).reverse().push(new_keys[i as int]),
        _ => all.reverse(),
    }
}

/// The nodes that the windows of a dissolved stack are in, in the order in which they have to
/// enter the focus stack.
pub fn dissolved_order(node: u64, base: u64, count: usize, focused: Option<usize>) -> (order: Vec<u64>)
    requires
        base + 2 * count <= u64::MAX,
    ensures
        order@ == focus_order(node, base, count as int, focused),
{
    let mut order: Vec<u64> = Vec::new();
    let mut i: usize = count;
    while i > 0
        invariant
            i <= count,
            base + 2 * count <= u64::MAX,
            order@.len() == count - i - (if focused matches Some(f) && i <= f < count {
                1int
            } else {
                0
            }),
            forall|k: int|
                0 <= k < order@.len() ==> #[trigger] order@[k] == base + 2 * (count - 1 - k - (
                if focused matches Some(f) && count - 1 - k <= f < count {
                    1int
                } else {
                    0
                })),
        decreases i,
    {
        i -= 1;
        let skipped: bool = match focused {
            Some(f) => f == i,
            None => false,
        };
        if !skipped {
            order.push(base + 2 * i as u64);
        }
    }
    order.push(node);
    match focused {
        Some(f) => if f < count {
            order.push(base + 2 * f as u64);
        },
        None => {},
    }
    assert(order@ =~= focus_order(node, base, count as int, focused));
    order
}

impl TreeModel {
    /// What has the focus after a stack was dissolved: the group around its first window, or
    /// the window. `memory` is the key of the window that had the focus.
    pub open spec fn restacked_focus(self, id: NodeId, spread: bool, memory: u64) -> KeyboardFocusView {
        let top = match self.parent(id) {
            Some(parent) if spread => parent,
            _ => id,
        };
        match self.data(top) {
            DataView::Mapped { mapped, .. } => KeyboardFocusView::Window(mapped.id),
            _ => KeyboardFocusView::Group { node: self.key(top), focus_stack: seq![memory] },
        }
    }
}

impl LayoutView {
    /// Whether `after` is this layout with the window `first` in a node, and more windows next
    /// to it. The window at `focused` among these has the focus, or else the first one.
    pub open spec fn restacks(
        self,
        after: LayoutView,
        node: u64,
        first: Window,
        rest: Seq<Window>,
        focused: Option<usize>,
        base: u64,
        eased: Seq<EasedArea>,
        focus: KeyboardFocusView,
        configures: Seq<Configure>,
    ) -> bool {
        exists|copy: TreeModel, tree: TreeModel, last: NodeId|
            self.newest().copied(copy) && #[trigger] copy.with_other_window(
                copy.node_keyed(node),
                first,
            ).spread(tree, copy.node_keyed(node), last, rest, self.output_size, base as int)
                && focus == tree.restacked_focus(
                copy.node_keyed(node),
                rest.len() > 0,
                match focused {
                    Some(i) if i < rest.len() => (base + 2 * i) as u64,
                    _ => node,
                },
            ) && self.committed(after, tree, ANIMATION_DURATION, eased, configures, None)
    }

    /// Whether `after` is this layout with a stack in the place of a group; the stack holds
    /// `windows`.
    pub open spec fn stacks_group(
        self,
        after: LayoutView,
        node: u64,
        stack: Window,
        windows: Seq<u64>,
        configures: Seq<Configure>,
    ) -> bool {
        exists|copy: TreeModel, order: Seq<NodeId>|
            self.newest().copied(copy) && #[trigger] visits(
                copy.nodes,
                seq![copy.node_keyed(node)],
                order,
            ) && windows == copy.windows_of(order) && windows.len() > 0 && self.appended(
                after,
                copy.with_window(
                    copy.node_keyed(node),
                    (DataView::Mapped {
                        mapped: stack,
                        last_geometry: copy.data(copy.node_keyed(node)).geometry(),
                        minimize_rect: None,
                    }),
                ),
                ANIMATION_DURATION,
                configures,
            )
    }

    /// Whether a group holds no window.
    pub open spec fn holds_no_window(self, node: u64) -> bool {
        exists|copy: TreeModel, order: Seq<NodeId>|
            self.newest().copied(copy) && #[trigger] visits(
                copy.nodes,
                seq![copy.node_keyed(node)],
                order,
            ) && copy.windows_of(order).len() == 0
    }
}

impl TilingLayout {
    /// Makes a stack of a window, or windows of a stack: `first` takes its place, and the
    /// others follow one after the other. `focused` tells which of these has the focus.
    pub fn toggle_stacking(
        &mut self,
        node: Option<u64>,
        first: Window,
        rest: &Vec<Window>,
        focused: Option<usize>,
        keys: &mut KeySource,
        eased: &Vec<EasedArea>,
    ) -> (result: Option<Restacked>)
        requires
            old(self)@.wf(old(keys).next),
            old(keys).next + 2 * rest@.len() <= u64::MAX,
        ensures
            match result {
                Some(restacked) => (node matches Some(node) && old(self)@.newest().shows_window(
                    node,
                )) && old(self)@.restacks(
                    final(self)@,
                    node->0,
                    first,
                    rest@,
                    focused,
                    old(keys).next,
                    eased@,
                    restacked.focus@,
                    restacked.configures@,
                ) && restacked.entered@ == focus_order(
                    node->0,
                    old(keys).next,
                    rest@.len() as int,
                    focused,
                ) && restacked.windows@.len() == 0 && final(keys).next == old(keys).next + 2
                    * rest@.len(),
                None => !(node matches Some(node) && old(self)@.newest().shows_window(node))
                    && final(self)@ == old(self)@ && final(keys).next == old(keys).next,
            },
            final(self)@.wf(final(keys).next),
    {
        let ghost before = self@;
        let ghost newest = before.newest();
        let key: u64 = match node {
            Some(key) => key,
            None => {
                return None;
            },
        };
        {
            let current: &Tree<TreeNode> = self.tree();
            assert(model(*current).regular()) by {
                lemma_sound(model(*current));
            }
            if !shows_window(current, key) {
                return None;
            }
        }
        let base: u64 = keys.next;
        let mut tree: Tree<TreeNode> = self.newest_copy();
        let ghost copy = model(tree);
        assert(copy.keys_below(keys.next));
        assert(newest.keyed()) by {
            assert(before.queue.trees[before.queue.trees.len() - 1].tree.keyed());
        }
        proof {
            lemma_copied_item(newest, copy, key);
        }
        assert(copy.regular()) by {
            lemma_sound(copy);
        }
        let id: NodeId = match node_by_key(&tree, key) {
            Some(id) => id,
            None => {
                assert(false);
                return None;
            },
        };
        set_window(&mut tree, &id, first);
        let ghost opened = model(tree);
        proof {
            lemma_keeps_keys(copy, opened);
        }
        let last: NodeId = spread_windows(&mut tree, &id, rest, self.output_size, keys);
        let ghost shape = model(tree);
        let memory: u64 = match focused {
            Some(i) => if i < rest.len() {
                base + 2 * i as u64
            } else {
                key
            },
            None => key,
        };
        let top: NodeId = if rest.len() > 0 {
            match parent_id(&tree, &id) {
                Some(parent) => parent,
                None => copy_id(&id),
            }
        } else {
            copy_id(&id)
        };
        assert(shape.has(top)) by {
            lemma_sound(shape);
            assert(shape.has(id));
        }
        let focus: KeyboardFocus = match get_node(&tree, &top) {
            Some(found) => match &found.data {
                Data::Mapped { mapped, .. } => KeyboardFocus::Window(mapped.id),
                _ => {
                    let mut focus_stack: Vec<u64> = Vec::new();
                    focus_stack.push(memory);
                    assert(focus_stack@ =~= seq![memory]);
                    KeyboardFocus::Group { node: found.key, focus_stack }
                },
            },
            None => KeyboardFocus::Window(first.id),
        };
        proof {
            assert(shape.sound()) by {
                lemma_sound(shape);
            }
            lemma_higher(before, base, keys.next);
        }
        let configures: Vec<Configure> = self.commit(tree, ANIMATION_DURATION, eased, None);
        proof {
            assert(newest.copied(copy) && copy.with_other_window(
                copy.node_keyed(key),
                first,
            ).spread(shape, copy.node_keyed(key), last, rest@, before.output_size, base as int));
            assert(focus@ == shape.restacked_focus(copy.node_keyed(key), rest@.len() > 0, memory));
        }
        let entered: Vec<u64> = dissolved_order(key, base, rest.len(), focused);
        Some(Restacked { focus, entered, windows: Vec::new(), configures })
    }

    /// Makes a stack of the windows below a group. Returns these windows, and what the others
    /// have to be asked to do.
    fn stack_group(&mut self, key: u64, stack: Window) -> (result: Option<
        (Vec<u64>, Vec<Configure>),
    >)
        requires
            old(self)@.ready(),
            old(self)@.newest().has_key(key),
        ensures
            match result {
                Some((windows, configures)) => old(self)@.stacks_group(
                    final(self)@,
                    key,
                    stack,
                    windows@,
                    configures@,
                ),
                None => final(self)@ == old(self)@ && old(self)@.holds_no_window(key),
            },
            final(self)@.ready(),
            forall|bound: u64| #[trigger] old(self)@.wf(bound) ==> final(self)@.wf(bound),
    {
        let ghost before = self@;
        let mut tree: Tree<TreeNode> = self.newest_copy();
        let ghost copy = model(tree);
        assert(copy.regular()) by {
            lemma_sound(copy);
        }
        let id: NodeId = match node_by_key(&tree, key) {
            Some(id) => id,
            None => {
                assert(false);
                return None;
            },
        };
        let windows: Vec<u64> = windows_below(&tree, &id);
        let ghost order = choose|order: Seq<NodeId>| #[trigger]
            visits(copy.nodes, seq![id], order) && windows@ == copy.windows_of(order);
        assert(before.newest().copied(copy) && visits(
            copy.nodes,
            seq![copy.node_keyed(key)],
            order,
        ));
        if windows.len() == 0 {
            return None;
        }
        let geometry: Rectangle = match get_node(&tree, &id) {
            Some(found) => found.data.geometry(),
            None => Rectangle::new(0, 0, 0, 0),
        };
        replace_with_window(&mut tree, &id, stack, geometry);
        proof {
            let shape = model(tree);
            assert(shape.sound()) by {
                lemma_sound(shape);
            }
            assert forall|k: u64| #[trigger] shape.has_key(k) implies copy.has_key(k) by {
                let other = choose|other: NodeId| shape.has(other) && #[trigger] shape.key(other) == k;
                assert(shape.has(other));
            }
        }
        let configures: Vec<Configure> = self.append(tree, ANIMATION_DURATION);
        Some((windows, configures))
    }

    /// Whether all windows below a node committed the sizes they were last asked for.
    fn all_committed(tree: &Tree<TreeNode>, id: &NodeId) -> (yes: bool)
        requires
            model(*tree).settled(),
            model(*tree).has(*id),
        ensures
            yes == model(*tree).committed_below(*id),
    {
        let ghost shape = model(*tree);
        assert(shape.forest()) by {
            lemma_sound(shape);
        }
        let order: Vec<NodeId> = preorder_ids(tree, id);
        let mut i: usize = 0;
        while i < order.len()
            invariant
                i <= order@.len(),
                shape == model(*tree),
                forall|other: NodeId|
                    #![trigger order@.contains(other)]
                    #![trigger shape.below(other, *id)]
                    order@.contains(other) == (shape.has(other) && shape.below(other, *id)),
                forall|k: int|
                    0 <= k < i ==> !shape.uncommitted(#[trigger] order@[k]),
            decreases order@.len() - i,
        {
            assert(order@.contains(order@[i as int]));
            let waits: bool = match get_node(tree, &order[i]) {
                Some(found) => match &found.data {
                    Data::Mapped { mapped, .. } => !mapped.latest_size_committed,
                    _ => false,
                },
                None => false,
            };
            if waits {
                assert(shape.uncommitted(order@[i as int]));
                return false;
            }
            i += 1;
        }
        assert forall|other: NodeId| shape.has(other) && #[trigger] shape.below(
            other,
            *id,
        ) implies !shape.uncommitted(other) by {
            assert(order@.contains(other));
            let k = order@.index_of(other);
            assert(order@[k] == other);
        }
        true
    }

    /// Makes what has the focus larger or smaller at these edges. Returns whether it has the
    /// focus, and what the windows have to be asked to do. While windows did not commit their
    /// last sizes, nothing changes.
    pub fn resize(
        &mut self,
        focus: &Option<KeyboardFocus>,
        direction: ResizeDirection,
        edges: ResizeEdge,
        amount: i32,
    ) -> (result: (bool, Vec<Configure>))
        requires
            old(self)@.ready(),
        ensures
            exists|node: Option<u64>| #[trigger]
                old(self)@.focus_key(focus_view(*focus), node) && result.0 == (node is Some)
                    && old(self)@.resizes(
                    final(self)@,
                    node,
                    direction,
                    edges,
                    amount,
                    result.1@,
                ),
            final(self)@.ready(),
            forall|bound: u64| #[trigger] old(self)@.wf(bound) ==> final(self)@.wf(bound),
    {
        let ghost before = self@;
        let node: Option<u64> = self.focus_key(focus);
        assert(before.focus_key(focus_view(*focus), node));
        let key: u64 = match node {
            Some(key) => key,
            None => {
                return (false, Vec::new());
            },
        };
        let mut tree: Tree<TreeNode> = self.newest_copy();
        let ghost copy = model(tree);
        assert(copy.regular() && copy.forest() && copy.groups_branch() && copy.groups_fit()) by {
            lemma_sound(copy);
            reveal(TreeModel::regular);
        }
        let id: NodeId = match node_by_key(&tree, key) {
            Some(id) => id,
            None => {
                assert(false);
                return (false, Vec::new());
            },
        };
        let resized: TreeResize = resize_node(&mut tree, &id, direction, edges, amount);
        let ghost shape = model(tree);
        assert(before.newest().copied(copy) && copy.resized_as(
            copy.node_keyed(key),
            direction,
            edges,
            amount as int,
            resized,
            shape,
        ));
        match &resized {
            TreeResize::Resized(group) => {
                if TilingLayout::all_committed(&tree, group) {
                    proof {
                        lemma_keeps_keys(copy, shape);
                        assert(shape.sound()) by {
                            lemma_sound(shape);
                        }
                    }
                    let configures: Vec<Configure> = self.append(tree, 0);
                    assert(before.resizes(self@, node, direction, edges, amount, configures@));
                    return (true, configures);
                }
            },
            _ => {},
        }
        let none: Vec<Configure> = Vec::new();
        assert(before.resizes(self@, node, direction, edges, amount, none@));
        (true, none)
    }
}

impl TreeModel {
    /// Whether a window did not commit the size it was last asked for.
    pub open spec fn uncommitted(self, id: NodeId) -> bool {
        self.data(id) matches DataView::Mapped { mapped, .. } && !mapped.latest_size_committed
    }

    /// Whether all windows below a node committed the sizes they were last asked for.
    pub open spec fn committed_below(self, id: NodeId) -> bool {
        forall|other: NodeId|
            self.has(other) && #[trigger] self.below(other, id) ==> !self.uncommitted(other)
    }
}

impl LayoutView {
    /// Whether a resize of a node leads to `after`.
    pub open spec fn resizes(
        self,
        after: LayoutView,
        node: Option<u64>,
        direction: ResizeDirection,
        edges: ResizeEdge,
        amount: i32,
        configures: Seq<Configure>,
    ) -> bool {
        match node {
            None => after == self && configures.len() == 0,
            Some(node) => exists|copy: TreeModel, tree: TreeModel, resized: TreeResize|
                self.newest().copied(copy) && #[trigger] copy.resized_as(
                    copy.node_keyed(node),
                    direction,
                    edges,
                    amount as int,
                    resized,
                    tree,
                ) && match resized {
                    TreeResize::Resized(group) => if tree.committed_below(group) {
                        self.appended(after, tree, 0, configures)
                    } else {
                        after == self && configures.len() == 0
                    },
                    _ => after == self && configures.len() == 0,
                },
        }
    }
}

impl LayoutView {
    /// Whether making a stack of a node, or windows of a stack, leads to `after`.
    pub open spec fn restacks_focused(
        self,
        after: LayoutView,
        node: Option<u64>,
        group: bool,
        stack: Window,
        first: Window,
        rest: Seq<Window>,
        focused: Option<usize>,
        base: u64,
        eased: Seq<EasedArea>,
        result: Option<Restacked>,
    ) -> bool {
        match node {
            None => result is None && after == self,
            Some(node) => match result {
                Some(restacked) => if group {
                    &&& restacked.focus@ == KeyboardFocusView::Window(stack.id)
                    &&& restacked.entered@ == seq![node]
                    &&& self.stacks_group(
                        after,
                        node,
                        stack,
                        restacked.windows@,
                        restacked.configures@,
                    )
                } else {
                    &&& restacked.entered@ == focus_order(node, base, rest.len() as int, focused)
                    &&& restacked.windows@.len() == 0
                    &&& self.restacks(
                        after,
                        node,
                        first,
                        rest,
                        focused,
                        base,
                        eased,
                        restacked.focus@,
                        restacked.configures@,
                    )
                },
                None => group && self.holds_no_window(node) && after == self,
            },
        }
    }
}

impl TilingLayout {
    /// Makes a stack of what has the focus, or windows of a stack that has it. `stack` is the
    /// stack that a group becomes, and the rest is as for [`TilingLayout::toggle_stacking`].
    pub fn toggle_stacking_focused(
        &mut self,
        focus: &Option<KeyboardFocus>,
        stack: Window,
        first: Window,
        rest: &Vec<Window>,
        focused: Option<usize>,
        keys: &mut KeySource,
        eased: &Vec<EasedArea>,
    ) -> (result: Option<Restacked>)
        requires
            old(self)@.wf(old(keys).next),
            old(keys).next + 2 * rest@.len() <= u64::MAX,
        ensures
            exists|node: Option<u64>| #[trigger]
                old(self)@.focus_key(focus_view(*focus), node) && old(self)@.restacks_focused(
                    final(self)@,
                    node,
                    focus_view(*focus) matches Some(KeyboardFocusView::Group { .. }),
                    stack,
                    first,
                    rest@,
                    focused,
                    old(keys).next,
                    eased@,
                    result,
                ),
            final(self)@.wf(final(keys).next),
    {
        let ghost before = self@;
        let node: Option<u64> = self.focus_key(focus);
        assert(before.focus_key(focus_view(*focus), node));
        let key: u64 = match node {
            Some(key) => key,
            None => {
                return None;
            },
        };
        let group: bool = match focus {
            Some(KeyboardFocus::Group { .. }) => true,
            _ => false,
        };
        if !group {
            return self.toggle_stacking(node, first, rest, focused, keys, eased);
        }
        match self.stack_group(key, stack) {
            Some((windows, configures)) => {
                assert(before.stacks_group(self@, key, stack, windows@, configures@));
                let mut entered: Vec<u64> = Vec::new();
                entered.push(key);
                assert(entered@ =~= seq![key]);
                let restacked = Restacked {
                    focus: KeyboardFocus::Window(stack.id),
                    entered,
                    windows,
                    configures,
                };
                assert(restacked.focus@ == KeyboardFocusView::Window(stack.id));
                assert(before.restacks_focused(
                    self@,
                    node,
                    true,
                    stack,
                    first,
                    rest@,
                    focused,
                    keys.next,
                    eased@,
                    Some(restacked),
                ));
                Some(restacked)
            },
            None => {
                assert(before.restacks_focused(
                    self@,
                    node,
                    true,
                    stack,
                    first,
                    rest@,
                    focused,
                    keys.next,
                    eased@,
                    None,
                ));
                None
            },
        }
    }

    /// Notes what is known now of a window.
    pub fn update_window(&mut self, window: Window)
        requires
            old(self)@.ready(),
        ensures
            old(self)@.queue.recorded(final(self)@.queue, window),
            final(self)@ == (LayoutView { queue: final(self)@.queue, ..old(self)@ }),
            final(self)@.ready(),
            forall|bound: u64| #[trigger] old(self)@.wf(bound) ==> final(self)@.wf(bound),
    {
        let ghost before = self@;
        self.queue.update_window(window);
        assert forall|bound: u64| #[trigger] before.wf(bound) implies self@.wf(bound) by {
            let trees = before.queue.trees;
            let after = self@.queue.trees;
            assert forall|i: int| 0 <= i < after.len() implies (
            #[trigger] after[i]).tree.keys_below(bound) by {
                assert(trees[i].tree.keys_below(bound));
                lemma_shape_keys(trees[i].tree, after[i].tree);
            }
        }
    }

    /// Whether a transition is being shown.
    pub fn animations_going(&self) -> (yes: bool)
        ensures
            yes == (self@.queue.animation_start is Some),
    {
        self.queue.animation_start.is_some()
    }

    /// Goes on to the next trees, as far as the time and the waits allow. `retired` is the
    /// state of the waits that were given up together, and `waits` has those for all trees but
    /// the first. Returns the waits whose windows may be released, and which windows are no
    /// longer resized.
    pub fn update_animation_state(
        &mut self,
        now: u64,
        retired: WaitState,
        waits: &Vec<WaitState>,
    ) -> (result: (Vec<u64>, Vec<ResizingChange>))
        requires
            old(self)@.ready(),
            waits@.len() + 1 == old(self)@.queue.trees.len(),
            old(self)@.queue.animation_start is Some && old(self)@.queue.trees[1].blocker is Some
                ==> waits@[0].processed,
        ensures
            ({
                let queue = old(self)@.queue;
                let let_go = QueueView {
                    retired: if retired.processed {
                        seq![]
                    } else {
                        queue.retired
                    },
                    ..queue
                };
                let live = old(self)@.live_updated();
                &&& result.0@ == (if retired.ready {
                    queue.retired
                } else {
                    seq![]
                }) + released(queue.trees, waits@, 1)
                &&& result.1@ == old(self)@.live_released()
                &&& let_go.advanced(final(self)@.queue, waits@, now)
                &&& final(self)@ == (LayoutView { queue: final(self)@.queue, ..live })
            }),
            final(self)@.ready(),
            forall|bound: u64| #[trigger] old(self)@.wf(bound) ==> final(self)@.wf(bound),
    {
        let ghost before = self@;
        let mut clients: Vec<u64> = if retired.ready {
            copy_items(&self.queue.retired)
        } else {
            Vec::new()
        };
        let _ = self.queue.update_retired_blocker(retired.ready, retired.processed);
        let ghost let_go = self@;
        assert(let_go.queue.wf());
        let changes: Vec<ResizingChange> = self.update_scrolling_live_resize_state();
        let ghost live = self@;
        let mut more: Vec<u64> = self.queue.update_animation_state(now, waits);
        clients.append(&mut more);
        assert forall|bound: u64| #[trigger] before.wf(bound) implies self@.wf(bound) by {
            assert(live.queue.keys_below(bound));
            lemma_advanced_keys(live.queue, self@.queue, waits@, now, bound);
        }
        (clients, changes)
    }

    /// The area of a window. `node` is the key of its node.
    pub fn element_geometry(&self, node: Option<u64>) -> (area: Option<Rectangle>)
        requires
            self@.ready(),
        ensures
            area == match node {
                Some(key) => self@.newest().tile_geometry(key),
                None => None,
            },
    {
        match node {
            Some(key) => {
                let tree: &Tree<TreeNode> = self.tree();
                assert(model(*tree).regular()) by {
                    lemma_sound(model(*tree));
                }
                tile_geometry(tree, key)
            },
            None => None,
        }
    }

    /// The window in a node.
    pub fn element_for_node(&self, node: u64) -> (window: Option<u64>)
        requires
            self@.ready(),
        ensures
            window == if self@.newest().shows_window(node) {
                Some(self@.newest().data(self@.newest().node_keyed(node))->mapped.id)
            } else {
                None
            },
    {
        let tree: &Tree<TreeNode> = self.tree();
        assert(model(*tree).regular()) by {
            lemma_sound(model(*tree));
        }
        match node_by_key(tree, node) {
            Some(id) => {
                assert(model(*tree).has(id) && model(*tree).key(id) == node);
                match get_node(tree, &id) {
                    Some(found) => match &found.data {
                        Data::Mapped { mapped, .. } => Some(mapped.id),
                        _ => None,
                    },
                    None => None,
                }
            },
            None => None,
        }
    }

    /// Whether there is a node with this key.
    pub fn has_node(&self, node: u64) -> (yes: bool)
        requires
            self@.ready(),
        ensures
            yes == self@.newest().has_key(node),
    {
        let tree: &Tree<TreeNode> = self.tree();
        assert(model(*tree).regular()) by {
            lemma_sound(model(*tree));
        }
        let found: Option<NodeId> = node_by_key(tree, node);
        proof {
            if found is Some {
                assert(model(*tree).has(found->0) && model(*tree).key(found->0) == node);
            }
        }
        found.is_some()
    }

    /// The windows with their areas: active ones first, and else in the order of the tree.
    pub fn mapped(&self) -> (windows: Vec<WindowArea>)
        requires
            self@.ready(),
        ensures
            self@.newest().lists(windows@),
    {
        mapped_windows(self.tree())
    }

    /// What the focus on a node is: a window, or a group with its children.
    pub fn node_desc_to_focus(&self, node: u64) -> (focus: Option<KeyboardFocus>)
        requires
            self@.ready(),
        ensures
            focus_view(focus) == self@.newest().focus_at(node),
    {
        focus_of(self.tree(), node)
    }
}

/// A queue some time later has no other keys.
proof fn lemma_advanced_keys(queue: QueueView, after: QueueView, waits: Seq<WaitState>, now: u64, bound: u64)
    requires
        queue.wf(),
        queue.keys_below(bound),
        queue.advanced(after, waits, now),
        waits.len() + 1 == queue.trees.len(),
        queue.animation_start is Some && queue.trees[1].blocker is Some ==> waits[0].processed,
    ensures
        after.keys_below(bound),
{
    let ready = ready_trees(queue.trees, waits, 1) as int;
    lemma_ready_trees(queue.trees, waits, 1);
    if queue.animation_start is None {
        lemma_started_keys(queue, ready, now, bound);
    } else if queue.arrived(now) {
        let next = choose|next: QueueView| #[trigger]
            queue.stepped(next) && after == next.started(ready - 1, now);
        assert forall|i: int| 0 <= i < next.trees.len() implies (
        #[trigger] next.trees[i]).tree.keys_below(bound) by {
            if i == 0 {
                assert(queue.trees[1].tree.keys_below(bound));
                lemma_shape_keys(queue.trees[1].tree, next.trees[0].tree);
            } else {
                assert(next.trees[i] == queue.trees[i + 1]);
            }
        }
        lemma_started_keys(next, ready - 1, now, bound);
    }
}

/// A queue on the way to one of its trees has no other keys.
proof fn lemma_started_keys(queue: QueueView, ready: int, now: u64, bound: u64)
    requires
        queue.keys_below(bound),
        queue.trees.len() > 0,
        ready < queue.trees.len(),
    ensures
        queue.started(ready, now).keys_below(bound),
{
    if ready > 0 {
        let after = queue.started(ready, now);
        assert forall|i: int| 0 <= i < after.trees.len() implies (
        #[trigger] after.trees[i]).tree.keys_below(bound) by {
            if i == 0 {
                assert(queue.trees[0].tree.keys_below(bound));
            } else {
                assert(after.trees[i].tree == queue.trees[i + ready - 1].tree);
            }
        }
    }
}

} // verus!
