//! The tiling layout of a workspace: its tree, the engine that arranges it, and what is on the
//! way to the screen.
//!
//! Operations change a copy of the newest tree and put it at the end of the queue. They return
//! what the windows have to be asked to do. Who asks them hands back what to wait for with
//! [`TilingLayout::attach_blocker`].

use vstd::prelude::*;

use id_tree::{NodeId, Tree};

use crate::balance::lemma_sound;
use crate::classic::{update_positions, Configure};
use crate::columns::ColumnResizeAnchor;
use crate::config::TilingEngine;
use crate::copies::{duplicate, law_copies_are_alike};
use crate::geometry::{Rectangle, Size};
use crate::keys::{lemma_pushed_keys, lemma_retargeted_keys, lemma_shape_keys};
use crate::queue::{EasedArea, QueueView, QueuedView, TreeQueue};
use crate::scrolling::{ScrollView, ScrollingLayout};
use crate::strip::Strip;
use crate::surgery::lemma_keeps_keys;
use crate::tree::{model, TreeModel, TreeNode};
use crate::zones::TargetZone;

verus! {

/// What a resize on the strip changes.
#[derive(Clone, Copy, Debug, PartialEq, Eq, Structural)]
pub enum ScrollingResizeTarget {
    /// The width of the column of a tile; the edge that stays.
    Column { tile: u64, anchor: ColumnResizeAnchor },
    /// The heights of two tiles on top of each other.
    Rows { upper: u64, lower: u64 },
}

/// A resize on the strip that goes on.
#[derive(Debug)]
pub struct ScrollingLiveResize {
    pub target: ScrollingResizeTarget,
    /// The tiles that change their sizes.
    pub tiles: Vec<u64>,
    /// Whether only the last sizes are still waited for.
    pub finishing: bool,
}

/// A resize on the strip that goes on, as the contracts speak of it.
#[verifier::ext_equal]
pub struct LiveView {
    pub target: ScrollingResizeTarget,
    pub tiles: Seq<u64>,
    pub finishing: bool,
}

impl View for ScrollingLiveResize {
    type V = LiveView;

    open spec fn view(&self) -> LiveView {
        LiveView { target: self.target, tiles: self.tiles@, finishing: self.finishing }
    }
}

/// Where a dragged window is, and since when it is about to go elsewhere, in milliseconds.
#[derive(Clone, Copy, Debug, PartialEq, Eq, Structural)]
pub struct Hover {
    pub since: Option<u64>,
    pub zone: TargetZone,
}

/// The tiling layout of a workspace.
pub struct TilingLayout {
    pub queue: TreeQueue,
    pub tiling_engine: TilingEngine,
    pub scrolling: ScrollingLayout,
    pub scrolling_live_resize: Option<ScrollingLiveResize>,
    pub last_overview_hover: Option<Hover>,
    /// The part of the output that no panel claims.
    pub usable: Rectangle,
    pub output_size: Size,
    /// The gap around the layout, and the gap between windows.
    pub gaps: (i32, i32),
}

/// The tiling layout of a workspace, as the contracts speak of it.
#[verifier::ext_equal]
pub struct LayoutView {
    pub queue: QueueView,
    pub engine: TilingEngine,
    pub scroll: ScrollView,
    pub live: Option<LiveView>,
    pub hover: Option<Hover>,
    pub usable: Rectangle,
    pub output_size: Size,
    pub gaps: (i32, i32),
}

/// A resize that goes on, if any, as the contracts speak of it.
pub open spec fn live_view(live: Option<ScrollingLiveResize>) -> Option<LiveView> {
    match live {
        Some(live) => Some(live@),
        None => None,
    }
}

impl View for TilingLayout {
    type V = LayoutView;

    open spec fn view(&self) -> LayoutView {
        LayoutView {
            queue: self.queue@,
            engine: self.tiling_engine,
            scroll: self.scrolling@,
            live: live_view(self.scrolling_live_resize),
            hover: self.last_overview_hover,
            usable: self.usable,
            output_size: self.output_size,
            gaps: self.gaps,
        }
    }
}

/// Whether the tree-based layout of a tree leads to `placed` and `configures`.
pub open spec fn placed_in(
    tree: TreeModel,
    placed: TreeModel,
    configures: Seq<Configure>,
    usable: Rectangle,
    gaps: (i32, i32),
) -> bool {
    match tree.root {
        Some(root) => exists|before: Seq<NodeId>, after: Seq<NodeId>| #[trigger]
            tree.arranged(placed, before, after, usable, gaps) && configures == placed.configures(
                after,
            ),
        None => placed == tree && configures.len() == 0,
    }
}

impl LayoutView {
    /// Whether everything is in order.
    pub open spec fn ready(self) -> bool {
        self.queue.wf() && self.scroll.strip.wf()
    }

    /// Whether everything is in order, with all keys below a bound.
    pub open spec fn wf(self, bound: u64) -> bool {
        self.ready() && self.queue.keys_below(bound)
    }

    /// The newest tree.
    pub open spec fn newest(self) -> TreeModel {
        self.queue.newest()
    }

    /// Whether arranging `tree` leads to `placed`, `configures` and the strip `scroll`. The
    /// strip is scrolled so that the tile `requested` is seen.
    pub open spec fn positioned(
        self,
        scroll: ScrollView,
        tree: TreeModel,
        placed: TreeModel,
        configures: Seq<Configure>,
        requested: Option<u64>,
    ) -> bool {
        match self.engine {
            TilingEngine::Classic => scroll == self.scroll && placed_in(
                tree,
                placed,
                configures,
                self.usable,
                self.gaps,
            ),
            TilingEngine::Scrolling => self.scroll.arranged(
                scroll,
                tree,
                placed,
                configures,
                self.usable,
                self.gaps,
                requested,
                false,
                None,
            ),
        }
    }

    /// Whether `after` is the queue on the way to `placed`: after everything before it, or for
    /// the scrolling layout from what is shown.
    pub open spec fn heads_for(
        self,
        after: QueueView,
        placed: TreeModel,
        duration: u64,
        eased: Seq<EasedArea>,
    ) -> bool {
        match self.engine {
            TilingEngine::Classic => after == self.queue.pushed(placed, duration, None),
            TilingEngine::Scrolling => self.queue.retargeted(after, placed, duration, None, eased),
        }
    }

    /// Whether `after` is this layout on the way to `tree`, and `configures` what the windows
    /// have to be asked to do for it.
    pub open spec fn committed(
        self,
        after: LayoutView,
        tree: TreeModel,
        duration: u64,
        eased: Seq<EasedArea>,
        configures: Seq<Configure>,
        requested: Option<u64>,
    ) -> bool {
        exists|placed: TreeModel| #[trigger]
            self.positioned(after.scroll, tree, placed, configures, requested) && self.heads_for(
                after.queue,
                placed,
                duration,
                eased,
            ) && after == (LayoutView { queue: after.queue, scroll: after.scroll, ..self })
    }

    /// Whether `after` is this layout with `tree` after everything before it, and `configures`
    /// what the windows have to be asked to do for it.
    pub open spec fn appended(
        self,
        after: LayoutView,
        tree: TreeModel,
        duration: u64,
        configures: Seq<Configure>,
    ) -> bool {
        exists|placed: TreeModel| #[trigger]
            self.positioned(after.scroll, tree, placed, configures, None) && after == (LayoutView {
                queue: self.queue.pushed(placed, duration, None),
                scroll: after.scroll,
                ..self
            })
    }

    /// Whether `after` is this layout with `tree` shown at once, and `configures` what the
    /// windows have to be asked to do for it.
    pub open spec fn committed_directly(
        self,
        after: LayoutView,
        tree: TreeModel,
        configures: Seq<Configure>,
    ) -> bool {
        exists|placed: TreeModel| #[trigger]
            self.positioned(after.scroll, tree, placed, configures, None) && after == (LayoutView {
                queue: self.queue.pushed_direct(placed, None),
                scroll: after.scroll,
                ..self
            })
    }
}

/// Arranging a tree on the strip changes no keys.
pub proof fn lemma_arranged_keys(
    scroll: ScrollView,
    after: ScrollView,
    tree: TreeModel,
    placed: TreeModel,
    configures: Seq<Configure>,
    usable: Rectangle,
    gaps: (i32, i32),
    requested: Option<u64>,
    preserve: bool,
    live: Option<crate::placement::LiveResize>,
)
    requires
        scroll.arranged(
            after,
            tree,
            placed,
            configures,
            usable,
            gaps,
            requested,
            preserve,
            live,
        ),
    ensures
        forall|key: u64| #[trigger] placed.has_key(key) ==> tree.has_key(key),
{
    if tree.root is Some {
        let order = choose|order: Seq<NodeId>| #[trigger]
            scroll.arranged_over(
                after,
                tree,
                placed,
                configures,
                order,
                usable,
                gaps,
                requested,
                preserve,
                live,
            );
        assert(tree.same_shape(placed));
        lemma_shape_keys(tree, placed);
    }
}

impl TilingLayout {
    /// The layout of a workspace without windows.
    pub fn new(
        usable: Rectangle,
        output_size: Size,
        gaps: (i32, i32),
        tiling_engine: TilingEngine,
    ) -> (layout: TilingLayout)
        ensures
            layout@.wf(0),
            layout@.newest() == TreeModel::empty(),
            layout@.queue.trees.len() == 1,
            layout@.queue.animation_start is None,
            layout@.queue.retired.len() == 0,
            layout@.queue.trees[0].duration == 0,
            layout@.queue.trees[0].blocker is None,
            !layout@.queue.trees[0].retargetable,
            layout@.scroll == (ScrollView { strip: Strip::empty(), pending_center: None }),
            layout@.engine == tiling_engine,
            layout@.live is None,
            layout@.hover is None,
            layout@.usable == usable,
            layout@.output_size == output_size,
            layout@.gaps == gaps,
    {
        TilingLayout {
            queue: TreeQueue::new(),
            tiling_engine,
            scrolling: ScrollingLayout::new(),
            scrolling_live_resize: None,
            last_overview_hover: None,
            usable,
            output_size,
            gaps,
        }
    }

    /// The engine that arranges the windows.
    pub fn mode(&self) -> (engine: TilingEngine)
        ensures
            engine == self@.engine,
    {
        self.tiling_engine
    }

    /// The newest tree.
    pub fn tree(&self) -> (tree: &Tree<TreeNode>)
        requires
            self@.queue.wf(),
        ensures
            model(*tree) == self@.newest(),
            model(*tree).settled(),
            model(*tree).keyed(),
    {
        let last: usize = self.queue.trees.len() - 1;
        assert(self@.queue.trees[last as int] == self.queue.trees@[last as int]@);
        assert(self@.queue.trees[last as int].tree.settled());
        &self.queue.trees[last].tree
    }

    /// A copy of the newest tree, to be changed.
    pub(crate) fn newest_copy(&self) -> (tree: Tree<TreeNode>)
        requires
            self@.queue.wf(),
        ensures
            self@.newest().copied(model(tree)),
            model(tree).settled(),
            model(tree).keyed(),
            forall|key: u64| #[trigger] model(tree).has_key(key) <==> self@.newest().has_key(key),
            forall|bound: u64| #[trigger]
                self@.queue.keys_below(bound) ==> model(tree).keys_below(bound),
    {
        let newest: &Tree<TreeNode> = self.tree();
        let tree: Tree<TreeNode> = duplicate(newest);
        proof {
            law_copies_are_alike(model(*newest), model(tree));
            assert forall|bound: u64| #[trigger] self@.queue.keys_below(bound) implies model(
                tree,
            ).keys_below(bound) by {
                assert(self@.queue.trees[self@.queue.trees.len() - 1].tree.keys_below(bound));
            }
        }
        tree
    }

    /// Arranges the windows of a tree.
    pub fn update_positions_for(
        &mut self,
        tree: &mut Tree<TreeNode>,
        requested: Option<u64>,
    ) -> (configures: Vec<Configure>)
        requires
            old(self)@.scroll.strip.wf(),
            model(*old(tree)).sound(),
            old(self)@.engine is Scrolling ==> model(*old(tree)).settled(),
            model(*old(tree)).keyed(),
        ensures
            old(self)@.positioned(
                final(self)@.scroll,
                model(*old(tree)),
                model(*final(tree)),
                configures@,
                requested,
            ),
            final(self)@ == (LayoutView { scroll: final(self)@.scroll, ..old(self)@ }),
            final(self)@.scroll.strip.wf(),
            model(*final(tree)).settled(),
            model(*final(tree)).keyed(),
            forall|key: u64| #[trigger]
                model(*final(tree)).has_key(key) ==> model(*old(tree)).has_key(key),
    {
        let ghost before = model(*tree);
        let ghost scroll = self@.scroll;
        assert(before.regular()) by {
            lemma_sound(before);
        }
        match self.tiling_engine {
            TilingEngine::Classic => {
                let configures: Vec<Configure> = update_positions(tree, self.usable, self.gaps);
                proof {
                    lemma_keeps_keys(before, model(*tree));
                }
                configures
            },
            TilingEngine::Scrolling => {
                let configures: Vec<Configure> = self.scrolling.update_positions_ensuring(
                    tree,
                    self.usable,
                    self.gaps,
                    requested,
                );
                proof {
                    lemma_arranged_keys(
                        scroll,
                        self@.scroll,
                        before,
                        model(*tree),
                        configures@,
                        self.usable,
                        self.gaps,
                        requested,
                        false,
                        None,
                    );
                }
                configures
            },
        }
    }

    /// Sets out for a tree.
    pub(crate) fn commit(
        &mut self,
        tree: Tree<TreeNode>,
        duration: u64,
        eased: &Vec<EasedArea>,
        requested: Option<u64>,
    ) -> (configures: Vec<Configure>)
        requires
            old(self)@.ready(),
            model(tree).sound(),
            old(self)@.engine is Scrolling ==> model(tree).settled(),
            model(tree).keyed(),
        ensures
            old(self)@.committed(
                final(self)@,
                model(tree),
                duration,
                eased@,
                configures@,
                requested,
            ),
            final(self)@.ready(),
            forall|bound: u64| #[trigger]
                old(self)@.wf(bound) && model(tree).keys_below(bound) ==> final(self)@.wf(bound),
    {
        let ghost before = self@;
        let mut placed: Tree<TreeNode> = tree;
        let configures: Vec<Configure> = self.update_positions_for(&mut placed, requested);
        match self.tiling_engine {
            TilingEngine::Classic => {
                self.queue.push_tree(placed, duration, None);
                assert forall|bound: u64| #[trigger] before.wf(bound) && model(tree).keys_below(
                    bound,
                ) implies self@.wf(bound) by {
                    lemma_pushed_keys(before.queue, model(placed), duration, None, bound);
                }
            },
            TilingEngine::Scrolling => {
                self.queue.push_retargetable_tree(placed, duration, None, eased);
                assert forall|bound: u64| #[trigger] before.wf(bound) && model(tree).keys_below(
                    bound,
                ) implies self@.wf(bound) by {
                    lemma_retargeted_keys(
                        before.queue,
                        self@.queue,
                        model(placed),
                        duration,
                        None,
                        eased@,
                        bound,
                    );
                }
            },
        }
        assert(before.positioned(
            self@.scroll,
            model(tree),
            model(placed),
            configures@,
            requested,
        ) && before.heads_for(self@.queue, model(placed), duration, eased@) && self@ == (LayoutView {
            queue: self@.queue,
            scroll: self@.scroll,
            ..before
        }));
        configures
    }

    /// Puts a tree after everything before it.
    pub(crate) fn append(&mut self, tree: Tree<TreeNode>, duration: u64) -> (configures: Vec<
        Configure,
    >)
        requires
            old(self)@.ready(),
            model(tree).sound(),
            old(self)@.engine is Scrolling ==> model(tree).settled(),
            model(tree).keyed(),
        ensures
            old(self)@.appended(final(self)@, model(tree), duration, configures@),
            final(self)@.ready(),
            forall|bound: u64| #[trigger]
                old(self)@.wf(bound) && model(tree).keys_below(bound) ==> final(self)@.wf(bound),
    {
        let ghost before = self@;
        let mut placed: Tree<TreeNode> = tree;
        let configures: Vec<Configure> = self.update_positions_for(&mut placed, None);
        self.queue.push_tree(placed, duration, None);
        assert forall|bound: u64| #[trigger] before.wf(bound) && model(tree).keys_below(
            bound,
        ) implies self@.wf(bound) by {
            lemma_pushed_keys(before.queue, model(placed), duration, None, bound);
        }
        assert(before.positioned(self@.scroll, model(tree), model(placed), configures@, None)
            && self@ == (LayoutView {
            queue: before.queue.pushed(model(placed), duration, None),
            scroll: self@.scroll,
            ..before
        }));
        configures
    }

    /// Shows a tree at once.
    pub(crate) fn commit_directly(&mut self, tree: Tree<TreeNode>) -> (configures: Vec<Configure>)
        requires
            old(self)@.ready(),
            model(tree).settled(),
            model(tree).keyed(),
        ensures
            old(self)@.committed_directly(final(self)@, model(tree), configures@),
            final(self)@.ready(),
            forall|bound: u64| #[trigger]
                old(self)@.wf(bound) && model(tree).keys_below(bound) ==> final(self)@.wf(bound),
    {
        let ghost before = self@;
        let mut placed: Tree<TreeNode> = tree;
        assert(model(tree).sound()) by {
            lemma_sound(model(tree));
        }
        let configures: Vec<Configure> = self.update_positions_for(&mut placed, None);
        self.queue.push_direct_tree(placed, None);
        assert forall|bound: u64| #[trigger] before.wf(bound) && model(tree).keys_below(
            bound,
        ) implies self@.wf(bound) by {
            lemma_pushed_keys(before.queue, model(placed), 0, None, bound);
        }
        assert(before.positioned(self@.scroll, model(tree), model(placed), configures@, None)
            && self@ == (LayoutView {
            queue: before.queue.pushed_direct(model(placed), None),
            scroll: self@.scroll,
            ..before
        }));
        configures
    }

    /// Lets the newest tree wait for windows that were asked to change their sizes.
    pub fn attach_blocker(&mut self, blocker: u64)
        requires
            old(self)@.queue.wf(),
        ensures
            final(self)@ == (LayoutView {
                queue: QueueView {
                    trees: old(self)@.queue.trees.update(
                        old(self)@.queue.trees.len() - 1,
                        QueuedView { blocker: Some(blocker), ..old(self)@.queue.trees.last() },
                    ),
                    ..old(self)@.queue
                },
                ..old(self)@
            }),
            final(self)@.queue.wf(),
            forall|bound: u64| #[trigger] old(self)@.wf(bound) ==> final(self)@.wf(bound),
    {
        let ghost before = self@;
        let last: usize = self.queue.trees.len() - 1;
        assert(before.queue.trees[last as int] == self.queue.trees@[last as int]@);
        self.queue.trees[last].blocker = Some(blocker);
        proof {
            let trees = before.queue.trees.update(
                last as int,
                QueuedView { blocker: Some(blocker), ..before.queue.trees.last() },
            );
            assert(self@.queue.trees =~= trees);
            assert forall|i: int| 0 <= i < trees.len() implies (
            #[trigger] trees[i]).tree == before.queue.trees[i].tree by {}
            assert(self@.queue.wf()) by {
                assert forall|i: int| 0 <= i < trees.len() implies (
                #[trigger] trees[i]).tree.settled() && trees[i].tree.keyed() by {
                    assert(before.queue.trees[i].tree.settled());
                }
            }
            assert forall|bound: u64| #[trigger] before.wf(bound) implies self@.wf(bound) by {
                assert forall|i: int| 0 <= i < trees.len() implies (
                #[trigger] trees[i]).tree.keys_below(bound) by {
                    assert(before.queue.trees[i].tree.keys_below(bound));
                }
            }
        }
    }

    /// Remembers windows that have to be released, which no tree waits for.
    pub fn retire_blocker(&mut self, blocker: u64)
        ensures
            final(self)@ == (LayoutView {
                queue: QueueView {
                    retired: old(self)@.queue.retired.push(blocker),
                    ..old(self)@.queue
                },
                ..old(self)@
            }),
            old(self)@.queue.wf() ==> final(self)@.queue.wf(),
            forall|bound: u64| #[trigger] old(self)@.wf(bound) ==> final(self)@.wf(bound),
    {
        self.queue.retired.push(blocker);
    }
}

} // verus!
