//! What happens to the viewport of a workspace, and to nothing else, when the user pans it or
//! lets go of a column.

use vstd::prelude::*;

use id_tree::NodeId;

use crate::balance::{lemma_same_rooms, lemma_sound};
use crate::classic::{lemma_empty, Configure};
use crate::columns::lemma_find_from;
use crate::config::TilingEngine;
use crate::geometry::Rectangle;
use crate::laws::{
    law_reconciliation_keeps_known_columns, law_reconciliation_keeps_weights, lemma_contains_tiles,
    lemma_position_unique, lemma_reconciled_focus,
};
use crate::layout::LayoutView;
use crate::layout_laws::{lemma_copy_shows, lemma_same_sorts, lemma_visited_tiles};
use crate::placement::viewport_area;
use crate::queue::EasedArea;
use crate::strip::Strip;
use crate::strip_actions::ResizingChange;
use crate::tree::TreeModel;
use crate::units::Float64;

verus! {

impl Strip {
    /// Whether the other strip has the same columns, weights and focus.
    pub open spec fn arranged_as(self, other: Strip) -> bool {
        &&& other.columns == self.columns
        &&& other.focused == self.focused
        &&& forall|tile: u64| #[trigger]
            self.contains(tile) ==> other.weight_of(tile) == self.weight_of(tile)
    }
}

impl LayoutView {
    /// Whether all trees on the way show the windows of the strip.
    pub open spec fn shows_strip_throughout(self) -> bool {
        forall|i: int|
            0 <= i < self.queue.trees.len() ==> (#[trigger] self.queue.trees[i]).tree.shows_strip(
                self.scroll.strip,
            )
    }
}

/// An update that keeps the viewport, with the tiles that are there already.
proof fn lemma_kept_update(
    strip: Strip,
    pending_center: Option<u64>,
    tiles: Seq<u64>,
    activated: Option<u64>,
    viewport: Rectangle,
    gap: int,
)
    requires
        strip.tidy(),
        strip.columns.len() > 0,
        strip.focused matches Some(tile) ==> strip.contains(tile),
        forall|tile: u64| #[trigger] tiles.contains(tile) <==> strip.contains(tile),
    ensures
        ({
            let after = strip.updated(
                pending_center,
                tiles,
                activated,
                viewport,
                gap,
                None,
                true,
                false,
            );
            &&& strip.arranged_as(after)
            &&& after.user_positioned_viewport == strip.user_positioned_viewport
            &&& !strip.user_positioned_viewport ==> after.viewport_x == strip.viewport_x
            &&& after.viewport_width == if viewport.size.w > 1 {
                viewport.size.w as int
            } else {
                1
            }
            &&& after.gap == if gap > 0 {
                gap
            } else {
                0
            }
        }),
{
    let known = strip.reconciled(tiles);
    law_reconciliation_keeps_known_columns(strip, tiles);
    lemma_reconciled_focus(strip, tiles);
    match strip.focused {
        Some(tile) => {
            assert(tiles.contains(tile) <==> strip.contains(tile));
        },
        None => {},
    }
    assert(known.focused == strip.focused);
    let after = strip.updated(pending_center, tiles, activated, viewport, gap, None, true, false);
    assert(after.weights == known.weights);
    assert forall|tile: u64| #[trigger] strip.contains(tile) implies after.weight_of(tile)
        == strip.weight_of(tile) by {
        assert(tiles.contains(tile));
        law_reconciliation_keeps_weights(strip, tiles, tile);
        assert(after.weight_of(tile) == known.weight_of(tile));
    }
}

/// Showing a tree at once with the viewport kept leaves the strip of its windows as it is.
#[verifier::rlimit(40)]
#[verifier::spinoff_prover]
proof fn lemma_committed_kept(
    layout: LayoutView,
    after: LayoutView,
    tree: TreeModel,
    configures: Seq<Configure>,
)
    requires
        layout.scroll.strip.tidy(),
        layout.scroll.strip.columns.len() > 0,
        layout.scroll.strip.focused matches Some(tile) ==> layout.scroll.strip.contains(tile),
        tree.settled(),
        tree.root is Some,
        tree.shows_strip(layout.scroll.strip),
        layout.committed_live(after, tree, configures, None),
    ensures
        ({
            let strip = layout.scroll.strip;
            let viewport = viewport_area(layout.usable, layout.gaps);
            &&& strip.arranged_as(after.scroll.strip)
            &&& after.scroll.strip.user_positioned_viewport == strip.user_positioned_viewport
            &&& !strip.user_positioned_viewport ==> after.scroll.strip.viewport_x
                == strip.viewport_x
            &&& after.scroll.strip.viewport_width == if viewport.size.w > 1 {
                viewport.size.w as int
            } else {
                1
            }
            &&& after.scroll.strip.gap == if layout.gaps.1 > 0 {
                layout.gaps.1 as int
            } else {
                0
            }
        }),
{
    let strip = layout.scroll.strip;
    let placed = choose|placed: TreeModel| #[trigger]
        layout.scroll.arranged(
            after.scroll,
            tree,
            placed,
            configures,
            layout.usable,
            layout.gaps,
            None,
            true,
            None,
        ) && after == (LayoutView {
            queue: layout.queue.pushed_direct(placed, None),
            scroll: after.scroll,
            ..layout
        });
    let order = choose|order: Seq<NodeId>| #[trigger]
        layout.scroll.arranged_over(
            after.scroll,
            tree,
            placed,
            configures,
            order,
            layout.usable,
            layout.gaps,
            None,
            true,
            None,
        );
    lemma_visited_tiles(tree, order, strip);
    lemma_kept_update(
        strip,
        layout.scroll.pending_center,
        tree.tile_keys(order),
        tree.first_active(order),
        viewport_area(layout.usable, layout.gaps),
        if layout.gaps.1 > 0 {
            layout.gaps.1 as int
        } else {
            0
        },
    );
}

/// Nodes in other areas show the same windows.
proof fn lemma_moved_shows(tree: TreeModel, visual: TreeModel, strip: Strip)
    requires
        tree.settled(),
        tree.shows_strip(strip),
        tree.same_sorts(visual),
    ensures
        visual.shows_strip(strip),
        visual.settled(),
{
    lemma_same_sorts(tree, visual, strip);
    lemma_same_rooms(tree, visual);
}

/// What is there to be changed shows the windows of the strip, if all trees on the way do.
proof fn lemma_prepared_shows(
    layout: LayoutView,
    ready: LayoutView,
    tree: TreeModel,
    eased: Seq<EasedArea>,
)
    requires
        layout.ready(),
        layout.shows_strip_throughout(),
        layout.prepared(ready, tree, eased),
    ensures
        tree.shows_strip(layout.scroll.strip),
        tree.settled(),
{
    let strip = layout.scroll.strip;
    let queue = layout.queue;
    let last = queue.trees.len() - 1;
    assert(queue.trees[last].tree.settled() && queue.trees[last].tree.shows_strip(strip));
    assert(queue.trees[0].tree.settled() && queue.trees[0].tree.shows_strip(strip));
    if queue.animation_start is Some || queue.trees.len() > 1 && !queue.direct_pending() {
        if queue.awaiting() {
            assert(queue.trees[1].tree.settled() && queue.trees[1].tree.shows_strip(strip));
            let copy = choose|copy: TreeModel| #[trigger]
                queue.trees[1].tree.copied(copy) && copy.held_as(tree, queue.trees[0].tree);
            lemma_copy_shows(queue.trees[1].tree, copy, strip);
            assert(copy.same_sorts(tree)) by {
                assert forall|id: NodeId| #[trigger] tree.has(id) implies (tree.data(id) is Mapped
                    <==> copy.data(id) is Mapped) && (tree.data(id) is Group <==> copy.data(
                    id,
                ) is Group) && tree.data(id).room() == copy.data(id).room() by {
                    assert(tree.data(id) == copy.held_data(queue.trees[0].tree, id));
                }
            }
            lemma_moved_shows(copy, tree, strip);
        } else if queue.moving() {
            assert(queue.trees[1].tree.settled() && queue.trees[1].tree.shows_strip(strip));
            let copy = choose|copy: TreeModel| #[trigger]
                queue.trees[1].tree.copied(copy) && copy.eased_as(tree, eased);
            lemma_copy_shows(queue.trees[1].tree, copy, strip);
            assert(copy.same_sorts(tree)) by {
                assert forall|id: NodeId| #[trigger] tree.has(id) implies (tree.data(id) is Mapped
                    <==> copy.data(id) is Mapped) && (tree.data(id) is Group <==> copy.data(
                    id,
                ) is Group) && tree.data(id).room() == copy.data(id).room() by {
                    assert(tree.data(id) == copy.eased_data(id, eased));
                }
            }
            lemma_moved_shows(copy, tree, strip);
        } else {
            lemma_copy_shows(queue.trees[0].tree, tree, strip);
        }
    } else {
        lemma_copy_shows(queue.trees[last].tree, tree, strip);
    }
}

/// A tree that shows a window has a root.
proof fn lemma_shows_rooted(tree: TreeModel, strip: Strip)
    requires
        tree.settled(),
        tree.shows_strip(strip),
        strip.tidy(),
        strip.columns.len() > 0,
    ensures
        tree.root is Some,
{
    assert(strip.columns[0].tiles.len() > 0);
    let first = strip.columns[0].tiles[0];
    lemma_position_unique(strip, 0, 0);
    assert(strip.contains(first) <==> tree.shows_tile(first));
    let id = choose|id: NodeId| #[trigger]
        tree.has(id) && tree.key(id) == first && tree.data(id) is Mapped;
    if tree.root is None {
        lemma_sound(tree);
        lemma_empty(tree);
        assert(tree.has(id));
    }
}

/// Panning the strip changes nothing on it: the columns with their tiles, order and widths, the
/// weights of the tiles and the focus all stay.
pub proof fn law_pan_leaves_the_columns_and_the_focus(
    layout: LayoutView,
    after: LayoutView,
    delta_x: Float64,
    eased: Seq<EasedArea>,
    done: bool,
    configures: Seq<Configure>,
)
    requires
        layout.ready(),
        layout.scroll.strip.tidy(),
        layout.scroll.strip.focused matches Some(tile) ==> layout.scroll.strip.contains(tile),
        layout.shows_strip_throughout(),
        layout.pans(after, delta_x, eased, done, configures),
    ensures
        layout.scroll.strip.arranged_as(after.scroll.strip),
        after.engine == layout.engine,
{
    let strip = layout.scroll.strip;
    if done {
        let delta = delta_x.spec_subpixels();
        let (ready, tree) = choose|ready: LayoutView, tree: TreeModel| #[trigger]
            layout.prepared(ready, tree, eased) && {
                let panned = ready.with_strip(ready.scroll.strip.panned(delta));
                if panned.scroll.strip.viewport_x == ready.scroll.strip.viewport_x {
                    after == panned && configures.len() == 0
                } else {
                    panned.committed_live(after, tree, configures, None)
                }
            };
        lemma_prepared_shows(layout, ready, tree, eased);
        let panned = ready.with_strip(ready.scroll.strip.panned(delta));
        let moved = panned.scroll.strip;
        assert(moved.columns == strip.columns && moved.weights == strip.weights && moved.focused
            == strip.focused);
        assert(moved.tiles() == strip.tiles());
        assert forall|tile: u64| #[trigger] moved.contains(tile) == strip.contains(tile) by {}
        if moved.viewport_x != ready.scroll.strip.viewport_x {
            assert(strip.columns.len() > 0);
            assert(tree.shows_strip(moved));
            lemma_shows_rooted(tree, moved);
            lemma_committed_kept(panned, after, tree, configures);
        }
        assert forall|tile: u64| #[trigger] strip.contains(tile) implies after.scroll.strip.weight_of(
            tile,
        ) == strip.weight_of(tile) by {
            assert(moved.contains(tile));
            assert(moved.weight_of(tile) == strip.weight_of(tile));
        }
    }
}

/// Letting go of a column that was not moved leaves a lone tile in the middle of the viewport,
/// and the columns as they are.
pub proof fn law_release_keeps_a_lone_tile_centered(
    layout: LayoutView,
    after: LayoutView,
    eased: Seq<EasedArea>,
    changes: Seq<ResizingChange>,
    configures: Seq<Configure>,
)
    requires
        layout.ready(),
        layout.engine == TilingEngine::Scrolling,
        layout.live is None,
        layout.scroll.strip.tidy(),
        layout.scroll.strip.tiles().len() == 1,
        layout.shows_strip_throughout(),
        layout.scroll.strip.viewport_width == viewport_area(layout.usable, layout.gaps).size.w,
        layout.scroll.strip.viewport_width > 1,
        layout.scroll.strip.gap == if layout.gaps.1 > 0 {
            layout.gaps.1 as int
        } else {
            0
        },
        layout.finishes(after, eased, changes, configures),
    ensures
        ({
            let strip = after.scroll.strip;
            &&& strip.columns == layout.scroll.strip.columns
            &&& strip.centering(strip.tiles()[0]) == Some(strip.viewport_x)
            &&& !strip.user_positioned_viewport
        }),
{
    let strip = layout.scroll.strip;
    let tile = strip.tiles()[0];
    let (ready, tree) = choose|ready: LayoutView, tree: TreeModel| #[trigger]
        layout.prepared(ready, tree, eased) && ready.finishing().committed_live(
            after,
            tree,
            configures,
            None,
        );
    lemma_prepared_shows(layout, ready, tree, eased);
    let ended = ready.finishing();
    let centered = ended.scroll.strip;
    let synced = ready.scroll.strip;
    assert(synced.columns == strip.columns);
    assert(synced.tiles() == strip.tiles());
    assert(strip.tiles().contains(tile));
    lemma_contains_tiles(strip, tile);
    assert(strip.contains(tile));
    assert(synced.position(tile) == strip.position(tile));
    assert(centered == synced.centered(tile));
    let (column, row) = strip.position(tile)->0;
    lemma_find_from(strip.columns, tile, 0);
    assert(centered.columns == strip.columns);
    assert(centered.tiles() == strip.tiles());
    assert forall|other: u64| #[trigger] centered.contains(other) == strip.contains(other) by {}
    assert(tree.shows_strip(centered));
    lemma_shows_rooted(tree, centered);
    lemma_committed_kept(ended, after, tree, configures);
    let end = after.scroll.strip;
    assert(end.tiles() == strip.tiles());
    assert(end.position(tile) == strip.position(tile));
    assert(end.center(column) == synced.center(column));
}

} // verus!
