//! When trees are shown one after the other, and what windows are told meanwhile.

use vstd::prelude::*;

use id_tree::NodeId;

use crate::actions::FocusDirection;
use crate::focus::FocusView;
use crate::geometry::Point;
use crate::layout::LayoutView;
use crate::laws::lemma_position_unique;
use crate::layout_laws::lemma_visits_all;
use crate::placement::LiveResize;
use crate::queue::{
    eased_for, longest, ready_trees, EasedArea, QueueView, QueuedView, VisualMove, WaitState,
};
use crate::strip::Strip;
use crate::tree::TreeModel;

verus! {

/// A transition goes on until its time is over, and nothing changes before that. Then the tree that
/// it led to is shown.
pub proof fn law_a_transition_lasts_its_time(
    queue: QueueView,
    after: QueueView,
    waits: Seq<WaitState>,
    start: u64,
    now: u64,
)
    requires
        queue.trees.len() > 1,
        queue.animation_start == Some(start),
        queue.advanced(after, waits, now),
    ensures
        ({
            let duration = queue.trees[1].duration;
            &&& duration > 0 && now < start + duration ==> after == queue
            &&& now >= start + duration ==> {
                &&& after.trees.len() < queue.trees.len()
                &&& queue.trees[1].tree.unminimized(after.trees[0].tree)
                &&& after.trees.len() + 1 == queue.trees.len() ==> after.animation_start is None
                    || after.animation_start == Some(now)
            }
        }),
{
    if now >= start + queue.trees[1].duration {
        let ready = ready_trees(queue.trees, waits, 1) as int;
        lemma_ready_bound(queue.trees, waits, 1);
    }
}

/// No more trees are ready than there are.
proof fn lemma_ready_bound(trees: Seq<QueuedView>, waits: Seq<WaitState>, start: int)
    requires
        1 <= start <= trees.len(),
    ensures
        ready_trees(trees, waits, start) <= trees.len() - start,
    decreases trees.len() - start,
{
    if start < trees.len() {
        lemma_ready_bound(trees, waits, start + 1);
    }
}

/// Trees that wait for nothing are all ready.
proof fn lemma_all_ready(trees: Seq<QueuedView>, waits: Seq<WaitState>, start: int)
    requires
        1 <= start <= trees.len(),
        forall|i: int| start <= i < trees.len() ==> (#[trigger] trees[i]).blocker is None,
    ensures
        ready_trees(trees, waits, start) == trees.len() - start,
    decreases trees.len() - start,
{
    if start < trees.len() {
        assert(trees[start].blocker is None);
        lemma_all_ready(trees, waits, start + 1);
    }
}

/// The longest of some durations is one of them, and none of them is longer.
proof fn lemma_longest(trees: Seq<QueuedView>, last: int, i: int)
    requires
        1 <= last < trees.len(),
        1 <= i <= last,
    ensures
        trees[i].duration <= longest(trees, last),
        exists|k: int|
            1 <= k <= last && (#[trigger] trees[k]).duration == longest(trees, last),
    decreases last,
{
    if last > 1 {
        if i < last {
            lemma_longest(trees, last - 1, i);
        } else {
            lemma_longest(trees, last - 1, 1);
        }
        let k = choose|k: int|
            1 <= k <= last - 1 && (#[trigger] trees[k]).duration == longest(trees, last - 1);
        if longest(trees, last - 1) == longest(trees, last) {
            assert(trees[k].duration == longest(trees, last));
        } else {
            assert(trees[last].duration == longest(trees, last));
        }
    } else {
        assert(trees[1].duration == longest(trees, last));
    }
}

/// When no transition is under way, one begins now as soon as a tree is ready: to the newest one of
/// those that wait for nothing, and it takes as long as the longest of them. A tree whose windows
/// are not ready holds up all that come after it.
pub proof fn law_a_transition_leads_to_what_is_ready(
    queue: QueueView,
    after: QueueView,
    waits: Seq<WaitState>,
    now: u64,
    i: int,
)
    requires
        queue.trees.len() > 1,
        queue.animation_start is None,
        queue.advanced(after, waits, now),
        1 <= i < queue.trees.len(),
    ensures
        ({
            let last = queue.trees.len() - 1;
            let free = forall|k: int| 1 <= k <= last ==> (#[trigger] queue.trees[k]).blocker is None;
            &&& free ==> {
                &&& after.animation_start == Some(now)
                &&& after.trees.len() == 2
                &&& after.trees[0] == queue.trees[0]
                &&& after.trees[1].tree == queue.trees[last].tree
                &&& after.trees[1].duration >= queue.trees[i].duration
                &&& exists|k: int|
                    1 <= k <= last && (#[trigger] queue.trees[k]).duration
                        == after.trees[1].duration
            }
            &&& queue.trees[1].blocker is Some && !waits[0].ready && !waits[0].processed ==> after
                == queue
        }),
{
    let last = queue.trees.len() - 1;
    if forall|k: int| 1 <= k <= last ==> (#[trigger] queue.trees[k]).blocker is None {
        lemma_all_ready(queue.trees, waits, 1);
        lemma_longest(queue.trees, last, i);
        assert(queue.trees.skip(last + 1).len() == 0);
    }
}

/// On its way a node goes from where it was to where it is to be; a window that comes back from
/// being minimized goes from the place that it was minimized to. A node that was not there before
/// goes nowhere.
pub proof fn law_nodes_go_from_where_they_were(
    tree: TreeModel,
    reference: TreeModel,
    order: Seq<NodeId>,
    step: VisualMove,
)
    requires
        tree.moves_of(reference, order).contains(step),
    ensures
        exists|k: int|
            {
                let id = order[k];
                &&& 0 <= k < order.len()
                &&& tree.key(#[trigger] order[k]) == step.key
                &&& step.to == tree.data(id).geometry()
                &&& step.minimized ==> tree.data(id) is Mapped && tree.data(id)->minimize_rect
                    == Some(step.from)
                &&& !step.minimized ==> reference.has_key(step.key) && step.from == reference.data(
                    reference.node_keyed(step.key),
                ).geometry()
            },
    decreases order.len(),
{
    let rest = tree.moves_of(reference, order.drop_last());
    if rest.contains(step) {
        law_nodes_go_from_where_they_were(tree, reference, order.drop_last(), step);
        let k = choose|k: int|
            {
                let id = order.drop_last()[k];
                &&& 0 <= k < order.drop_last().len()
                &&& tree.key(#[trigger] order.drop_last()[k]) == step.key
                &&& step.to == tree.data(id).geometry()
                &&& step.minimized ==> tree.data(id) is Mapped && tree.data(id)->minimize_rect
                    == Some(step.from)
                &&& !step.minimized ==> reference.has_key(step.key) && step.from == reference.data(
                    reference.node_keyed(step.key),
                ).geometry()
            };
        assert(order[k] == order.drop_last()[k]);
    } else {
        let steps = tree.moves_of(reference, order);
        let at = steps.index_of(step);
        assert(steps[at] == step);
        if at < rest.len() {
            assert(rest[at] == step);
        }
        assert(tree.key(order[order.len() - 1]) == step.key);
    }
}

/// A window is told its area unless it is maximized or covers the screen. While an edge is dragged,
/// only the windows next to it are told, each when it has taken what it was told before and its
/// size is another one; at the end of the drag all of them are told.
pub proof fn law_windows_are_told_their_areas(
    tree: TreeModel,
    tile: u64,
    strip: Strip,
    origin: Point,
    live: Option<LiveResize>,
)
    requires
        tree.has_key(tile),
        tree.data(tree.node_keyed(tile)) is Mapped,
    ensures
        ({
            let window = tree.data(tree.node_keyed(tile))->mapped;
            let before = tree.data(tree.node_keyed(tile)).geometry();
            let told = tree.tile_configure(tile, strip, origin, live);
            let area = strip.tile_area(tile, origin);
            &&& window.fullscreen || window.maximized ==> told.len() == 0
            &&& !window.fullscreen && !window.maximized ==> {
                &&& told.len() == 1
                &&& told[0].window == window.id
                &&& told[0].geometry == area
                &&& live is None ==> told[0].send
                &&& live matches Some(resize) ==> {
                    &&& told[0].send ==> resize.tiles@.contains(tile)
                    &&& resize.tiles@.contains(tile) && resize.final_configure ==> told[0].send
                    &&& !resize.final_configure && before.size == area.size ==> !told[0].send
                    &&& !resize.final_configure && !window.latest_size_committed ==> !told[0].send
                    &&& resize.tiles@.contains(tile) && before.size != area.size
                        && window.latest_size_committed ==> told[0].send
                }
            }
        }),
{
}

/// The focus that is led along the strip goes to the window of the tile in that direction. At the
/// upper and lower end of a column it is up to others, at the left and right end of the strip it
/// stays.
pub proof fn law_the_focus_leaves_the_strip_up_and_down(
    layout: LayoutView,
    tile: u64,
    column: int,
    row: int,
)
    requires
        layout.scroll.strip.tidy(),
        layout.scroll.strip.stands_at(tile, column, row),
    ensures
        ({
            let strip = layout.scroll.strip;
            let tiles = strip.columns[column].tiles;
            let tree = layout.newest();
            let up = layout.strip_focus(tile, FocusDirection::Up);
            let down = layout.strip_focus(tile, FocusDirection::Down);
            let left = layout.strip_focus(tile, FocusDirection::Left);
            let right = layout.strip_focus(tile, FocusDirection::Right);
            &&& up is Unhandled <==> row == 0
            &&& down is Unhandled <==> row + 1 == tiles.len()
            &&& row > 0 && tree.shows_window(tiles[row - 1]) ==> up == FocusView::Window {
                window: tree.data(tree.node_keyed(tiles[row - 1]))->mapped.id,
                whole: false,
            }
            &&& row + 1 < tiles.len() && tree.shows_window(tiles[row + 1]) ==> down
                == FocusView::Window {
                window: tree.data(tree.node_keyed(tiles[row + 1]))->mapped.id,
                whole: false,
            }
            &&& !(left is Unhandled)
            &&& !(right is Unhandled)
            &&& column == 0 ==> left is Handled
            &&& column + 1 == strip.columns.len() ==> right is Handled
        }),
{
    lemma_position_unique(layout.scroll.strip, column, row);
    assert(layout.scroll.strip.columns[column].tiles.len() > 0);
}

/// No node of the tree is this window.
pub open spec fn is_nowhere(tree: TreeModel, window: u64) -> bool {
    forall|id: NodeId| #[trigger]
        tree.has(id) ==> !(tree.data(id) is Mapped && tree.data(id)->mapped.id == window)
}

/// The first node along a way that is a window.
proof fn lemma_first_with(tree: TreeModel, order: Seq<NodeId>, window: u64)
    ensures
        match tree.first_with(order, window) {
            Some(id) => order.contains(id) && tree.data(id) is Mapped && tree.data(id)->mapped.id
                == window,
            None => forall|k: int|
                0 <= k < order.len() ==> !(tree.data(#[trigger] order[k]) is Mapped && tree.data(
                    order[k],
                )->mapped.id == window),
        },
    decreases order.len(),
{
    if order.len() > 0 {
        lemma_first_with(tree, order.drop_last(), window);
        let last = order[order.len() - 1];
        match tree.first_with(order.drop_last(), window) {
            Some(id) => {
                let at = order.drop_last().index_of(id);
                assert(order.drop_last()[at] == id);
                assert(order[at] == id);
            },
            None => {
                assert(order.contains(last));
                if tree.first_with(order, window) is None {
                    assert forall|k: int| 0 <= k < order.len() implies !(tree.data(
                        #[trigger] order[k],
                    ) is Mapped && tree.data(order[k])->mapped.id == window) by {
                        if k < order.len() - 1 {
                            assert(order.drop_last()[k] == order[k]);
                        }
                    }
                }
            },
        }
    }
}

/// A window that is looked for is found wherever it is in the tree.
pub proof fn law_a_window_is_found(tree: TreeModel, window: u64, found: Option<NodeId>)
    requires
        tree.forest(),
        tree.connected(),
        tree.finds(window, found),
    ensures
        found matches Some(id) ==> tree.data(id) is Mapped && tree.data(id)->mapped.id == window,
        found is None ==> is_nowhere(tree, window),
{
    let rank = choose|rank: Map<NodeId, nat>| tree.ranked(rank);
    match tree.root {
        Some(root) => {
            let order = choose|order: Seq<NodeId>| #[trigger]
                tree.finds_along(root, order, window, found);
            lemma_first_with(tree, order, window);
            if found is None {
                assert forall|id: NodeId| #[trigger] tree.has(id) implies !(tree.data(
                    id,
                ) is Mapped && tree.data(id)->mapped.id == window) by {
                    lemma_visits_all(tree, order, id, rank);
                    let at = order.index_of(id);
                    assert(order[at] == id);
                }
            }
        },
        None => {
            assert forall|id: NodeId| #[trigger] tree.has(id) implies !(tree.data(id) is Mapped
                && tree.data(id)->mapped.id == window) by {
                crate::classic::lemma_below_root(tree, id, rank);
            }
        },
    }
}

/// Of the windows that had the focus before, the most recent one that is in the tree is taken.
pub proof fn law_the_most_recent_window_is_taken(
    tree: TreeModel,
    windows: Seq<u64>,
    found: Option<NodeId>,
)
    requires
        tree.forest(),
        tree.connected(),
        tree.finds_first(windows, found),
    ensures
        found matches Some(id) ==> exists|k: int|
            {
                &&& 0 <= k < windows.len()
                &&& tree.data(id) is Mapped
                &&& tree.data(id)->mapped.id == #[trigger] windows[k]
                &&& forall|j: int| 0 <= j < k ==> is_nowhere(tree, #[trigger] windows[j])
            },
        found is None ==> forall|j: int|
            0 <= j < windows.len() ==> is_nowhere(tree, #[trigger] windows[j]),
    decreases windows.len(),
{
    if windows.len() > 0 {
        if found is Some && tree.finds(windows[0], found) {
            law_a_window_is_found(tree, windows[0], found);
            assert(tree.data(found->0)->mapped.id == windows[0]);
        } else {
            let rest = windows.skip(1);
            law_a_window_is_found(tree, windows[0], None);
            law_the_most_recent_window_is_taken(tree, rest, found);
            match found {
                Some(id) => {
                    let k = choose|k: int|
                        {
                            &&& 0 <= k < rest.len()
                            &&& tree.data(id) is Mapped
                            &&& tree.data(id)->mapped.id == #[trigger] rest[k]
                            &&& forall|j: int|
                                0 <= j < k ==> is_nowhere(tree, #[trigger] rest[j])
                        };
                    assert(windows[k + 1] == rest[k]);
                    assert forall|j: int| 0 <= j < k + 1 implies is_nowhere(
                        tree,
                        #[trigger] windows[j],
                    ) by {
                        if j > 0 {
                            assert(rest[j - 1] == windows[j]);
                        }
                    }
                },
                None => {
                    assert forall|j: int| 0 <= j < windows.len() implies is_nowhere(
                        tree,
                        #[trigger] windows[j],
                    ) by {
                        if j > 0 {
                            assert(rest[j - 1] == windows[j]);
                        }
                    }
                },
            }
        }
    }
}

/// The area that is shown for a key is one of those that are given.
proof fn lemma_eased_for(eased: Seq<EasedArea>, key: u64, start: int)
    requires
        0 <= start,
    ensures
        match eased_for(eased, key, start) {
            Some(area) => exists|k: int|
                start <= k < eased.len() && (#[trigger] eased[k]).key == key && eased[k].geometry
                    == area,
            None => forall|k: int| start <= k < eased.len() ==> (#[trigger] eased[k]).key != key,
        },
    decreases eased.len() - start,
{
    if start < eased.len() && eased[start].key != key {
        lemma_eased_for(eased, key, start + 1);
    }
}

/// A layout that is stopped on its way keeps everything where it is shown just then. Before it has
/// set out, what it was about to show is where it was before: a window that comes back from being
/// minimized where it was minimized to, and only what is new where it is to be.
pub proof fn law_stopping_keeps_the_areas(
    queue: QueueView,
    visual: TreeModel,
    eased: Seq<EasedArea>,
)
    requires
        queue.stops_at(visual, eased),
        queue.trees.len() > 1,
        queue.animation_start is Some || queue.trees[1].retargetable,
    ensures
        exists|copy: TreeModel| #[trigger]
            queue.trees[1].tree.copied(copy) && forall|id: NodeId| #[trigger]
                visual.has(id) ==> {
                    let shown = visual.data(id).geometry();
                    let before = queue.trees[0].tree;
                    let key = copy.key(id);
                    &&& visual.key(id) == key
                    &&& queue.animation_start is Some ==> (exists|k: int|
                        0 <= k < eased.len() && (#[trigger] eased[k]).key == key && shown
                            == eased[k].geometry) || (shown == copy.data(id).geometry() && forall|
                        k: int,
                    |
                        0 <= k < eased.len() ==> (#[trigger] eased[k]).key != key)
                    &&& queue.animation_start is None ==> shown == if copy.data(id) is Mapped
                        && copy.data(id)->minimize_rect is Some {
                        copy.data(id)->minimize_rect->0
                    } else if before.has_key(key) {
                        before.data(before.node_keyed(key)).geometry()
                    } else {
                        copy.data(id).geometry()
                    }
                },
{
    if queue.animation_start is Some {
        let copy = choose|copy: TreeModel| #[trigger]
            queue.trees[1].tree.copied(copy) && copy.eased_as(visual, eased);
        assert forall|id: NodeId| #[trigger] visual.has(id) implies visual.key(id) == copy.key(id)
            && ((exists|k: int|
            0 <= k < eased.len() && (#[trigger] eased[k]).key == copy.key(id) && visual.data(
                id,
            ).geometry() == eased[k].geometry) || (visual.data(id).geometry() == copy.data(
            id,
        ).geometry() && forall|k: int|
            0 <= k < eased.len() ==> (#[trigger] eased[k]).key != copy.key(id))) by {
            lemma_eased_for(eased, copy.key(id), 0);
        }
    } else {
        let copy = choose|copy: TreeModel| #[trigger]
            queue.trees[1].tree.copied(copy) && copy.held_as(visual, queue.trees[0].tree);
        assert(forall|id: NodeId| #[trigger]
            visual.has(id) ==> visual.key(id) == copy.key(id) && visual.data(id) == copy.held_data(
                queue.trees[0].tree,
                id,
            ));
    }
}

} // verus!
