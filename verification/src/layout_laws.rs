//! What holds of a layout from one change to the next.

use vstd::prelude::*;

use id_tree::NodeId;

use crate::actions::{Direction, FocusDirection};
use crate::balance::{lemma_same_rooms, lemma_sound};
use crate::classic::{lemma_empty, Configure};
use crate::columns::lemma_find_from;
use crate::config::TilingEngine;
use crate::copies::{law_copies_are_alike, lemma_original};
use crate::data::Window;
use crate::geometry::{Point, Rectangle, Size};
use crate::layout::LayoutView;
use crate::laws::{
    law_reconciled, law_reconciliation_keeps_known_columns, lemma_contains_tiles,
    lemma_position_unique, lemma_sum_contains,
};
use crate::mapping::duration_for;
use crate::placement::{
    lemma_node_keyed, lemma_tile_keyed, lemma_tile_keys, lemma_visits_children,
    lemma_visits_pending, viewport_area, LiveResize,
};
use crate::queue::{blockers_of, lemma_ready_trees, ready_trees, EasedArea, QueueView, WaitState};
use crate::scrolling::{FocusNavigation, ScrollView};
use crate::strip::Strip;
use crate::strip_actions::ResizingChange;
use crate::strip_laws::law_viewport_stays_on_the_strip;
use crate::surgery::{new_group_item, new_window};
use crate::tree::{visits, NodeModel, NodeView, TreeModel};
use crate::tree_actions::barriers;
use crate::units::{lemma_round_ratio, round_ratio, Float64, HALF_PIXEL, SUBPIXEL};

verus! {

impl TreeModel {
    /// Whether two trees hold nodes with the same keys.
    pub open spec fn same_keys(self, other: TreeModel) -> bool {
        forall|key: u64| #[trigger] other.has_key(key) <==> self.has_key(key)
    }
}

/// Trees of the same shape have the same keys.
proof fn lemma_shape_same_keys(tree: TreeModel, other: TreeModel)
    requires
        tree.same_shape(other),
    ensures
        tree.same_keys(other),
{
    assert forall|key: u64| #[trigger] other.has_key(key) <==> tree.has_key(key) by {
        if other.has_key(key) {
            let node = choose|node: NodeId| other.has(node) && #[trigger] other.key(node) == key;
            assert(tree.has(node) && tree.key(node) == key);
        }
        if tree.has_key(key) {
            let node = choose|node: NodeId| tree.has(node) && #[trigger] tree.key(node) == key;
            assert(tree.nodes.dom().contains(node));
            assert(other.nodes.dom().contains(node));
            assert(other.has(node));
            assert(other.key(node) == key);
        }
    }
}

/// A layout that is stopped shows the nodes that it was showing, or those of the tree that it
/// was about to leave for from what is shown. It waits for nothing; what was waited for is
/// remembered.
pub proof fn law_stopping_keeps_what_is_shown(
    queue: QueueView,
    after: QueueView,
    visual: TreeModel,
    eased: Seq<EasedArea>,
)
    requires
        queue.wf(),
        queue.interrupted(after, visual, eased),
    ensures
        after.trees.len() == 1,
        !after.moving(),
        (if queue.moving() || queue.awaiting() {
            queue.trees[1].tree
        } else {
            queue.trees[0].tree
        }).same_keys(after.newest()),
        blockers_of(after.trees) =~= seq![],
        forall|wait: u64| #[trigger]
            after.retired.contains(wait) <==> queue.retired.contains(wait) || blockers_of(
                queue.trees,
            ).contains(wait),
{
    law_copies_are_alike(visual, after.trees[0].tree);
    if queue.awaiting() {
        let copy = choose|copy: TreeModel| #[trigger]
            queue.trees[1].tree.copied(copy) && copy.held_as(visual, queue.trees[0].tree);
        law_copies_are_alike(queue.trees[1].tree, copy);
        lemma_shape_same_keys(copy, visual);
    } else if queue.moving() {
        let copy = choose|copy: TreeModel| #[trigger]
            queue.trees[1].tree.copied(copy) && copy.eased_as(visual, eased);
        law_copies_are_alike(queue.trees[1].tree, copy);
        lemma_shape_same_keys(copy, visual);
    } else {
        law_copies_are_alike(queue.trees[0].tree, visual);
    }
    assert(after.trees.drop_last() =~= seq![]);
    reveal_with_fuel(blockers_of, 2);
    assert forall|wait: u64| #[trigger] after.retired.contains(wait) <==> queue.retired.contains(
        wait,
    ) || blockers_of(queue.trees).contains(wait) by {
        lemma_sum_contains(queue.retired, blockers_of(queue.trees), wait);
    }
}

/// However many trees are on the way, a retargeted layout is one step from its new tree: what
/// is shown comes first, the new tree with all its nodes second, and nothing else is waited
/// for.
pub proof fn law_retargeting_goes_straight_to_the_tree(
    queue: QueueView,
    after: QueueView,
    tree: TreeModel,
    duration: u64,
    blocker: Option<u64>,
    eased: Seq<EasedArea>,
)
    requires
        queue.wf(),
        queue.retargeted(after, tree, duration, blocker, eased),
    ensures
        after.trees.len() == 2,
        tree.same_keys(after.newest()),
        after.trees[1].duration == duration,
        after.trees[1].blocker == blocker,
        after.trees[1].retargetable,
        after.animation_start is None,
{
    if queue.animation_start is Some || queue.trees.len() > 1 {
        let (stopped, visual, target) = choose|
            stopped: QueueView,
            visual: TreeModel,
            target: TreeModel,
        | #[trigger]
            queue.interrupted(stopped, visual, eased) && #[trigger] tree.unminimized(target) && after
                == stopped.headed(target, duration, blocker);
        lemma_shape_same_keys(tree, target);
    }
}

impl TreeModel {
    /// Whether a node is there and holds `item`.
    spec fn holds(self, id: NodeId, item: NodeView) -> bool {
        self.has(id) && self.nodes[id].item == item
    }
}

/// Moving nodes about changes nothing of what they hold.
proof fn lemma_moved_holds(tree: TreeModel, moved: NodeId, parent: NodeId, id: NodeId, item: NodeView)
    requires
        tree.holds(id, item),
    ensures
        tree.moved_to_parent(moved, parent).holds(id, item),
{
}

/// Changing places among siblings changes nothing of what they hold.
proof fn lemma_sibling_holds(tree: TreeModel, moved: NodeId, position: int, id: NodeId, item: NodeView)
    requires
        tree.holds(id, item),
    ensures
        tree.at_sibling(moved, position).holds(id, item),
{
}

/// A new group around two nodes changes nothing of what the others hold.
proof fn lemma_grouped_holds(
    tree: TreeModel,
    old_id: NodeId,
    new_id: NodeId,
    group: NodeId,
    group_item: NodeView,
    id: NodeId,
    item: NodeView,
)
    requires
        tree.holds(id, item),
        group != id,
    ensures
        tree.grouped(old_id, new_id, group, group_item).holds(id, item),
{
    reveal(TreeModel::grouped);
    match tree.parent(old_id) {
        Some(parent) => {
            let grown = tree.grown(group, group_item, parent);
            assert(grown.holds(id, item));
            lemma_moved_holds(grown, old_id, group, id, item);
            let moved = grown.moved_to_parent(old_id, group);
            lemma_sibling_holds(moved, group, tree.children(parent).index_of(old_id), id, item);
        },
        None => {
            let rooted = tree.rooted(group, group_item);
            assert(rooted.holds(id, item));
            lemma_moved_holds(rooted, old_id, group, id, item);
        },
    }
    lemma_moved_holds(tree.enclosed(old_id, group, group_item), new_id, group, id, item);
}

/// A tree that a window was put into holds it.
proof fn lemma_mapped_is_held(
    tree: TreeModel,
    after: TreeModel,
    id: NodeId,
    item: NodeView,
    group_key: u64,
    output: Size,
    node: Option<NodeId>,
    direction: Option<Direction>,
)
    requires
        tree.mapped_as(after, id, item, group_key, output, node, direction),
    ensures
        after.has_key(item.key),
{
    let rooted = tree.rooted(id, item);
    assert(rooted.holds(id, item));
    if let Some(anchor) = tree.map_anchor(node, direction) {
        let group_item = new_group_item(group_key, tree.map_orientation(output, node, direction));
        let group = choose|group: NodeId|
            !tree.has(group) && group != id && after == #[trigger] tree.with_mapped(
                id,
                item,
                group,
                group_item,
                anchor,
                direction,
            );
        lemma_grouped_holds(rooted, anchor, id, group, group_item, id, item);
        let placed = rooted.grouped(anchor, id, group, group_item);
        lemma_sibling_holds(placed, id, 0, id, item);
        lemma_sibling_holds(placed, id, 1, id, item);
    }
    assert(after.holds(id, item));
    assert(after.has(id) && after.key(id) == item.key);
}

/// The scrolling layout goes to every new tree straight from what is shown, so no node of the
/// tree is lost: the newest tree has them all, and so has the one that is left when the
/// transition is stopped, whether it has begun or not.
pub proof fn law_stopping_loses_no_new_node(
    layout: LayoutView,
    after: LayoutView,
    tree: TreeModel,
    duration: u64,
    eased: Seq<EasedArea>,
    configures: Seq<Configure>,
    requested: Option<u64>,
    start: Option<u64>,
    stopped: QueueView,
    visual: TreeModel,
    eased_later: Seq<EasedArea>,
)
    requires
        layout.engine == TilingEngine::Scrolling,
        layout.queue.wf(),
        layout.committed(after, tree, duration, eased, configures, requested),
        after.queue.wf(),
        (QueueView { animation_start: start, ..after.queue }).interrupted(
            stopped,
            visual,
            eased_later,
        ),
    ensures
        forall|key: u64| #[trigger] tree.has_key(key) ==> after.newest().has_key(key),
        forall|key: u64| #[trigger] tree.has_key(key) ==> stopped.newest().has_key(key),
{
    let placed = choose|placed: TreeModel| #[trigger]
        layout.positioned(after.scroll, tree, placed, configures, requested) && layout.heads_for(
            after.queue,
            placed,
            duration,
            eased,
        );
    if tree.root is Some {
        assert(tree.same_shape(placed));
        lemma_shape_same_keys(tree, placed);
    }
    law_retargeting_goes_straight_to_the_tree(
        layout.queue,
        after.queue,
        placed,
        duration,
        None,
        eased,
    );
    law_stopping_keeps_what_is_shown(
        QueueView { animation_start: start, ..after.queue },
        stopped,
        visual,
        eased_later,
    );
    assert forall|key: u64| #[trigger] tree.has_key(key) implies after.newest().has_key(key)
        && stopped.newest().has_key(key) by {
        assert(placed.has_key(key));
        assert(after.newest().has_key(key));
    }
}

/// A window that was put into the scrolling layout is there to be grabbed: it is in the newest
/// tree, and stopping the transition to that tree, whether it has begun or not, does not lose
/// it.
pub proof fn law_new_window_can_be_grabbed(
    layout: LayoutView,
    after: LayoutView,
    window: Window,
    stack: Option<Seq<u64>>,
    direction: Option<Direction>,
    minimize_rect: Option<Rectangle>,
    key: u64,
    eased: Seq<EasedArea>,
    configures: Seq<Configure>,
    start: Option<u64>,
    stopped: QueueView,
    visual: TreeModel,
    eased_later: Seq<EasedArea>,
)
    requires
        layout.engine == TilingEngine::Scrolling,
        layout.queue.wf(),
        layout.maps(after, window, stack, direction, minimize_rect, key, eased, configures)
            || layout.maps_new(after, window, stack, key, eased, configures),
        after.queue.wf(),
        (QueueView { animation_start: start, ..after.queue }).interrupted(
            stopped,
            visual,
            eased_later,
        ),
    ensures
        after.newest().has_key(key),
        stopped.newest().has_key(key),
{
    let new = !layout.maps(after, window, stack, direction, minimize_rect, key, eased, configures);
    let rect = if new {
        None
    } else {
        minimize_rect
    };
    let side = if new {
        None
    } else {
        direction
    };
    let item = new_window(key, window, rect);
    let (copy, tree, id, anchor) = choose|
        copy: TreeModel,
        tree: TreeModel,
        id: NodeId,
        anchor: Option<NodeId>,
    |
        layout.newest().copied(copy) && #[trigger] copy.anchored(stack, anchor) && !copy.has(id)
            && #[trigger] copy.mapped_as(
            tree,
            id,
            item,
            (key + 1) as u64,
            layout.output_size,
            anchor,
            side,
        ) && (if new {
            layout.with_new_toplevel(key, copy.key_at(anchor))
        } else {
            layout
        }).committed(after, tree, duration_for(rect is Some), eased, configures, None);
    lemma_mapped_is_held(
        copy,
        tree,
        id,
        item,
        (key + 1) as u64,
        layout.output_size,
        anchor,
        side,
    );
    law_stopping_loses_no_new_node(
        if new {
            layout.with_new_toplevel(key, copy.key_at(anchor))
        } else {
            layout
        },
        after,
        tree,
        duration_for(rect is Some),
        eased,
        configures,
        None,
        start,
        stopped,
        visual,
        eased_later,
    );
    assert(tree.has_key(key));
}

/// Of two immediate changes in a row, only the second is ever shown. The wait of the first is
/// remembered.
pub proof fn law_immediate_changes_coalesce(
    queue: QueueView,
    first: TreeModel,
    first_blocker: Option<u64>,
    second: TreeModel,
    second_blocker: Option<u64>,
)
    requires
        queue.wf(),
        queue.animation_start is None,
    ensures
        ({
            let once = queue.pushed_direct(first, first_blocker);
            let twice = once.pushed_direct(second, second_blocker);
            &&& twice.trees.len() == once.trees.len()
            &&& twice.newest() == second
            &&& twice.trees == queue.pushed_direct(second, second_blocker).trees
            &&& first_blocker matches Some(wait) ==> twice.retired.contains(wait)
        }),
{
    let once = queue.pushed_direct(first, first_blocker);
    let twice = once.pushed_direct(second, second_blocker);
    assert(once.direct_pending());
    assert(twice.trees =~= queue.pushed_direct(second, second_blocker).trees);
    if first_blocker is Some {
        assert(twice.retired.last() == first_blocker->0);
    }
}

/// Panning that does not move the viewport changes nothing: no transition is cut short, and no
/// window is asked for anything.
pub proof fn law_idle_pan_changes_nothing(
    layout: LayoutView,
    after: LayoutView,
    delta_x: Float64,
    eased: Seq<EasedArea>,
    done: bool,
    configures: Seq<Configure>,
)
    requires
        layout.pans(after, delta_x, eased, done, configures),
        delta_x.finite() ==> layout.scroll.strip.panned(delta_x.spec_subpixels()).viewport_x
            == layout.scroll.strip.viewport_x,
    ensures
        !done,
        after == layout,
        configures.len() == 0,
{
}

impl TreeModel {
    /// Whether a node with this key is a window.
    pub open spec fn shows_tile(self, key: u64) -> bool {
        exists|id: NodeId| #[trigger]
            self.has(id) && self.key(id) == key && self.data(id) is Mapped
    }

    /// Whether no window is being dragged, and the windows are the tiles of the strip.
    pub open spec fn shows_strip(self, strip: Strip) -> bool {
        &&& forall|id: NodeId| #[trigger] self.has(id) ==> !(self.data(id) is Placeholder)
        &&& forall|key: u64| #[trigger] strip.contains(key) <==> self.shows_tile(key)
    }

    /// Whether two trees have the same shape and nodes of the same sorts.
    pub open spec fn same_sorts(self, other: TreeModel) -> bool {
        &&& self.same_shape(other)
        &&& forall|id: NodeId| #[trigger]
            other.has(id) ==> (other.data(id) is Mapped <==> self.data(id) is Mapped) && (
            other.data(id) is Group <==> self.data(id) is Group) && other.data(id).room()
                == self.data(id).room()
    }
}

/// Nodes of the same sorts show the same tiles.
pub proof fn lemma_same_sorts(tree: TreeModel, other: TreeModel, strip: Strip)
    requires
        tree.same_sorts(other),
        tree.shows_strip(strip),
        tree.settled(),
    ensures
        other.shows_strip(strip),
        other.settled(),
{
    lemma_same_rooms(tree, other);
    assert forall|id: NodeId| #[trigger] other.has(id) <==> tree.has(id) by {
        assert(other.nodes.dom().contains(id) == tree.nodes.dom().contains(id));
    }
    assert forall|key: u64| #[trigger] strip.contains(key) <==> other.shows_tile(key) by {
        assert(strip.contains(key) <==> tree.shows_tile(key));
        if tree.shows_tile(key) {
            let id = choose|id: NodeId| #[trigger]
                tree.has(id) && tree.key(id) == key && tree.data(id) is Mapped;
            assert(other.has(id));
        }
        if other.shows_tile(key) {
            let id = choose|id: NodeId| #[trigger]
                other.has(id) && other.key(id) == key && other.data(id) is Mapped;
            assert(tree.has(id));
        }
    }
}

/// A copy shows the same tiles.
pub proof fn lemma_copy_shows(tree: TreeModel, copy: TreeModel, strip: Strip)
    requires
        tree.copied(copy),
        tree.shows_strip(strip),
        tree.settled(),
    ensures
        copy.shows_strip(strip),
        copy.settled(),
{
    law_copies_are_alike(tree, copy);
    let ids = choose|ids: Map<NodeId, NodeId>| #[trigger] tree.renamed(copy, ids);
    assert forall|node: NodeId| #[trigger] copy.has(node) implies exists|id: NodeId| #[trigger]
        tree.has(id) && ids[id] == node by {
        lemma_original(tree, copy, ids, node);
    }
    assert forall|id: NodeId| #[trigger] tree.has(id) implies copy.has(ids[id]) by {
        assert(ids.dom().contains(id));
        assert(ids.values().contains(ids[id]));
        assert(copy.nodes.dom().contains(ids[id]));
    }
    assert forall|key: u64| #[trigger] strip.contains(key) <==> copy.shows_tile(key) by {
        assert(strip.contains(key) <==> tree.shows_tile(key));
        if tree.shows_tile(key) {
            let id = choose|id: NodeId| #[trigger]
                tree.has(id) && tree.key(id) == key && tree.data(id) is Mapped;
            assert(copy.has(ids[id]));
        }
        if copy.shows_tile(key) {
            let node = choose|node: NodeId| #[trigger]
                copy.has(node) && copy.key(node) == key && copy.data(node) is Mapped;
            let id = choose|id: NodeId| #[trigger] tree.has(id) && ids[id] == node;
            assert(tree.has(id));
        }
    }
}

/// Clearing nodes of what a drag left changes no sorts where nothing is dragged.
proof fn lemma_swept_sorts(tree: TreeModel, order: Seq<NodeId>)
    requires
        forall|id: NodeId| #[trigger] tree.has(id) ==> !(tree.data(id) is Placeholder),
    ensures
        tree.same_sorts(tree.swept(order, false)),
    decreases order.len(),
{
    if order.len() > 0 {
        let before = tree.swept(order.drop_last(), false);
        lemma_swept_sorts(tree, order.drop_last());
        let id = order.last();
        let after = before.swept_at(id, false);
        if before.has(id) {
            assert(before.nodes.dom().contains(id));
            assert(tree.nodes.dom().contains(id));
            assert(tree.has(id));
            assert(!(before.data(id) is Placeholder));
        }
        assert(after.nodes.dom() =~= before.nodes.dom());
        assert forall|node: NodeId| #[trigger] after.has(node) implies before.has(node)
            && tree.has(node) by {
            assert(after.nodes.dom().contains(node));
            assert(tree.nodes.dom().contains(node));
        }
    }
}

/// Without groups of one there is nothing to flatten.
pub proof fn lemma_flat_already(tree: TreeModel, order: Seq<NodeId>)
    requires
        tree.settled(),
    ensures
        tree.flattened(order) == tree,
    decreases order.len(),
{
    if order.len() > 0 {
        lemma_flat_already(tree, order.drop_last());
        lemma_sound(tree);
        assert(!tree.single(order.last()));
    }
}

/// Every node of a tree in order is visited from its root.
pub proof fn lemma_visits_all(tree: TreeModel, order: Seq<NodeId>, id: NodeId, rank: Map<NodeId, nat>)
    requires
        tree.forest(),
        tree.connected(),
        tree.ranked(rank),
        tree.root is Some,
        visits(tree.nodes, seq![tree.root->0], order),
        tree.has(id),
    ensures
        order.contains(id),
    decreases rank[id],
{
    match tree.parent(id) {
        None => {
            lemma_visits_pending(tree.nodes, seq![tree.root->0], order);
            assert(seq![tree.root->0][0] == id);
        },
        Some(parent) => {
            assert(tree.has(parent) && tree.children(parent).contains(id));
            lemma_visits_all(tree, order, parent, rank);
            let i = order.index_of(parent);
            let child = tree.children(parent).index_of(id);
            lemma_visits_children(tree.nodes, seq![tree.root->0], order, i, child);
            let k = order.skip(i + 1).index_of(id);
            assert(order[i + 1 + k] == id);
        },
    }
}

/// What is visited are nodes of the tree.
proof fn lemma_visited_has(nodes: Map<NodeId, NodeModel>, pending: Seq<NodeId>, order: Seq<NodeId>, i: int)
    requires
        visits(nodes, pending, order),
        0 <= i < order.len(),
    ensures
        nodes.contains_key(order[i]),
    decreases order.len(),
{
    if i > 0 {
        lemma_visited_has(nodes, nodes[pending[0]].children + pending.skip(1), order.skip(1), i - 1);
    }
}

/// The tiles among the visited nodes are those that the tree shows.
pub proof fn lemma_visited_tiles(tree: TreeModel, order: Seq<NodeId>, strip: Strip)
    requires
        tree.settled(),
        tree.shows_strip(strip),
        tree.root is Some,
        visits(tree.nodes, seq![tree.root->0], order),
    ensures
        forall|tile: u64| #[trigger] tree.tile_keys(order).contains(tile) <==> strip.contains(tile),
{
    lemma_sound(tree);
    let rank = choose|rank: Map<NodeId, nat>| tree.ranked(rank);
    assert forall|tile: u64| #[trigger] tree.tile_keys(order).contains(tile) <==> strip.contains(
        tile,
    ) by {
        assert(strip.contains(tile) <==> tree.shows_tile(tile));
        if tree.tile_keys(order).contains(tile) {
            lemma_tile_keys(tree, order, tile);
            let i = choose|i: int|
                0 <= i < order.len() && tree.key(#[trigger] order[i]) == tile && tree.data(
                    order[i],
                ).is_tile();
            lemma_visited_has(tree.nodes, seq![tree.root->0], order, i);
            assert(tree.has(order[i]));
        }
        if tree.shows_tile(tile) {
            let id = choose|id: NodeId| #[trigger]
                tree.has(id) && tree.key(id) == tile && tree.data(id) is Mapped;
            lemma_visits_all(tree, order, id, rank);
            let i = order.index_of(id);
            lemma_tile_keyed(tree, order, i);
        }
    }
}

/// Switching to the tree layout leaves the strip as it is, and the windows where the strip
/// would look for them.
proof fn lemma_switch_to_classic(
    layout: LayoutView,
    after: LayoutView,
    changes: Seq<ResizingChange>,
    configures: Seq<Configure>,
)
    requires
        layout.ready(),
        layout.newest().shows_strip(layout.scroll.strip),
        layout.switches(after, TilingEngine::Classic, changes, configures),
    ensures
        after.scroll == layout.scroll,
        after.newest().shows_strip(layout.scroll.strip),
        after.newest().settled(),
{
    let engine = TilingEngine::Classic;
    let strip = layout.scroll.strip;
    let (copy, tree, placed, grabbed) = choose|
        copy: TreeModel,
        tree: TreeModel,
        placed: TreeModel,
        grabbed: Option<u64>,
    |
        layout.newest().copied(copy) && #[trigger] copy.tidied(tree, grabbed)
            && #[trigger] layout.with_engine(engine, grabbed).positioned(
            after.scroll,
            tree,
            placed,
            configures,
            None,
        ) && changes == (match layout.live {
            Some(live) => copy.resizing_changes(live.tiles, false),
            None => seq![],
        }) && barriers(after.queue.trees, placed, blockers_of(layout.queue.trees)) && after == (
        LayoutView {
            queue: QueueView {
                trees: after.queue.trees,
                animation_start: None,
                retired: layout.queue.retired,
            },
            scroll: after.scroll,
            ..layout.with_engine(engine, grabbed)
        });
    lemma_copy_shows(layout.newest(), copy, strip);
    lemma_tidied_shows(copy, tree, grabbed, strip);
    if tree.root is Some {
        let (before, order) = choose|before: Seq<NodeId>, order: Seq<NodeId>| #[trigger]
            tree.arranged(placed, before, order, layout.usable, layout.gaps) && configures
                == placed.configures(order);
        lemma_flat_already(tree, before);
        assert(tree.same_sorts(placed));
        lemma_same_sorts(tree, placed, strip);
    }
    let last = after.queue.trees.len() - 1;
    assert(placed.copied(after.queue.trees[last].tree));
    lemma_copy_shows(placed, after.newest(), strip);
}

/// Clearing a tree of a drag that there is not changes nothing of its tiles.
proof fn lemma_tidied_shows(copy: TreeModel, tree: TreeModel, grabbed: Option<u64>, strip: Strip)
    requires
        copy.settled(),
        copy.shows_strip(strip),
        copy.tidied(tree, grabbed),
    ensures
        tree.settled(),
        tree.shows_strip(strip),
{
    if copy.root is Some {
        let root = copy.root->0;
        let order = choose|order: Seq<NodeId>| #[trigger]
            visits(copy.nodes, seq![root], order) && tree == copy.swept(order, false) && grabbed
                == copy.grabbed_among(order);
        lemma_swept_sorts(copy, order);
        lemma_same_sorts(copy, tree, strip);
    }
}

/// Leaving the scrolling layout and coming back to it gives the same columns, with the same
/// tiles and widths in the same order.
pub proof fn law_coming_back_finds_the_same_columns(
    layout: LayoutView,
    classic: LayoutView,
    back: LayoutView,
    changes: Seq<ResizingChange>,
    configures: Seq<Configure>,
    more_changes: Seq<ResizingChange>,
    more_configures: Seq<Configure>,
)
    requires
        layout.ready(),
        layout.scroll.strip.tidy(),
        layout.newest().shows_strip(layout.scroll.strip),
        layout.switches(classic, TilingEngine::Classic, changes, configures),
        classic.switches(back, TilingEngine::Scrolling, more_changes, more_configures),
    ensures
        classic.scroll == layout.scroll,
        back.scroll.strip.columns == layout.scroll.strip.columns,
{
    let engine = TilingEngine::Scrolling;
    let strip = layout.scroll.strip;
    lemma_switch_to_classic(layout, classic, changes, configures);
    let (copy, tree, placed, grabbed) = choose|
        copy: TreeModel,
        tree: TreeModel,
        placed: TreeModel,
        grabbed: Option<u64>,
    |
        classic.newest().copied(copy) && #[trigger] copy.tidied(tree, grabbed)
            && #[trigger] classic.with_engine(engine, grabbed).positioned(
            back.scroll,
            tree,
            placed,
            more_configures,
            None,
        ) && more_changes == (match classic.live {
            Some(live) => copy.resizing_changes(live.tiles, false),
            None => seq![],
        }) && barriers(back.queue.trees, placed, blockers_of(classic.queue.trees)) && back == (
        LayoutView {
            queue: QueueView {
                trees: back.queue.trees,
                animation_start: None,
                retired: classic.queue.retired,
            },
            scroll: back.scroll,
            ..classic.with_engine(engine, grabbed)
        });
    lemma_copy_shows(classic.newest(), copy, strip);
    lemma_tidied_shows(copy, tree, grabbed, strip);
    if tree.root is None {
        assert forall|tile: u64| #[trigger] Seq::<u64>::empty().contains(tile) <==> strip.contains(
            tile,
        ) by {
            assert(strip.contains(tile) <==> tree.shows_tile(tile));
            assert(tree.regular()) by {
                lemma_sound(tree);
            }
            lemma_empty(tree);
        }
        law_reconciliation_keeps_known_columns(strip, Seq::empty());
    } else {
        let order = choose|order: Seq<NodeId>| #[trigger]
            classic.scroll.arranged_over(
                back.scroll,
                tree,
                placed,
                more_configures,
                order,
                classic.usable,
                classic.gaps,
                None,
                false,
                None,
            );
        lemma_visited_tiles(tree, order, strip);
        law_update_keeps_known_columns(
            strip,
            classic.scroll.pending_center,
            tree.tile_keys(order),
            tree.first_active(order),
            viewport_area(classic.usable, classic.gaps),
            if classic.gaps.1 > 0 {
                classic.gaps.1 as int
            } else {
                0
            },
            None,
            false,
            false,
        );
    }
}

/// A geometry update with the tiles that are on the strip already leaves the columns as they
/// are, whatever it does to the viewport.
pub proof fn law_update_keeps_known_columns(
    strip: Strip,
    pending_center: Option<u64>,
    tiles: Seq<u64>,
    activated: Option<u64>,
    viewport: Rectangle,
    gap: int,
    requested: Option<u64>,
    preserve: bool,
    live: bool,
)
    requires
        strip.tidy(),
        forall|tile: u64| #[trigger] tiles.contains(tile) <==> strip.contains(tile),
    ensures
        strip.updated(
            pending_center,
            tiles,
            activated,
            viewport,
            gap,
            requested,
            preserve,
            live,
        ).columns == strip.columns,
{
    law_reconciliation_keeps_known_columns(strip, tiles);
}

/// However time passes, the layout still ends up at its newest tree.
pub proof fn law_time_leads_to_the_newest_tree(
    queue: QueueView,
    after: QueueView,
    waits: Seq<WaitState>,
    now: u64,
)
    requires
        queue.wf(),
        waits.len() + 1 == queue.trees.len(),
        queue.advanced(after, waits, now),
    ensures
        0 < after.trees.len() <= queue.trees.len(),
        queue.newest().same_keys(after.newest()),
        after.retired == queue.retired,
{
    let ready = ready_trees(queue.trees, waits, 1) as int;
    lemma_ready_trees(queue.trees, waits, 1);
    if queue.animation_start is Some && queue.arrived(now) {
        let next = choose|next: QueueView| #[trigger]
            queue.stepped(next) && after == next.started(ready - 1, now);
        lemma_shape_same_keys(queue.trees[1].tree, next.trees[0].tree);
        if next.trees.len() > 1 {
            assert(next.trees[next.trees.len() - 1] == queue.trees[queue.trees.len() - 1]);
        }
        assert(queue.newest().same_keys(next.newest()));
        lemma_started_newest(next, ready - 1, now);
    } else if queue.animation_start is None {
        lemma_started_newest(queue, ready, now);
    }
}

/// Setting off to one of the next trees leaves the last one the last.
proof fn lemma_started_newest(queue: QueueView, ready: int, now: u64)
    requires
        queue.trees.len() > 0,
        ready < queue.trees.len(),
    ensures
        0 < queue.started(ready, now).trees.len() <= queue.trees.len(),
        queue.started(ready, now).newest() == queue.newest(),
{
    if ready > 0 {
        let rest = queue.trees.skip(ready + 1);
        let after = queue.started(ready, now).trees;
        if ready + 1 < queue.trees.len() {
            assert(after[after.len() - 1] == rest[rest.len() - 1]);
        } else {
            assert(after[1].tree == queue.trees[ready].tree);
        }
    }
}

/// The focus only moves to windows, never to the place that is kept for a dragged one.
pub proof fn law_focus_moves_to_windows(
    strip: Strip,
    tree: TreeModel,
    tile: u64,
    direction: FocusDirection,
)
    ensures
        match strip.navigated(tree, tile, direction) {
            FocusNavigation::Target(target) => strip.contains(tile) && tree.shows_window(target),
            FocusNavigation::Edge => strip.contains(tile),
            FocusNavigation::Unavailable => true,
        },
{
}

/// An update that keeps the viewport leaves it where it is during a resize, and where the
/// strip put it. One that the user positioned it moves no further than to keep it on the strip.
pub proof fn law_kept_viewport_stays_on_the_strip(
    strip: Strip,
    pending_center: Option<u64>,
    tiles: Seq<u64>,
    activated: Option<u64>,
    viewport: Rectangle,
    gap: int,
    requested: Option<u64>,
)
    requires
        strip.updated(
            pending_center,
            tiles,
            activated,
            viewport,
            gap,
            requested,
            true,
            true,
        ).measurable(),
        strip.updated(
            pending_center,
            tiles,
            activated,
            viewport,
            gap,
            requested,
            true,
            true,
        ).columns.len() > 0,
    ensures
        ({
            let resizing = strip.updated(
                pending_center,
                tiles,
                activated,
                viewport,
                gap,
                requested,
                true,
                true,
            );
            let kept = strip.updated(
                pending_center,
                tiles,
                activated,
                viewport,
                gap,
                requested,
                true,
                false,
            );
            &&& resizing.viewport_x == strip.viewport_x
            &&& strip.user_positioned_viewport ==> kept == resizing.clamped() && kept.clamped()
                == kept
            &&& !strip.user_positioned_viewport ==> kept == resizing
        }),
{
    law_viewport_stays_on_the_strip(
        strip.updated(pending_center, tiles, activated, viewport, gap, requested, true, true),
    );
}

/// The first tile with an area is on the strip and has an area.
proof fn lemma_first_shown(strip: Strip, tree: TreeModel, tiles: Seq<u64>, start: int)
    ensures
        strip.first_shown(tree, tiles, start) matches Some(tile) ==> strip.contains(tile)
            && tree.tile_geometry(tile) is Some,
    decreases tiles.len() - start,
{
    if 0 <= start < tiles.len() {
        lemma_first_shown(strip, tree, tiles, start + 1);
    }
}

/// Reading the viewport back from the tree that the strip was brought into finds it where it
/// was, give or take half a pixel, and changes nothing else of the strip.
pub proof fn law_viewport_is_read_back(
    tree: TreeModel,
    placed: TreeModel,
    strip: Strip,
    origin: Point,
)
    requires
        tree.keyed(),
        tree.scrolled(placed, strip, origin),
        forall|tile: u64| #[trigger]
            strip.contains(tile) ==> tree.has_key(tile) && tree.data(
                tree.node_keyed(tile),
            ).is_tile(),
        forall|column: int|
            0 <= column < strip.columns.len() ==> i32::MIN <= round_ratio(
                SUBPIXEL * origin.x + #[trigger] strip.left_edge(column) - strip.viewport_x,
                SUBPIXEL as int,
            ) <= i32::MAX,
    ensures
        ({
            let back = strip.synced(placed, origin.x);
            &&& back == (Strip { viewport_x: back.viewport_x, ..strip })
            &&& strip.viewport_x - HALF_PIXEL <= back.viewport_x <= strip.viewport_x + HALF_PIXEL
        }),
{
    lemma_first_shown(strip, placed, strip.tiles(), 0);
    match strip.viewport_anchor(placed) {
        Some(tile) => {
            let (column, row) = strip.position(tile)->0;
            lemma_find_from(strip.columns, tile, 0);
            let id = placed.node_keyed(tile);
            assert(placed.has_key(tile));
            assert(placed.has(id) && placed.key(id) == tile);
            assert(placed.nodes.dom().contains(id));
            assert(tree.has(id) && tree.key(id) == tile);
            lemma_node_keyed(tree, id);
            assert(strip.contains(tile));
            assert(tree.data(id).is_tile());
            assert(placed.data(id) == tree.data(id).placed(strip.tile_area(tile, origin)));
            let at = SUBPIXEL * origin.x + strip.left_edge(column) - strip.viewport_x;
            lemma_round_ratio(at, SUBPIXEL as int);
            assert(placed.tile_geometry(tile)->0.loc.x == round_ratio(at, SUBPIXEL as int));
        },
        None => {},
    }
}

/// A tile that was visited is in the tree that the strip was brought into.
proof fn lemma_tile_is_placed(
    tree: TreeModel,
    placed: TreeModel,
    strip: Strip,
    origin: Point,
    order: Seq<NodeId>,
    tile: u64,
)
    requires
        tree.keyed(),
        tree.scrolled(placed, strip, origin),
        visits(tree.nodes, seq![tree.root->0], order),
        tree.tile_keys(order).contains(tile),
    ensures
        tree.has_key(tile),
        tree.data(tree.node_keyed(tile)).is_tile(),
        placed.tile_geometry(tile) is Some,
{
    lemma_tile_keys(tree, order, tile);
    let i = choose|i: int|
        0 <= i < order.len() && tree.key(#[trigger] order[i]) == tile && tree.data(
            order[i],
        ).is_tile();
    lemma_visited_has(tree.nodes, seq![tree.root->0], order, i);
    let id = order[i];
    assert(tree.has(id));
    lemma_node_keyed(tree, id);
    assert(placed.nodes.dom().contains(id));
    assert(placed.has(id));
    assert(placed.key(id) == tile);
    assert(placed.has_key(tile));
    let found = placed.node_keyed(tile);
    assert(placed.has(found) && placed.key(found) == tile);
    assert(placed.nodes.dom().contains(found) && tree.has(found) && tree.key(found) == tile);
    lemma_node_keyed(tree, found);
    assert(placed.data(id) == tree.scrolled_data(placed, id, strip, origin));
}

/// What the strip was brought into is enough to find the viewport again: after a geometry update
/// with any tile, reading the viewport back succeeds, finds it where the update left it, give or
/// take half a pixel, and changes nothing else of the strip.
pub proof fn law_updated_viewport_is_read_back(
    scroll: ScrollView,
    after: ScrollView,
    tree: TreeModel,
    placed: TreeModel,
    configures: Seq<Configure>,
    usable: Rectangle,
    gaps: (i32, i32),
    requested: Option<u64>,
    preserve: bool,
    live: Option<LiveResize>,
)
    requires
        tree.keyed(),
        scroll.arranged(
            after,
            tree,
            placed,
            configures,
            usable,
            gaps,
            requested,
            preserve,
            live,
        ),
        after.strip.columns.len() > 0,
        forall|column: int|
            0 <= column < after.strip.columns.len() ==> i32::MIN <= round_ratio(
                SUBPIXEL * viewport_area(usable, gaps).loc.x
                    + #[trigger] after.strip.left_edge(column) - after.strip.viewport_x,
                SUBPIXEL as int,
            ) <= i32::MAX,
    ensures
        ({
            let strip = after.strip;
            let back = strip.synced(placed, viewport_area(usable, gaps).loc.x);
            &&& strip.viewport_anchor(placed) is Some
            &&& back == (Strip { viewport_x: back.viewport_x, ..strip })
            &&& strip.viewport_x - HALF_PIXEL <= back.viewport_x <= strip.viewport_x + HALF_PIXEL
        }),
{
    let strip = after.strip;
    let origin = viewport_area(usable, gaps).loc;
    lemma_arranged_tiles(
        scroll,
        after,
        tree,
        placed,
        configures,
        usable,
        gaps,
        requested,
        preserve,
        live,
    );
    law_viewport_is_read_back(tree, placed, strip, origin);
    lemma_anchor_found(strip, placed);
}

/// Where all tiles of the strip are in the tree, one of them shows where the viewport is.
proof fn lemma_anchor_found(strip: Strip, placed: TreeModel)
    requires
        strip.tidy(),
        strip.columns.len() > 0,
        forall|tile: u64| #[trigger]
            strip.contains(tile) ==> placed.tile_geometry(tile) is Some,
    ensures
        strip.viewport_anchor(placed) is Some,
{
    assert(strip.columns[0].tiles.len() > 0);
    let first = strip.columns[0].tiles[0];
    lemma_position_unique(strip, 0, 0);
    assert(strip.contains(first));
    lemma_contains_tiles(strip, first);
    let all = strip.tiles();
    assert(all.len() > 0);
    assert(all.contains(all[0]));
    lemma_contains_tiles(strip, all[0]);
    assert(strip.contains(all[0]));
}

/// A geometry update leaves the columns that the tiles bring.
proof fn lemma_updated_columns(
    strip: Strip,
    pending_center: Option<u64>,
    tiles: Seq<u64>,
    activated: Option<u64>,
    viewport: Rectangle,
    gap: int,
    requested: Option<u64>,
    preserve: bool,
    live: bool,
)
    ensures
        strip.updated(
            pending_center,
            tiles,
            activated,
            viewport,
            gap,
            requested,
            preserve,
            live,
        ).columns == strip.reconciled(tiles).columns,
{
}

/// After a geometry update every tile of the strip is in the tree, before and after.
#[verifier::rlimit(40)]
#[verifier::spinoff_prover]
proof fn lemma_arranged_tiles(
    scroll: ScrollView,
    after: ScrollView,
    tree: TreeModel,
    placed: TreeModel,
    configures: Seq<Configure>,
    usable: Rectangle,
    gaps: (i32, i32),
    requested: Option<u64>,
    preserve: bool,
    live: Option<LiveResize>,
)
    requires
        tree.keyed(),
        scroll.arranged(
            after,
            tree,
            placed,
            configures,
            usable,
            gaps,
            requested,
            preserve,
            live,
        ),
        after.strip.columns.len() > 0,
    ensures
        after.strip.tidy(),
        tree.scrolled(placed, after.strip, viewport_area(usable, gaps).loc),
        forall|tile: u64| #[trigger]
            after.strip.contains(tile) ==> tree.has_key(tile) && tree.data(
                tree.node_keyed(tile),
            ).is_tile() && placed.tile_geometry(tile) is Some,
{
    let strip = after.strip;
    if tree.root is None {
        let none: Seq<u64> = seq![];
        law_reconciled(scroll.strip, none);
        assert(Seq::<u64>::empty() =~= none);
        assert(strip.columns[0].tiles.len() > 0);
        let first = strip.columns[0].tiles[0];
        lemma_position_unique(strip, 0, 0);
        assert(strip.contains(first) <==> none.contains(first));
        assert(false);
    }
    let order = choose|order: Seq<NodeId>| #[trigger]
        scroll.arranged_over(
            after,
            tree,
            placed,
            configures,
            order,
            usable,
            gaps,
            requested,
            preserve,
            live,
        );
    let tiles = tree.tile_keys(order);
    let known = scroll.strip.reconciled(tiles);
    law_reconciled(scroll.strip, tiles);
    lemma_updated_columns(
        scroll.strip,
        scroll.pending_center,
        tiles,
        tree.first_active(order),
        viewport_area(usable, gaps),
        if gaps.1 > 0 {
            gaps.1 as int
        } else {
            0
        },
        requested,
        preserve,
        live is Some,
    );
    assert(strip.columns == known.columns);
    assert(strip.tiles() == known.tiles());
    assert forall|tile: u64| #[trigger] strip.contains(tile) implies tree.has_key(tile)
        && tree.data(tree.node_keyed(tile)).is_tile() && placed.tile_geometry(tile) is Some by {
        assert(known.contains(tile) <==> tiles.contains(tile));
        lemma_tile_is_placed(tree, placed, strip, viewport_area(usable, gaps).loc, order, tile);
    }
}

} // verus!
