//! What holds of a tree before and after two of its nodes were exchanged.

use vstd::prelude::*;

use id_tree::NodeId;

use crate::balance::lemma_sound;
use crate::classic::Configure;
use crate::config::TilingEngine;
use crate::copies::law_copies_are_alike;
use crate::geometry::Rectangle;
use crate::layout::{placed_in, LayoutView};
use crate::layout_laws::lemma_flat_already;
use crate::lineage::lemma_below_self;
use crate::placement::viewport_area;
use crate::queue::{EasedArea, QueueView, ANIMATION_DURATION};
use crate::scrolling::ScrollView;
use crate::tree::TreeModel;
use crate::tree_laws::law_exchanging_twice_changes_nothing;
use crate::twins::{
    lemma_copy_twin, lemma_exchanged_twin, lemma_shape_twin, lemma_shape_twinned, lemma_twin_below,
    lemma_twin_chain, lemma_twin_keyed,
};

verus! {

/// Laying a tree out does not change its shape.
proof fn lemma_placed_shape(
    tree: TreeModel,
    placed: TreeModel,
    configures: Seq<Configure>,
    usable: Rectangle,
    gaps: (i32, i32),
)
    requires
        tree.settled(),
        placed_in(tree, placed, configures, usable, gaps),
    ensures
        tree.same_shape(placed),
{
    if tree.root is Some {
        let (before, order) = choose|before: Seq<NodeId>, order: Seq<NodeId>| #[trigger]
            tree.arranged(placed, before, order, usable, gaps) && configures == placed.configures(
                order,
            );
        lemma_flat_already(tree, before);
    }
}

/// Bringing the strip into a tree does not change its shape.
#[verifier::rlimit(40)]
#[verifier::spinoff_prover]
proof fn lemma_scrolled_shape(
    scroll: ScrollView,
    after: ScrollView,
    tree: TreeModel,
    placed: TreeModel,
    configures: Seq<Configure>,
    usable: Rectangle,
    gaps: (i32, i32),
    requested: Option<u64>,
)
    requires
        scroll.arranged(
            after,
            tree,
            placed,
            configures,
            usable,
            gaps,
            requested,
            false,
            None,
        ),
    ensures
        tree.same_shape(placed),
{
    if tree.root is Some {
        let order = choose|order: Seq<NodeId>| #[trigger]
            scroll.arranged_over(
                after,
                tree,
                placed,
                configures,
                order,
                usable,
                gaps,
                requested,
                false,
                None,
            );
        assert(tree.scrolled(placed, after.strip, viewport_area(usable, gaps).loc));
    }
}

/// The newest tree of a retargeted queue has the shape of the tree that it is on the way to.
proof fn lemma_retargeted_shape(
    queue: QueueView,
    after: QueueView,
    tree: TreeModel,
    duration: u64,
    eased: Seq<EasedArea>,
)
    requires
        queue.retargeted(after, tree, duration, None, eased),
    ensures
        tree.same_shape(after.newest()),
{
    if queue.animation_start is Some || queue.trees.len() > 1 {
        let (stopped, visual, target) = choose|
            stopped: QueueView,
            visual: TreeModel,
            target: TreeModel,
        | #[trigger]
            queue.interrupted(stopped, visual, eased) && #[trigger] tree.unminimized(target)
                && after == stopped.headed(target, duration, None);
        assert(after.newest() == target);
    } else {
        assert(after.newest() == tree);
    }
}

/// The newest tree has the shape of the tree that the layout was sent to.
pub proof fn lemma_committed_shape(
    layout: LayoutView,
    after: LayoutView,
    tree: TreeModel,
    duration: u64,
    eased: Seq<EasedArea>,
    configures: Seq<Configure>,
    requested: Option<u64>,
)
    requires
        tree.settled(),
        layout.committed(after, tree, duration, eased, configures, requested),
    ensures
        tree.same_shape(after.newest()),
{
    let placed = choose|placed: TreeModel| #[trigger]
        layout.positioned(after.scroll, tree, placed, configures, requested) && layout.heads_for(
            after.queue,
            placed,
            duration,
            eased,
        ) && after == (LayoutView { queue: after.queue, scroll: after.scroll, ..layout });
    match layout.engine {
        TilingEngine::Classic => {
            lemma_placed_shape(tree, placed, configures, layout.usable, layout.gaps);
            assert(after.newest() == placed);
        },
        TilingEngine::Scrolling => {
            lemma_scrolled_shape(
                layout.scroll,
                after.scroll,
                tree,
                placed,
                configures,
                layout.usable,
                layout.gaps,
                requested,
            );
            lemma_retargeted_shape(layout.queue, after.queue, placed, duration, eased);
            assert forall|id: NodeId| #[trigger] after.newest().has(id) implies tree.parent(id)
                == after.newest().parent(id) && tree.children(id) == after.newest().children(id)
                && tree.key(id) == after.newest().key(id) by {
                assert(after.newest().nodes.dom().contains(id));
                assert(placed.has(id));
            }
        },
    }
}

/// Exchanging two nodes in the newest tree puts each, with all below it, in the place that the
/// other had, and leaves every other node where it was.
pub proof fn law_exchange_moves_just_the_two(
    layout: LayoutView,
    after: LayoutView,
    node: u64,
    other_node: u64,
    eased: Seq<EasedArea>,
    configures: Seq<Configure>,
)
    requires
        layout.ready(),
        layout.swaps(after, node, other_node, eased, configures),
    ensures
        ({
            let before = layout.newest();
            &&& before.swappable(node, other_node)
            &&& before.swapped(node, other_node).mirrored(after.newest())
        }),
{
    let before = layout.newest();
    let copy = choose|copy: TreeModel| #[trigger]
        before.copied(copy) && copy.swappable(node, other_node) && copy.swapped(
            node,
            other_node,
        ).settled() && layout.committed(
            after,
            copy.swapped(node, other_node),
            ANIMATION_DURATION,
            eased,
            configures,
            None,
        );
    lemma_newest(layout);
    law_copies_are_alike(before, copy);
    lemma_copy_twin(before, copy);
    let ids = choose|ids: Map<NodeId, NodeId>| #[trigger]
        before.renamed(copy, ids) && before.twinned(copy, ids);
    assert(before.has_key(node) && before.has_key(other_node));
    let first = before.node_keyed(node);
    let second = before.node_keyed(other_node);
    assert(before.has(first) && before.key(first) == node);
    assert(before.has(second) && before.key(second) == other_node);
    lemma_twin_keyed(before, copy, ids, first);
    lemma_twin_keyed(before, copy, ids, second);
    lemma_twin_below(before, copy, ids, first, second);
    lemma_twin_below(before, copy, ids, second, first);
    lemma_exchanged_twin(before, copy, ids, first, second);
    lemma_committed_shape(
        layout,
        after,
        copy.swapped(node, other_node),
        ANIMATION_DURATION,
        eased,
        configures,
        None,
    );
    lemma_shape_twin(
        before.swapped(node, other_node),
        copy.swapped(node, other_node),
        after.newest(),
        ids,
    );
}

/// The same nodes can be exchanged in a copy of a tree as in the tree.
pub proof fn lemma_copies_swap_alike(tree: TreeModel, copy: TreeModel, node: u64, other_node: u64)
    requires
        tree.settled(),
        tree.keyed(),
        tree.copied(copy),
    ensures
        copy.swappable(node, other_node) == tree.swappable(node, other_node),
        copy.has_key(node) == tree.has_key(node),
{
    lemma_sound(tree);
    law_copies_are_alike(tree, copy);
    lemma_copy_twin(tree, copy);
    let ids = choose|ids: Map<NodeId, NodeId>| #[trigger]
        tree.renamed(copy, ids) && tree.twinned(copy, ids);
    if tree.has_key(node) && tree.has_key(other_node) {
        let first = tree.node_keyed(node);
        let second = tree.node_keyed(other_node);
        assert(tree.has(first) && tree.key(first) == node);
        assert(tree.has(second) && tree.key(second) == other_node);
        lemma_twin_keyed(tree, copy, ids, first);
        lemma_twin_keyed(tree, copy, ids, second);
        lemma_twin_below(tree, copy, ids, first, second);
        lemma_twin_below(tree, copy, ids, second, first);
    }
}

/// No node is exchanged with itself.
pub proof fn law_nothing_is_exchanged_with_itself(tree: TreeModel, node: u64)
    ensures
        !tree.swappable(node, node),
{
    lemma_below_self(tree, tree.node_keyed(node));
}

/// The newest tree of a layout is in order.
proof fn lemma_newest(layout: LayoutView)
    requires
        layout.ready(),
    ensures
        layout.newest().settled(),
        layout.newest().keyed(),
        layout.newest().forest(),
{
    let last = layout.queue.trees.len() - 1;
    assert(layout.queue.trees[last].tree.settled());
    lemma_sound(layout.newest());
}

/// Exchanging the same two nodes again restores the shape of the newest tree: every node is in
/// its group and in its place there again.
pub proof fn law_exchanging_again_restores_the_tree(
    layout: LayoutView,
    once: LayoutView,
    twice: LayoutView,
    node: u64,
    other_node: u64,
    eased: Seq<EasedArea>,
    configures: Seq<Configure>,
    more_eased: Seq<EasedArea>,
    more_configures: Seq<Configure>,
)
    requires
        layout.ready(),
        once.ready(),
        layout.swaps(once, node, other_node, eased, configures),
        once.swaps(twice, node, other_node, more_eased, more_configures),
    ensures
        layout.newest().mirrored(twice.newest()),
{
    let before = layout.newest();
    let middle = once.newest();
    let after = twice.newest();
    let copy = choose|copy: TreeModel| #[trigger]
        before.copied(copy) && copy.swappable(node, other_node) && copy.swapped(
            node,
            other_node,
        ).settled() && layout.committed(
            once,
            copy.swapped(node, other_node),
            ANIMATION_DURATION,
            eased,
            configures,
            None,
        );
    let next = choose|next: TreeModel| #[trigger]
        middle.copied(next) && next.swappable(node, other_node) && next.swapped(
            node,
            other_node,
        ).settled() && once.committed(
            twice,
            next.swapped(node, other_node),
            ANIMATION_DURATION,
            more_eased,
            more_configures,
            None,
        );
    lemma_newest(layout);
    lemma_newest(once);
    law_copies_are_alike(before, copy);
    let swapped = copy.swapped(node, other_node);
    lemma_sound(copy);
    lemma_sound(swapped);
    lemma_committed_shape(layout, once, swapped, ANIMATION_DURATION, eased, configures, None);
    lemma_committed_shape(
        once,
        twice,
        next.swapped(node, other_node),
        ANIMATION_DURATION,
        more_eased,
        more_configures,
        None,
    );
    lemma_copy_twin(before, copy);
    lemma_copy_twin(middle, next);
    let there = choose|ids: Map<NodeId, NodeId>| #[trigger]
        before.renamed(copy, ids) && before.twinned(copy, ids);
    let back = choose|ids: Map<NodeId, NodeId>| #[trigger]
        middle.renamed(next, ids) && middle.twinned(next, ids);
    lemma_shape_twinned(swapped, middle, next, back);
    let first = copy.node_keyed(node);
    let second = copy.node_keyed(other_node);
    assert(copy.has(first) && copy.key(first) == node);
    assert(copy.has(second) && copy.key(second) == other_node);
    lemma_exchanged_keys(copy, first, second);
    assert(swapped.keyed()) by {
        assert forall|one: NodeId, two: NodeId|
            #![trigger swapped.key(one), swapped.key(two)]
            swapped.has(one) && swapped.has(two) && swapped.key(one) == swapped.key(two) implies one
            == two by {
            assert(swapped.nodes.dom().contains(one) && swapped.nodes.dom().contains(two));
            assert(middle.has(one) && middle.has(two));
            assert(middle.key(one) == middle.key(two));
        }
    }
    lemma_twin_keyed(swapped, next, back, first);
    lemma_twin_keyed(swapped, next, back, second);
    lemma_twin_below(swapped, next, back, first, second);
    lemma_twin_below(swapped, next, back, second, first);
    lemma_exchanged_twin(swapped, next, back, first, second);
    law_exchanging_twice_changes_nothing(copy, first, second);
    assert(copy.twinned(next.swapped(node, other_node), back));
    lemma_shape_twin(copy, next.swapped(node, other_node), after, back);
    let ids = lemma_twin_chain(before, copy, after, there, back);
    assert(before.twinned(after, ids));
}

/// Exchanging two nodes changes nothing of what nodes there are and of their keys.
proof fn lemma_exchanged_keys(tree: TreeModel, first: NodeId, second: NodeId)
    requires
        tree.forest(),
        tree.has(first),
        tree.has(second),
        !tree.below(first, second),
        !tree.below(second, first),
    ensures
        forall|id: NodeId| #[trigger]
            tree.exchanged(first, second).has(id) == tree.has(id) && tree.exchanged(
                first,
                second,
            ).key(id) == tree.key(id),
{
    lemma_below_self(tree, first);
    assert(tree.has(first) && tree.has(second));
    match (tree.parent(first), tree.parent(second)) {
        (Some(one), Some(other)) => {
            assert(tree.has(one) && tree.has(other));
        },
        _ => {},
    }
}

} // verus!
