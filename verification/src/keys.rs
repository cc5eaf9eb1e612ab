//! The keys of nodes. Every node that is made gets one that no other node has.

use vstd::prelude::*;

use id_tree::NodeId;

use crate::copies::law_copies_are_alike;
use crate::queue::{EasedArea, QueueView};
use crate::tree::TreeModel;

verus! {

/// Hands out keys, none of them twice.
#[derive(Debug)]
pub struct KeySource {
    /// The next key.
    pub next: u64,
}

impl KeySource {
    /// A source that handed out no key yet.
    pub fn new() -> (keys: KeySource)
        ensures
            keys.next == 0,
    {
        KeySource { next: 0 }
    }

    /// A new key.
    pub fn take(&mut self) -> (key: u64)
        requires
            old(self).next < u64::MAX,
        ensures
            key == old(self).next,
            final(self).next == old(self).next + 1,
    {
        let key: u64 = self.next;
        self.next = key + 1;
        key
    }
}

impl TreeModel {
    /// Whether all keys are below a bound.
    pub open spec fn keys_below(self, bound: u64) -> bool {
        forall|key: u64| #[trigger] self.has_key(key) ==> key < bound
    }
}

/// A tree of the same shape has the same keys.
pub proof fn lemma_shape_keys(tree: TreeModel, other: TreeModel)
    requires
        tree.same_shape(other),
    ensures
        forall|key: u64| #[trigger] other.has_key(key) ==> tree.has_key(key),
{
    assert forall|key: u64| #[trigger] other.has_key(key) implies tree.has_key(key) by {
        let node = choose|node: NodeId| other.has(node) && #[trigger] other.key(node) == key;
        assert(other.has(node));
        assert(tree.has(node) && tree.key(node) == key);
    }
}

impl QueueView {
    /// Whether all keys of all trees are below a bound.
    pub open spec fn keys_below(self, bound: u64) -> bool {
        forall|i: int|
            0 <= i < self.trees.len() ==> (#[trigger] self.trees[i]).tree.keys_below(bound)
    }
}

/// Where a stop leads has no other keys.
pub proof fn lemma_stopped_keys(queue: QueueView, visual: TreeModel, eased: Seq<EasedArea>, bound: u64)
    requires
        queue.wf(),
        queue.keys_below(bound),
        queue.stops_at(visual, eased),
    ensures
        visual.keys_below(bound),
{
    if queue.awaiting() {
        let copy = choose|copy: TreeModel| #[trigger]
            queue.trees[1].tree.copied(copy) && copy.held_as(visual, queue.trees[0].tree);
        assert(queue.trees[1].tree.keys_below(bound));
        law_copies_are_alike(queue.trees[1].tree, copy);
        lemma_shape_keys(copy, visual);
    } else if queue.moving() {
        let copy = choose|copy: TreeModel| #[trigger]
            queue.trees[1].tree.copied(copy) && copy.eased_as(visual, eased);
        assert(queue.trees[1].tree.keys_below(bound));
        law_copies_are_alike(queue.trees[1].tree, copy);
        lemma_shape_keys(copy, visual);
    } else {
        assert(queue.trees[0].tree.keys_below(bound));
        law_copies_are_alike(queue.trees[0].tree, visual);
    }
}

/// A queue that was stopped has no other keys.
pub proof fn lemma_interrupted_keys(
    queue: QueueView,
    after: QueueView,
    visual: TreeModel,
    eased: Seq<EasedArea>,
    bound: u64,
)
    requires
        queue.wf(),
        queue.keys_below(bound),
        queue.interrupted(after, visual, eased),
    ensures
        after.keys_below(bound),
        visual.keys_below(bound),
{
    lemma_stopped_keys(queue, visual, eased, bound);
    law_copies_are_alike(visual, after.trees[0].tree);
}

/// A queue on the way to a tree has no other keys than before and those of the tree.
pub proof fn lemma_retargeted_keys(
    queue: QueueView,
    after: QueueView,
    tree: TreeModel,
    duration: u64,
    blocker: Option<u64>,
    eased: Seq<EasedArea>,
    bound: u64,
)
    requires
        queue.wf(),
        queue.keys_below(bound),
        tree.keys_below(bound),
        queue.retargeted(after, tree, duration, blocker, eased),
    ensures
        after.keys_below(bound),
{
    if queue.animation_start is Some || queue.trees.len() > 1 {
        let (stopped, visual, target) = choose|stopped: QueueView, visual: TreeModel, target: TreeModel|
            #[trigger] queue.interrupted(stopped, visual, eased) && #[trigger] tree.unminimized(target)
                && after == stopped.headed(target, duration, blocker);
        lemma_interrupted_keys(queue, stopped, visual, eased, bound);
        lemma_shape_keys(tree, target);
        assert(after.trees =~= stopped.trees.push(after.trees.last()));
        assert forall|i: int| 0 <= i < after.trees.len() implies (
        #[trigger] after.trees[i]).tree.keys_below(bound) by {
            if i < stopped.trees.len() {
                assert(after.trees[i] == stopped.trees[i]);
            }
        }
    } else {
        lemma_pushed_keys(queue, tree, duration, blocker, bound);
    }
}

/// A queue with another tree has no other keys than before and those of the tree.
pub proof fn lemma_pushed_keys(
    queue: QueueView,
    tree: TreeModel,
    duration: u64,
    blocker: Option<u64>,
    bound: u64,
)
    requires
        queue.wf(),
        queue.keys_below(bound),
        tree.keys_below(bound),
    ensures
        queue.pushed(tree, duration, blocker).keys_below(bound),
        queue.headed(tree, duration, blocker).keys_below(bound),
        queue.pushed_direct(tree, blocker).keys_below(bound),
{
    let after = queue.pushed(tree, duration, blocker);
    let headed = queue.headed(tree, duration, blocker);
    let direct = queue.pushed_direct(tree, blocker);
    assert forall|i: int| 0 <= i < after.trees.len() implies (
    #[trigger] after.trees[i]).tree.keys_below(bound) by {
        if i < queue.trees.len() {
            assert(after.trees[i] == queue.trees[i]);
        }
    }
    assert forall|i: int| 0 <= i < headed.trees.len() implies (
    #[trigger] headed.trees[i]).tree.keys_below(bound) by {
        if i < queue.trees.len() {
            assert(headed.trees[i] == queue.trees[i]);
        }
    }
    assert forall|i: int| 0 <= i < direct.trees.len() implies (
    #[trigger] direct.trees[i]).tree.keys_below(bound) by {
        if i < queue.trees.len() && direct.trees[i] != queue.trees[i] {
            assert(direct.trees[i].tree == tree);
        } else if i < queue.trees.len() {
            assert(queue.trees[i].tree.keys_below(bound));
        }
    }
}

} // verus!
