//! Taking windows out of the tiling layout of a workspace.

use vstd::prelude::*;

use id_tree::Tree;

use crate::balance::lemma_sound;
use crate::classic::Configure;
use crate::copies::node_by_key;
use crate::drops::{lemma_alike_settled, remove_node};
use crate::geometry::Rectangle;
use crate::layout::{LayoutView, TilingLayout};
use crate::mapping::duration_for;
use crate::queue::{
    EasedArea, QueueView, QueuedTree, QueuedView, ANIMATION_DURATION, MINIMIZE_ANIMATION_DURATION,
};
use crate::reshape::{restore_state, RestoreTilingState};
use crate::surgery::lemma_keeps_keys;
use crate::tree::{get_node, get_node_mut, model, TreeModel, TreeNode};

verus! {

/// Why a window could not be taken out.
#[derive(Clone, Copy, Debug, PartialEq, Eq, Structural)]
pub enum UnmapError {
    /// It has no node.
    NodeIdNoLongerValid,
    /// Its node is not in the tree, or holds something else.
    InvalidNodeIdForTree,
}

impl TreeModel {
    /// Whether a window is in the node with this key.
    pub open spec fn has_window_at(self, key: u64, window: u64) -> bool {
        self.has_key(key) && self.data(self.node_keyed(key)).is_window(window)
    }

    /// The tree with a window that comes from another place, or goes there.
    pub open spec fn minimized_at(self, key: u64, rect: Rectangle) -> TreeModel {
        if self.has_key(key) {
            let id = self.node_keyed(key);
            self.with_data(id, self.data(id).with_minimize_rect(Some(rect)))
        } else {
            self
        }
    }
}

impl QueueView {
    /// The queue with a window of the last tree but one on its way to another place.
    pub open spec fn minimizing(self, key: u64, to: Rectangle) -> QueueView {
        let place = self.trees.len() - 2;
        QueueView {
            trees: self.trees.update(
                place,
                QueuedView {
                    tree: self.trees[place].tree.minimized_at(key, to),
                    ..self.trees[place]
                },
            ),
            ..self
        }
    }
}

impl LayoutView {
    /// Whether `after` is this layout without the node with this key.
    pub open spec fn unmaps(
        self,
        after: LayoutView,
        key: u64,
        minimizing: bool,
        eased: Seq<EasedArea>,
        configures: Seq<Configure>,
    ) -> bool {
        exists|copy: TreeModel| #[trigger]
            self.newest().copied(copy) && self.committed(
                after,
                copy.unmapped(copy.node_keyed(key)),
                duration_for(minimizing),
                eased,
                configures,
                None,
            )
    }

    /// Whether `after` is this layout without a window, which leaves towards `to`.
    pub open spec fn unmaps_to(
        self,
        after: LayoutView,
        key: u64,
        to: Option<Rectangle>,
        eased: Seq<EasedArea>,
        configures: Seq<Configure>,
    ) -> bool {
        exists|mid: LayoutView| #[trigger]
            self.unmaps(mid, key, to is Some, eased, configures) && after == match to {
                Some(to) => LayoutView { queue: mid.queue.minimizing(key, to), ..mid },
                None => mid,
            }
    }
}

/// A way to a tree adds one to the queue, or leaves two.
proof fn lemma_queue_grows(
    layout: LayoutView,
    after: LayoutView,
    tree: TreeModel,
    duration: u64,
    eased: Seq<EasedArea>,
    configures: Seq<Configure>,
    requested: Option<u64>,
)
    requires
        layout.queue.wf(),
        layout.committed(after, tree, duration, eased, configures, requested),
    ensures
        after.queue.trees.len() >= 2,
{
    let placed = choose|placed: TreeModel| #[trigger]
        layout.positioned(after.scroll, tree, placed, configures, requested) && layout.heads_for(
            after.queue,
            placed,
            duration,
            eased,
        ) && after == (LayoutView { queue: after.queue, scroll: after.scroll, ..layout });
    if layout.engine is Scrolling && (layout.queue.animation_start is Some
        || layout.queue.trees.len() > 1) {
        let (stopped, visual, target) = choose|stopped: QueueView, visual: TreeModel, target: TreeModel|
            #[trigger] layout.queue.interrupted(stopped, visual, eased)
                && #[trigger] placed.unminimized(target) && after.queue == stopped.headed(
                target,
                duration,
                None,
            );
        assert(after.queue.trees.len() == 2);
    }
}

impl TilingLayout {
    /// Takes a window out of its node. Returns nothing where the node does not hold it.
    pub fn unmap_window_internal(
        &mut self,
        window: u64,
        node: u64,
        minimizing: bool,
        eased: &Vec<EasedArea>,
    ) -> (result: Option<Vec<Configure>>)
        requires
            old(self)@.ready(),
        ensures
            match result {
                Some(configures) => old(self)@.newest().has_window_at(node, window) && old(
                    self,
                )@.unmaps(final(self)@, node, minimizing, eased@, configures@),
                None => !old(self)@.newest().has_window_at(node, window) && final(self)@ == old(
                    self,
                )@,
            },
            final(self)@.ready(),
            forall|bound: u64| #[trigger] old(self)@.wf(bound) ==> final(self)@.wf(bound),
    {
        let ghost before = self@;
        let here: bool = {
            let newest: &Tree<TreeNode> = self.tree();
            assert(model(*newest).regular()) by {
                lemma_sound(model(*newest));
            }
            match node_by_key(newest, node) {
                Some(id) => {
                    assert(model(*newest).has(id) && model(*newest).key(id) == node);
                    match get_node(newest, &id) {
                        Some(found) => found.data.is_mapped(Some(window)),
                        None => false,
                    }
                },
                None => false,
            }
        };
        if !here {
            return None;
        }
        let mut tree: Tree<TreeNode> = self.newest_copy();
        let ghost copy = model(tree);
        assert(copy.regular()) by {
            lemma_sound(copy);
        }
        assert(copy.has_key(node));
        match node_by_key(&tree, node) {
            Some(id) => {
                remove_node(&mut tree, &id);
            },
            None => {},
        }
        proof {
            lemma_keeps_keys(copy, model(tree));
            assert(model(tree).sound()) by {
                lemma_sound(model(tree));
            }
        }
        let duration: u64 = if minimizing {
            MINIMIZE_ANIMATION_DURATION
        } else {
            ANIMATION_DURATION
        };
        let configures: Vec<Configure> = self.commit(tree, duration, eased, None);
        assert(before.newest().copied(copy));
        Some(configures)
    }
}

/// What is remembered of a window that was taken out, and what the others have to be asked to
/// do.
#[derive(Debug)]
pub struct Unmapped {
    pub state: Option<RestoreTilingState>,
    pub configures: Vec<Configure>,
}

/// The same data of a window with another place to come from leave a tree in order.
pub proof fn lemma_minimized(tree: TreeModel, key: u64, rect: Rectangle)
    requires
        tree.settled(),
        tree.keyed(),
    ensures
        tree.minimized_at(key, rect).settled(),
        tree.minimized_at(key, rect).keyed(),
        forall|other: u64| #[trigger]
            tree.minimized_at(key, rect).has_key(other) ==> tree.has_key(other),
{
    if tree.has_key(key) {
        let id = tree.node_keyed(key);
        assert(tree.has(id) && tree.key(id) == key);
        lemma_alike_settled(tree, id, tree.data(id).with_minimize_rect(Some(rect)));
        lemma_keeps_keys(tree, tree.minimized_at(key, rect));
    }
}

impl TilingLayout {
    /// Lets a window of the last tree but one go to another place.
    fn minimize_in_last_but_one(&mut self, node: u64, to: Rectangle)
        requires
            old(self)@.ready(),
            old(self)@.queue.trees.len() >= 2,
        ensures
            final(self)@ == (LayoutView {
                queue: old(self)@.queue.minimizing(node, to),
                ..old(self)@
            }),
            final(self)@.ready(),
            forall|bound: u64| #[trigger] old(self)@.wf(bound) ==> final(self)@.wf(bound),
    {
        let ghost before = self@;
        let ghost trees = before.queue.trees;
        let place: usize = self.queue.trees.len() - 2;
        assert(trees[place as int] == self.queue.trees@[place as int]@);
        assert(trees[place as int].tree.settled() && trees[place as int].tree.keyed());
        let QueuedTree { mut tree, duration, blocker, retargetable } = self.queue.trees.remove(place);
        let ghost shape = model(tree);
        assert(shape.regular()) by {
            lemma_sound(shape);
        }
        match node_by_key(&tree, node) {
            Some(id) => {
                assert(shape.has(id) && shape.key(id) == node);
                match get_node_mut(&mut tree, &id) {
                    Some(found) => {
                        found.data.set_minimize_rect(Some(to));
                    },
                    None => {},
                }
            },
            None => {},
        }
        proof {
            assert(model(tree) =~~= shape.minimized_at(node, to));
            lemma_minimized(shape, node, to);
        }
        self.queue.trees.insert(place, QueuedTree { tree, duration, blocker, retargetable });
        proof {
            let after = before.queue.minimizing(node, to);
            assert(self@.queue.trees =~= after.trees);
            assert forall|i: int| 0 <= i < after.trees.len() implies (
            #[trigger] after.trees[i]).tree.settled() && after.trees[i].tree.keyed() by {
                assert(trees[i].tree.settled());
            }
            assert forall|bound: u64| #[trigger] before.wf(bound) implies self@.wf(bound) by {
                assert forall|i: int| 0 <= i < after.trees.len() implies (
                #[trigger] after.trees[i]).tree.keys_below(bound) by {
                    assert(trees[i].tree.keys_below(bound));
                }
            }
        }
    }

    /// Takes a window out, towards `to` if it is minimized, and returns what is to be
    /// remembered of its place. `node` is the key of its node.
    pub fn unmap(
        &mut self,
        window: u64,
        node: Option<u64>,
        to: Option<Rectangle>,
        eased: &Vec<EasedArea>,
    ) -> (result: Result<Unmapped, UnmapError>)
        requires
            old(self)@.ready(),
        ensures
            match result {
                Ok(unmapped) => node matches Some(node) && old(self)@.newest().has_window_at(
                    node,
                    window,
                ) && crate::mapping::restore_view(unmapped.state) == old(self)@.newest().place_of(
                    old(self)@.newest().node_keyed(node),
                ) && old(self)@.unmaps_to(final(self)@, node, to, eased@, unmapped.configures@),
                Err(UnmapError::NodeIdNoLongerValid) => node is None && final(self)@ == old(
                    self,
                )@,
                Err(UnmapError::InvalidNodeIdForTree) => (node matches Some(node) && !old(
                    self,
                )@.newest().has_window_at(node, window)) && final(self)@ == old(self)@,
            },
            final(self)@.ready(),
            forall|bound: u64| #[trigger] old(self)@.wf(bound) ==> final(self)@.wf(bound),
    {
        let ghost before = self@;
        let node: u64 = match node {
            Some(node) => node,
            None => {
                return Err(UnmapError::NodeIdNoLongerValid);
            },
        };
        let state: Option<RestoreTilingState> = {
            let newest: &Tree<TreeNode> = self.tree();
            assert(model(*newest).regular()) by {
                lemma_sound(model(*newest));
            }
            match node_by_key(newest, node) {
                Some(id) => restore_state(newest, &id),
                None => None,
            }
        };
        let configures: Vec<Configure> = match self.unmap_window_internal(
            window,
            node,
            to.is_some(),
            eased,
        ) {
            Some(configures) => configures,
            None => {
                return Err(UnmapError::InvalidNodeIdForTree);
            },
        };
        let ghost mid = self@;
        match to {
            Some(to) => {
                proof {
                    let copy = choose|copy: TreeModel| #[trigger]
                        before.newest().copied(copy) && before.committed(
                            mid,
                            copy.unmapped(copy.node_keyed(node)),
                            duration_for(true),
                            eased@,
                            configures@,
                            None,
                        );
                    lemma_queue_grows(
                        before,
                        mid,
                        copy.unmapped(copy.node_keyed(node)),
                        duration_for(true),
                        eased@,
                        configures@,
                        None,
                    );
                }
                self.minimize_in_last_but_one(node, to);
            },
            None => {},
        }
        assert(before.unmaps(mid, node, to is Some, eased@, configures@));
        Ok(Unmapped { state, configures })
    }

    /// Takes out windows that are gone. `dead` has each with the key of its node.
    pub fn refresh(&mut self, dead: &Vec<(u64, u64)>, eased: &Vec<EasedArea>) -> (configures: Vec<
        Configure,
    >)
        requires
            old(self)@.ready(),
        ensures
            exists|steps: Seq<LayoutView>, asked: Seq<Seq<Configure>>| #[trigger]
                refreshed(steps, asked, dead@, eased@) && steps[0] == old(self)@ && steps.last()
                    == final(self)@ && configures@ == asked.flatten(),
            final(self)@.ready(),
            forall|bound: u64| #[trigger] old(self)@.wf(bound) ==> final(self)@.wf(bound),
    {
        let ghost before = self@;
        let ghost mut steps = seq![before];
        let ghost mut asked = Seq::<Seq<Configure>>::empty();
        let mut configures: Vec<Configure> = Vec::new();
        let mut i: usize = 0;
        assert(asked.flatten() =~= seq![]);
        assert(dead@.take(0) =~= seq![]);
        while i < dead.len()
            invariant
                i <= dead@.len(),
                self@.ready(),
                forall|bound: u64| #[trigger] before.wf(bound) ==> self@.wf(bound),
                refreshed(steps, asked, dead@.take(i as int), eased@),
                steps[0] == before,
                steps.last() == self@,
                configures@ == asked.flatten(),
            decreases dead@.len() - i,
        {
            let ghost now = self@;
            let (window, node) = dead[i];
            let mut more: Vec<Configure> = match self.unmap_window_internal(
                window,
                node,
                false,
                eased,
            ) {
                Some(more) => more,
                None => Vec::new(),
            };
            proof {
                let shorter = dead@.take(i as int);
                let longer = dead@.take(i as int + 1);
                let further = steps.push(self@);
                let all = asked.push(more@);
                assert forall|k: int| 0 <= k < longer.len() implies refresh_step(
                    #[trigger] further[k],
                    further[k + 1],
                    longer[k],
                    eased@,
                    all[k],
                ) by {
                    if k < i {
                        assert(further[k] == steps[k] && further[k + 1] == steps[k + 1]);
                        assert(longer[k] == shorter[k] && all[k] == asked[k]);
                    } else {
                        assert(further[k] == now && further[k + 1] == self@);
                        assert(longer[k] == dead@[i as int]);
                    }
                }
                assert(all.drop_last() =~= asked);
                asked.lemma_flatten_push(more@);
                steps = further;
                asked = all;
            }
            configures.append(&mut more);
            i += 1;
        }
        assert(dead@.take(dead@.len() as int) =~= dead@);
        configures
    }
}

/// Whether one step takes a window out that is gone, if it is in its node.
pub open spec fn refresh_step(
    layout: LayoutView,
    after: LayoutView,
    dead: (u64, u64),
    eased: Seq<EasedArea>,
    configures: Seq<Configure>,
) -> bool {
    if layout.newest().has_window_at(dead.1, dead.0) {
        layout.unmaps(after, dead.1, false, eased, configures)
    } else {
        after == layout && configures.len() == 0
    }
}

/// Whether each step takes out a window that is gone.
pub open spec fn refreshed(
    steps: Seq<LayoutView>,
    asked: Seq<Seq<Configure>>,
    dead: Seq<(u64, u64)>,
    eased: Seq<EasedArea>,
) -> bool {
    &&& steps.len() == dead.len() + 1
    &&& asked.len() == dead.len()
    &&& forall|i: int|
        0 <= i < dead.len() ==> refresh_step(
            #[trigger] steps[i],
            steps[i + 1],
            dead[i],
            eased,
            asked[i],
        )
}

} // verus!
