//! The trees that an output is on its way to: what it shows, and what it will show next.

use vstd::prelude::*;

use id_tree::{NodeId, Tree};

use crate::balance::{lemma_same_rooms, lemma_sound};
use crate::copies::{duplicate, node_by_key};
use crate::data::{Data, DataView, Window};
use crate::geometry::Rectangle;
use crate::placement::all_nodes;
use crate::tree::{copy_id, get_node, get_node_mut, model, new_tree, root_id, TreeModel, TreeNode};

verus! {

/// How long windows move, in milliseconds.
pub const ANIMATION_DURATION: u64 = 200;

/// How long windows move that are minimized or restored, in milliseconds.
pub const MINIMIZE_ANIMATION_DURATION: u64 = 320;

/// How long the pointer has to rest on a place before the layout opens there, in milliseconds.
pub const MOUSE_ANIMATION_DELAY: u64 = 150;

/// How long the pointer has to rest before the layout opens for the first time, in
/// milliseconds.
pub const INITIAL_MOUSE_ANIMATION_DELAY: u64 = 500;

/// A tree, how long it takes to get there, and what has to be waited for before.
pub struct QueuedTree {
    pub tree: Tree<TreeNode>,
    /// In milliseconds; zero for an immediate change.
    pub duration: u64,
    /// The wait for windows that were asked to change their sizes.
    pub blocker: Option<u64>,
    /// Whether the way to the tree starts from what is shown, so that it can be stopped there
    /// before it begins without losing the tree.
    pub retargetable: bool,
}

/// A tree on the way, as the contracts speak of it.
#[verifier::ext_equal]
pub struct QueuedView {
    pub tree: TreeModel,
    pub duration: u64,
    pub blocker: Option<u64>,
    pub retargetable: bool,
}

impl View for QueuedTree {
    type V = QueuedView;

    open spec fn view(&self) -> QueuedView {
        QueuedView {
            tree: model(self.tree),
            duration: self.duration,
            blocker: self.blocker,
            retargetable: self.retargetable,
        }
    }
}

/// The tree that is shown and those that come after it.
pub struct TreeQueue {
    pub trees: Vec<QueuedTree>,
    /// When the transition to the second tree began, in milliseconds.
    pub animation_start: Option<u64>,
    /// Waits for trees that were given up. Their windows still have to be released.
    pub retired: Vec<u64>,
}

/// The trees on the way, as the contracts speak of them.
#[verifier::ext_equal]
pub struct QueueView {
    pub trees: Seq<QueuedView>,
    pub animation_start: Option<u64>,
    pub retired: Seq<u64>,
}

/// Trees on the way, as the contracts speak of them.
pub open spec fn queued_views(trees: Seq<QueuedTree>) -> Seq<QueuedView> {
    Seq::new(trees.len(), |i: int| trees[i]@)
}

impl View for TreeQueue {
    type V = QueueView;

    open spec fn view(&self) -> QueueView {
        QueueView {
            trees: queued_views(self.trees@),
            animation_start: self.animation_start,
            retired: self.retired@,
        }
    }
}

/// Where a node moves from and to.
#[derive(Clone, Copy, Debug, PartialEq, Eq, Structural)]
pub struct VisualMove {
    pub key: u64,
    pub from: Rectangle,
    pub to: Rectangle,
    /// Whether it comes from where it was minimized to.
    pub minimized: bool,
}

/// The area that a node is shown in during a transition.
#[derive(Clone, Copy, Debug, PartialEq, Eq, Structural)]
pub struct EasedArea {
    pub key: u64,
    pub geometry: Rectangle,
}

/// The area that the first of these, from `start` on, gives to a node.
pub open spec fn eased_for(eased: Seq<EasedArea>, key: u64, start: int) -> Option<Rectangle>
    decreases eased.len() - start,
{
    if start < 0 || start >= eased.len() {
        None
    } else if eased[start].key == key {
        Some(eased[start].geometry)
    } else {
        eased_for(eased, key, start + 1)
    }
}

/// The waits among these trees.
pub open spec fn blockers_of(trees: Seq<QueuedView>) -> Seq<u64>
    decreases trees.len(),
{
    if trees.len() == 0 {
        seq![]
    } else {
        let rest = blockers_of(trees.drop_last());
        match trees.last().blocker {
            Some(blocker) => rest.push(blocker),
            None => rest,
        }
    }
}

/// The trees without what they wait for.
pub open spec fn unblocked(trees: Seq<QueuedView>) -> Seq<QueuedView> {
    Seq::new(trees.len(), |i: int| QueuedView { blocker: None, ..trees[i] })
}

impl TreeModel {
    /// Where a node of this tree moves from, if the tree before was `reference`.
    pub open spec fn move_of(self, reference: TreeModel, id: NodeId) -> Option<VisualMove> {
        let to = self.data(id).geometry();
        let key = self.key(id);
        match self.data(id) {
            DataView::Mapped { minimize_rect: Some(rect), .. } => Some(
                VisualMove { key, from: rect, to, minimized: true },
            ),
            _ => if reference.has_key(key) {
                Some(
                    VisualMove {
                        key,
                        from: reference.data(reference.node_keyed(key)).geometry(),
                        to,
                        minimized: false,
                    },
                )
            } else {
                None
            },
        }
    }

    /// Where these nodes move from and to.
    pub open spec fn moves_of(self, reference: TreeModel, order: Seq<NodeId>) -> Seq<VisualMove>
        decreases order.len(),
    {
        if order.len() == 0 {
            seq![]
        } else {
            let rest = self.moves_of(reference, order.drop_last());
            match self.move_of(reference, order.last()) {
                Some(step) => rest.push(step),
                None => rest,
            }
        }
    }

    /// What a node holds while it is shown in between.
    pub open spec fn eased_data(self, id: NodeId, eased: Seq<EasedArea>) -> DataView {
        match eased_for(eased, self.key(id), 0) {
            Some(geometry) => self.data(id).placed(geometry).with_minimize_rect(None),
            None => self.data(id),
        }
    }

    /// What a node holds before it starts to move, if the tree before was `reference`.
    pub open spec fn held_data(self, reference: TreeModel, id: NodeId) -> DataView {
        match self.move_of(reference, id) {
            Some(step) => self.data(id).placed(step.from).with_minimize_rect(None),
            None => self.data(id),
        }
    }

    /// Whether `after` is this tree with its nodes where they are before they start to move.
    pub open spec fn held_as(self, after: TreeModel, reference: TreeModel) -> bool {
        &&& self.same_shape(after)
        &&& forall|id: NodeId| #[trigger]
            after.has(id) ==> after.data(id) == self.held_data(reference, id)
    }

    /// Whether `after` is this tree with its nodes in the given areas.
    pub open spec fn eased_as(self, after: TreeModel, eased: Seq<EasedArea>) -> bool {
        &&& self.same_shape(after)
        &&& forall|id: NodeId| #[trigger]
            after.has(id) ==> after.data(id) == self.eased_data(id, eased)
    }
}

impl QueueView {
    /// Whether there are trees, and all of them are in order.
    pub open spec fn wf(self) -> bool {
        &&& self.trees.len() > 0
        &&& self.animation_start is Some ==> self.trees.len() > 1
        &&& forall|i: int|
            0 <= i < self.trees.len() ==> (#[trigger] self.trees[i]).tree.settled()
                && self.trees[i].tree.keyed()
    }

    /// The tree that everything ends up at.
    pub open spec fn newest(self) -> TreeModel {
        self.trees.last().tree
    }

    /// Whether a transition is being shown.
    pub open spec fn moving(self) -> bool {
        self.animation_start is Some && self.trees.len() > 1
    }

    /// Whether `visual` is what is shown now: the first tree, or while a transition is being
    /// shown the second one with its nodes in between.
    pub open spec fn shows(self, visual: TreeModel, eased: Seq<EasedArea>) -> bool {
        if self.moving() {
            exists|copy: TreeModel| #[trigger]
                self.trees[1].tree.copied(copy) && copy.eased_as(visual, eased)
        } else {
            self.trees[0].tree.copied(visual)
        }
    }

    /// Whether the transition to a tree that starts from what is shown has not begun yet.
    pub open spec fn awaiting(self) -> bool {
        self.animation_start is None && self.trees.len() > 1 && self.trees[1].retargetable
    }

    /// Whether `visual` is where a stop leads: to what is shown, or to the nodes of a tree that
    /// starts from there, each where it is shown now.
    pub open spec fn stops_at(self, visual: TreeModel, eased: Seq<EasedArea>) -> bool {
        if self.awaiting() {
            exists|copy: TreeModel| #[trigger]
                self.trees[1].tree.copied(copy) && copy.held_as(visual, self.trees[0].tree)
        } else {
            self.shows(visual, eased)
        }
    }

    /// Whether the newest tree is an immediate change that was not shown yet.
    pub open spec fn direct_pending(self) -> bool {
        self.animation_start is None && self.trees.len() > 1 && self.trees.last().duration == 0
    }

    /// The queue with another tree at its end.
    pub open spec fn pushed(self, tree: TreeModel, duration: u64, blocker: Option<u64>) -> QueueView {
        QueueView {
            trees: self.trees.push(
                QueuedView { tree, duration, blocker, retargetable: false },
            ),
            ..self
        }
    }

    /// The queue with a tree at its end that the way to starts from what is shown.
    pub open spec fn headed(self, tree: TreeModel, duration: u64, blocker: Option<u64>) -> QueueView {
        QueueView {
            trees: self.trees.push(QueuedView { tree, duration, blocker, retargetable: true }),
            ..self
        }
    }

    /// The queue with an immediate change at its end, in the place of one that was not shown
    /// yet.
    pub open spec fn pushed_direct(self, tree: TreeModel, blocker: Option<u64>) -> QueueView {
        if self.direct_pending() {
            QueueView {
                trees: self.trees.update(
                    self.trees.len() - 1,
                    QueuedView { tree, duration: 0, blocker, retargetable: false },
                ),
                retired: match self.trees.last().blocker {
                    Some(old_blocker) => self.retired.push(old_blocker),
                    None => self.retired,
                },
                ..self
            }
        } else {
            self.pushed(tree, 0, blocker)
        }
    }

    /// Whether `after` is this queue stopped where it is, which is `visual`. What was waited for
    /// is still remembered.
    pub open spec fn interrupted(self, after: QueueView, visual: TreeModel, eased: Seq<EasedArea>) -> bool {
        &&& self.stops_at(visual, eased)
        &&& after.trees.len() == 1
        &&& visual.copied(after.trees[0].tree)
        &&& after.trees[0].duration == 0
        &&& after.trees[0].blocker is None
        &&& !after.trees[0].retargetable
        &&& after.animation_start is None
        &&& after.retired == self.retired + blockers_of(self.trees)
    }

    /// Whether `after` is this queue on the way to `tree` from what it shows now.
    pub open spec fn retargeted(
        self,
        after: QueueView,
        tree: TreeModel,
        duration: u64,
        blocker: Option<u64>,
        eased: Seq<EasedArea>,
    ) -> bool {
        if self.animation_start is Some || self.trees.len() > 1 {
            exists|stopped: QueueView, visual: TreeModel, target: TreeModel| #[trigger]
                self.interrupted(stopped, visual, eased) && #[trigger] tree.unminimized(target)
                    && after == stopped.headed(target, duration, blocker)
        } else {
            after == self.headed(tree, duration, blocker)
        }
    }
}

impl TreeModel {
    /// Whether `after` is this tree with no window coming from where it was minimized to.
    pub open spec fn unminimized(self, after: TreeModel) -> bool {
        &&& self.same_shape(after)
        &&& forall|id: NodeId| #[trigger]
            after.has(id) ==> after.data(id) == self.data(id).with_minimize_rect(None)
    }
}

/// Finishes what every node of a tree is to hold: those among `done` hold it already.
spec fn partly_changed(
    tree: TreeModel,
    now: TreeModel,
    done: Seq<NodeId>,
    change: spec_fn(NodeId) -> DataView,
) -> bool {
    &&& tree.same_shape(now)
    &&& forall|id: NodeId| #[trigger]
        now.has(id) ==> now.data(id) == if done.contains(id) {
            change(id)
        } else {
            tree.data(id)
        }
}

/// Changing one more node.
proof fn lemma_change_one(
    tree: TreeModel,
    now: TreeModel,
    order: Seq<NodeId>,
    i: int,
    change: spec_fn(NodeId) -> DataView,
)
    requires
        partly_changed(tree, now, order.take(i), change),
        0 <= i < order.len(),
        tree.has(order[i]),
    ensures
        partly_changed(
            tree,
            now.with_data(order[i], change(order[i])),
            order.take(i + 1),
            change,
        ),
{
    let id = order[i];
    let after = now.with_data(id, change(id));
    let done = order.take(i);
    let more = order.take(i + 1);
    assert(now.has(id));
    assert(after.nodes.dom() =~= tree.nodes.dom());
    assert forall|other: NodeId| #[trigger] after.has(other) implies after.parent(other)
        == tree.parent(other) && after.children(other) == tree.children(other) && after.key(other)
        == tree.key(other) && after.data(other) == if more.contains(other) {
        change(other)
    } else {
        tree.data(other)
    } by {
        assert(now.has(other));
        if done.contains(other) {
            let k = done.index_of(other);
            assert(more[k] == other);
        }
        assert(more[i] == id);
        if more.contains(other) && other != id {
            let k = more.index_of(other);
            assert(done[k] == other);
        }
    }
}

/// The area that is given to a node.
pub(crate) fn eased_area(eased: &Vec<EasedArea>, key: u64) -> (area: Option<Rectangle>)
    ensures
        area == eased_for(eased@, key, 0),
{
    let mut i: usize = 0;
    while i < eased.len()
        invariant
            i <= eased@.len(),
            eased_for(eased@, key, 0) == eased_for(eased@, key, i as int),
        decreases eased@.len() - i,
    {
        if eased[i].key == key {
            return Some(eased[i].geometry);
        }
        i += 1;
    }
    None
}

/// Puts the nodes of a tree in the given areas.
fn ease_tree(tree: &mut Tree<TreeNode>, eased: &Vec<EasedArea>)
    requires
        model(*old(tree)).settled(),
        model(*old(tree)).keyed(),
    ensures
        model(*old(tree)).eased_as(model(*final(tree)), eased@),
        model(*final(tree)).settled(),
        model(*final(tree)).keyed(),
{
    let ghost shape = model(*tree);
    proof {
        lemma_sound(shape);
    }
    let root: NodeId = match root_id(tree) {
        Some(root) => root,
        None => {
            proof {
                crate::classic::lemma_empty(shape);
            }
            return;
        },
    };
    let order: Vec<NodeId> = all_nodes(tree, &root);
    let ghost change = |id: NodeId| shape.eased_data(id, eased@);
    let mut i: usize = 0;
    while i < order.len()
        invariant
            i <= order@.len(),
            order@.no_duplicates(),
            forall|k: int| 0 <= k < order@.len() ==> shape.has(#[trigger] order@[k]),
            change == (|id: NodeId| shape.eased_data(id, eased@)),
            partly_changed(shape, model(*tree), order@.take(i as int), change),
        decreases order@.len() - i,
    {
        let ghost now = model(*tree);
        let id: NodeId = copy_id(&order[i]);
        proof {
            assert(shape.has(order@[i as int]));
            assert(now.has(id));
            assert(!order@.take(i as int).contains(id)) by {
                if order@.take(i as int).contains(id) {
                    let k = order@.take(i as int).index_of(id);
                    assert(order@[k] == order@[i as int]);
                }
            }
            assert(now.data(id) == shape.data(id));
        }
        match get_node_mut(tree, &id) {
            Some(node) => {
                match eased_area(eased, node.key) {
                    Some(area) => {
                        node.data.update_geometry(area);
                        node.data.set_minimize_rect(None);
                    },
                    None => {},
                }
            },
            None => {},
        }
        proof {
            assert(model(*tree) =~~= now.with_data(id, change(id)));
            lemma_change_one(shape, now, order@, i as int, change);
        }
        i += 1;
    }
    proof {
        let after = model(*tree);
        assert(order@.take(order@.len() as int) =~= order@);
        assert forall|id: NodeId| #[trigger] after.has(id) implies after.data(id)
            == shape.eased_data(id, eased@) by {
            assert(shape.has(id));
        }
        lemma_same_rooms(shape, after);
    }
}

/// Puts the nodes of a tree where they are before they start to move.
fn hold_tree(tree: &mut Tree<TreeNode>, reference: &Tree<TreeNode>)
    requires
        model(*old(tree)).settled(),
        model(*old(tree)).keyed(),
        model(*reference).settled(),
        model(*reference).keyed(),
    ensures
        model(*old(tree)).held_as(model(*final(tree)), model(*reference)),
        model(*final(tree)).settled(),
        model(*final(tree)).keyed(),
{
    let ghost shape = model(*tree);
    let ghost before = model(*reference);
    proof {
        lemma_sound(shape);
        lemma_sound(before);
    }
    let root: NodeId = match root_id(tree) {
        Some(root) => root,
        None => {
            proof {
                crate::classic::lemma_empty(shape);
            }
            return;
        },
    };
    let order: Vec<NodeId> = all_nodes(tree, &root);
    let ghost change = |id: NodeId| shape.held_data(before, id);
    let mut i: usize = 0;
    while i < order.len()
        invariant
            i <= order@.len(),
            order@.no_duplicates(),
            forall|k: int| 0 <= k < order@.len() ==> shape.has(#[trigger] order@[k]),
            before == model(*reference),
            before.regular(),
            before.keyed(),
            change == (|id: NodeId| shape.held_data(before, id)),
            partly_changed(shape, model(*tree), order@.take(i as int), change),
        decreases order@.len() - i,
    {
        let ghost now = model(*tree);
        let id: NodeId = copy_id(&order[i]);
        proof {
            assert(shape.has(order@[i as int]));
            assert(now.has(id));
            assert(!order@.take(i as int).contains(id)) by {
                if order@.take(i as int).contains(id) {
                    let k = order@.take(i as int).index_of(id);
                    assert(order@[k] == order@[i as int]);
                }
            }
            assert(now.data(id) == shape.data(id));
        }
        match get_node_mut(tree, &id) {
            Some(node) => {
                let minimized: Option<Rectangle> = match &node.data {
                    Data::Mapped { minimize_rect, .. } => *minimize_rect,
                    _ => None,
                };
                let from: Option<Rectangle> = match minimized {
                    Some(rect) => Some(rect),
                    None => match node_by_key(reference, node.key) {
                        Some(old_id) => match get_node(reference, &old_id) {
                            Some(old_node) => {
                                assert(before.has(old_id) && before.key(old_id) == shape.key(id));
                                Some(old_node.data.geometry())
                            },
                            None => None,
                        },
                        None => None,
                    },
                };
                match from {
                    Some(area) => {
                        node.data.update_geometry(area);
                        node.data.set_minimize_rect(None);
                    },
                    None => {},
                }
            },
            None => {},
        }
        proof {
            assert(model(*tree) =~~= now.with_data(id, change(id)));
            lemma_change_one(shape, now, order@, i as int, change);
        }
        i += 1;
    }
    proof {
        let after = model(*tree);
        assert(order@.take(order@.len() as int) =~= order@);
        assert forall|id: NodeId| #[trigger] after.has(id) implies after.data(id)
            == shape.held_data(before, id) by {
            assert(shape.has(id));
        }
        lemma_same_rooms(shape, after);
    }
}

/// Lets no window come from where it was minimized to.
pub fn clear_minimize_rects(tree: &mut Tree<TreeNode>)
    requires
        model(*old(tree)).settled(),
        model(*old(tree)).keyed(),
    ensures
        model(*old(tree)).unminimized(model(*final(tree))),
        model(*final(tree)).settled(),
        model(*final(tree)).keyed(),
{
    let ghost shape = model(*tree);
    proof {
        lemma_sound(shape);
    }
    let root: NodeId = match root_id(tree) {
        Some(root) => root,
        None => {
            proof {
                crate::classic::lemma_empty(shape);
            }
            return;
        },
    };
    let order: Vec<NodeId> = all_nodes(tree, &root);
    let ghost change = |id: NodeId| shape.data(id).with_minimize_rect(None);
    let mut i: usize = 0;
    while i < order.len()
        invariant
            i <= order@.len(),
            order@.no_duplicates(),
            forall|k: int| 0 <= k < order@.len() ==> shape.has(#[trigger] order@[k]),
            change == (|id: NodeId| shape.data(id).with_minimize_rect(None)),
            partly_changed(shape, model(*tree), order@.take(i as int), change),
        decreases order@.len() - i,
    {
        let ghost now = model(*tree);
        let id: NodeId = copy_id(&order[i]);
        proof {
            assert(shape.has(order@[i as int]));
            assert(now.has(id));
            assert(!order@.take(i as int).contains(id)) by {
                if order@.take(i as int).contains(id) {
                    let k = order@.take(i as int).index_of(id);
                    assert(order@[k] == order@[i as int]);
                }
            }
            assert(now.data(id) == shape.data(id));
        }
        match get_node_mut(tree, &id) {
            Some(node) => {
                node.data.set_minimize_rect(None);
            },
            None => {},
        }
        proof {
            assert(model(*tree) =~~= now.with_data(id, change(id)));
            lemma_change_one(shape, now, order@, i as int, change);
        }
        i += 1;
    }
    proof {
        let after = model(*tree);
        assert(order@.take(order@.len() as int) =~= order@);
        assert forall|id: NodeId| #[trigger] after.has(id) implies after.data(id) == shape.data(
            id,
        ).with_minimize_rect(None) by {
            assert(shape.has(id));
        }
        lemma_same_rooms(shape, after);
    }
}

impl TreeQueue {
    /// A queue that shows an empty tree.
    pub fn new() -> (queue: TreeQueue)
        ensures
            queue@.wf(),
            queue@.trees.len() == 1,
            queue@.newest() == TreeModel::empty(),
            queue@.trees[0].duration == 0,
            queue@.trees[0].blocker is None,
            !queue@.trees[0].retargetable,
            queue@.animation_start is None,
            queue@.retired.len() == 0,
    {
        let tree: Tree<TreeNode> = new_tree();
        proof {
            let empty = model(tree);
            assert(empty == TreeModel::empty());
            lemma_empty_settled(empty);
        }
        let mut trees: Vec<QueuedTree> = Vec::new();
        trees.push(QueuedTree { tree, duration: 0, blocker: None, retargetable: false });
        TreeQueue { trees, animation_start: None, retired: Vec::new() }
    }

    /// Puts another tree at the end.
    pub fn push_tree(&mut self, tree: Tree<TreeNode>, duration: u64, blocker: Option<u64>)
        ensures
            final(self)@ == old(self)@.pushed(model(tree), duration, blocker),
            old(self)@.wf() && model(tree).settled() && model(tree).keyed() ==> final(self)@.wf(),
    {
        let ghost before = self@;
        self.trees.push(QueuedTree { tree, duration, blocker, retargetable: false });
        assert(self@ =~~= before.pushed(model(tree), duration, blocker));
        proof {
            if before.wf() && model(tree).settled() && model(tree).keyed() {
                assert forall|i: int| 0 <= i < self@.trees.len() implies (
                #[trigger] self@.trees[i]).tree.settled() && self@.trees[i].tree.keyed() by {
                    if i < before.trees.len() {
                        assert(self@.trees[i] == before.trees[i]);
                    }
                }
            }
        }
    }

    /// Puts an immediate change at the end, in the place of one that was not shown yet.
    pub fn push_direct_tree(&mut self, tree: Tree<TreeNode>, blocker: Option<u64>)
        requires
            old(self)@.wf(),
            model(tree).settled(),
            model(tree).keyed(),
        ensures
            final(self)@ == old(self)@.pushed_direct(model(tree), blocker),
            final(self)@.wf(),
    {
        let ghost before = self@;
        let last: usize = self.trees.len() - 1;
        assert(before.trees.last() == self.trees@[last as int]@);
        if self.animation_start.is_none() && self.trees.len() > 1 && self.trees[last].duration
            == 0 {
            let old_blocker: Option<u64> = self.trees[last].blocker;
            self.trees.set(
                last,
                QueuedTree { tree, duration: 0, blocker, retargetable: false },
            );
            match old_blocker {
                Some(old_blocker) => {
                    self.retired.push(old_blocker);
                },
                None => {},
            }
            assert(self@ =~~= before.pushed_direct(model(tree), blocker));
            assert forall|i: int| 0 <= i < self@.trees.len() implies (
            #[trigger] self@.trees[i]).tree.settled() && self@.trees[i].tree.keyed() by {
                if i < last {
                    assert(self@.trees[i] == before.trees[i]);
                }
            }
            return;
        }
        self.push_tree(tree, 0, blocker);
    }

    /// Gives up all waits, and remembers them.
    pub fn retire_queued_blockers(&mut self)
        ensures
            final(self)@ == (QueueView {
                trees: unblocked(old(self)@.trees),
                retired: old(self)@.retired + blockers_of(old(self)@.trees),
                ..old(self)@
            }),
    {
        let ghost before = self@;
        let mut i: usize = 0;
        assert(before.trees.take(0) =~= seq![]);
        assert(before.retired + seq![] =~= before.retired);
        while i < self.trees.len()
            invariant
                i <= self.trees@.len(),
                self.trees@.len() == before.trees.len(),
                self.animation_start == before.animation_start,
                self.retired@ == before.retired + blockers_of(before.trees.take(i as int)),
                forall|k: int|
                    0 <= k < i ==> (#[trigger] self.trees@[k])@ == (QueuedView {
                        blocker: None,
                        ..before.trees[k]
                    }),
                forall|k: int|
                    i <= k < self.trees@.len() ==> (#[trigger] self.trees@[k])@ == before.trees[k],
            decreases self.trees@.len() - i,
        {
            assert(before.trees.take(i as int + 1).drop_last() =~= before.trees.take(i as int));
            assert(self.trees@[i as int]@ == before.trees[i as int]);
            let ghost retired = self.retired@;
            match self.trees[i].blocker {
                Some(blocker) => {
                    self.retired.push(blocker);
                },
                None => {},
            }
            self.trees[i].blocker = None;
            assert(self.retired@ =~= before.retired + blockers_of(
                before.trees.take(i as int + 1),
            ));
            i += 1;
        }
        assert(before.trees.take(before.trees.len() as int) =~= before.trees);
        assert(self@.trees =~= unblocked(before.trees));
    }

    /// Where the nodes of the transition that is being shown move from and to.
    pub fn visual_moves(&self) -> (moves: Vec<VisualMove>)
        requires
            self@.wf(),
        ensures
            if self@.moving() && self@.trees[1].tree.root is Some {
                exists|order: Seq<NodeId>| #[trigger]
                    crate::tree::visits(
                        self@.trees[1].tree.nodes,
                        seq![self@.trees[1].tree.root->0],
                        order,
                    ) && moves@ == self@.trees[1].tree.moves_of(self@.trees[0].tree, order)
            } else {
                moves@.len() == 0
            },
    {
        let mut moves: Vec<VisualMove> = Vec::new();
        if self.animation_start.is_none() || self.trees.len() < 2 {
            return moves;
        }
        let reference: &Tree<TreeNode> = &self.trees[0].tree;
        let target: &Tree<TreeNode> = &self.trees[1].tree;
        let ghost before = model(*reference);
        let ghost shape = model(*target);
        assert(self@.trees[0].tree == before && self@.trees[1].tree == shape);
        proof {
            lemma_sound(before);
            lemma_sound(shape);
        }
        let root: NodeId = match root_id(target) {
            Some(root) => root,
            None => {
                return moves;
            },
        };
        let order: Vec<NodeId> = all_nodes(target, &root);
        let mut i: usize = 0;
        assert(order@.take(0) =~= seq![]);
        while i < order.len()
            invariant
                i <= order@.len(),
                before == model(*reference),
                shape == model(*target),
                before.regular(),
                before.keyed(),
                forall|k: int| 0 <= k < order@.len() ==> shape.has(#[trigger] order@[k]),
                moves@ == shape.moves_of(before, order@.take(i as int)),
            decreases order@.len() - i,
        {
            assert(order@.take(i as int + 1).drop_last() =~= order@.take(i as int));
            assert(shape.has(order@[i as int]));
            match get_node(target, &order[i]) {
                Some(node) => {
                    let to: Rectangle = node.data.geometry();
                    let source: Option<Rectangle> = match &node.data {
                        Data::Mapped { minimize_rect, .. } => *minimize_rect,
                        _ => None,
                    };
                    match source {
                        Some(from) => {
                            moves.push(VisualMove { key: node.key, from, to, minimized: true });
                        },
                        None => match node_by_key(reference, node.key) {
                            Some(old_id) => match get_node(reference, &old_id) {
                                Some(old_node) => {
                                    assert(before.has(old_id) && before.key(old_id)
                                        == shape.key(order@[i as int]));
                                    moves.push(
                                        VisualMove {
                                            key: node.key,
                                            from: old_node.data.geometry(),
                                            to,
                                            minimized: false,
                                        },
                                    );
                                },
                                None => {},
                            },
                            None => {},
                        },
                    }
                },
                None => {},
            }
            i += 1;
        }
        assert(order@.take(order@.len() as int) =~= order@);
        moves
    }

    /// The tree that is shown: the first one, or while a transition is being shown the second
    /// one with its nodes in the given areas.
    pub fn current_visual_tree(&self, eased: &Vec<EasedArea>) -> (visual: Tree<TreeNode>)
        requires
            self@.wf(),
        ensures
            self@.shows(model(visual), eased@),
            model(visual).settled(),
            model(visual).keyed(),
    {
        assert(self@.trees[0].tree.settled());
        if self.animation_start.is_none() || self.trees.len() < 2 {
            return duplicate(&self.trees[0].tree);
        }
        assert(self@.trees[1].tree.settled());
        let mut visual: Tree<TreeNode> = duplicate(&self.trees[1].tree);
        let ghost copy = model(visual);
        ease_tree(&mut visual, eased);
        assert(self@.trees[1].tree.copied(copy) && copy.eased_as(model(visual), eased@));
        visual
    }

    /// Stops where the windows are, and returns the tree. A tree that the way to starts from
    /// what is shown keeps its nodes, even if it was still waited for. What was waited for is
    /// still remembered.
    pub fn interrupt(&mut self, eased: &Vec<EasedArea>) -> (visual: Tree<TreeNode>)
        requires
            old(self)@.wf(),
        ensures
            old(self)@.interrupted(final(self)@, model(visual), eased@),
            final(self)@.wf(),
            model(visual).settled(),
            model(visual).keyed(),
    {
        let visual: Tree<TreeNode> = if self.animation_start.is_none() && self.trees.len() > 1
            && self.trees[1].retargetable {
            assert(self@.trees[0].tree.settled() && self@.trees[1].tree.settled());
            let mut visual: Tree<TreeNode> = duplicate(&self.trees[1].tree);
            let ghost copy = model(visual);
            hold_tree(&mut visual, &self.trees[0].tree);
            assert(self@.trees[1].tree.copied(copy) && copy.held_as(
                model(visual),
                self@.trees[0].tree,
            ));
            visual
        } else {
            self.current_visual_tree(eased)
        };
        self.retire_queued_blockers();
        self.trees.clear();
        let tree: Tree<TreeNode> = duplicate(&visual);
        self.trees.push(QueuedTree { tree, duration: 0, blocker: None, retargetable: false });
        self.animation_start = None;
        visual
    }

    /// The tree to change directly: the newest one, unless a transition is on the way, which
    /// is stopped.
    pub fn prepare_direct_tree(&mut self, eased: &Vec<EasedArea>) -> (tree: Tree<TreeNode>)
        requires
            old(self)@.wf(),
        ensures
            if old(self)@.animation_start is Some || old(self)@.trees.len() > 1 && !old(
                self,
            )@.direct_pending() {
                old(self)@.interrupted(final(self)@, model(tree), eased@)
            } else {
                final(self)@ == old(self)@ && old(self)@.newest().copied(model(tree))
            },
            final(self)@.wf(),
            model(tree).settled(),
            model(tree).keyed(),
    {
        if self.animation_start.is_some() {
            return self.interrupt(eased);
        }
        let last: usize = self.trees.len() - 1;
        assert(self@.trees[last as int] == self.trees@[last as int]@);
        assert(self@.trees[last as int].tree.settled());
        if self.trees.len() > 1 && self.trees[last].duration != 0 {
            return self.interrupt(eased);
        }
        duplicate(&self.trees[last].tree)
    }

    /// Puts a tree at the end that the way to starts from what is shown.
    fn push_headed(&mut self, tree: Tree<TreeNode>, duration: u64, blocker: Option<u64>)
        ensures
            final(self)@ == old(self)@.headed(model(tree), duration, blocker),
            old(self)@.wf() && model(tree).settled() && model(tree).keyed() ==> final(self)@.wf(),
    {
        let ghost before = self@;
        self.trees.push(QueuedTree { tree, duration, blocker, retargetable: true });
        assert(self@ =~~= before.headed(model(tree), duration, blocker));
        proof {
            if before.wf() && model(tree).settled() && model(tree).keyed() {
                assert forall|i: int| 0 <= i < self@.trees.len() implies (
                #[trigger] self@.trees[i]).tree.settled() && self@.trees[i].tree.keyed() by {
                    if i < before.trees.len() {
                        assert(self@.trees[i] == before.trees[i]);
                    }
                }
            }
        }
    }

    /// Starts on the way to the newest tree from what is shown, without waiting for an older
    /// transition.
    pub fn push_retargetable_tree(
        &mut self,
        tree: Tree<TreeNode>,
        duration: u64,
        blocker: Option<u64>,
        eased: &Vec<EasedArea>,
    )
        requires
            old(self)@.wf(),
            model(tree).settled(),
            model(tree).keyed(),
        ensures
            old(self)@.retargeted(final(self)@, model(tree), duration, blocker, eased@),
            final(self)@.wf(),
            final(self)@.trees.len() <= 2,
    {
        let ghost before = self@;
        if self.animation_start.is_some() || self.trees.len() > 1 {
            let mut target: Tree<TreeNode> = tree;
            clear_minimize_rects(&mut target);
            let visual: Tree<TreeNode> = self.interrupt(eased);
            let ghost stopped = self@;
            self.push_headed(target, duration, blocker);
            assert(before.interrupted(stopped, model(visual), eased@) && model(tree).unminimized(
                model(target),
            ) && self@ == stopped.headed(model(target), duration, blocker));
        } else {
            self.push_headed(tree, duration, blocker);
        }
    }

    /// Lets go of the waits that were given up. Returns whether their windows are to be
    /// released.
    pub fn update_retired_blocker(&mut self, ready: bool, processed: bool) -> (release: bool)
        ensures
            release == (old(self)@.retired.len() > 0 && ready),
            final(self)@ == (QueueView {
                retired: if processed {
                    seq![]
                } else {
                    old(self)@.retired
                },
                ..old(self)@
            }),
    {
        let ghost before = self@;
        if self.retired.len() == 0 {
            assert(self@.retired =~= seq![]);
            return false;
        }
        if processed {
            self.retired = Vec::new();
        }
        assert(self@ =~~= (QueueView {
            retired: if processed {
                seq![]
            } else {
                before.retired
            },
            ..before
        }));
        ready
    }
}

impl DataView {
    /// The data with what is known now of a window.
    pub open spec fn with_record(self, window: Window) -> DataView {
        match self {
            DataView::Mapped { mapped, last_geometry, minimize_rect } => if mapped.id == window.id {
                DataView::Mapped { mapped: window, last_geometry, minimize_rect }
            } else {
                self
            },
            _ => self,
        }
    }
}

impl TreeModel {
    /// Whether `after` is this tree with what is known now of a window.
    pub open spec fn recorded(self, after: TreeModel, window: Window) -> bool {
        &&& self.same_shape(after)
        &&& forall|id: NodeId| #[trigger]
            after.has(id) ==> after.data(id) == self.data(id).with_record(window)
    }
}

/// Notes what is known now of a window.
fn record_window(tree: &mut Tree<TreeNode>, window: Window)
    requires
        model(*old(tree)).settled(),
        model(*old(tree)).keyed(),
    ensures
        model(*old(tree)).recorded(model(*final(tree)), window),
        model(*final(tree)).settled(),
        model(*final(tree)).keyed(),
{
    let ghost shape = model(*tree);
    proof {
        lemma_sound(shape);
    }
    let root: NodeId = match root_id(tree) {
        Some(root) => root,
        None => {
            proof {
                crate::classic::lemma_empty(shape);
            }
            return;
        },
    };
    let order: Vec<NodeId> = all_nodes(tree, &root);
    let ghost change = |id: NodeId| shape.data(id).with_record(window);
    let mut i: usize = 0;
    while i < order.len()
        invariant
            i <= order@.len(),
            order@.no_duplicates(),
            forall|k: int| 0 <= k < order@.len() ==> shape.has(#[trigger] order@[k]),
            change == (|id: NodeId| shape.data(id).with_record(window)),
            partly_changed(shape, model(*tree), order@.take(i as int), change),
        decreases order@.len() - i,
    {
        let ghost now = model(*tree);
        let id: NodeId = copy_id(&order[i]);
        proof {
            assert(shape.has(order@[i as int]));
            assert(now.has(id));
            assert(!order@.take(i as int).contains(id)) by {
                if order@.take(i as int).contains(id) {
                    let k = order@.take(i as int).index_of(id);
                    assert(order@[k] == order@[i as int]);
                }
            }
            assert(now.data(id) == shape.data(id));
        }
        match get_node_mut(tree, &id) {
            Some(node) => match &mut node.data {
                Data::Mapped { mapped, .. } => {
                    if mapped.id == window.id {
                        *mapped = window;
                    }
                },
                _ => {},
            },
            None => {},
        }
        proof {
            assert(model(*tree) =~~= now.with_data(id, change(id)));
            lemma_change_one(shape, now, order@, i as int, change);
        }
        i += 1;
    }
    proof {
        let after = model(*tree);
        assert(order@.take(order@.len() as int) =~= order@);
        assert forall|id: NodeId| #[trigger] after.has(id) implies after.data(id) == shape.data(
            id,
        ).with_record(window) by {
            assert(shape.has(id));
        }
        lemma_same_rooms(shape, after);
    }
}

impl QueueView {
    /// Whether `after` is this queue with what is known now of a window in every tree.
    pub open spec fn recorded(self, after: QueueView, window: Window) -> bool {
        &&& after.trees.len() == self.trees.len()
        &&& after.animation_start == self.animation_start
        &&& after.retired == self.retired
        &&& forall|i: int|
            0 <= i < self.trees.len() ==> self.trees[i].tree.recorded(
                (#[trigger] after.trees[i]).tree,
                window,
            ) && after.trees[i].duration == self.trees[i].duration && after.trees[i].blocker
                == self.trees[i].blocker && after.trees[i].retargetable
                == self.trees[i].retargetable
    }
}

impl TreeQueue {
    /// Notes what is known now of a window.
    pub fn update_window(&mut self, window: Window)
        requires
            old(self)@.wf(),
        ensures
            old(self)@.recorded(final(self)@, window),
            final(self)@.wf(),
    {
        let ghost before = self@;
        let mut i: usize = 0;
        while i < self.trees.len()
            invariant
                i <= self.trees@.len(),
                before.wf(),
                self.trees@.len() == before.trees.len(),
                self.animation_start == before.animation_start,
                self.retired@ == before.retired,
                forall|k: int|
                    0 <= k < i ==> before.trees[k].tree.recorded(
                        model((#[trigger] self.trees@[k]).tree),
                        window,
                    ) && self.trees@[k].duration == before.trees[k].duration
                        && self.trees@[k].blocker == before.trees[k].blocker
                        && self.trees@[k].retargetable == before.trees[k].retargetable && model(
                        self.trees@[k].tree,
                    ).settled() && model(self.trees@[k].tree).keyed(),
                forall|k: int|
                    i <= k < self.trees@.len() ==> (#[trigger] self.trees@[k])@ == before.trees[k],
            decreases self.trees@.len() - i,
        {
            assert(self.trees@[i as int]@ == before.trees[i as int]);
            assert(before.trees[i as int].tree.settled());
            let ghost now = self.trees@;
            let QueuedTree { mut tree, duration, blocker, retargetable } = self.trees.remove(i);
            record_window(&mut tree, window);
            self.trees.insert(i, QueuedTree { tree, duration, blocker, retargetable });
            assert forall|k: int| 0 <= k < self.trees@.len() && k != i implies (
            #[trigger] self.trees@[k]) == now[k] by {}
            i += 1;
        }
        proof {
            assert forall|k: int| 0 <= k < before.trees.len() implies before.trees[k].tree.recorded(
                (#[trigger] self@.trees[k]).tree,
                window,
            ) && self@.trees[k].duration == before.trees[k].duration && self@.trees[k].blocker
                == before.trees[k].blocker && self@.trees[k].retargetable
                == before.trees[k].retargetable && self@.trees[k].tree.settled()
                && self@.trees[k].tree.keyed() by {
                assert(self@.trees[k] == self.trees@[k]@);
            }
        }
    }
}

/// How far a wait has come.
#[derive(Clone, Copy, Debug, PartialEq, Eq, Structural)]
pub struct WaitState {
    /// Whether all windows changed, or were given up.
    pub processed: bool,
    /// Whether the windows may be released.
    pub ready: bool,
}

/// How many of the trees from `start` on need not be waited for. `waits` has the states of the
/// waits for all trees but the first.
pub open spec fn ready_trees(trees: Seq<QueuedView>, waits: Seq<WaitState>, start: int) -> nat
    decreases trees.len() - start,
{
    if start < 1 || start >= trees.len() {
        0
    } else if trees[start].blocker is None {
        1 + ready_trees(trees, waits, start + 1)
    } else {
        let counted: nat = if waits[start - 1].processed {
            1
        } else {
            0
        };
        if waits[start - 1].ready {
            counted + ready_trees(trees, waits, start + 1)
        } else {
            counted
        }
    }
}

/// The waits for trees from `start` on whose windows may be released, up to the first one whose
/// windows may not.
pub open spec fn released(trees: Seq<QueuedView>, waits: Seq<WaitState>, start: int) -> Seq<u64>
    decreases trees.len() - start,
{
    if start < 1 || start >= trees.len() {
        seq![]
    } else {
        match trees[start].blocker {
            None => released(trees, waits, start + 1),
            Some(blocker) => if waits[start - 1].ready {
                seq![blocker] + released(trees, waits, start + 1)
            } else {
                seq![]
            },
        }
    }
}

/// The longest of the transitions to the trees at 1 to `last`.
pub open spec fn longest(trees: Seq<QueuedView>, last: int) -> u64
    decreases last,
{
    if last <= 1 {
        trees[1].duration
    } else {
        let before = longest(trees, last - 1);
        if before >= trees[last].duration {
            before
        } else {
            trees[last].duration
        }
    }
}

impl QueueView {
    /// Whether the transition that is being shown is over.
    pub open spec fn arrived(self, now: u64) -> bool {
        self.animation_start matches Some(start) && (if now >= start {
            now - start
        } else {
            0
        }) >= self.trees[1].duration
    }

    /// Whether `after` is this queue with its first tree left behind.
    pub open spec fn stepped(self, after: QueueView) -> bool {
        &&& after.trees.len() == self.trees.len() - 1
        &&& self.trees[1].tree.unminimized(after.trees[0].tree)
        &&& after.trees[0].duration == self.trees[1].duration
        &&& after.trees[0].blocker is None
        &&& after.trees[0].retargetable == self.trees[1].retargetable
        &&& forall|i: int|
            1 <= i < after.trees.len() ==> #[trigger] after.trees[i] == self.trees[i + 1]
        &&& after.animation_start is None
        &&& after.retired == self.retired
    }

    /// The queue on the way to the last of the next `ready` trees; those before it are left
    /// out.
    pub open spec fn started(self, ready: int, now: u64) -> QueueView {
        if ready <= 0 {
            self
        } else {
            QueueView {
                trees: seq![
                    self.trees[0],
                    QueuedView { duration: longest(self.trees, ready), ..self.trees[ready] },
                ] + self.trees.skip(ready + 1),
                animation_start: Some(now),
                ..self
            }
        }
    }

    /// Whether `after` is this queue some time later.
    pub open spec fn advanced(self, after: QueueView, waits: Seq<WaitState>, now: u64) -> bool {
        let ready = ready_trees(self.trees, waits, 1) as int;
        if self.animation_start is None {
            after == self.started(ready, now)
        } else if self.arrived(now) {
            exists|next: QueueView| #[trigger]
                self.stepped(next) && after == next.started(ready - 1, now)
        } else {
            after == self
        }
    }
}

/// No more trees are ready than there are.
pub proof fn lemma_ready_trees(trees: Seq<QueuedView>, waits: Seq<WaitState>, start: int)
    requires
        1 <= start <= trees.len(),
    ensures
        ready_trees(trees, waits, start) <= trees.len() - start,
    decreases trees.len() - start,
{
    if start < trees.len() {
        lemma_ready_trees(trees, waits, start + 1);
    }
}

impl TreeQueue {
    /// Counts the trees that need not be waited for, and gathers the waits whose windows may
    /// be released.
    fn ready(&self, waits: &Vec<WaitState>) -> (result: (usize, Vec<u64>))
        requires
            self@.wf(),
            waits@.len() + 1 == self@.trees.len(),
        ensures
            result.0 == ready_trees(self@.trees, waits@, 1),
            result.1@ == released(self@.trees, waits@, 1),
    {
        let mut ready: usize = 0;
        let mut clients: Vec<u64> = Vec::new();
        let mut i: usize = 1;
        let ghost trees = self@.trees;
        assert(seq![] + released(trees, waits@, 1) =~= released(trees, waits@, 1));
        while i < self.trees.len()
            invariant
                1 <= i <= self.trees@.len(),
                trees == self@.trees,
                waits@.len() + 1 == trees.len(),
                ready < i,
                ready_trees(trees, waits@, 1) == ready + ready_trees(trees, waits@, i as int),
                released(trees, waits@, 1) == clients@ + released(trees, waits@, i as int),
            decreases self.trees@.len() - i,
        {
            let len: usize = self.trees.len();
            assert(trees[i as int] == self.trees@[i as int]@);
            match self.trees[i].blocker {
                None => {
                    ready += 1;
                },
                Some(blocker) => {
                    if waits[i - 1].processed {
                        ready += 1;
                    }
                    if !waits[i - 1].ready {
                        assert(clients@ + seq![] =~= clients@);
                        return (ready, clients);
                    }
                    let ghost rest = released(trees, waits@, i as int + 1);
                    assert(clients@ + (seq![blocker] + rest) =~= clients@.push(blocker) + rest);
                    clients.push(blocker);
                },
            }
            i += 1;
        }
        assert(clients@ + seq![] =~= clients@);
        (ready, clients)
    }

    /// Leaves the first tree behind.
    fn step(&mut self)
        requires
            old(self)@.wf(),
            old(self)@.animation_start is Some,
        ensures
            old(self)@.stepped(final(self)@),
            final(self)@.wf(),
    {
        let ghost before = self@;
        self.animation_start = None;
        let _ = self.trees.remove(0);
        assert(self.trees@[0]@ == before.trees[1]);
        assert(before.trees[1].tree.settled());
        let QueuedTree { mut tree, duration, retargetable, .. } = self.trees.remove(0);
        clear_minimize_rects(&mut tree);
        self.trees.insert(0, QueuedTree { tree, duration, blocker: None, retargetable });
        assert forall|i: int| 1 <= i < self@.trees.len() implies #[trigger] self@.trees[i]
            == before.trees[i + 1] by {
            assert(self.trees@[i]@ == before.trees[i + 1]);
        }
        assert forall|i: int| 0 <= i < self@.trees.len() implies (
        #[trigger] self@.trees[i]).tree.settled() && self@.trees[i].tree.keyed() by {
            if i > 0 {
                assert(before.trees[i + 1].tree.settled());
            }
        }
    }

    /// Sets out for the last of the next trees, and leaves out those before it.
    fn start(&mut self, ready: usize, now: u64)
        requires
            old(self)@.wf(),
            ready < old(self)@.trees.len(),
        ensures
            final(self)@ == old(self)@.started(ready as int, now),
            final(self)@.wf() || ready == 0 && final(self)@ == old(self)@,
    {
        if ready == 0 {
            return;
        }
        let ghost before = self@;
        assert(self.trees@[1]@ == before.trees[1]);
        let mut duration: u64 = self.trees[1].duration;
        let mut k: usize = 1;
        while k < ready
            invariant
                1 <= k <= ready,
                ready < before.trees.len(),
                self@.animation_start == before.animation_start,
                self@.retired == before.retired,
                self.trees@.len() == before.trees.len() - (k - 1),
                self.trees@[0]@ == before.trees[0],
                forall|i: int|
                    1 <= i < self.trees@.len() ==> (#[trigger] self.trees@[i])@ == before.trees[i
                        + k - 1],
                duration == longest(before.trees, k as int),
            decreases ready - k,
        {
            let _ = self.trees.remove(1);
            assert(self.trees@[1]@ == before.trees[k as int + 1]);
            if self.trees[1].duration > duration {
                duration = self.trees[1].duration;
            }
            k += 1;
        }
        assert(self.trees@[1]@ == before.trees[ready as int]);
        self.trees[1].duration = duration;
        self.animation_start = Some(now);
        assert(self@ =~~= before.started(ready as int, now)) by {
            let after = before.started(ready as int, now);
            assert(self@.trees.len() == after.trees.len());
            assert forall|i: int| 0 <= i < after.trees.len() implies self@.trees[i]
                == after.trees[i] by {
                if i >= 2 {
                    assert(after.trees[i] == before.trees[i + ready - 1]);
                    assert(self.trees@[i]@ == before.trees[i + ready - 1]);
                }
            }
        }
        assert forall|i: int| 0 <= i < self@.trees.len() implies (
        #[trigger] self@.trees[i]).tree.settled() && self@.trees[i].tree.keyed() by {
            if i == 0 {
                assert(before.trees[0].tree.settled());
            } else {
                assert(before.trees[i + ready - 1].tree.settled());
            }
        }
    }

    /// Goes on to the next trees, as far as the time and the waits allow. `waits` has the
    /// states of the waits for all trees but the first. Returns the waits whose windows may be
    /// released.
    pub fn update_animation_state(&mut self, now: u64, waits: &Vec<WaitState>) -> (clients: Vec<
        u64,
    >)
        requires
            old(self)@.wf(),
            waits@.len() + 1 == old(self)@.trees.len(),
            old(self)@.animation_start is Some && old(self)@.trees[1].blocker is Some
                ==> waits@[0].processed,
        ensures
            clients@ == released(old(self)@.trees, waits@, 1),
            old(self)@.advanced(final(self)@, waits@, now),
            final(self)@.wf(),
    {
        let ghost before = self@;
        let (ready, clients) = self.ready(waits);
        proof {
            lemma_ready_trees(before.trees, waits@, 1);
        }
        let mut left: usize = ready;
        match self.animation_start {
            Some(begun) => {
                let elapsed: u64 = if now >= begun {
                    now - begun
                } else {
                    0
                };
                assert(self.trees@[1]@ == before.trees[1]);
                if elapsed < self.trees[1].duration {
                    return clients;
                }
                self.step();
                left = left - 1;
                let ghost next = self@;
                self.start(left, now);
                assert(before.stepped(next) && self@ == next.started(ready - 1, now));
            },
            None => {
                self.start(left, now);
            },
        }
        clients
    }
}

/// The empty tree is in order.
pub proof fn lemma_empty_settled(tree: TreeModel)
    requires
        tree == TreeModel::empty(),
    ensures
        tree.settled(),
        tree.keyed(),
{
    lemma_sound(tree);
    assert(tree.ranked(Map::empty()));
    assert(tree.forest());
}

} // verus!
