//! Bringing windows into the tiling layout of a workspace, and taking them out.

use vstd::prelude::*;

use id_tree::{NodeId, Tree};

use crate::actions::Direction;
use crate::balance::lemma_sound;
use crate::classic::Configure;
use crate::config::TilingEngine;
use crate::copies::{law_copies_are_alike, lemma_copied_item, node_by_key};
use crate::data::{Data, Window};
use crate::focus::key_of;
use crate::geometry::Rectangle;
use crate::keys::KeySource;
use crate::layout::{LayoutView, TilingLayout};
use crate::lookups::last_active_window;
use crate::queue::{EasedArea, ANIMATION_DURATION, MINIMIZE_ANIMATION_DURATION};
use crate::reshape::{
    lemma_added_keys, restore_beside, restore_in_group, RestoreTilingState, RestoreView,
};
use crate::scrolling::ScrollView;
use crate::surgery::{map_to_tree, new_window};
use crate::tree::{get_node, model, TreeModel, TreeNode};

verus! {

/// The windows that had the focus before, if known, as the contracts speak of them.
pub open spec fn stack_of(focus_stack: Option<Vec<u64>>) -> Option<Seq<u64>> {
    match focus_stack {
        Some(stack) => Some(stack@),
        None => None,
    }
}

impl TreeModel {
    /// Whether `anchor` is the node that a new window is put next to.
    pub open spec fn anchored(self, stack: Option<Seq<u64>>, anchor: Option<NodeId>) -> bool {
        match stack {
            Some(windows) => self.finds_first(windows, anchor),
            None => anchor is None,
        }
    }

    /// The key of a node, if there is one.
    pub open spec fn key_at(self, id: Option<NodeId>) -> Option<u64> {
        match id {
            Some(id) => Some(self.key(id)),
            None => None,
        }
    }
}

/// How long the way takes for a window that comes from where it was minimized to, or does not.
pub open spec fn duration_for(minimized: bool) -> u64 {
    if minimized {
        MINIMIZE_ANIMATION_DURATION
    } else {
        ANIMATION_DURATION
    }
}

impl LayoutView {
    /// Whether `after` is this layout with a new window, and `configures` what the windows have
    /// to be asked to do for it. Its key is `key`, and the next one belongs to the group that
    /// it may need.
    pub open spec fn maps(
        self,
        after: LayoutView,
        window: Window,
        stack: Option<Seq<u64>>,
        direction: Option<Direction>,
        minimize_rect: Option<Rectangle>,
        key: u64,
        eased: Seq<EasedArea>,
        configures: Seq<Configure>,
    ) -> bool {
        exists|copy: TreeModel, tree: TreeModel, id: NodeId, anchor: Option<NodeId>|
            self.newest().copied(copy) && #[trigger] copy.anchored(stack, anchor) && !copy.has(id)
                && #[trigger] copy.mapped_as(
                tree,
                id,
                new_window(key, window, minimize_rect),
                (key + 1) as u64,
                self.output_size,
                anchor,
                direction,
            ) && self.committed(
                after,
                tree,
                duration_for(minimize_rect is Some),
                eased,
                configures,
                None,
            )
    }

    /// Whether `after` is this layout with a new window that was not there before: the
    /// scrolling layout puts it to the right of the focused column.
    pub open spec fn maps_new(
        self,
        after: LayoutView,
        window: Window,
        stack: Option<Seq<u64>>,
        key: u64,
        eased: Seq<EasedArea>,
        configures: Seq<Configure>,
    ) -> bool {
        exists|copy: TreeModel, tree: TreeModel, id: NodeId, anchor: Option<NodeId>|
            self.newest().copied(copy) && #[trigger] copy.anchored(stack, anchor) && !copy.has(id)
                && #[trigger] copy.mapped_as(
                tree,
                id,
                new_window(key, window, None),
                (key + 1) as u64,
                self.output_size,
                anchor,
                None,
            ) && self.with_new_toplevel(key, copy.key_at(anchor)).committed(
                after,
                tree,
                ANIMATION_DURATION,
                eased,
                configures,
                None,
            )
    }

    /// The layout with a new window on the strip, if it scrolls.
    pub open spec fn with_new_toplevel(self, key: u64, focused: Option<u64>) -> LayoutView {
        match self.engine {
            TilingEngine::Classic => self,
            TilingEngine::Scrolling => LayoutView {
                scroll: ScrollView {
                    strip: self.scroll.strip.with_new_toplevel(key, focused),
                    ..self.scroll
                },
                ..self
            },
        }
    }
}

/// A tree with a new window has no other keys than before and the two new ones.
proof fn lemma_mapped_keys(tree: TreeModel, after: TreeModel, id: NodeId, key: u64, window: Window, rect: Option<Rectangle>)
    requires
        tree.added_well(after, id, new_window(key, window, rect), (key + 1) as u64),
        tree.keyed(),
        tree.keys_below(key),
        key + 2 <= u64::MAX,
    ensures
        after.keyed(),
        after.keys_below((key + 2) as u64),
{
    lemma_added_keys(tree, after, id, new_window(key, window, rect), (key + 1) as u64);
    reveal(TreeModel::grows_two);
    assert(!tree.has_key(key) && !tree.has_key((key + 1) as u64));
}

/// What is in order with all keys below a bound is so with a higher bound.
pub proof fn lemma_higher(layout: LayoutView, bound: u64, higher: u64)
    requires
        layout.wf(bound),
        bound <= higher,
    ensures
        layout.wf(higher),
{
    assert forall|i: int| 0 <= i < layout.queue.trees.len() implies (
    #[trigger] layout.queue.trees[i]).tree.keys_below(higher) by {
        assert(layout.queue.trees[i].tree.keys_below(bound));
    }
}

impl TilingLayout {
    /// The node that a new window is put next to.
    fn anchor_in(tree: &Tree<TreeNode>, focus_stack: &Option<Vec<u64>>) -> (anchor: Option<NodeId>)
        requires
            model(*tree).settled(),
        ensures
            model(*tree).anchored(stack_of(*focus_stack), anchor),
            match anchor {
                Some(id) => model(*tree).has(id),
                None => true,
            },
    {
        match focus_stack {
            Some(stack) => last_active_window(tree, stack),
            None => None,
        }
    }

    /// Adds a window: next to the one that had the focus last, or at the side that it moves
    /// away from. Returns its key.
    pub fn map_internal(
        &mut self,
        window: Window,
        focus_stack: &Option<Vec<u64>>,
        direction: Option<Direction>,
        minimize_rect: Option<Rectangle>,
        keys: &mut KeySource,
        eased: &Vec<EasedArea>,
    ) -> (result: (u64, Vec<Configure>))
        requires
            old(self)@.wf(old(keys).next),
            old(keys).next + 2 <= u64::MAX,
        ensures
            result.0 == old(keys).next,
            old(self)@.maps(
                final(self)@,
                window,
                stack_of(*focus_stack),
                direction,
                minimize_rect,
                result.0,
                eased@,
                result.1@,
            ),
            final(keys).next == old(keys).next + 2,
            final(self)@.wf(final(keys).next),
    {
        let ghost before = self@;
        let mut tree: Tree<TreeNode> = self.newest_copy();
        let ghost copy = model(tree);
        assert(copy.keys_below(keys.next));
        assert(copy.forest() && copy.regular()) by {
            lemma_sound(copy);
        }
        let anchor: Option<NodeId> = TilingLayout::anchor_in(&tree, focus_stack);
        let key: u64 = keys.take();
        let group_key: u64 = keys.take();
        let id: NodeId = map_to_tree(
            &mut tree,
            window,
            self.output_size,
            anchor.as_ref(),
            direction,
            minimize_rect,
            key,
            group_key,
        );
        let duration: u64 = if minimize_rect.is_some() {
            MINIMIZE_ANIMATION_DURATION
        } else {
            ANIMATION_DURATION
        };
        let ghost mapped = model(tree);
        proof {
            lemma_mapped_keys(copy, mapped, id, key, window, minimize_rect);
            assert(mapped.sound()) by {
                lemma_sound(mapped);
            }
            lemma_higher(self@, key, keys.next);
        }
        let configures: Vec<Configure> = self.commit(tree, duration, eased, None);
        proof {
            assert(before.newest().copied(copy) && copy.anchored(stack_of(*focus_stack), anchor)
                && !copy.has(id) && copy.mapped_as(
                mapped,
                id,
                new_window(key, window, minimize_rect),
                (key + 1) as u64,
                before.output_size,
                anchor,
                direction,
            ));
        }
        (key, configures)
    }
}

impl TreeModel {
    /// Whether a window fits where it was before: in its group there is one child less than it
    /// remembers, or next to its sibling.
    pub open spec fn restorable(self, state: RestoreView) -> bool {
        match self.restoring_group(state) {
            Some(key) => state.sizes.len() == self.data(self.node_keyed(key))->sizes.len() + 1,
            None => match self.restoring_sibling(state) {
                Some(key) => state.sizes.len() == 2,
                None => true,
            },
        }
    }

    /// The key of the group that a window was in, if it is there.
    pub open spec fn restoring_group(self, state: RestoreView) -> Option<u64> {
        match state.parent {
            Some(key) => if self.has_key(key) && self.data(self.node_keyed(key)) is Group {
                Some(key)
            } else {
                None
            },
            None => None,
        }
    }

    /// The key of the node that a window was next to, if it is there.
    pub open spec fn restoring_sibling(self, state: RestoreView) -> Option<u64> {
        match state.sibling {
            Some(key) => if self.has_key(key) {
                Some(key)
            } else {
                None
            },
            None => None,
        }
    }

    /// Whether `after` is this tree with a window back where it was.
    pub open spec fn restored_as(
        self,
        after: TreeModel,
        id: NodeId,
        window: Window,
        from: Option<Rectangle>,
        key: u64,
        state: RestoreView,
    ) -> bool {
        let item = new_window(key, window, from);
        match self.restoring_group(state) {
            Some(group) => after == self.restored_in(id, item, self.node_keyed(group), state),
            None => match self.restoring_sibling(state) {
                Some(sibling) => self.restored_beside(
                    after,
                    id,
                    item,
                    self.node_keyed(sibling),
                    (key + 1) as u64,
                    state,
                ),
                None => false,
            },
        }
    }

    /// Whether there is a place that a window was in before.
    pub open spec fn remembers(self, state: Option<RestoreView>) -> bool {
        state matches Some(state) && (self.restoring_group(state) is Some || self.restoring_sibling(
            state,
        ) is Some)
    }
}

/// Where a window was, if that is known, as the contracts speak of it.
pub open spec fn restore_view(state: Option<RestoreTilingState>) -> Option<RestoreView> {
    match state {
        Some(state) => Some(state@),
        None => None,
    }
}

impl LayoutView {
    /// Whether `after` is this layout with a window back where it was, or with a new one.
    pub open spec fn remaps(
        self,
        after: LayoutView,
        window: Window,
        from: Option<Rectangle>,
        state: Option<RestoreView>,
        stack: Option<Seq<u64>>,
        key: u64,
        eased: Seq<EasedArea>,
        configures: Seq<Configure>,
    ) -> bool {
        if self.newest().remembers(state) {
            exists|copy: TreeModel, tree: TreeModel, id: NodeId|
                self.newest().copied(copy) && !copy.has(id) && #[trigger] copy.restored_as(
                    tree,
                    id,
                    window,
                    from,
                    key,
                    state->0,
                ) && self.committed(
                    after,
                    tree,
                    MINIMIZE_ANIMATION_DURATION,
                    eased,
                    configures,
                    None,
                )
        } else {
            self.maps(after, window, stack, None, from, key, eased, configures)
        }
    }
}

/// A copy remembers the same places.
proof fn lemma_copied_places(tree: TreeModel, copy: TreeModel, state: RestoreView)
    requires
        tree.copied(copy),
        tree.keyed(),
    ensures
        copy.restoring_group(state) == tree.restoring_group(state),
        copy.restoring_sibling(state) == tree.restoring_sibling(state),
        tree.restorable(state) ==> copy.restorable(state),
{
    law_copies_are_alike(tree, copy);
    match state.parent {
        Some(key) => {
            if tree.has_key(key) {
                lemma_copied_item(tree, copy, key);
            }
        },
        None => {},
    }
}

impl TilingLayout {
    /// Puts a window back where it was in a tree, if that place is there. Returns whether it
    /// is.
    fn restore(
        tree: &mut Tree<TreeNode>,
        window: Window,
        from: Option<Rectangle>,
        state: RestoreTilingState,
        key: u64,
        group_key: u64,
    ) -> (restored: bool)
        requires
            model(*old(tree)).settled(),
            model(*old(tree)).keyed(),
            model(*old(tree)).keys_below(key),
            model(*old(tree)).restorable(state@),
            key + 2 <= u64::MAX,
            group_key == key + 1,
        ensures
            restored == model(*old(tree)).remembers(Some(state@)),
            restored ==> exists|id: NodeId|
                !model(*old(tree)).has(id) && #[trigger] model(*old(tree)).restored_as(
                    model(*final(tree)),
                    id,
                    window,
                    from,
                    key,
                    state@,
                ),
            !restored ==> model(*final(tree)) == model(*old(tree)),
            model(*final(tree)).settled(),
            model(*final(tree)).keyed(),
            model(*final(tree)).keys_below((key + 2) as u64),
    {
        let ghost before = model(*tree);
        let ghost view = state@;
        assert(before.regular()) by {
            lemma_sound(before);
        }
        let node = TreeNode {
            key,
            data: Data::Mapped {
                mapped: window,
                last_geometry: Rectangle::new(0, 0, 100, 100),
                minimize_rect: from,
            },
        };
        let ghost item = node@;
        assert(item == new_window(key, window, from));
        assert(!before.has_key(key) && !before.has_key(group_key));
        match state.parent {
            Some(parent) => match node_by_key(tree, parent) {
                Some(group) => {
                    assert(before.has(group) && before.key(group) == parent);
                    let is_group: bool = match get_node(tree, &group) {
                        Some(found) => found.data.is_group(),
                        None => false,
                    };
                    if is_group {
                        let id: NodeId = restore_in_group(tree, node, &group, state);
                        proof {
                            reveal(TreeModel::grows_keys);
                            assert(before.restored_as(
                                model(*tree),
                                id,
                                window,
                                from,
                                key,
                                view,
                            ));
                        }
                        return true;
                    }
                },
                None => {},
            },
            None => {},
        }
        assert(before.restoring_group(view) is None);
        match state.sibling {
            Some(sibling) => match node_by_key(tree, sibling) {
                Some(other) => {
                    assert(before.has(other) && before.key(other) == sibling);
                    let id: NodeId = restore_beside(tree, node, &other, state, group_key);
                    proof {
                        reveal(TreeModel::grows_two);
                        assert(before.restored_as(model(*tree), id, window, from, key, view));
                    }
                    true
                },
                None => false,
            },
            None => false,
        }
    }

    /// Whether a window still fits where it was.
    pub fn can_restore(&self, state: &RestoreTilingState) -> (yes: bool)
        requires
            self@.ready(),
        ensures
            yes == self@.newest().restorable(state@),
    {
        let tree: &Tree<TreeNode> = self.tree();
        let ghost shape = model(*tree);
        assert(shape.regular()) by {
            lemma_sound(shape);
        }
        match state.parent {
            Some(parent) => match node_by_key(tree, parent) {
                Some(group) => {
                    assert(shape.has(group) && shape.key(group) == parent);
                    match get_node(tree, &group) {
                        Some(found) => match &found.data {
                            Data::Group { sizes, .. } => {
                                return sizes.len() < state.sizes.len() && state.sizes.len()
                                    - sizes.len() == 1;
                            },
                            _ => {},
                        },
                        None => {},
                    }
                },
                None => {},
            },
            None => {},
        }
        assert(shape.restoring_group(state@) is None);
        match state.sibling {
            Some(sibling) => match node_by_key(tree, sibling) {
                Some(other) => {
                    assert(shape.has(other) && shape.key(other) == sibling);
                    state.sizes.len() == 2
                },
                None => true,
            },
            None => true,
        }
    }

    /// Puts a window back where it was, or adds it as a new one. Returns its key.
    pub fn remap(
        &mut self,
        window: Window,
        from: Option<Rectangle>,
        tiling_state: Option<RestoreTilingState>,
        focus_stack: &Option<Vec<u64>>,
        keys: &mut KeySource,
        eased: &Vec<EasedArea>,
    ) -> (result: (u64, Vec<Configure>))
        requires
            old(self)@.wf(old(keys).next),
            old(keys).next + 2 <= u64::MAX,
            match tiling_state {
                Some(state) => old(self)@.newest().restorable(state@),
                None => true,
            },
        ensures
            result.0 == old(keys).next,
            old(self)@.remaps(
                final(self)@,
                window,
                from,
                restore_view(tiling_state),
                stack_of(*focus_stack),
                result.0,
                eased@,
                result.1@,
            ),
            final(keys).next == old(keys).next + 2,
            final(self)@.wf(final(keys).next),
    {
        let ghost before = self@;
        let ghost newest = before.newest();
        assert(before.queue.trees[before.queue.trees.len() - 1].tree.keyed());
        match tiling_state {
            Some(state) => {
                let mut tree: Tree<TreeNode> = self.newest_copy();
                let ghost copy = model(tree);
                let ghost view = state@;
                assert(copy.keys_below(keys.next));
                proof {
                    lemma_copied_places(newest, copy, view);
                }
                let key: u64 = keys.next;
                let restored: bool = TilingLayout::restore(
                    &mut tree,
                    window,
                    from,
                    state,
                    key,
                    key + 1,
                );
                if restored {
                    let _ = keys.take();
                    let _ = keys.take();
                    let ghost bound = keys.next;
                    let ghost after = model(tree);
                    proof {
                        assert(after.sound()) by {
                            lemma_sound(after);
                        }
                        lemma_higher(self@, key, bound);
                    }
                    let configures: Vec<Configure> = self.commit(
                        tree,
                        MINIMIZE_ANIMATION_DURATION,
                        eased,
                        None,
                                );
                    proof {
                        let id = choose|id: NodeId|
                            !copy.has(id) && #[trigger] copy.restored_as(
                                after,
                                id,
                                window,
                                from,
                                key,
                                view,
                            );
                        assert(newest.copied(copy) && !copy.has(id) && copy.restored_as(
                            after,
                            id,
                            window,
                            from,
                            key,
                            view,
                        ));
                    }
                    return (key, configures);
                }
                assert(!newest.remembers(Some(view)));
            },
            None => {},
        }
        self.map_internal(window, focus_stack, None, from, keys, eased)
    }

    /// Puts a window back where it was if it still fits there, and else adds it as a new one.
    /// Returns its key.
    pub fn remap_if_fitting(
        &mut self,
        window: Window,
        from: Option<Rectangle>,
        tiling_state: Option<RestoreTilingState>,
        focus_stack: &Option<Vec<u64>>,
        keys: &mut KeySource,
        eased: &Vec<EasedArea>,
    ) -> (result: (u64, Vec<Configure>))
        requires
            old(self)@.wf(old(keys).next),
            old(keys).next + 2 <= u64::MAX,
        ensures
            result.0 == old(keys).next,
            match restore_view(tiling_state) {
                Some(state) if old(self)@.newest().restorable(state) => old(self)@.remaps(
                    final(self)@,
                    window,
                    from,
                    Some(state),
                    stack_of(*focus_stack),
                    result.0,
                    eased@,
                    result.1@,
                ),
                _ => old(self)@.maps(
                    final(self)@,
                    window,
                    stack_of(*focus_stack),
                    None,
                    from,
                    result.0,
                    eased@,
                    result.1@,
                ),
            },
            final(keys).next == old(keys).next + 2,
            final(self)@.wf(final(keys).next),
    {
        match tiling_state {
            Some(state) => if self.can_restore(&state) {
                self.remap(window, from, Some(state), focus_stack, keys, eased)
            } else {
                self.map_internal(window, focus_stack, None, from, keys, eased)
            },
            None => self.map_internal(window, focus_stack, None, from, keys, eased),
        }
    }

    /// Adds a window. Returns its key.
    pub fn map(
        &mut self,
        window: Window,
        focus_stack: &Option<Vec<u64>>,
        direction: Option<Direction>,
        keys: &mut KeySource,
        eased: &Vec<EasedArea>,
    ) -> (result: (u64, Vec<Configure>))
        requires
            old(self)@.wf(old(keys).next),
            old(keys).next + 2 <= u64::MAX,
        ensures
            result.0 == old(keys).next,
            old(self)@.maps(
                final(self)@,
                window,
                stack_of(*focus_stack),
                direction,
                None,
                result.0,
                eased@,
                result.1@,
            ),
            final(keys).next == old(keys).next + 2,
            final(self)@.wf(final(keys).next),
    {
        self.map_internal(window, focus_stack, direction, None, keys, eased)
    }

    /// Adds a window that was not there before: the scrolling layout puts it to the right of
    /// the focused column. Returns its key.
    pub fn map_new_toplevel(
        &mut self,
        window: Window,
        focus_stack: &Option<Vec<u64>>,
        keys: &mut KeySource,
        eased: &Vec<EasedArea>,
    ) -> (result: (u64, Vec<Configure>))
        requires
            old(self)@.wf(old(keys).next),
            old(keys).next + 2 <= u64::MAX,
        ensures
            result.0 == old(keys).next,
            old(self)@.maps_new(
                final(self)@,
                window,
                stack_of(*focus_stack),
                result.0,
                eased@,
                result.1@,
            ),
            final(keys).next == old(keys).next + 2,
            final(self)@.wf(final(keys).next),
    {
        let ghost before = self@;
        let mut tree: Tree<TreeNode> = self.newest_copy();
        let ghost copy = model(tree);
        assert(copy.keys_below(keys.next));
        assert(copy.forest() && copy.regular()) by {
            lemma_sound(copy);
        }
        let anchor: Option<NodeId> = TilingLayout::anchor_in(&tree, focus_stack);
        let focused: Option<u64> = match &anchor {
            Some(id) => Some(key_of(&tree, id)),
            None => None,
        };
        let key: u64 = keys.take();
        let group_key: u64 = keys.take();
        let id: NodeId = map_to_tree(
            &mut tree,
            window,
            self.output_size,
            anchor.as_ref(),
            None,
            None,
            key,
            group_key,
        );
        let ghost mapped = model(tree);
        proof {
            lemma_mapped_keys(copy, mapped, id, key, window, None);
            assert(mapped.sound()) by {
                lemma_sound(mapped);
            }
            lemma_higher(self@, key, keys.next);
        }
        if self.tiling_engine == TilingEngine::Scrolling {
            self.scrolling.insert_new_toplevel(key, focused);
        }
        assert(self@ == before.with_new_toplevel(key, copy.key_at(anchor)));
        assert(self@.wf(keys.next));
        let configures: Vec<Configure> = self.commit(
            tree,
            ANIMATION_DURATION,
            eased,
            None,
        );
        proof {
            assert(before.newest().copied(copy) && copy.anchored(stack_of(*focus_stack), anchor)
                && !copy.has(id) && copy.mapped_as(
                mapped,
                id,
                new_window(key, window, None),
                (key + 1) as u64,
                before.output_size,
                anchor,
                None,
            ));
        }
        (key, configures)
    }
}

} // verus!
