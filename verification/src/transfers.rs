//! Moving and exchanging windows and groups within a layout, and between layouts.

use vstd::prelude::*;

use id_tree::{NodeId, Tree};

use crate::actions::Direction;
use crate::balance::lemma_sound;
use crate::classic::Configure;
use crate::copies::{node_by_key, swap_branches};
use crate::data::{DataView, Window};
use crate::drops::remove_node;
use crate::exchange_laws::{law_exchange_moves_just_the_two, lemma_copies_swap_alike};
use crate::focus::is_below;
use crate::geometry::{Orientation, Rectangle, Size};
use crate::graft::{replace_with_window, swap_in_tree, windows_below};
use crate::keys::KeySource;
use crate::layout::{LayoutView, TilingLayout};
use crate::lookups::{
    currently_focused_node, focus_of, focus_view, KeyboardFocus, KeyboardFocusView,
};
use crate::mapping::lemma_higher;
use crate::queue::{EasedArea, ANIMATION_DURATION};
use crate::reshape::receive;
use crate::surgery::{
    along, lemma_keeps_keys, new_group_item, orientation_along, split_of, split_orientation,
};
use crate::tree::{get_node, model, root_id, visits, TreeModel, TreeNode};

verus! {

impl TreeModel {
    /// Whether no key is in both trees.
    pub open spec fn shares_no_key(self, other: TreeModel) -> bool {
        forall|key: u64| #[trigger] self.has_key(key) ==> !other.has_key(key)
    }

    /// Whether `anchor` is the node that a branch from another tree is put next to: what has
    /// the focus, or everything.
    pub open spec fn receives_at(self, focus: Option<KeyboardFocusView>, anchor: Option<NodeId>) -> bool {
        match self.root {
            None => anchor is None,
            Some(root) => match focus {
                Some(focus) => exists|found: Option<NodeId>| #[trigger]
                    self.focused_node(focus, found) && anchor == match found {
                        Some(id) => Some(id),
                        None => Some(root),
                    },
                None => anchor == Some(root),
            },
        }
    }

    /// The orientation of the group that a branch from another tree gets into.
    pub open spec fn receiving_orientation(self, anchor: Option<NodeId>, direction: Option<Direction>) -> Orientation {
        match direction {
            Some(direction) => along(direction),
            None => match anchor {
                Some(id) => split_of(self.data(id).geometry().size),
                None => Orientation::Vertical,
            },
        }
    }

    /// The place in its new group of a branch from another tree.
    pub open spec fn receiving_place(self, anchor: Option<NodeId>, direction: Option<Direction>) -> Option<
        int,
    > {
        match anchor {
            None => None,
            Some(_) => match direction {
                Some(Direction::Right) | Some(Direction::Down) => Some(0),
                _ => Some(1),
            },
        }
    }

    /// Whether `after` is this tree with a branch of another one.
    pub open spec fn takes_branch(
        self,
        after: TreeModel,
        source: TreeModel,
        from: NodeId,
        focus: Option<KeyboardFocusView>,
        direction: Option<Direction>,
        group_key: u64,
    ) -> bool {
        exists|anchor: Option<NodeId>, id: NodeId| #[trigger]
            self.receives_at(focus, anchor) && !self.has(id) && #[trigger] self.received(
                after,
                id,
                source,
                from,
                new_group_item(group_key, self.receiving_orientation(anchor, direction)),
                anchor,
                self.receiving_place(anchor, direction),
            )
    }
}

/// Trees without a common key are apart.
proof fn lemma_apart(first: TreeModel, second: TreeModel)
    requires
        first.shares_no_key(second),
    ensures
        first.keys_apart(second),
        second.keys_apart(first),
{
    assert forall|one: NodeId, two: NodeId|
        #![trigger first.key(one), second.key(two)]
        first.has(one) && second.has(two) implies first.key(one) != second.key(two) by {
        assert(first.has_key(first.key(one)));
        assert(second.has_key(second.key(two)));
    }
    assert forall|one: NodeId, two: NodeId|
        #![trigger second.key(one), first.key(two)]
        second.has(one) && first.has(two) implies second.key(one) != first.key(two) by {
        assert(second.has_key(second.key(one)));
        assert(first.has_key(first.key(two)));
    }
}

/// Whether moving a node of `this` to `other` leads to `this_after` and `other_after`.
pub open spec fn moved_between(
    this: LayoutView,
    other: LayoutView,
    this_after: LayoutView,
    other_after: LayoutView,
    node: u64,
    focus: Option<KeyboardFocusView>,
    direction: Option<Direction>,
    group_key: u64,
    this_eased: Seq<EasedArea>,
    other_eased: Seq<EasedArea>,
    moved: Moved,
) -> bool {
    exists|source: TreeModel, target: TreeModel, received: TreeModel|
        this.newest().copied(source) && other.newest().copied(target)
            && #[trigger] target.takes_branch(
            received,
            source,
            source.node_keyed(node),
            focus,
            direction,
            group_key,
        ) && this.committed(
            this_after,
            source.unmapped(source.node_keyed(node)),
            ANIMATION_DURATION,
            this_eased,
            moved.here@,
            None,
        ) && other.committed(
            other_after,
            received,
            ANIMATION_DURATION,
            other_eased,
            moved.there@,
            None,
        )
}

/// What came of moving a node to another layout: what has the focus there, and what the windows
/// of both have to be asked to do.
#[derive(Debug)]
pub struct Moved {
    pub focus: Option<KeyboardFocus>,
    pub here: Vec<Configure>,
    pub there: Vec<Configure>,
}

/// Puts a branch of another tree into a tree.
fn take_branch(
    tree: &mut Tree<TreeNode>,
    source: &Tree<TreeNode>,
    from: &NodeId,
    focus: &Option<KeyboardFocus>,
    direction: Option<Direction>,
    group_key: u64,
)
    requires
        model(*old(tree)).settled(),
        model(*old(tree)).keyed(),
        model(*source).settled(),
        model(*source).keyed(),
        model(*source).has(*from),
        model(*old(tree)).shares_no_key(model(*source)),
        model(*old(tree)).keys_below(group_key),
        model(*source).keys_below(group_key),
        group_key < u64::MAX,
    ensures
        model(*old(tree)).takes_branch(
            model(*final(tree)),
            model(*source),
            *from,
            focus_view(*focus),
            direction,
            group_key,
        ),
        model(*final(tree)).settled(),
        model(*final(tree)).keyed(),
        model(*final(tree)).keys_below((group_key + 1) as u64),
{
    let ghost before = model(*tree);
    let anchor: Option<NodeId> = match root_id(tree) {
        None => None,
        Some(root) => {
            let found: Option<NodeId> = match focus {
                Some(focus) => {
                    let found: Option<NodeId> = currently_focused_node(tree, focus);
                    assert(before.focused_node(focus@, found));
                    found
                },
                None => None,
            };
            assert(before.has(root)) by {
                lemma_sound(before);
            }
            match found {
                Some(id) => Some(id),
                None => Some(root),
            }
        },
    };
    assert(before.receives_at(focus_view(*focus), anchor));
    let orientation: Orientation = match direction {
        Some(direction) => orientation_along(direction),
        None => match &anchor {
            Some(id) => match get_node(tree, id) {
                Some(found) => split_orientation(found.data.geometry().size),
                None => Orientation::Vertical,
            },
            None => Orientation::Vertical,
        },
    };
    let place: Option<usize> = match &anchor {
        None => None,
        Some(_) => match direction {
            Some(Direction::Right) | Some(Direction::Down) => Some(0),
            _ => Some(1),
        },
    };
    proof {
        lemma_apart(before, model(*source));
        assert(!before.has_key(group_key) && !model(*source).has_key(group_key));
    }
    let id: NodeId = receive(
        tree,
        source,
        from,
        anchor.as_ref(),
        orientation,
        group_key,
        place,
    );
    proof {
        assert(before.received(
            model(*tree),
            id,
            model(*source),
            *from,
            new_group_item(group_key, before.receiving_orientation(anchor, direction)),
            anchor,
            before.receiving_place(anchor, direction),
        ));
    }
}

impl TilingLayout {
    /// Moves a node with everything below it to another layout: next to what has the focus
    /// there, on the side that it comes from.
    pub fn move_tree(
        this: &mut TilingLayout,
        other: &mut TilingLayout,
        node: u64,
        focus: &Option<KeyboardFocus>,
        direction: Option<Direction>,
        keys: &mut KeySource,
        this_eased: &Vec<EasedArea>,
        other_eased: &Vec<EasedArea>,
    ) -> (result: Option<Moved>)
        requires
            old(this)@.wf(old(keys).next),
            old(other)@.wf(old(keys).next),
            old(this)@.newest().shares_no_key(old(other)@.newest()),
            old(keys).next < u64::MAX,
        ensures
            match result {
                Some(moved) => old(this)@.newest().has_key(node) && moved_between(
                    old(this)@,
                    old(other)@,
                    final(this)@,
                    final(other)@,
                    node,
                    focus_view(*focus),
                    direction,
                    old(keys).next,
                    this_eased@,
                    other_eased@,
                    moved,
                ) && focus_view(moved.focus) == final(other)@.newest().focus_at(node),
                None => !old(this)@.newest().has_key(node) && final(this)@ == old(this)@
                    && final(other)@ == old(other)@,
            },
            final(keys).next == old(keys).next + 1,
            final(this)@.wf(final(keys).next),
            final(other)@.wf(final(keys).next),
    {
        let ghost this_before = this@;
        let ghost other_before = other@;
        let group_key: u64 = keys.take();
        let mut this_tree: Tree<TreeNode> = this.newest_copy();
        let mut other_tree: Tree<TreeNode> = other.newest_copy();
        let ghost source = model(this_tree);
        let ghost target = model(other_tree);
        proof {
            assert(source.keys_below(group_key) && target.keys_below(group_key));
            lemma_higher(this_before, group_key, keys.next);
            lemma_higher(other_before, group_key, keys.next);
            assert(source.regular()) by {
                lemma_sound(source);
            }
        }
        let id: NodeId = match node_by_key(&this_tree, node) {
            Some(id) => id,
            None => {
                return None;
            },
        };
        assert(source.has(id) && source.key(id) == node);
        assert(target.shares_no_key(source)) by {
            assert forall|key: u64| #[trigger] target.has_key(key) implies !source.has_key(key) by {
                assert(other_before.newest().has_key(key));
            }
        }
        take_branch(&mut other_tree, &this_tree, &id, focus, direction, group_key);
        let ghost received = model(other_tree);
        remove_node(&mut this_tree, &id);
        proof {
            lemma_keeps_keys(source, model(this_tree));
            assert(model(this_tree).sound()) by {
                lemma_sound(model(this_tree));
            }
            assert(received.sound()) by {
                lemma_sound(received);
            }
        }
        let here: Vec<Configure> = this.commit(this_tree, ANIMATION_DURATION, this_eased, None);
        let there: Vec<Configure> = other.commit(
            other_tree,
            ANIMATION_DURATION,
            other_eased,
            None,
        );
        let focused: Option<KeyboardFocus> = focus_of(other.tree(), node);
        let moved = Moved { focus: focused, here, there };
        assert(moved_between(
            this_before,
            other_before,
            this@,
            other@,
            node,
            focus_view(*focus),
            direction,
            group_key,
            this_eased@,
            other_eased@,
            moved,
        )) by {
            assert(this_before.newest().copied(source) && other_before.newest().copied(target)
                && target.takes_branch(
                received,
                source,
                source.node_keyed(node),
                focus_view(*focus),
                direction,
                group_key,
            ));
        }
        assert(source.has_key(node));
        Some(moved)
    }
}

impl TreeModel {
    /// Whether `after` is this tree with all of another one next to everything.
    pub open spec fn merged(self, after: TreeModel, source: TreeModel, orientation: Orientation, group_key: u64) -> bool {
        match (self.root, source.root) {
            (None, _) => after == source,
            (Some(_), None) => after == self,
            (Some(root), Some(from)) => exists|id: NodeId|
                !self.has(id) && #[trigger] self.received(
                    after,
                    id,
                    source,
                    from,
                    new_group_item(group_key, orientation),
                    self.root,
                    None,
                ),
        }
    }
}

/// The orientation of the group that the windows of two outputs get into.
pub open spec fn merging_orientation(size: Size) -> Orientation {
    if size.w >= size.h {
        Orientation::Vertical
    } else {
        Orientation::Horizontal
    }
}

/// Puts all of a tree next to everything in another one.
pub fn merge_trees(src: Tree<TreeNode>, dst: &mut Tree<TreeNode>, orientation: Orientation, group_key: u64)
    requires
        model(*old(dst)).settled(),
        model(*old(dst)).keyed(),
        model(src).settled(),
        model(src).keyed(),
        model(*old(dst)).shares_no_key(model(src)),
        model(*old(dst)).keys_below(group_key),
        model(src).keys_below(group_key),
        group_key < u64::MAX,
    ensures
        model(*old(dst)).merged(model(*final(dst)), model(src), orientation, group_key),
        model(*final(dst)).settled(),
        model(*final(dst)).keyed(),
        model(*final(dst)).keys_below((group_key + 1) as u64),
{
    let ghost before = model(*dst);
    let ghost source = model(src);
    match root_id(dst) {
        None => {
            *dst = src;
        },
        Some(root) => match root_id(&src) {
            None => {},
            Some(from) => {
                assert(before.has(root) && source.has(from)) by {
                    lemma_sound(before);
                    lemma_sound(source);
                }
                proof {
                    lemma_apart(before, source);
                    assert(!before.has_key(group_key) && !source.has_key(group_key));
                }
                let id: NodeId = receive(
                    dst,
                    &src,
                    &from,
                    Some(&root),
                    orientation,
                    group_key,
                    None,
                );
                assert(before.received(
                    model(*dst),
                    id,
                    source,
                    from,
                    new_group_item(group_key, orientation),
                    before.root,
                    None,
                ));
            },
        },
    }
}

impl TilingLayout {
    /// Takes over all windows of another layout.
    pub fn merge(
        &mut self,
        mut other: TilingLayout,
        keys: &mut KeySource,
        eased: &Vec<EasedArea>,
    ) -> (configures: Vec<Configure>)
        requires
            old(self)@.wf(old(keys).next),
            other@.wf(old(keys).next),
            old(self)@.newest().shares_no_key(other@.newest()),
            old(keys).next < u64::MAX,
        ensures
            exists|copy: TreeModel, tree: TreeModel|
                old(self)@.newest().copied(copy) && #[trigger] copy.merged(
                    tree,
                    other@.newest(),
                    merging_orientation(old(self)@.output_size),
                    old(keys).next,
                ) && old(self)@.committed(
                    final(self)@,
                    tree,
                    ANIMATION_DURATION,
                    eased@,
                    configures@,
                    None,
                ),
            final(keys).next == old(keys).next + 1,
            final(self)@.wf(final(keys).next),
    {
        let ghost before = self@;
        let ghost from = other@;
        let group_key: u64 = keys.take();
        let mut tree: Tree<TreeNode> = self.newest_copy();
        let ghost copy = model(tree);
        let last: usize = other.queue.trees.len() - 1;
        proof {
            assert(from.queue.trees[last as int] == other.queue.trees@[last as int]@);
            assert(from.queue.trees[last as int].tree.settled());
            assert(from.queue.trees[last as int].tree.keys_below(group_key));
            assert(copy.keys_below(group_key));
            lemma_higher(before, group_key, keys.next);
        }
        let source: Tree<TreeNode> = other.queue.trees.remove(last).tree;
        assert(model(source) == from.newest());
        assert(copy.shares_no_key(model(source))) by {
            assert forall|key: u64| #[trigger] copy.has_key(key) implies !model(source).has_key(
                key,
            ) by {
                assert(before.newest().has_key(key));
            }
        }
        let orientation: Orientation = if self.output_size.w >= self.output_size.h {
            Orientation::Vertical
        } else {
            Orientation::Horizontal
        };
        merge_trees(source, &mut tree, orientation, group_key);
        let ghost merged = model(tree);
        assert(merged.sound()) by {
            lemma_sound(merged);
        }
        let configures: Vec<Configure> = self.commit(tree, ANIMATION_DURATION, eased, None);
        assert(before.newest().copied(copy) && copy.merged(
            merged,
            from.newest(),
            merging_orientation(before.output_size),
            group_key,
        ));
        configures
    }

    /// Whether two nodes of this layout can be exchanged: both are there, and neither stands
    /// below the other.
    pub fn can_swap(&self, node: u64, other_node: u64) -> (result: bool)
        requires
            self@.ready(),
        ensures
            result == self@.newest().swappable(node, other_node),
    {
        let ghost last = self@.queue.trees.len() - 1;
        assert(self@.queue.trees[last].tree.settled());
        assert(self@.newest().regular() && self@.newest().forest()) by {
            lemma_sound(self@.newest());
        }
        let tree: &Tree<TreeNode> = self.tree();
        match (node_by_key(tree, node), node_by_key(tree, other_node)) {
            (Some(first), Some(second)) => {
                !is_below(tree, &first, &second) && !is_below(tree, &second, &first)
            },
            _ => false,
        }
    }

    /// Exchanges two nodes of this layout with everything below them, if that can be done.
    pub fn swap_if_apart(&mut self, node: u64, other_node: u64, eased: &Vec<EasedArea>) -> (result:
        Option<(Option<KeyboardFocus>, Vec<Configure>)>)
        requires
            old(self)@.ready(),
        ensures
            result is Some <==> old(self)@.newest().swappable(node, other_node),
            match result {
                Some((focus, configures)) => old(self)@.swaps(
                    final(self)@,
                    node,
                    other_node,
                    eased@,
                    configures@,
                ) && focus_view(focus) == final(self)@.newest().focus_at(node) && old(
                    self,
                )@.newest().swapped(node, other_node).mirrored(final(self)@.newest()),
                None => final(self)@ == old(self)@,
            },
            final(self)@.ready(),
            forall|bound: u64| #[trigger] old(self)@.wf(bound) ==> final(self)@.wf(bound),
    {
        if self.can_swap(node, other_node) {
            Some(self.swap_nodes(node, other_node, eased))
        } else {
            None
        }
    }

    /// Exchanges two nodes of this layout with everything below them. They are different nodes,
    /// and neither stands below the other: nothing can take the place of what it stands in.
    #[verifier::rlimit(40)]
    pub fn swap_nodes(&mut self, node: u64, other_node: u64, eased: &Vec<EasedArea>) -> (result: (
        Option<KeyboardFocus>,
        Vec<Configure>,
    ))
        requires
            old(self)@.ready(),
            old(self)@.newest().swappable(node, other_node),
        ensures
            old(self)@.swaps(final(self)@, node, other_node, eased@, result.1@),
            focus_view(result.0) == final(self)@.newest().focus_at(node),
            old(self)@.newest().swapped(node, other_node).mirrored(final(self)@.newest()),
            final(self)@.ready(),
            forall|bound: u64| #[trigger] old(self)@.wf(bound) ==> final(self)@.wf(bound),
    {
        let ghost before = self@;
        let mut tree: Tree<TreeNode> = self.newest_copy();
        let ghost copy = model(tree);
        assert(before.newest().copied(copy));
        assert(copy.regular() && copy.forest()) by {
            lemma_sound(copy);
        }
        assert(copy.swappable(node, other_node)) by {
            let last = before.queue.trees.len() - 1;
            assert(before.queue.trees[last].tree.settled());
            lemma_sound(before.newest());
            lemma_copies_swap_alike(before.newest(), copy, node, other_node);
        }
        let first: NodeId = node_by_key(&tree, node).unwrap();
        let second: NodeId = node_by_key(&tree, other_node).unwrap();
        assert(copy.has(first) && copy.key(first) == node && copy.has(second) && copy.key(second)
            == other_node);
        proof {
            crate::lineage::lemma_below_self(copy, first);
        }
        swap_in_tree(&mut tree, &first, &second);
        let ghost swapped = model(tree);
        proof {
            assert(swapped.sound()) by {
                lemma_sound(swapped);
            }
            assert(copy.keeps_keys(swapped)) by {
                assert forall|id: NodeId| #[trigger] swapped.has(id) implies copy.has(id)
                    && swapped.key(id) == copy.key(id) by {}
            }
            lemma_keeps_keys(copy, swapped);
        }
        let configures: Vec<Configure> = self.commit(tree, ANIMATION_DURATION, eased, None);
        assert(before.newest().copied(copy) && copy.swappable(node, other_node) && copy.swapped(
            node,
            other_node,
        ).settled());
        assert(before.swaps(self@, node, other_node, eased@, configures@));
        assert(before.newest().swapped(node, other_node).mirrored(self@.newest())) by {
            law_exchange_moves_just_the_two(
                before,
                self@,
                node,
                other_node,
                eased@,
                configures@,
            );
        }
        let focus: Option<KeyboardFocus> = focus_of(self.tree(), node);
        (focus, configures)
    }

    /// Exchanges two nodes of different layouts with everything below them.
    pub fn swap_trees(
        this: &mut TilingLayout,
        other: &mut TilingLayout,
        node: u64,
        other_node: u64,
        this_eased: &Vec<EasedArea>,
        other_eased: &Vec<EasedArea>,
    ) -> (result: Option<Moved>)
        requires
            old(this)@.ready(),
            old(other)@.ready(),
            old(this)@.newest().shares_no_key(old(other)@.newest()),
        ensures
            match result {
                Some(moved) => old(this)@.newest().has_key(node) && old(other)@.newest().has_key(
                    other_node,
                ) && swapped_between(
                    old(this)@,
                    old(other)@,
                    final(this)@,
                    final(other)@,
                    node,
                    other_node,
                    this_eased@,
                    other_eased@,
                    moved,
                ) && focus_view(moved.focus) == final(other)@.newest().focus_at(other_node),
                None => !(old(this)@.newest().has_key(node) && old(other)@.newest().has_key(
                    other_node,
                )) && final(this)@ == old(this)@ && final(other)@ == old(other)@,
            },
            final(this)@.ready(),
            final(other)@.ready(),
            forall|bound: u64|
                #![trigger old(this)@.wf(bound)]
                #![trigger old(other)@.wf(bound)]
                old(this)@.wf(bound) && old(other)@.wf(bound) ==> final(this)@.wf(bound)
                    && final(other)@.wf(bound),
    {
        let ghost this_before = this@;
        let ghost other_before = other@;
        let mut tree: Tree<TreeNode> = this.newest_copy();
        let mut other_tree: Tree<TreeNode> = other.newest_copy();
        let ghost first = model(tree);
        let ghost second = model(other_tree);
        proof {
            assert(first.regular() && second.regular()) by {
                lemma_sound(first);
                lemma_sound(second);
            }
            assert(first.shares_no_key(second)) by {
                assert forall|key: u64| #[trigger] first.has_key(key) implies !second.has_key(
                    key,
                ) by {
                    assert(this_before.newest().has_key(key));
                }
            }
            lemma_apart(first, second);
        }
        let (id, other_id): (NodeId, NodeId) = match (
            node_by_key(&tree, node),
            node_by_key(&other_tree, other_node),
        ) {
            (Some(id), Some(other_id)) => (id, other_id),
            _ => {
                return None;
            },
        };
        assert(first.has(id) && first.key(id) == node && second.has(other_id) && second.key(other_id)
            == other_node);
        assert(first.has_key(node) && second.has_key(other_node));
        swap_branches(&mut tree, &id, &mut other_tree, &other_id);
        let ghost one = model(tree);
        let ghost two = model(other_tree);
        proof {
            assert(one.sound() && two.sound()) by {
                lemma_sound(one);
                lemma_sound(two);
            }
            assert forall|bound: u64|
                #![trigger this_before.wf(bound)]
                #![trigger other_before.wf(bound)]
                this_before.wf(bound) && other_before.wf(bound) implies one.keys_below(bound)
                && two.keys_below(bound) by {
                assert(first.keys_below(bound) && second.keys_below(bound));
            }
        }
        let here: Vec<Configure> = this.commit(tree, ANIMATION_DURATION, this_eased, None);
        let there: Vec<Configure> = other.commit(
            other_tree,
            ANIMATION_DURATION,
            other_eased,
            None,
        );
        let focus: Option<KeyboardFocus> = focus_of(other.tree(), other_node);
        let moved = Moved { focus, here, there };
        assert(swapped_between(
            this_before,
            other_before,
            this@,
            other@,
            node,
            other_node,
            this_eased@,
            other_eased@,
            moved,
        )) by {
            assert(this_before.newest().copied(first) && other_before.newest().copied(second)
                && exchanged_between(first, second, one, two, node, other_node));
        }
        Some(moved)
    }
}

impl TreeModel {
    /// Whether two nodes can be exchanged: both are there, and none is below the other.
    pub open spec fn swappable(self, node: u64, other_node: u64) -> bool {
        &&& self.has_key(node)
        &&& self.has_key(other_node)
        &&& !self.below(self.node_keyed(node), self.node_keyed(other_node))
        &&& !self.below(self.node_keyed(other_node), self.node_keyed(node))
    }

    /// The tree with the nodes with these keys exchanged, and all below them.
    pub open spec fn swapped(self, node: u64, other_node: u64) -> TreeModel {
        self.exchanged(self.node_keyed(node), self.node_keyed(other_node))
    }
}

impl LayoutView {
    /// Whether an exchange of two nodes leads to `after`.
    pub open spec fn swaps(
        self,
        after: LayoutView,
        node: u64,
        other_node: u64,
        eased: Seq<EasedArea>,
        configures: Seq<Configure>,
    ) -> bool {
        exists|copy: TreeModel| #[trigger]
            self.newest().copied(copy) && copy.swappable(node, other_node) && copy.swapped(
                node,
                other_node,
            ).settled() && self.committed(
                after,
                copy.swapped(node, other_node),
                ANIMATION_DURATION,
                eased,
                configures,
                None,
            )
    }
}

/// Whether `one` and `two` are two trees after what two of their nodes hold was exchanged.
pub open spec fn exchanged_between(
    first: TreeModel,
    second: TreeModel,
    one: TreeModel,
    two: TreeModel,
    node: u64,
    other_node: u64,
) -> bool {
    &&& first.replaced_by(one, first.node_keyed(node), second, second.node_keyed(other_node))
    &&& exists|copy: TreeModel| #[trigger]
        first.copied(copy) && second.replaced_by(
            two,
            second.node_keyed(other_node),
            copy,
            copy.node_keyed(node),
        )
}

/// Whether exchanging two nodes leads to `this_after` and `other_after`.
pub open spec fn swapped_between(
    this: LayoutView,
    other: LayoutView,
    this_after: LayoutView,
    other_after: LayoutView,
    node: u64,
    other_node: u64,
    this_eased: Seq<EasedArea>,
    other_eased: Seq<EasedArea>,
    moved: Moved,
) -> bool {
    exists|first: TreeModel, second: TreeModel, one: TreeModel, two: TreeModel|
        this.newest().copied(first) && other.newest().copied(second)
            && #[trigger] exchanged_between(first, second, one, two, node, other_node)
            && this.committed(
            this_after,
            one,
            ANIMATION_DURATION,
            this_eased,
            moved.here@,
            None,
        ) && other.committed(
            other_after,
            two,
            ANIMATION_DURATION,
            other_eased,
            moved.there@,
            None,
        )
}

impl LayoutView {
    /// Whether `after` is this layout with a window in the place of a node, of which everything
    /// else is gone; `windows` were there.
    pub open spec fn gives_way(
        self,
        after: LayoutView,
        node: u64,
        window: Window,
        geometry: Rectangle,
        eased: Seq<EasedArea>,
        windows: Seq<u64>,
        configures: Seq<Configure>,
    ) -> bool {
        exists|copy: TreeModel, order: Seq<NodeId>|
            self.newest().copied(copy) && #[trigger] visits(
                copy.nodes,
                seq![copy.node_keyed(node)],
                order,
            ) && windows == copy.windows_of(order) && self.committed(
                after,
                copy.with_window(
                    copy.node_keyed(node),
                    (DataView::Mapped {
                        mapped: window,
                        last_geometry: geometry,
                        minimize_rect: None,
                    }),
                ),
                ANIMATION_DURATION,
                eased,
                configures,
                None,
            )
    }

    /// The area of the stack with this key.
    pub open spec fn stack_area(self, key: u64) -> Option<Rectangle> {
        let newest = self.newest();
        if newest.shows_window(key) && newest.data(newest.node_keyed(key)).spec_is_stack() {
            Some(newest.data(newest.node_keyed(key)).geometry())
        } else {
            None
        }
    }
}

impl TilingLayout {
    /// The area of the stack with this key.
    fn stack_area(&self, key: u64) -> (area: Option<Rectangle>)
        requires
            self@.ready(),
        ensures
            area == self@.stack_area(key),
    {
        let tree: &Tree<TreeNode> = self.tree();
        assert(model(*tree).regular()) by {
            lemma_sound(model(*tree));
        }
        match node_by_key(tree, key) {
            Some(id) => {
                assert(model(*tree).has(id) && model(*tree).key(id) == key);
                match get_node(tree, &id) {
                    Some(found) => if found.data.is_stack() {
                        Some(found.data.geometry())
                    } else {
                        None
                    },
                    None => None,
                }
            },
            None => None,
        }
    }

    /// Puts a window in the place of a node and everything below it.
    fn give_way(&mut self, node: u64, window: Window, geometry: Rectangle, eased: &Vec<EasedArea>) -> (result:
        (Vec<u64>, Vec<Configure>))
        requires
            old(self)@.ready(),
            old(self)@.newest().has_key(node),
        ensures
            old(self)@.gives_way(
                final(self)@,
                node,
                window,
                geometry,
                eased@,
                result.0@,
                result.1@,
            ),
            final(self)@.ready(),
            forall|bound: u64| #[trigger] old(self)@.wf(bound) ==> final(self)@.wf(bound),
    {
        let ghost before = self@;
        let mut tree: Tree<TreeNode> = self.newest_copy();
        let ghost copy = model(tree);
        assert(copy.regular()) by {
            lemma_sound(copy);
        }
        let id: NodeId = match node_by_key(&tree, node) {
            Some(id) => id,
            None => {
                assert(false);
                return (Vec::new(), Vec::new());
            },
        };
        let windows: Vec<u64> = windows_below(&tree, &id);
        let ghost order = choose|order: Seq<NodeId>| #[trigger]
            visits(copy.nodes, seq![id], order) && windows@ == copy.windows_of(order);
        assert(before.newest().copied(copy) && visits(
            copy.nodes,
            seq![copy.node_keyed(node)],
            order,
        ));
        replace_with_window(&mut tree, &id, window, geometry);
        proof {
            let shape = model(tree);
            assert(shape.sound()) by {
                lemma_sound(shape);
            }
            assert forall|k: u64| #[trigger] shape.has_key(k) implies copy.has_key(k) by {
                let other = choose|other: NodeId|
                    shape.has(other) && #[trigger] shape.key(other) == k;
                assert(shape.has(other));
            }
        }
        let configures: Vec<Configure> = self.commit(tree, ANIMATION_DURATION, eased, None);
        (windows, configures)
    }

    /// Exchanges a window of a stack with a node of the same layout: the windows of the node,
    /// which are returned, have to join the stack, and the window takes their place. Returns
    /// also where the focus goes: to the window in its new place if it went from the stack to
    /// the node, and else to the stack.
    pub fn swap_stack_window(
        &mut self,
        stack: u64,
        node: u64,
        window: Window,
        from_stack: bool,
        eased: &Vec<EasedArea>,
    ) -> (result: Option<(Vec<u64>, Option<KeyboardFocus>, Vec<Configure>)>)
        requires
            old(self)@.ready(),
        ensures
            match result {
                Some((windows, focus, configures)) => old(self)@.stack_area(stack) is Some && old(
                    self,
                )@.newest().has_key(node) && old(self)@.gives_way(
                    final(self)@,
                    node,
                    window,
                    old(self)@.stack_area(stack)->0,
                    eased@,
                    windows@,
                    configures@,
                ) && focus_view(focus) == final(self)@.newest().focus_at(
                    if from_stack {
                        node
                    } else {
                        stack
                    },
                ),
                None => (old(self)@.stack_area(stack) is None || !old(self)@.newest().has_key(
                    node,
                )) && final(self)@ == old(self)@,
            },
            final(self)@.ready(),
            forall|bound: u64| #[trigger] old(self)@.wf(bound) ==> final(self)@.wf(bound),
    {
        let area: Rectangle = match self.stack_area(stack) {
            Some(area) => area,
            None => {
                return None;
            },
        };
        let here: bool = {
            let tree: &Tree<TreeNode> = self.tree();
            assert(model(*tree).regular()) by {
                lemma_sound(model(*tree));
            }
            let found: Option<NodeId> = node_by_key(tree, node);
            proof {
                if found is Some {
                    assert(model(*tree).has(found->0) && model(*tree).key(found->0) == node);
                }
            }
            found.is_some()
        };
        if !here {
            return None;
        }
        let (windows, configures) = self.give_way(node, window, area, eased);
        let focus: Option<KeyboardFocus> = focus_of(
            self.tree(),
            if from_stack {
                node
            } else {
                stack
            },
        );
        Some((windows, focus, configures))
    }

    /// Exchanges a window of a stack with a node of another layout: the windows of the node,
    /// which are returned, have to join the stack, and the window takes their place. Both
    /// layouts are arranged anew. Returns also where the focus goes: to the window in its new
    /// place if it went from the stack to the node, and else to the stack.
    pub fn swap_stack_window_between(
        stack_layout: &mut TilingLayout,
        node_layout: &mut TilingLayout,
        stack: u64,
        node: u64,
        window: Window,
        from_stack: bool,
        stack_eased: &Vec<EasedArea>,
        node_eased: &Vec<EasedArea>,
    ) -> (result: Option<(Vec<u64>, Option<KeyboardFocus>, Vec<Configure>, Vec<Configure>)>)
        requires
            old(stack_layout)@.ready(),
            old(node_layout)@.ready(),
        ensures
            match result {
                Some((windows, focus, here, there)) => old(stack_layout)@.stack_area(
                    stack,
                ) is Some && old(node_layout)@.newest().has_key(node) && (exists|copy: TreeModel| #[trigger]
                    old(stack_layout)@.newest().copied(copy) && old(stack_layout)@.committed(
                        final(stack_layout)@,
                        copy,
                        ANIMATION_DURATION,
                        stack_eased@,
                        here@,
                        None,
                    )) && old(node_layout)@.gives_way(
                    final(node_layout)@,
                    node,
                    window,
                    old(stack_layout)@.stack_area(stack)->0,
                    node_eased@,
                    windows@,
                    there@,
                ) && focus_view(focus) == if from_stack {
                    final(node_layout)@.newest().focus_at(node)
                } else {
                    final(stack_layout)@.newest().focus_at(stack)
                },
                None => (old(stack_layout)@.stack_area(stack) is None || !old(
                    node_layout,
                )@.newest().has_key(node)) && final(stack_layout)@ == old(stack_layout)@
                    && final(node_layout)@ == old(node_layout)@,
            },
            final(stack_layout)@.ready(),
            final(node_layout)@.ready(),
            forall|bound: u64| #[trigger]
                old(stack_layout)@.wf(bound) ==> final(stack_layout)@.wf(bound),
            forall|bound: u64| #[trigger]
                old(node_layout)@.wf(bound) ==> final(node_layout)@.wf(bound),
    {
        let ghost before = stack_layout@;
        let area: Rectangle = match stack_layout.stack_area(stack) {
            Some(area) => area,
            None => {
                return None;
            },
        };
        let here: bool = {
            let tree: &Tree<TreeNode> = node_layout.tree();
            assert(model(*tree).regular()) by {
                lemma_sound(model(*tree));
            }
            let found: Option<NodeId> = node_by_key(tree, node);
            proof {
                if found is Some {
                    assert(model(*tree).has(found->0) && model(*tree).key(found->0) == node);
                }
            }
            found.is_some()
        };
        if !here {
            return None;
        }
        let tree: Tree<TreeNode> = stack_layout.newest_copy();
        let ghost copy = model(tree);
        assert(copy.sound()) by {
            lemma_sound(copy);
        }
        assert(before.newest().copied(copy));
        let arranged: Vec<Configure> = stack_layout.commit(
            tree,
            ANIMATION_DURATION,
            stack_eased,
            None,
        );
        let (windows, there) = node_layout.give_way(node, window, area, node_eased);
        let focus: Option<KeyboardFocus> = if from_stack {
            focus_of(node_layout.tree(), node)
        } else {
            focus_of(stack_layout.tree(), stack)
        };
        Some((windows, focus, arranged, there))
    }
}

/// Whether an exchange is refused: of a node with itself, and of a node with a window of its
/// own stack. `same_layout` tells whether both are in the same layout.
pub fn swap_refused(
    same_layout: bool,
    node: u64,
    stack_window: Option<u64>,
    other_node: u64,
    other_stack_window: Option<u64>,
) -> (refused: bool)
    ensures
        refused == (same_layout && node == other_node && (stack_window == other_stack_window
            || stack_window is Some != other_stack_window is Some)),
{
    let same_window: bool = match (stack_window, other_stack_window) {
        (Some(first), Some(second)) => first == second,
        (None, None) => true,
        _ => true,
    };
    same_layout && node == other_node && same_window
}

} // verus!
