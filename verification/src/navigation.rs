//! Moving the focus, and moving what has it.

use vstd::prelude::*;

use id_tree::{NodeId, Tree};

use crate::actions::{Direction, FocusDirection};
use crate::balance::lemma_sound;
use crate::classic::Configure;
use crate::columns::TileMove;
use crate::config::TilingEngine;
use crate::copies::node_by_key;
use crate::data::{Data, Window};
use crate::focus::{
    key_of, next_focus, stack_view, step_direction, step_of, FocusResult, FocusView, SwapMark,
};
use crate::geometry::Rectangle;
use crate::keys::KeySource;
use crate::layout::{LayoutView, TilingLayout};
use crate::lookups::{
    currently_focused_node, focus_view, last_active_window, KeyboardFocus, KeyboardFocusView,
};
use crate::mapping::lemma_higher;
use crate::moves::{far_place, leads, move_node, NodeMove};
use crate::queue::{EasedArea, ANIMATION_DURATION};
use crate::reshape::lemma_added_keys;
use crate::scrolling::FocusNavigation;
use crate::surgery::{
    add_beside, along, lemma_added_settled, new_group_item, new_window, orientation_along,
};
use crate::tree::{get_node, model, TreeModel, TreeNode};
use crate::zones::scrolling_edge_focus_result;

verus! {

/// A node that waits to be exchanged with the one that is focused next.
#[derive(Clone, Copy, Debug, PartialEq, Eq, Structural)]
pub struct NodeDesc {
    pub node: u64,
    /// Whether all of the node is exchanged, not a single window of a stack.
    pub whole: bool,
}

impl TreeModel {
    /// The node that waits to be exchanged, if it is in this tree.
    pub open spec fn swap_mark(self, swap: Option<NodeDesc>) -> Option<SwapMark> {
        match swap {
            Some(swap) => if self.has_key(swap.node) {
                Some(SwapMark { node: self.node_keyed(swap.node), whole: swap.whole })
            } else {
                None
            },
            None => None,
        }
    }

    /// Whether moving the focus starts at `node`, with `memory` of where a group got it from:
    /// at what has the focus, or at the window that had it last.
    pub open spec fn starts_at(
        self,
        focus: KeyboardFocusView,
        stack: Seq<u64>,
        node: Option<NodeId>,
        memory: Option<Seq<u64>>,
    ) -> bool {
        exists|found: Option<NodeId>| #[trigger]
            self.focused_node(focus, found) && if found is Some {
                node == found && memory == match focus {
                    KeyboardFocusView::Window(_) => None,
                    KeyboardFocusView::Group { focus_stack, .. } => Some(focus_stack),
                }
            } else {
                self.finds_first(stack, node) && memory is None
            }
    }
}

impl LayoutView {
    /// Where the focus goes on the strip from a tile.
    pub open spec fn strip_focus(self, tile: u64, direction: FocusDirection) -> FocusView {
        match self.scroll.strip.navigated(self.newest(), tile, direction) {
            FocusNavigation::Target(target) => if self.newest().shows_window(target) {
                FocusView::Window {
                    window: self.newest().data(self.newest().node_keyed(target))->mapped.id,
                    whole: false,
                }
            } else {
                FocusView::Handled
            },
            FocusNavigation::Edge => if direction is Up || direction is Down {
                FocusView::Unhandled
            } else {
                FocusView::Handled
            },
            FocusNavigation::Unavailable => FocusView::Handled,
        }
    }

    /// Whether the focus goes to `result`.
    pub open spec fn focuses(
        self,
        direction: FocusDirection,
        focus: Option<KeyboardFocusView>,
        stack: Seq<u64>,
        swap: Option<NodeDesc>,
        result: FocusView,
    ) -> bool {
        match focus {
            None => result is Unhandled,
            Some(focus) => exists|node: Option<NodeId>, memory: Option<Seq<u64>>| #[trigger]
                self.newest().starts_at(focus, stack, node, memory) && self.focuses_from(
                    direction,
                    node,
                    memory,
                    swap,
                    result,
                ),
        }
    }

    /// Whether the focus goes from a node to `result`.
    pub open spec fn focuses_from(
        self,
        direction: FocusDirection,
        node: Option<NodeId>,
        memory: Option<Seq<u64>>,
        swap: Option<NodeDesc>,
        result: FocusView,
    ) -> bool {
        match node {
            None => result is Unhandled,
            Some(id) => if self.engine is Scrolling && step_direction(direction) is Some {
                result == self.strip_focus(self.newest().key(id), direction)
            } else {
                self.newest().focuses(
                    id,
                    memory,
                    direction,
                    self.newest().swap_mark(swap),
                    result,
                )
            },
        }
    }
}

impl TilingLayout {
    /// Where the focus goes on the strip from a tile.
    fn strip_focus(&self, tile: u64, direction: FocusDirection) -> (result: FocusResult)
        requires
            self@.ready(),
        ensures
            result@ == self@.strip_focus(tile, direction),
    {
        let tree: &Tree<TreeNode> = self.tree();
        assert(model(*tree).regular()) by {
            lemma_sound(model(*tree));
        }
        match self.scrolling.next_focus(tree, tile, direction) {
            FocusNavigation::Target(target) => match node_by_key(tree, target) {
                Some(id) => {
                    assert(model(*tree).has(id) && model(*tree).key(id) == target);
                    match get_node(tree, &id) {
                        Some(node) => match &node.data {
                            Data::Mapped { mapped, .. } => FocusResult::Window {
                                window: mapped.id,
                                whole: false,
                            },
                            _ => FocusResult::Handled,
                        },
                        None => FocusResult::Handled,
                    }
                },
                None => FocusResult::Handled,
            },
            FocusNavigation::Edge => scrolling_edge_focus_result(direction),
            FocusNavigation::Unavailable => FocusResult::Handled,
        }
    }

    /// Where the focus goes. `focus_stack` has the windows that had it before, the last one
    /// first. A group that the focus is moved into remembers where it came from.
    pub fn next_focus(
        &self,
        direction: FocusDirection,
        focus: &Option<KeyboardFocus>,
        focus_stack: &Vec<u64>,
        swap: Option<NodeDesc>,
    ) -> (result: FocusResult)
        requires
            self@.ready(),
            direction is In ==> match focus_view(*focus) {
                Some(KeyboardFocusView::Group { focus_stack, .. }) => focus_stack.len() > 0,
                _ => true,
            },
            match swap {
                Some(swap) => self@.newest().has_key(swap.node) ==> !(self@.newest().data(
                    self@.newest().node_keyed(swap.node),
                ) is Placeholder),
                None => true,
            },
        ensures
            self@.focuses(direction, focus_view(*focus), focus_stack@, swap, result@),
    {
        let tree: &Tree<TreeNode> = self.tree();
        let ghost shape = model(*tree);
        assert(shape.regular()) by {
            lemma_sound(shape);
        }
        let focus: &KeyboardFocus = match focus {
            Some(focus) => focus,
            None => {
                return FocusResult::Unhandled;
            },
        };
        let found: Option<NodeId> = currently_focused_node(tree, focus);
        let ghost first = found;
        assert(shape.focused_node(focus@, found));
        let memory: Option<Vec<u64>> = match focus {
            KeyboardFocus::Group { focus_stack, .. } => if found.is_some() {
                Some(crate::columns::copy_items(focus_stack))
            } else {
                None
            },
            KeyboardFocus::Window(_) => None,
        };
        let node: Option<NodeId> = match found {
            Some(id) => Some(id),
            None => last_active_window(tree, focus_stack),
        };
        let ghost start = node;
        assert(shape.starts_at(focus@, focus_stack@, start, stack_view(memory)));
        let id: NodeId = match node {
            Some(id) => id,
            None => {
                assert(self@.focuses_from(
                    direction,
                    start,
                    stack_view(memory),
                    swap,
                    FocusView::Unhandled,
                ));
                return FocusResult::Unhandled;
            },
        };
        if self.tiling_engine == TilingEngine::Scrolling && step_of(direction).is_some() {
            let tile: u64 = key_of(tree, &id);
            let result: FocusResult = self.strip_focus(tile, direction);
            assert(self@.focuses_from(direction, start, stack_view(memory), swap, result@));
            return result;
        }
        let mark: Option<SwapMark> = match swap {
            Some(swap) => match node_by_key(tree, swap.node) {
                Some(other) => Some(SwapMark { node: other, whole: swap.whole }),
                None => None,
            },
            None => None,
        };
        assert(mark == shape.swap_mark(swap));
        let result: FocusResult = next_focus(tree, &id, &memory, direction, &mark);
        assert(self@.focuses_from(direction, start, stack_view(memory), swap, result@));
        result
    }
}

/// What a focused stack made of a move.
#[derive(Clone, Copy, Debug, PartialEq, Eq, Structural)]
pub enum StackMove {
    /// It moved its window inside.
    Handled,
    /// It gave up its window.
    MoveOut(Window),
    /// It is no stack, or has one window.
    Default,
}

/// What came of moving what has the focus.
#[derive(Clone, Copy, Debug, PartialEq, Eq, Structural)]
pub enum MoveResult {
    /// Nothing in this layout has the focus.
    Unhandled,
    /// There is nothing more to do.
    Handled,
    /// It moved.
    Done,
    /// It has to go to another output or workspace.
    MoveFurther,
    /// A window left its stack, and gets the focus in a node of its own.
    ShiftFocus(u64),
    /// A window left the tree to join a stack, which gets the focus.
    IntoStack { stack: u64, first: bool },
}

/// What came of moving a node of the tree.
pub open spec fn result_of(moved: NodeMove) -> MoveResult {
    match moved {
        NodeMove::Further => MoveResult::MoveFurther,
        NodeMove::Done => MoveResult::Done,
        NodeMove::IntoStack { stack, first } => MoveResult::IntoStack { stack, first },
    }
}

impl LayoutView {
    /// Whether moving a tile on the strip leads to `after`.
    pub open spec fn moves_tile(
        self,
        after: LayoutView,
        tile: u64,
        direction: Direction,
        eased: Seq<EasedArea>,
        result: MoveResult,
        configures: Seq<Configure>,
    ) -> bool {
        let strip = self.scroll.strip;
        if direction is Up || direction is Down {
            let (moved, shifted) = strip.shifted(tile, direction);
            match moved {
                TileMove::Moved => result is Handled && self.shows(
                    after,
                    shifted.revealed(tile),
                    eased,
                    configures,
                ),
                TileMove::Edge => result is MoveFurther && after == self && configures.len() == 0,
                TileMove::Unavailable => result is Handled && after == self && configures.len()
                    == 0,
            }
        } else {
            result is Handled && match strip.stepped(tile, direction) {
                Some(stepped) => self.shows(
                    after,
                    stepped.revealed(tile).revealed(tile),
                    eased,
                    configures,
                ),
                None => after == self && configures.len() == 0,
            }
        }
    }

    /// Whether `after` is this layout on the way to another strip.
    pub open spec fn shows(
        self,
        after: LayoutView,
        strip: crate::strip::Strip,
        eased: Seq<EasedArea>,
        configures: Seq<Configure>,
    ) -> bool {
        exists|copy: TreeModel| #[trigger]
            self.newest().copied(copy) && self.with_strip(strip).committed(
                after,
                copy,
                ANIMATION_DURATION,
                eased,
                configures,
                None,
            )
    }

    /// Whether a window that left its stack gets a node of its own next to it.
    pub open spec fn moves_out(
        self,
        after: LayoutView,
        node: u64,
        window: Window,
        direction: Direction,
        key: u64,
        configures: Seq<Configure>,
    ) -> bool {
        exists|copy: TreeModel, id: NodeId, group: NodeId|
            self.newest().copied(copy) && !copy.has(id) && !copy.has(group) && group != id
                && self.appended(
                after,
                #[trigger] copy.added_beside(
                    id,
                    new_window(key, window, None),
                    group,
                    new_group_item((key + 1) as u64, along(direction)),
                    copy.node_keyed(node),
                    Some(far_place(direction)),
                ),
                ANIMATION_DURATION,
                configures,
            )
    }

    /// Whether moving a node of the tree leads to `after`.
    pub open spec fn moves_node(
        self,
        after: LayoutView,
        node: u64,
        direction: Direction,
        key: u64,
        result: MoveResult,
        configures: Seq<Configure>,
    ) -> bool {
        exists|copy: TreeModel, tree: TreeModel, moved: NodeMove|
            self.newest().copied(copy) && #[trigger] copy.moved_as(
                tree,
                copy.node_keyed(node),
                direction,
                key,
                moved,
            ) && result == result_of(moved) && if moved is Further {
                after == self && configures.len() == 0
            } else {
                self.appended(after, tree, ANIMATION_DURATION, configures)
            }
    }

    /// Whether moving a node leads to `after`. `window` says whether it is a window, and
    /// `stack` what a stack made of the move.
    pub open spec fn moves_from(
        self,
        after: LayoutView,
        node: u64,
        window: bool,
        direction: Direction,
        stack: StackMove,
        key: u64,
        eased: Seq<EasedArea>,
        result: MoveResult,
        configures: Seq<Configure>,
    ) -> bool {
        if self.engine is Scrolling {
            self.moves_tile(after, node, direction, eased, result, configures)
        } else if window && stack is Handled {
            result is Done && after == self && configures.len() == 0
        } else if window && stack is MoveOut {
            result == MoveResult::ShiftFocus(key) && self.moves_out(
                after,
                node,
                stack->MoveOut_0,
                direction,
                key,
                configures,
            )
        } else {
            self.moves_node(after, node, direction, key, result, configures)
        }
    }

    /// Whether moving what has the focus leads to `after`.
    pub open spec fn moves(
        self,
        after: LayoutView,
        direction: Direction,
        focus: Option<KeyboardFocusView>,
        stack: StackMove,
        key: u64,
        eased: Seq<EasedArea>,
        result: MoveResult,
        configures: Seq<Configure>,
    ) -> bool {
        exists|node: Option<u64>| #[trigger]
            self.focus_key(focus, node) && match node {
                None => result is Unhandled && after == self && configures.len() == 0,
                Some(node) => self.moves_from(
                    after,
                    node,
                    focus matches Some(KeyboardFocusView::Window(_)),
                    direction,
                    stack,
                    key,
                    eased,
                    result,
                    configures,
                ),
            }
    }
}

impl TilingLayout {
    /// Sets out for the strip as it is now.
    fn show_strip(&mut self, eased: &Vec<EasedArea>, Ghost(before): Ghost<LayoutView>) -> (configures:
        Vec<Configure>)
        requires
            old(self)@.ready(),
            old(self)@ == before.with_strip(old(self)@.scroll.strip),
        ensures
            before.shows(final(self)@, old(self)@.scroll.strip, eased@, configures@),
            final(self)@.ready(),
            forall|bound: u64| #[trigger] before.wf(bound) ==> final(self)@.wf(bound),
    {
        let ghost now = self@;
        let tree: Tree<TreeNode> = self.newest_copy();
        let ghost copy = model(tree);
        assert(copy.sound()) by {
            lemma_sound(copy);
        }
        assert forall|bound: u64| #[trigger] before.wf(bound) implies now.wf(bound)
            && copy.keys_below(bound) by {
            assert(now.queue.keys_below(bound));
        }
        let configures: Vec<Configure> = self.commit(tree, ANIMATION_DURATION, eased, None);
        assert(before.newest().copied(copy));
        configures
    }

    /// Moves a tile on the strip.
    fn move_tile(&mut self, tile: u64, direction: Direction, eased: &Vec<EasedArea>) -> (result: (
        MoveResult,
        Vec<Configure>,
    ))
        requires
            old(self)@.ready(),
        ensures
            old(self)@.moves_tile(final(self)@, tile, direction, eased@, result.0, result.1@),
            final(self)@.ready(),
            forall|bound: u64| #[trigger] old(self)@.wf(bound) ==> final(self)@.wf(bound),
    {
        let ghost before = self@;
        let vertical: bool = match direction {
            Direction::Up | Direction::Down => true,
            Direction::Left | Direction::Right => false,
        };
        if vertical {
            return match self.scrolling.move_tile_vertical(tile, direction) {
                TileMove::Moved => {
                    let configures: Vec<Configure> = self.show_strip(eased, Ghost(before));
                    (MoveResult::Handled, configures)
                },
                TileMove::Edge => (MoveResult::MoveFurther, Vec::new()),
                TileMove::Unavailable => (MoveResult::Handled, Vec::new()),
            };
        }
        if self.scrolling.move_column(tile, direction) {
            let _ = self.scrolling.ensure_visible(tile);
            let configures: Vec<Configure> = self.show_strip(eased, Ghost(before));
            return (MoveResult::Handled, configures);
        }
        (MoveResult::Handled, Vec::new())
    }

    /// Gives a window that left its stack a node of its own next to it.
    fn move_out(&mut self, node: u64, window: Window, direction: Direction, key: u64, group_key: u64) -> (configures:
        Vec<Configure>)
        requires
            old(self)@.wf(key),
            old(self)@.newest().has_key(node),
            key + 2 <= u64::MAX,
            group_key == key + 1,
        ensures
            old(self)@.moves_out(final(self)@, node, window, direction, key, configures@),
            final(self)@.wf((key + 2) as u64),
    {
        let ghost before = self@;
        let mut tree: Tree<TreeNode> = self.newest_copy();
        let ghost copy = model(tree);
        assert(copy.keys_below(key));
        assert(copy.regular() && copy.forest()) by {
            lemma_sound(copy);
        }
        let anchor: NodeId = match node_by_key(&tree, node) {
            Some(id) => id,
            None => {
                assert(false);
                return Vec::new();
            },
        };
        let item = TreeNode {
            key,
            data: Data::Mapped {
                mapped: window,
                last_geometry: Rectangle::new(0, 0, 100, 100),
                minimize_rect: None,
            },
        };
        let ghost view = item@;
        assert(view == new_window(key, window, None));
        let place: usize = if leads(direction) {
            0
        } else {
            1
        };
        assert(model(tree).regular()) by {
            lemma_sound(model(tree));
        }
        let id: NodeId = add_beside(
            &mut tree,
            item,
            &anchor,
            orientation_along(direction),
            group_key,
            Some(place),
        );
        let ghost added = model(tree);
        proof {
            lemma_added_settled(copy, added, id, view, group_key);
            lemma_added_keys(copy, added, id, view, group_key);
            reveal(TreeModel::grows_two);
            assert(!copy.has_key(key) && !copy.has_key(group_key));
            assert(added.sound()) by {
                lemma_sound(added);
            }
            lemma_higher(before, key, (key + 2) as u64);
        }
        let configures: Vec<Configure> = self.append(tree, ANIMATION_DURATION);
        proof {
            let group = choose|group: NodeId|
                !copy.has(group) && group != id && added == #[trigger] copy.added_beside(
                    id,
                    view,
                    group,
                    new_group_item(group_key, along(direction)),
                    anchor,
                    Some(place as int),
                );
            assert(added == copy.added_beside(
                id,
                new_window(key, window, None),
                group,
                new_group_item((key + 1) as u64, along(direction)),
                copy.node_keyed(node),
                Some(far_place(direction)),
            ));
            assert(before.newest().copied(copy));
        }
        configures
    }

    /// Moves a node of the tree.
    fn move_in_tree(&mut self, node: u64, direction: Direction, key: u64) -> (result: (
        MoveResult,
        Vec<Configure>,
    ))
        requires
            old(self)@.wf(key),
            old(self)@.engine is Classic,
            old(self)@.newest().has_key(node),
            key + 2 <= u64::MAX,
        ensures
            old(self)@.moves_node(final(self)@, node, direction, key, result.0, result.1@),
            final(self)@.wf((key + 2) as u64),
    {
        let ghost before = self@;
        let mut tree: Tree<TreeNode> = self.newest_copy();
        let ghost copy = model(tree);
        assert(copy.keys_below(key));
        assert(copy.regular()) by {
            lemma_sound(copy);
        }
        let id: NodeId = match node_by_key(&tree, node) {
            Some(id) => id,
            None => {
                assert(false);
                return (MoveResult::Unhandled, Vec::new());
            },
        };
        let moved: NodeMove = move_node(&mut tree, &id, direction, key);
        let ghost shape = model(tree);
        proof {
            reveal(TreeModel::grows_keys);
            assert(!copy.has_key(key));
            lemma_higher(before, key, (key + 2) as u64);
            assert(before.newest().copied(copy) && copy.moved_as(
                shape,
                copy.node_keyed(node),
                direction,
                key,
                moved,
            ));
        }
        match moved {
            NodeMove::Further => (MoveResult::MoveFurther, Vec::new()),
            NodeMove::Done => {
                let configures: Vec<Configure> = self.append(tree, ANIMATION_DURATION);
                (MoveResult::Done, configures)
            },
            NodeMove::IntoStack { stack, first } => {
                let configures: Vec<Configure> = self.append(tree, ANIMATION_DURATION);
                (MoveResult::IntoStack { stack, first }, configures)
            },
        }
    }

    /// Moves what has the focus. `stack` says what a stack that has it made of the move.
    pub fn move_current_node(
        &mut self,
        direction: Direction,
        focus: &Option<KeyboardFocus>,
        stack: StackMove,
        keys: &mut KeySource,
        eased: &Vec<EasedArea>,
    ) -> (result: (MoveResult, Vec<Configure>))
        requires
            old(self)@.wf(old(keys).next),
            old(keys).next + 2 <= u64::MAX,
        ensures
            old(self)@.moves(
                final(self)@,
                direction,
                focus_view(*focus),
                stack,
                old(keys).next,
                eased@,
                result.0,
                result.1@,
            ),
            final(keys).next == old(keys).next + 2,
            final(self)@.wf(final(keys).next),
    {
        let ghost before = self@;
        let key: u64 = keys.take();
        let group_key: u64 = keys.take();
        proof {
            lemma_higher(before, key, keys.next);
        }
        let node: Option<u64> = self.focus_key(focus);
        assert(before.focus_key(focus_view(*focus), node));
        let node: u64 = match node {
            Some(node) => node,
            None => {
                return (MoveResult::Unhandled, Vec::new());
            },
        };
        if self.tiling_engine == TilingEngine::Scrolling {
            return self.move_tile(node, direction, eased);
        }
        let window: bool = match focus {
            Some(KeyboardFocus::Window(_)) => true,
            _ => false,
        };
        if window {
            match stack {
                StackMove::Handled => {
                    return (MoveResult::Done, Vec::new());
                },
                StackMove::MoveOut(window) => {
                    let configures: Vec<Configure> = self.move_out(
                        node,
                        window,
                        direction,
                        key,
                        group_key,
                    );
                    return (MoveResult::ShiftFocus(key), configures);
                },
                StackMove::Default => {},
            }
        }
        self.move_in_tree(node, direction, key)
    }
}

} // verus!
