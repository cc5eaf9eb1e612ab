//! The overview of a tiling tree: the areas of its groups and windows with room around them, and
//! what is drawn to show the groups.

use vstd::prelude::*;

use id_tree::{NodeId, Tree};

use crate::actions::Direction;
use crate::balance::lemma_sound;
use crate::classic::half_gap;
use crate::data::{
    copy_sizes, rescaled, settled, stretch_all, sum, sum_of, Data, DataView, PillIndicator,
};
use crate::copies::node_by_key;
use crate::focus::is_below;
use crate::fitting::{swap_area, swap_geometry};
use crate::geometry::{add_saturating, minus, plus, sub_saturating, Orientation, Rectangle};
use crate::graft::lemma_visits_parent;
use crate::lookups::{currently_focused_node, focus_view, KeyboardFocus, KeyboardFocusView};
use crate::moves::{leading, leads};
use crate::navigation::NodeDesc;
use crate::neighbours::has_sibling_node;
use crate::queue::{eased_area, eased_for, EasedArea};
use crate::surgery::{along, orientation_along, position_of};
use crate::units::saturate_i32;
use crate::tree::{
    child_ids, copy_id, get_node, model, parent_id, preorder_ids, root_id, same_id, visits,
    TreeModel, TreeNode,
};

verus! {

/// The room around groups in an overview that the keyboard opened, in pixels.
pub const GAP_KEYBOARD: i32 = 8;

/// The room around groups in an overview that the pointer opened, in pixels.
pub const GAP_MOUSE: i32 = 32;

/// The room between a window and the placeholder next to it, in pixels.
pub const PLACEHOLDER_GAP_MOUSE: i32 = 8;

/// The room between the edge of a tile and its backdrop, in pixels.
pub const WINDOW_BACKDROP_BORDER: i32 = 4;

/// The room between a backdrop and its window, in pixels.
pub const WINDOW_BACKDROP_GAP: i32 = 12;

/// The thickness of a bar that shows where something can be dropped, in pixels.
pub const PILL_THICKNESS: i32 = 16;

/// The room for such a bar at an edge of a group, in pixels.
pub const PILL_ROOM: i32 = 48;

/// The room on each side of such a bar between two windows, in pixels.
pub const PILL_GAP: i32 = 32;

/// How an overview is shown.
#[derive(Clone, Copy, Debug, PartialEq, Eq, Structural)]
pub struct ViewMode {
    /// The room around groups, in pixels.
    pub gap: i32,
    /// Whether the pointer opened it.
    pub mouse: bool,
    /// Whether it is drawn, with room for backdrops.
    pub drawing: bool,
    /// The key of the root of the tree.
    pub root: Option<u64>,
    /// The key of the node with the keyboard focus.
    pub focused: Option<u64>,
    /// Whether the node with the focus could form groups with its neighbours.
    pub potential: bool,
    /// The node that waits to be exchanged.
    pub swap: Option<NodeDesc>,
    /// Where such a node is shown.
    pub swap_anchor: Rectangle,
    /// The key of the window that a dragged one would be stacked with.
    pub stack_zone: Option<u64>,
}

/// What a decoration belongs to.
#[derive(Clone, Copy, Debug, PartialEq, Eq, Structural)]
pub enum DecorationKey {
    Group(u64),
    PotentialGroup(u64),
    Overview(u64),
    Placeholder(u64),
    Pill,
}

/// Something that is drawn to show groups: an outline or a filled area.
#[derive(Clone, Copy, Debug, PartialEq, Eq, Structural)]
pub struct Decoration {
    pub key: DecorationKey,
    pub outline: bool,
    pub geometry: Rectangle,
    pub radius: i32,
    /// The opacity, in percent.
    pub percent: i32,
    /// Whether it has the accent color.
    pub accent: bool,
}

/// A node and its area in an overview.
#[derive(Clone, Copy, Debug, PartialEq, Eq, Structural)]
pub struct NodeArea {
    pub key: u64,
    pub geometry: Rectangle,
}

impl Rectangle {
    /// What is left of an area beside a bar at one of its edges.
    pub open spec fn beside_pill(self, direction: Direction) -> Rectangle {
        let x = self.loc.x;
        let y = self.loc.y;
        let w = self.size.w;
        let h = self.size.h;
        match direction {
            Direction::Left => Rectangle::of(
                plus(x as int, PILL_ROOM as int),
                y,
                minus(w as int, PILL_ROOM as int),
                h,
            ),
            Direction::Up => Rectangle::of(
                x,
                plus(y as int, PILL_ROOM as int),
                w,
                minus(h as int, PILL_ROOM as int),
            ),
            Direction::Right => Rectangle::of(x, y, minus(w as int, PILL_ROOM as int), h),
            Direction::Down => Rectangle::of(x, y, w, minus(h as int, PILL_ROOM as int)),
        }
    }

    /// A bar at one of the edges of an area.
    pub open spec fn pill_at(self, direction: Direction) -> Rectangle {
        let x = self.loc.x;
        let y = self.loc.y;
        let w = self.size.w;
        let h = self.size.h;
        match direction {
            Direction::Left => Rectangle::of(x, y, PILL_THICKNESS, h),
            Direction::Up => Rectangle::of(x, y, w, PILL_THICKNESS),
            Direction::Right => Rectangle::of(
                minus(plus(x as int, w as int) as int, PILL_THICKNESS as int),
                y,
                PILL_THICKNESS,
                h,
            ),
            Direction::Down => Rectangle::of(
                x,
                minus(plus(y as int, h as int) as int, PILL_THICKNESS as int),
                w,
                PILL_THICKNESS,
            ),
        }
    }
}

/// The extents of the children of a group in another area.
pub open spec fn view_sizes(sizes: Seq<i32>, from: int, to: int) -> Seq<i32> {
    let rest = rescaled(sizes, from, to);
    if sum(rest) < to {
        settled(rest, to)
    } else {
        rest
    }
}

impl DataView {
    /// The part of an area that a child of a group takes there, before a bar between children
    /// takes some of it.
    pub open spec fn view_part(self, area: Rectangle, index: int) -> Rectangle {
        let orientation = self.spec_orientation();
        let sizes = view_sizes(
            self->sizes,
            self.geometry().extent(orientation) as int,
            area.extent(orientation) as int,
        );
        let before = sum(sizes.take(index));
        match orientation {
            Orientation::Horizontal => Rectangle::of(
                area.loc.x,
                plus(area.loc.y as int, saturate_i32(before)),
                area.size.w,
                sizes[index],
            ),
            Orientation::Vertical => Rectangle::of(
                plus(area.loc.x as int, saturate_i32(before)),
                area.loc.y,
                sizes[index],
                area.size.h,
            ),
        }
    }

    /// The place behind which a bar stands between the children of a group.
    pub open spec fn inner_pill(self, mouse: bool) -> Option<usize> {
        match self {
            DataView::Group { pill_indicator: Some(PillIndicator::Inner(index)), .. } if mouse => Some(
                index,
            ),
            _ => None,
        }
    }

    /// The edge at which a bar stands in a group.
    pub open spec fn outer_pill(self, mouse: bool) -> Option<Direction> {
        match self {
            DataView::Group { pill_indicator: Some(PillIndicator::Outer(direction)), .. } if mouse => Some(
                direction,
            ),
            _ => None,
        }
    }

    /// The part of an area that a child of a group takes there.
    pub open spec fn view_slot(self, area: Rectangle, index: int, mouse: bool) -> Rectangle {
        let part = self.view_part(area, index);
        let (ends, starts) = match self.inner_pill(mouse) {
            Some(pill) => (pill == index, pill + 1 == index),
            None => (false, false),
        };
        let gap = PILL_GAP as int;
        match self.spec_orientation() {
            Orientation::Horizontal => if ends {
                Rectangle::of(
                    part.loc.x,
                    part.loc.y,
                    part.size.w,
                    minus(part.size.h as int, gap),
                )
            } else if starts {
                Rectangle::of(
                    part.loc.x,
                    plus(part.loc.y as int, gap),
                    part.size.w,
                    minus(part.size.h as int, gap),
                )
            } else {
                part
            },
            Orientation::Vertical => if ends {
                Rectangle::of(
                    part.loc.x,
                    part.loc.y,
                    minus(part.size.w as int, gap),
                    part.size.h,
                )
            } else if starts {
                Rectangle::of(
                    plus(part.loc.x as int, gap),
                    part.loc.y,
                    minus(part.size.w as int, gap),
                    part.size.h,
                )
            } else {
                part
            },
        }
    }
}

impl TreeModel {
    /// Whether a placeholder is among the children of the group around a node.
    pub open spec fn beside_placeholder(self, id: NodeId) -> bool {
        match self.parent(id) {
            Some(parent) => exists|k: int|
                0 <= k < self.children(parent).len() && self.data(
                    #[trigger] self.children(parent)[k],
                ) is Placeholder,
            None => false,
        }
    }

    /// Whether something stands next to a node in its group.
    pub open spec fn has_sibling(self, id: NodeId, direction: Direction) -> bool {
        match self.parent(id) {
            Some(parent) => self.has_neighbour(parent, id, direction),
            None => false,
        }
    }

    /// The room beside a node in an overview. `top` tells whether everything is below it.
    pub open spec fn side_gap(self, id: NodeId, direction: Direction, top: bool, mode: ViewMode) -> i32 {
        if self.has_sibling(id, direction) && (mode.mouse || !top) {
            half_gap(
                if self.beside_placeholder(id) {
                    PLACEHOLDER_GAP_MOUSE
                } else {
                    mode.gap
                },
            )
        } else {
            0
        }
    }

    /// The area of a node with room beside it.
    pub open spec fn framed(self, id: NodeId, given: Rectangle, top: bool, mode: ViewMode) -> Rectangle {
        given.inset(
            self.side_gap(id, Direction::Left, top, mode),
            self.side_gap(id, Direction::Up, top, mode),
            self.side_gap(id, Direction::Right, top, mode),
            self.side_gap(id, Direction::Down, top, mode),
        )
    }

    /// Whether the node with the focus could form a group with this one: it stands next to it,
    /// among more than two.
    pub open spec fn is_potential(self, id: NodeId, mode: ViewMode) -> bool {
        &&& mode.swap is None
        &&& mode.potential
        &&& self.parent(id) matches Some(parent) && mode.focused matches Some(focused)
            && self.data(parent).spec_len() > 2 && exists|k: int|
            0 <= k < self.children(parent).len() && self.key(#[trigger] self.children(parent)[k])
                == focused && (k - self.place(parent, id) == 1 || self.place(parent, id) - k == 1)
    }

    /// The area inside of a group that its children share, before it is exchanged.
    pub open spec fn opened(self, id: NodeId, framed: Rectangle, mode: ViewMode) -> Rectangle {
        let inside = framed.inset(mode.gap, mode.gap, mode.gap, mode.gap);
        match self.data(id).outer_pill(mode.mouse) {
            Some(direction) => inside.beside_pill(direction),
            None => inside,
        }
    }

    /// Whether a node is the one that waits to be exchanged, all of it unless it is a group.
    pub open spec fn waits_for_swap(self, id: NodeId, mode: ViewMode) -> bool {
        mode.swap matches Some(swap) && swap.node == self.key(id) && (swap.whole || self.data(
            id,
        ) is Group)
    }

    /// The area of what waits to be exchanged, on its way.
    pub open spec fn on_its_way(self, id: NodeId, area: Rectangle, mode: ViewMode, eased: Seq<EasedArea>) -> Rectangle {
        if self.waits_for_swap(id, mode) {
            match eased_for(eased, self.key(id), 0) {
                Some(shown) => shown,
                None => area,
            }
        } else {
            area
        }
    }

    /// The area that the children of a group share.
    pub open spec fn shared(
        self,
        id: NodeId,
        given: Rectangle,
        top: bool,
        mode: ViewMode,
        eased: Seq<EasedArea>,
    ) -> Rectangle {
        self.on_its_way(
            id,
            self.opened(id, self.framed(id, given, top, mode), mode),
            mode,
            eased,
        )
    }

    /// Whether a window has a backdrop: it is not in a group that has the focus, or the pointer
    /// opened the overview.
    pub open spec fn has_backdrop(self, id: NodeId, mode: ViewMode) -> bool {
        match mode.focused {
            Some(focused) => !self.inside_of(id, focused),
            None => mode.mouse,
        }
    }

    /// Whether a node is below the one with this key.
    pub open spec fn inside_of(self, id: NodeId, key: u64) -> bool {
        self.has_key(key) && self.node_keyed(key) != id && self.below(id, self.node_keyed(key))
    }

    /// The area of a window with room for the outline of a group that it could join.
    pub open spec fn joined_area(self, id: NodeId, framed: Rectangle, mode: ViewMode) -> Rectangle {
        if self.is_potential(id, mode) {
            framed.inset(mode.gap, mode.gap, mode.gap, mode.gap)
        } else {
            framed
        }
    }

    /// The area of the backdrop of a window.
    pub open spec fn backdrop_area(self, id: NodeId, framed: Rectangle, mode: ViewMode) -> Rectangle {
        let joined = self.joined_area(id, framed, mode);
        let border = WINDOW_BACKDROP_BORDER;
        if self.has_backdrop(id, mode) {
            joined.inset(border, border, border, border)
        } else {
            joined
        }
    }

    /// The area of a window, before it is exchanged.
    pub open spec fn window_area(self, id: NodeId, framed: Rectangle, mode: ViewMode) -> Rectangle {
        let gap = WINDOW_BACKDROP_GAP;
        if mode.drawing {
            self.backdrop_area(id, framed, mode).inset(gap, gap, gap, gap)
        } else {
            framed
        }
    }

    /// The area of a node in an overview.
    pub open spec fn view_area(
        self,
        id: NodeId,
        given: Rectangle,
        top: bool,
        mode: ViewMode,
        eased: Seq<EasedArea>,
    ) -> Rectangle {
        let framed = self.framed(id, given, top, mode);
        let border = WINDOW_BACKDROP_BORDER;
        match self.data(id) {
            DataView::Group { .. } => if self.waits_for_swap(id, mode) {
                self.shared(id, given, top, mode, eased)
            } else {
                framed
            },
            DataView::Mapped { .. } => self.on_its_way(
                id,
                self.window_area(id, framed, mode),
                mode,
                eased,
            ),
            DataView::Placeholder { .. } => if mode.drawing {
                framed.inset(border, border, border, border)
            } else {
                framed
            },
        }
    }

    /// Whether these are the areas that are given to the nodes in a branch: `zone` to its top,
    /// and to each other node its part of what its group shares out.
    pub open spec fn viewed(
        self,
        top: NodeId,
        zone: Rectangle,
        mode: ViewMode,
        eased: Seq<EasedArea>,
        given: Map<NodeId, Rectangle>,
    ) -> bool {
        &&& given.contains_key(top)
        &&& given[top] == zone
        &&& forall|id: NodeId| #[trigger]
            given.contains_key(id) && id != top ==> self.parent(id) is Some && given.contains_key(
                self.parent(id)->0,
            ) && given[id] == self.data(self.parent(id)->0).view_slot(
                self.shared(
                    self.parent(id)->0,
                    given[self.parent(id)->0],
                    self.parent(id)->0 == top,
                    mode,
                    eased,
                ),
                self.place(self.parent(id)->0, id),
                mode.mouse,
            )
    }
}

/// One decoration, or none.
pub open spec fn when(condition: bool, decoration: Decoration) -> Seq<Decoration> {
    if condition {
        seq![decoration]
    } else {
        seq![]
    }
}

impl Decoration {
    /// The outline of something.
    pub open spec fn outline_of(key: DecorationKey, geometry: Rectangle, radius: i32, percent: i32) -> Decoration {
        Decoration { key, outline: true, geometry, radius, percent, accent: false }
    }

    /// A filled area behind something.
    pub open spec fn backdrop_of(key: DecorationKey, geometry: Rectangle, percent: i32, accent: bool) -> Decoration {
        Decoration { key, outline: false, geometry, radius: 8, percent, accent }
    }
}

impl DataView {
    /// The bar between two children of a group.
    pub open spec fn inner_bar(self, shared: Rectangle, mouse: bool) -> Seq<Decoration> {
        match self.inner_pill(mouse) {
            Some(pill) => if pill + 1 < self->sizes.len() {
                let part = self.view_part(shared, pill + 1);
                seq![
                    Decoration::backdrop_of(
                        DecorationKey::Pill,
                        match self.spec_orientation() {
                            Orientation::Horizontal => Rectangle::of(
                                part.loc.x,
                                minus(part.loc.y as int, 8),
                                part.size.w,
                                PILL_THICKNESS,
                            ),
                            Orientation::Vertical => Rectangle::of(
                                minus(part.loc.x as int, 8),
                                part.loc.y,
                                PILL_THICKNESS,
                                part.size.h,
                            ),
                        },
                        40,
                        false,
                    ),
                ]
            } else {
                seq![]
            },
            None => seq![],
        }
    }
}

impl TreeModel {
    /// Whether the node with the focus is a child of a group, and could not form others.
    pub open spec fn has_active_child(self, id: NodeId, mode: ViewMode) -> bool {
        &&& mode.swap is None
        &&& !mode.potential
        &&& mode.focused matches Some(focused) && exists|k: int|
            0 <= k < self.children(id).len() && self.key(#[trigger] self.children(id)[k]) == focused
    }

    /// Whether a bar that shows where something can be dropped stands next to a child of the
    /// group around it.
    pub open spec fn next_to_pill(self, id: NodeId) -> bool {
        match self.parent(id) {
            Some(parent) => {
                let place = self.place(parent, id);
                match self.data(parent) {
                    DataView::Group {
                        pill_indicator: Some(PillIndicator::Inner(pill)),
                        ..
                    } => pill == place || pill + 1 == place,
                    DataView::Group {
                        pill_indicator: Some(PillIndicator::Outer(direction)),
                        orientation,
                        ..
                    } => if orientation != along(direction) {
                        true
                    } else if leading(direction) {
                        place == 0
                    } else {
                        place + 1 == self.data(parent).spec_len()
                    },
                    _ => false,
                }
            },
            None => false,
        }
    }

    /// What is drawn to show a group.
    pub open spec fn group_decorations(
        self,
        id: NodeId,
        given: Rectangle,
        top: bool,
        mode: ViewMode,
        eased: Seq<EasedArea>,
    ) -> Seq<Decoration> {
        let key = self.key(id);
        let framed = self.framed(id, given, top, mode);
        let inside = framed.inset(mode.gap, mode.gap, mode.gap, mode.gap);
        let potential = self.is_potential(id, mode);
        let active = self.has_active_child(id, mode);
        let is_root = mode.root == Some(key);
        when(
            (potential || active) && !is_root,
            Decoration::outline_of(
                DecorationKey::Group(key),
                framed,
                if active {
                    16
                } else {
                    8
                },
                if potential {
                    40
                } else {
                    100
                },
            ),
        ) + when(
            mode.mouse && self.data(id)->pill_indicator is Some && !is_root,
            Decoration::outline_of(DecorationKey::Group(key), framed, 8, 40),
        ) + when(
            mode.mouse && self.next_to_pill(id),
            Decoration::outline_of(DecorationKey::Group(key), framed, 8, 15),
        ) + (match self.data(id).outer_pill(mode.mouse) {
            Some(direction) => seq![
                Decoration::backdrop_of(DecorationKey::Pill, inside.pill_at(direction), 40, false),
            ],
            None => seq![],
        }) + when(
            self.waits_for_swap(id, mode),
            Decoration::backdrop_of(
                DecorationKey::Group(key),
                self.opened(id, framed, mode),
                if mode.focused == Some(key) {
                    40
                } else {
                    15
                },
                false,
            ),
        ) + self.data(id).inner_bar(self.shared(id, given, top, mode, eased), mode.mouse)
    }

    /// What is drawn to show a window.
    pub open spec fn window_decorations(self, id: NodeId, framed: Rectangle, mode: ViewMode) -> Seq<Decoration> {
        let key = self.key(id);
        let accent = mode.mouse && mode.stack_zone == Some(key);
        let strong = match mode.focused {
            Some(focused) => focused == key,
            None => accent,
        };
        when(
            self.is_potential(id, mode),
            Decoration::outline_of(DecorationKey::PotentialGroup(key), framed, 8, 40),
        ) + when(
            self.has_backdrop(id, mode),
            Decoration::backdrop_of(
                DecorationKey::Overview(key),
                self.backdrop_area(id, framed, mode),
                if strong {
                    40
                } else {
                    15
                },
                accent,
            ),
        )
    }

    /// What is drawn to show a node.
    pub open spec fn decorations(
        self,
        id: NodeId,
        given: Rectangle,
        top: bool,
        mode: ViewMode,
        eased: Seq<EasedArea>,
    ) -> Seq<Decoration> {
        let framed = self.framed(id, given, top, mode);
        let border = WINDOW_BACKDROP_BORDER;
        if !mode.drawing {
            seq![]
        } else {
            match self.data(id) {
                DataView::Group { .. } => self.group_decorations(id, given, top, mode, eased),
                DataView::Mapped { .. } => self.window_decorations(id, framed, mode),
                DataView::Placeholder { .. } => seq![
                    Decoration::backdrop_of(
                        DecorationKey::Placeholder(self.key(id)),
                        framed.inset(border, border, border, border),
                        40,
                        false,
                    ),
                ],
            }
        }
    }

    /// Where a node that waits to be exchanged comes from and goes to.
    pub open spec fn swap_move(self, id: NodeId, given: Rectangle, top: bool, mode: ViewMode) -> Seq<SwapMove> {
        let framed = self.framed(id, given, top, mode);
        if self.waits_for_swap(id, mode) && !(self.data(id) is Placeholder) {
            let from = match self.data(id) {
                DataView::Group { .. } => self.opened(id, framed, mode),
                _ => self.window_area(id, framed, mode),
            };
            seq![
                SwapMove { key: self.key(id), from, to: swap_area(from.size, mode.swap_anchor) },
            ]
        } else {
            seq![]
        }
    }
}

impl TreeModel {
    /// What is drawn to show nodes, one after the other.
    pub open spec fn decorated(
        self,
        top: NodeId,
        mode: ViewMode,
        eased: Seq<EasedArea>,
        given: Map<NodeId, Rectangle>,
        order: Seq<NodeId>,
    ) -> Seq<Decoration>
        decreases order.len(),
    {
        if order.len() == 0 {
            seq![]
        } else {
            let id = order.last();
            self.decorated(top, mode, eased, given, order.drop_last()) + self.decorations(
                id,
                given[id],
                id == top,
                mode,
                eased,
            )
        }
    }

    /// The ways of those of some nodes that wait to be exchanged.
    pub open spec fn moved_about(
        self,
        top: NodeId,
        mode: ViewMode,
        given: Map<NodeId, Rectangle>,
        order: Seq<NodeId>,
    ) -> Seq<SwapMove>
        decreases order.len(),
    {
        if order.len() == 0 {
            seq![]
        } else {
            let id = order.last();
            self.moved_about(top, mode, given, order.drop_last()) + self.swap_move(
                id,
                given[id],
                id == top,
                mode,
            )
        }
    }

    /// The area of a node, with its key.
    pub open spec fn keyed_area(
        self,
        id: NodeId,
        top: NodeId,
        mode: ViewMode,
        eased: Seq<EasedArea>,
        given: Map<NodeId, Rectangle>,
    ) -> NodeArea {
        NodeArea {
            key: self.key(id),
            geometry: self.view_area(id, given[id], id == top, mode, eased),
        }
    }

    /// Whether this is the overview of some nodes of a branch, whose areas are given.
    pub open spec fn shows_nodes(
        self,
        top: NodeId,
        mode: ViewMode,
        eased: Seq<EasedArea>,
        given: Map<NodeId, Rectangle>,
        order: Seq<NodeId>,
        view: GroupView,
    ) -> bool {
        &&& view.areas@.len() == order.len()
        &&& forall|k: int|
            0 <= k < order.len() ==> #[trigger] view.areas@[k] == self.keyed_area(
                order[k],
                top,
                mode,
                eased,
                given,
            )
        &&& view.decorations@ == self.decorated(top, mode, eased, given, order)
        &&& view.moves@ == self.moved_about(top, mode, given, order)
    }

    /// Whether this is the overview of a branch: its nodes are visited in `order`, each with
    /// the area that is given to it.
    pub open spec fn shows_along(
        self,
        top: NodeId,
        zone: Rectangle,
        mode: ViewMode,
        eased: Seq<EasedArea>,
        order: Seq<NodeId>,
        given: Map<NodeId, Rectangle>,
        view: GroupView,
    ) -> bool {
        &&& visits(self.nodes, seq![top], order)
        &&& forall|id: NodeId| #[trigger] given.contains_key(id) == order.contains(id)
        &&& self.viewed(top, zone, mode, eased, given)
        &&& self.shows_nodes(top, mode, eased, given, order, view)
    }

    /// Whether this is the overview of a branch in an area.
    pub open spec fn shows_branch(
        self,
        top: NodeId,
        zone: Rectangle,
        mode: ViewMode,
        eased: Seq<EasedArea>,
        view: GroupView,
    ) -> bool {
        exists|order: Seq<NodeId>, given: Map<NodeId, Rectangle>| #[trigger]
            self.shows_along(top, zone, mode, eased, order, given, view)
    }
}

/// What is asked of an overview.
#[derive(Clone, Copy, Debug, PartialEq, Eq, Structural)]
pub struct Overview {
    /// The room around groups, in pixels.
    pub gap: i32,
    /// Whether the pointer opened it.
    pub mouse: bool,
    /// Whether it is drawn.
    pub drawing: bool,
    /// The node that waits to be exchanged.
    pub swap: Option<NodeDesc>,
    /// The key of the window that a dragged one would be stacked with.
    pub stack_zone: Option<u64>,
}

impl TreeModel {
    /// Whether a node stands among more than two.
    pub open spec fn among_many(self, id: NodeId) -> bool {
        match self.parent(id) {
            Some(parent) => self.children(parent).len() > 2,
            None => false,
        }
    }

    /// How an overview of a tree is shown where a node has the focus.
    pub open spec fn view_mode(self, zone: Rectangle, asked: Overview, focused: Option<NodeId>) -> ViewMode {
        let border = WINDOW_BACKDROP_BORDER;
        ViewMode {
            gap: asked.gap,
            mouse: asked.mouse,
            drawing: asked.drawing,
            root: match self.root {
                Some(root) => Some(self.key(root)),
                None => None,
            },
            focused: match focused {
                Some(id) => Some(self.key(id)),
                None => None,
            },
            potential: match focused {
                Some(id) => self.among_many(id),
                None => false,
            },
            swap: asked.swap,
            swap_anchor: match focused {
                Some(id) => self.data(id).geometry(),
                None => zone.inset(border, border, border, border),
            },
            stack_zone: asked.stack_zone,
        }
    }
}

impl GroupView {
    /// Whether nothing is in an overview.
    pub open spec fn is_bare(self) -> bool {
        self.areas@.len() == 0 && self.decorations@.len() == 0 && self.moves@.len() == 0
    }

    /// Whether this is made of the overviews of a tree and of a branch that comes from another
    /// one. Without a tree nothing is drawn.
    pub open spec fn made_of(self, shown: GroupView, other: GroupView, drawn: bool) -> bool {
        &&& self.areas@ == shown.areas@ + other.areas@
        &&& self.moves@ == shown.moves@ + other.moves@
        &&& self.decorations@ == if drawn {
            shown.decorations@ + other.decorations@
        } else {
            shown.decorations@
        }
    }
}

/// The area for a branch that comes from another tree, before it is on its way.
pub open spec fn stand_in_area() -> Rectangle {
    Rectangle::of(0, 0, 320, 240)
}

impl TreeModel {
    /// Whether `view` is an overview of the tree, with the branch of another tree that waits to
    /// be exchanged.
    pub open spec fn shows(
        self,
        guest: Option<TreeModel>,
        zone: Rectangle,
        mode: ViewMode,
        eased: Seq<EasedArea>,
        shown: GroupView,
        other: GroupView,
        view: GroupView,
    ) -> bool {
        &&& match self.root {
            Some(root) => self.shows_branch(root, zone, mode, eased, shown),
            None => shown.is_bare(),
        }
        &&& match (guest, mode.swap) {
            (Some(guest), Some(swap)) => if swap.whole {
                guest.shows_branch(
                    guest.node_keyed(swap.node),
                    stand_in_area(),
                    mode,
                    eased,
                    other,
                )
            } else {
                other.is_bare()
            },
            _ => other.is_bare(),
        }
        &&& view.made_of(shown, other, self.root is Some)
    }

    /// Whether `view` is what is asked for, where the focus is on the node that `focus` names.
    pub open spec fn shows_for(
        self,
        guest: Option<TreeModel>,
        zone: Rectangle,
        focus: Option<KeyboardFocusView>,
        asked: Overview,
        eased: Seq<EasedArea>,
        view: GroupView,
    ) -> bool {
        exists|found: Option<NodeId>, shown: GroupView, other: GroupView|
            (match focus {
                Some(focus) => self.focused_node(focus, found),
                None => found is None,
            }) && #[trigger] self.shows(
                guest,
                zone,
                self.view_mode(zone, asked, found),
                eased,
                shown,
                other,
                view,
            )
    }
}

/// Where a node that waits to be exchanged comes from and goes to.
#[derive(Clone, Copy, Debug, PartialEq, Eq, Structural)]
pub struct SwapMove {
    pub key: u64,
    pub from: Rectangle,
    pub to: Rectangle,
}

/// An overview: the areas of the nodes, what is drawn, and the ways of what waits to be
/// exchanged.
#[derive(Debug)]
pub struct GroupView {
    pub areas: Vec<NodeArea>,
    pub decorations: Vec<Decoration>,
    pub moves: Vec<SwapMove>,
}

/// Half of a gap, rounded towards zero.
fn halve(gap: i32) -> (half: i32)
    ensures
        half == half_gap(gap),
{
    if gap >= 0 {
        gap / 2
    } else if gap == i32::MIN {
        -0x4000_0000
    } else {
        -((-gap) / 2)
    }
}

/// Whether a placeholder is among the children of the group around a node.
fn beside_placeholder(tree: &Tree<TreeNode>, id: &NodeId) -> (yes: bool)
    requires
        model(*tree).settled(),
        model(*tree).has(*id),
    ensures
        yes == model(*tree).beside_placeholder(*id),
{
    let ghost shape = model(*tree);
    let parent: NodeId = match parent_id(tree, id) {
        Some(parent) => parent,
        None => {
            return false;
        },
    };
    assert(shape.has(parent) && forall|k: int|
        0 <= k < shape.children(parent).len() ==> shape.has(#[trigger] shape.children(parent)[k]))
        by {
        lemma_sound(shape);
        assert(shape.has(*id));
    }
    let children: Vec<NodeId> = child_ids(tree, &parent);
    let mut i: usize = 0;
    while i < children.len()
        invariant
            i <= children@.len(),
            shape == model(*tree),
            shape.parent(*id) == Some(parent),
            children@ == shape.children(parent),
            forall|k: int| 0 <= k < children@.len() ==> shape.has(#[trigger] children@[k]),
            forall|k: int|
                0 <= k < i ==> !(shape.data(#[trigger] children@[k]) is Placeholder),
        decreases children@.len() - i,
    {
        assert(shape.has(children@[i as int]));
        let placeholder: bool = match get_node(tree, &children[i]) {
            Some(node) => node.data.is_placeholder(),
            None => false,
        };
        if placeholder {
            assert(shape.data(shape.children(parent)[i as int]) is Placeholder);
            return true;
        }
        i += 1;
    }
    false
}

/// The area of a node with room beside it.
fn frame(tree: &Tree<TreeNode>, id: &NodeId, given: Rectangle, top: bool, mode: ViewMode) -> (area:
    Rectangle)
    requires
        model(*tree).settled(),
        model(*tree).has(*id),
    ensures
        area == model(*tree).framed(*id, given, top, mode),
{
    let ghost shape = model(*tree);
    assert(shape.forest() && shape.groups_branch()) by {
        lemma_sound(shape);
        reveal(TreeModel::regular);
    }
    let gap: i32 = halve(
        if beside_placeholder(tree, id) {
            PLACEHOLDER_GAP_MOUSE
        } else {
            mode.gap
        },
    );
    let roomy: bool = mode.mouse || !top;
    let left: i32 = if has_sibling_node(tree, id, Direction::Left) && roomy {
        gap
    } else {
        0
    };
    let up: i32 = if has_sibling_node(tree, id, Direction::Up) && roomy {
        gap
    } else {
        0
    };
    let right: i32 = if has_sibling_node(tree, id, Direction::Right) && roomy {
        gap
    } else {
        0
    };
    let down: i32 = if has_sibling_node(tree, id, Direction::Down) && roomy {
        gap
    } else {
        0
    };
    given.shrunk_by(left, up, right, down)
}

/// The place of the child with this key.
fn place_keyed(tree: &Tree<TreeNode>, children: &Vec<NodeId>, key: u64) -> (place: Option<usize>)
    requires
        forall|k: int| 0 <= k < children@.len() ==> model(*tree).has(#[trigger] children@[k]),
    ensures
        match place {
            Some(place) => place < children@.len() && model(*tree).key(children@[place as int])
                == key,
            None => forall|k: int|
                0 <= k < children@.len() ==> model(*tree).key(#[trigger] children@[k]) != key,
        },
{
    let mut i: usize = 0;
    while i < children.len()
        invariant
            i <= children@.len(),
            forall|k: int| 0 <= k < children@.len() ==> model(*tree).has(#[trigger] children@[k]),
            forall|k: int| 0 <= k < i ==> model(*tree).key(#[trigger] children@[k]) != key,
        decreases children@.len() - i,
    {
        assert(model(*tree).has(children@[i as int]));
        let same: bool = match get_node(tree, &children[i]) {
            Some(node) => node.key == key,
            None => false,
        };
        if same {
            return Some(i);
        }
        i += 1;
    }
    None
}

/// Whether the node with the focus could form a group with this one.
fn is_potential(tree: &Tree<TreeNode>, id: &NodeId, mode: ViewMode) -> (yes: bool)
    requires
        model(*tree).settled(),
        model(*tree).keyed(),
        model(*tree).has(*id),
    ensures
        yes == model(*tree).is_potential(*id, mode),
{
    let ghost shape = model(*tree);
    if mode.swap.is_some() || !mode.potential {
        return false;
    }
    let focused: u64 = match mode.focused {
        Some(focused) => focused,
        None => {
            return false;
        },
    };
    let parent: NodeId = match parent_id(tree, id) {
        Some(parent) => parent,
        None => {
            return false;
        },
    };
    assert(shape.has(parent) && shape.children(parent).contains(*id) && shape.children(
        parent,
    ).no_duplicates() && forall|k: int|
        0 <= k < shape.children(parent).len() ==> shape.has(#[trigger] shape.children(parent)[k]))
        by {
        lemma_sound(shape);
        assert(shape.has(*id));
        assert(shape.has(parent));
    }
    let children: Vec<NodeId> = child_ids(tree, &parent);
    let own: usize = match position_of(&children, id) {
        Some(own) => own,
        None => 0,
    };
    let count: usize = match get_node(tree, &parent) {
        Some(node) => node.data.len(),
        None => 0,
    };
    let length: usize = children.len();
    match place_keyed(tree, &children, focused) {
        Some(place) => {
            proof {
                assert forall|k: int|
                    0 <= k < shape.children(parent).len() && shape.key(
                        #[trigger] shape.children(parent)[k],
                    ) == focused implies k == place by {
                    assert(shape.key(children@[k]) == shape.key(children@[place as int]));
                }
                assert(shape.key(shape.children(parent)[place as int]) == focused);
            }
            count > 2 && ((place > own && place - own == 1) || (own > place && own - place == 1))
        },
        None => {
            assert forall|k: int| 0 <= k < shape.children(parent).len() implies shape.key(
                #[trigger] shape.children(parent)[k],
            ) != focused by {
                assert(shape.key(children@[k]) != focused);
            }
            false
        },
    }
}

impl Rectangle {
    /// What is left of an area beside a bar at one of its edges.
    fn without_pill(self, direction: Direction) -> (rest: Rectangle)
        ensures
            rest == self.beside_pill(direction),
    {
        let x: i32 = self.loc.x;
        let y: i32 = self.loc.y;
        let w: i32 = self.size.w;
        let h: i32 = self.size.h;
        match direction {
            Direction::Left => Rectangle::new(
                add_saturating(x, PILL_ROOM),
                y,
                sub_saturating(w, PILL_ROOM),
                h,
            ),
            Direction::Up => Rectangle::new(
                x,
                add_saturating(y, PILL_ROOM),
                w,
                sub_saturating(h, PILL_ROOM),
            ),
            Direction::Right => Rectangle::new(x, y, sub_saturating(w, PILL_ROOM), h),
            Direction::Down => Rectangle::new(x, y, w, sub_saturating(h, PILL_ROOM)),
        }
    }

    /// A bar at one of the edges of an area.
    fn pill(self, direction: Direction) -> (bar: Rectangle)
        ensures
            bar == self.pill_at(direction),
    {
        let x: i32 = self.loc.x;
        let y: i32 = self.loc.y;
        let w: i32 = self.size.w;
        let h: i32 = self.size.h;
        match direction {
            Direction::Left => Rectangle::new(x, y, PILL_THICKNESS, h),
            Direction::Up => Rectangle::new(x, y, w, PILL_THICKNESS),
            Direction::Right => Rectangle::new(
                sub_saturating(add_saturating(x, w), PILL_THICKNESS),
                y,
                PILL_THICKNESS,
                h,
            ),
            Direction::Down => Rectangle::new(
                x,
                sub_saturating(add_saturating(y, h), PILL_THICKNESS),
                w,
                PILL_THICKNESS,
            ),
        }
    }
}

impl Data {
    /// The place behind which a bar stands between the children of a group.
    fn bar_inside(&self, mouse: bool) -> (place: Option<usize>)
        ensures
            place == self@.inner_pill(mouse),
    {
        match self {
            Data::Group { pill_indicator, .. } => match pill_indicator {
                Some(PillIndicator::Inner(index)) => if mouse {
                    Some(*index)
                } else {
                    None
                },
                _ => None,
            },
            _ => None,
        }
    }

    /// The edge at which a bar stands in a group.
    fn bar_outside(&self, mouse: bool) -> (edge: Option<Direction>)
        ensures
            edge == self@.outer_pill(mouse),
    {
        match self {
            Data::Group { pill_indicator, .. } => match pill_indicator {
                Some(PillIndicator::Outer(direction)) => if mouse {
                    Some(*direction)
                } else {
                    None
                },
                _ => None,
            },
            _ => None,
        }
    }

    /// The part of an area that a child of a group takes there, before a bar between children
    /// takes some of it.
    fn part_in(&self, area: Rectangle, index: usize) -> (part: Rectangle)
        requires
            self@ is Group,
            index < self@->sizes.len(),
        ensures
            part == self@.view_part(area, index as int),
    {
        match self {
            Data::Group { orientation, sizes, last_geometry, .. } => {
                let mut extents: Vec<i32> = copy_sizes(sizes);
                stretch_all(
                    &mut extents,
                    last_geometry.length(*orientation),
                    area.length(*orientation),
                );
                let ghost all = extents@;
                assert(all =~= view_sizes(
                    self@->sizes,
                    self@.geometry().extent(self@.spec_orientation()) as int,
                    area.extent(self@.spec_orientation()) as int,
                ));
                let extent: i32 = extents[index];
                extents.truncate(index);
                assert(extents@ =~= all.take(index as int));
                let before: i128 = sum_of(&extents);
                let offset: i32 = if before > i32::MAX as i128 {
                    i32::MAX
                } else if before < i32::MIN as i128 {
                    i32::MIN
                } else {
                    before as i32
                };
                match orientation {
                    Orientation::Horizontal => Rectangle::new(
                        area.loc.x,
                        add_saturating(area.loc.y, offset),
                        area.size.w,
                        extent,
                    ),
                    Orientation::Vertical => Rectangle::new(
                        add_saturating(area.loc.x, offset),
                        area.loc.y,
                        extent,
                        area.size.h,
                    ),
                }
            },
            _ => area,
        }
    }

    /// The part of an area that a child of a group takes there.
    fn slot_in(&self, area: Rectangle, index: usize, mouse: bool) -> (slot: Rectangle)
        requires
            self@ is Group,
            index < self@->sizes.len(),
        ensures
            slot == self@.view_slot(area, index as int, mouse),
    {
        let part: Rectangle = self.part_in(area, index);
        let (ends, starts): (bool, bool) = match self.bar_inside(mouse) {
            Some(pill) => (pill == index, index > 0 && pill == index - 1),
            None => (false, false),
        };
        let x: i32 = part.loc.x;
        let y: i32 = part.loc.y;
        let w: i32 = part.size.w;
        let h: i32 = part.size.h;
        match self.orientation() {
            Orientation::Horizontal => if ends {
                Rectangle::new(x, y, w, sub_saturating(h, PILL_GAP))
            } else if starts {
                Rectangle::new(x, add_saturating(y, PILL_GAP), w, sub_saturating(h, PILL_GAP))
            } else {
                part
            },
            Orientation::Vertical => if ends {
                Rectangle::new(x, y, sub_saturating(w, PILL_GAP), h)
            } else if starts {
                Rectangle::new(add_saturating(x, PILL_GAP), y, sub_saturating(w, PILL_GAP), h)
            } else {
                part
            },
        }
    }
}

/// Whether a node is the one that waits to be exchanged.
fn waits_for_swap(node: &TreeNode, mode: ViewMode) -> (waits: bool)
    ensures
        waits == (mode.swap matches Some(swap) && swap.node == node@.key && (swap.whole
            || node@.data is Group)),
{
    match mode.swap {
        Some(swap) => swap.node == node.key && (swap.whole || node.data.is_group()),
        None => false,
    }
}

/// The area inside of a group that its children share, before it is exchanged.
fn open_group(data: &Data, framed: Rectangle, mode: ViewMode) -> (area: Rectangle)
    ensures
        area == ({
            let inside = framed.inset(mode.gap, mode.gap, mode.gap, mode.gap);
            match data@.outer_pill(mode.mouse) {
                Some(direction) => inside.beside_pill(direction),
                None => inside,
            }
        }),
{
    let inside: Rectangle = framed.shrunk_by(mode.gap, mode.gap, mode.gap, mode.gap);
    match data.bar_outside(mode.mouse) {
        Some(direction) => inside.without_pill(direction),
        None => inside,
    }
}

/// The area that the children of a group share.
fn shared_area(
    tree: &Tree<TreeNode>,
    id: &NodeId,
    given: Rectangle,
    top: bool,
    mode: ViewMode,
    eased: &Vec<EasedArea>,
) -> (area: Rectangle)
    requires
        model(*tree).settled(),
        model(*tree).has(*id),
    ensures
        area == model(*tree).shared(*id, given, top, mode, eased@),
{
    let framed: Rectangle = frame(tree, id, given, top, mode);
    match get_node(tree, id) {
        Some(node) => {
            let area: Rectangle = open_group(&node.data, framed, mode);
            if waits_for_swap(node, mode) {
                match eased_area(eased, node.key) {
                    Some(shown) => shown,
                    None => area,
                }
            } else {
                area
            }
        },
        None => framed,
    }
}

/// The area that a child of a group is given.
fn given_area(
    tree: &Tree<TreeNode>,
    parent: &NodeId,
    id: &NodeId,
    given: Rectangle,
    top: bool,
    mode: ViewMode,
    eased: &Vec<EasedArea>,
) -> (area: Rectangle)
    requires
        model(*tree).settled(),
        model(*tree).has(*id),
        model(*tree).parent(*id) == Some(*parent),
    ensures
        area == model(*tree).data(*parent).view_slot(
            model(*tree).shared(*parent, given, top, mode, eased@),
            model(*tree).place(*parent, *id),
            mode.mouse,
        ),
{
    let ghost shape = model(*tree);
    assert(shape.has(*parent) && shape.children(*parent).contains(*id) && shape.children(
        *parent,
    ).no_duplicates() && shape.data(*parent) is Group && shape.data(*parent)->sizes.len()
        == shape.children(*parent).len()) by {
        lemma_sound(shape);
        assert(shape.has(*id));
        assert(shape.has(*parent));
        assert(shape.excess(*parent) == 0);
    }
    let area: Rectangle = shared_area(tree, parent, given, top, mode, eased);
    let children: Vec<NodeId> = child_ids(tree, parent);
    let place: usize = match position_of(&children, id) {
        Some(place) => place,
        None => 0,
    };
    assert(place == shape.place(*parent, *id)) by {
        let k = shape.children(*parent).index_of(*id);
        assert(children@[k] == children@[place as int]);
    }
    match get_node(tree, parent) {
        Some(node) => node.data.slot_in(area, place, mode.mouse),
        None => area,
    }
}

/// Whether a window has a backdrop.
fn has_backdrop(tree: &Tree<TreeNode>, id: &NodeId, mode: ViewMode) -> (yes: bool)
    requires
        model(*tree).settled(),
        model(*tree).keyed(),
        model(*tree).has(*id),
    ensures
        yes == model(*tree).has_backdrop(*id, mode),
{
    let ghost shape = model(*tree);
    assert(shape.forest() && shape.regular()) by {
        lemma_sound(shape);
    }
    match mode.focused {
        Some(focused) => match node_by_key(tree, focused) {
            Some(top) => {
                assert(shape.has(top) && shape.key(top) == focused);
                same_id(&top, id) || !is_below(tree, id, &top)
            },
            None => true,
        },
        None => mode.mouse,
    }
}

/// Adds a decoration to a list where it is wanted.
fn push_when(list: &mut Vec<Decoration>, condition: bool, decoration: Decoration)
    ensures
        final(list)@ == old(list)@ + when(condition, decoration),
{
    if condition {
        list.push(decoration);
    }
    assert(list@ =~= old(list)@ + when(condition, decoration));
}

/// An outline.
fn outline(key: DecorationKey, geometry: Rectangle, radius: i32, percent: i32) -> (decoration:
    Decoration)
    ensures
        decoration == Decoration::outline_of(key, geometry, radius, percent),
{
    Decoration { key, outline: true, geometry, radius, percent, accent: false }
}

/// A filled area.
fn backdrop(key: DecorationKey, geometry: Rectangle, percent: i32, accent: bool) -> (decoration:
    Decoration)
    ensures
        decoration == Decoration::backdrop_of(key, geometry, percent, accent),
{
    Decoration { key, outline: false, geometry, radius: 8, percent, accent }
}

/// Whether the node with the focus is a child of a group, and could not form others.
fn has_active_child(tree: &Tree<TreeNode>, id: &NodeId, mode: ViewMode) -> (yes: bool)
    requires
        model(*tree).settled(),
        model(*tree).has(*id),
    ensures
        yes == model(*tree).has_active_child(*id, mode),
{
    let ghost shape = model(*tree);
    if mode.swap.is_some() || mode.potential {
        return false;
    }
    let focused: u64 = match mode.focused {
        Some(focused) => focused,
        None => {
            return false;
        },
    };
    assert(forall|k: int|
        0 <= k < shape.children(*id).len() ==> shape.has(#[trigger] shape.children(*id)[k])) by {
        lemma_sound(shape);
        assert(shape.has(*id));
    }
    let children: Vec<NodeId> = child_ids(tree, id);
    match place_keyed(tree, &children, focused) {
        Some(place) => {
            assert(shape.key(shape.children(*id)[place as int]) == focused);
            true
        },
        None => {
            assert forall|k: int| 0 <= k < shape.children(*id).len() implies shape.key(
                #[trigger] shape.children(*id)[k],
            ) != focused by {
                assert(shape.key(children@[k]) != focused);
            }
            false
        },
    }
}

/// Whether a bar that shows where something can be dropped stands next to a child of the group
/// around it.
fn next_to_pill(tree: &Tree<TreeNode>, id: &NodeId) -> (yes: bool)
    requires
        model(*tree).settled(),
        model(*tree).has(*id),
    ensures
        yes == model(*tree).next_to_pill(*id),
{
    let ghost shape = model(*tree);
    let parent: NodeId = match parent_id(tree, id) {
        Some(parent) => parent,
        None => {
            return false;
        },
    };
    assert(shape.has(parent) && shape.children(parent).contains(*id) && shape.children(
        parent,
    ).no_duplicates()) by {
        lemma_sound(shape);
        assert(shape.has(*id));
        assert(shape.has(parent));
    }
    let children: Vec<NodeId> = child_ids(tree, &parent);
    let place: usize = match position_of(&children, id) {
        Some(place) => place,
        None => 0,
    };
    assert(place == shape.place(parent, *id)) by {
        let k = shape.children(parent).index_of(*id);
        assert(children@[k] == children@[place as int]);
    }
    match get_node(tree, &parent) {
        Some(node) => {
            let len: usize = node.data.len();
            match &node.data {
                Data::Group { pill_indicator, orientation, .. } => match pill_indicator {
                    Some(PillIndicator::Inner(pill)) => *pill == place || (place > 0 && *pill
                        == place - 1),
                    Some(PillIndicator::Outer(direction)) => if *orientation
                        != orientation_along(*direction) {
                        true
                    } else if leads(*direction) {
                        place == 0
                    } else {
                        len > 0 && place == len - 1
                    },
                    None => false,
                },
                _ => false,
            }
        },
        None => false,
    }
}

/// Adds the bar between two children of a group to a list.
fn push_inner_pill(list: &mut Vec<Decoration>, data: &Data, shared: Rectangle, mode: ViewMode)
    requires
        data@ is Group,
    ensures
        final(list)@ == old(list)@ + data@.inner_bar(shared, mode.mouse),
{
    match data.bar_inside(mode.mouse) {
        Some(pill) => {
            let count: usize = data.len();
            if count > 0 && pill < count - 1 {
                let part: Rectangle = data.part_in(shared, pill + 1);
                let bar: Rectangle = match data.orientation() {
                    Orientation::Horizontal => Rectangle::new(
                        part.loc.x,
                        sub_saturating(part.loc.y, 8),
                        part.size.w,
                        PILL_THICKNESS,
                    ),
                    Orientation::Vertical => Rectangle::new(
                        sub_saturating(part.loc.x, 8),
                        part.loc.y,
                        PILL_THICKNESS,
                        part.size.h,
                    ),
                };
                list.push(backdrop(DecorationKey::Pill, bar, 40, false));
            }
        },
        None => {},
    }
    assert(list@ =~= old(list)@ + data@.inner_bar(shared, mode.mouse));
}

/// What is drawn to show a group.
fn decorate_group(
    tree: &Tree<TreeNode>,
    id: &NodeId,
    given: Rectangle,
    top: bool,
    mode: ViewMode,
    eased: &Vec<EasedArea>,
) -> (list: Vec<Decoration>)
    requires
        model(*tree).settled(),
        model(*tree).keyed(),
        model(*tree).has(*id),
        model(*tree).data(*id) is Group,
    ensures
        list@ == model(*tree).group_decorations(*id, given, top, mode, eased@),
{
    let ghost shape = model(*tree);
    let mut list: Vec<Decoration> = Vec::new();
    let potential: bool = is_potential(tree, id, mode);
    let active: bool = has_active_child(tree, id, mode);
    let beside: bool = next_to_pill(tree, id);
    let framed: Rectangle = frame(tree, id, given, top, mode);
    let inside: Rectangle = framed.shrunk_by(mode.gap, mode.gap, mode.gap, mode.gap);
    let shared: Rectangle = shared_area(tree, id, given, top, mode, eased);
    match get_node(tree, id) {
        Some(node) => {
            let key: u64 = node.key;
            let is_root: bool = match mode.root {
                Some(root) => root == key,
                None => false,
            };
            let focused: bool = match mode.focused {
                Some(focused) => focused == key,
                None => false,
            };
            let has_pill: bool = match &node.data {
                Data::Group { pill_indicator, .. } => pill_indicator.is_some(),
                _ => false,
            };
            push_when(
                &mut list,
                (potential || active) && !is_root,
                outline(
                    DecorationKey::Group(key),
                    framed,
                    if active {
                        16
                    } else {
                        8
                    },
                    if potential {
                        40
                    } else {
                        100
                    },
                ),
            );
            push_when(
                &mut list,
                mode.mouse && has_pill && !is_root,
                outline(DecorationKey::Group(key), framed, 8, 40),
            );
            push_when(
                &mut list,
                mode.mouse && beside,
                outline(DecorationKey::Group(key), framed, 8, 15),
            );
            let ghost before = list@;
            match node.data.bar_outside(mode.mouse) {
                Some(direction) => {
                    list.push(backdrop(DecorationKey::Pill, inside.pill(direction), 40, false));
                },
                None => {},
            }
            assert(list@ =~= before + (match shape.data(*id).outer_pill(mode.mouse) {
                Some(direction) => seq![
                    Decoration::backdrop_of(DecorationKey::Pill, inside.pill_at(direction), 40, false),
                ],
                None => seq![],
            }));
            let area: Rectangle = open_group(&node.data, framed, mode);
            push_when(
                &mut list,
                waits_for_swap(node, mode),
                backdrop(
                    DecorationKey::Group(key),
                    area,
                    if focused {
                        40
                    } else {
                        15
                    },
                    false,
                ),
            );
            push_inner_pill(&mut list, &node.data, shared, mode);
            assert(list@ =~= shape.group_decorations(*id, given, top, mode, eased@));
        },
        None => {},
    }
    list
}

/// The area of the backdrop of a window, and that of the window before it is exchanged.
fn window_areas(tree: &Tree<TreeNode>, id: &NodeId, framed: Rectangle, mode: ViewMode) -> (areas: (
    Rectangle,
    Rectangle,
))
    requires
        model(*tree).settled(),
        model(*tree).keyed(),
        model(*tree).has(*id),
    ensures
        areas.0 == model(*tree).backdrop_area(*id, framed, mode),
        areas.1 == model(*tree).window_area(*id, framed, mode),
{
    let joined: Rectangle = if is_potential(tree, id, mode) {
        framed.shrunk_by(mode.gap, mode.gap, mode.gap, mode.gap)
    } else {
        framed
    };
    let border: i32 = WINDOW_BACKDROP_BORDER;
    let behind: Rectangle = if has_backdrop(tree, id, mode) {
        joined.shrunk_by(border, border, border, border)
    } else {
        joined
    };
    let gap: i32 = WINDOW_BACKDROP_GAP;
    if mode.drawing {
        (behind, behind.shrunk_by(gap, gap, gap, gap))
    } else {
        (behind, framed)
    }
}

/// What is drawn to show a window.
fn decorate_window(tree: &Tree<TreeNode>, id: &NodeId, framed: Rectangle, mode: ViewMode) -> (list:
    Vec<Decoration>)
    requires
        model(*tree).settled(),
        model(*tree).keyed(),
        model(*tree).has(*id),
    ensures
        list@ == model(*tree).window_decorations(*id, framed, mode),
{
    let mut list: Vec<Decoration> = Vec::new();
    let potential: bool = is_potential(tree, id, mode);
    let backed: bool = has_backdrop(tree, id, mode);
    let (behind, _): (Rectangle, Rectangle) = window_areas(tree, id, framed, mode);
    match get_node(tree, id) {
        Some(node) => {
            let key: u64 = node.key;
            let accent: bool = match mode.stack_zone {
                Some(zone) => mode.mouse && zone == key,
                None => false,
            };
            let strong: bool = match mode.focused {
                Some(focused) => focused == key,
                None => accent,
            };
            push_when(
                &mut list,
                potential,
                outline(DecorationKey::PotentialGroup(key), framed, 8, 40),
            );
            push_when(
                &mut list,
                backed,
                backdrop(
                    DecorationKey::Overview(key),
                    behind,
                    if strong {
                        40
                    } else {
                        15
                    },
                    accent,
                ),
            );
            assert(list@ =~= model(*tree).window_decorations(*id, framed, mode));
        },
        None => {},
    }
    list
}

/// What is drawn to show a node.
fn decorate(
    tree: &Tree<TreeNode>,
    id: &NodeId,
    given: Rectangle,
    top: bool,
    mode: ViewMode,
    eased: &Vec<EasedArea>,
) -> (list: Vec<Decoration>)
    requires
        model(*tree).settled(),
        model(*tree).keyed(),
        model(*tree).has(*id),
    ensures
        list@ == model(*tree).decorations(*id, given, top, mode, eased@),
{
    let mut list: Vec<Decoration> = Vec::new();
    if !mode.drawing {
        return list;
    }
    let framed: Rectangle = frame(tree, id, given, top, mode);
    let border: i32 = WINDOW_BACKDROP_BORDER;
    match get_node(tree, id) {
        Some(node) => match &node.data {
            Data::Group { .. } => decorate_group(tree, id, given, top, mode, eased),
            Data::Mapped { .. } => decorate_window(tree, id, framed, mode),
            Data::Placeholder { .. } => {
                list.push(
                    backdrop(
                        DecorationKey::Placeholder(node.key),
                        framed.shrunk_by(border, border, border, border),
                        40,
                        false,
                    ),
                );
                list
            },
        },
        None => list,
    }
}

/// The area of a node in an overview.
fn node_area(
    tree: &Tree<TreeNode>,
    id: &NodeId,
    given: Rectangle,
    top: bool,
    mode: ViewMode,
    eased: &Vec<EasedArea>,
) -> (area: NodeArea)
    requires
        model(*tree).settled(),
        model(*tree).keyed(),
        model(*tree).has(*id),
    ensures
        area.key == model(*tree).key(*id),
        area.geometry == model(*tree).view_area(*id, given, top, mode, eased@),
{
    let framed: Rectangle = frame(tree, id, given, top, mode);
    let border: i32 = WINDOW_BACKDROP_BORDER;
    match get_node(tree, id) {
        Some(node) => {
            let geometry: Rectangle = match &node.data {
                Data::Group { .. } => if waits_for_swap(node, mode) {
                    shared_area(tree, id, given, top, mode, eased)
                } else {
                    framed
                },
                Data::Mapped { .. } => {
                    let (_, area): (Rectangle, Rectangle) = window_areas(tree, id, framed, mode);
                    if waits_for_swap(node, mode) {
                        match eased_area(eased, node.key) {
                            Some(shown) => shown,
                            None => area,
                        }
                    } else {
                        area
                    }
                },
                Data::Placeholder { .. } => if mode.drawing {
                    framed.shrunk_by(border, border, border, border)
                } else {
                    framed
                },
            };
            NodeArea { key: node.key, geometry }
        },
        None => NodeArea { key: 0, geometry: framed },
    }
}

/// Where a node that waits to be exchanged comes from and goes to.
fn move_of(tree: &Tree<TreeNode>, id: &NodeId, given: Rectangle, top: bool, mode: ViewMode) -> (way:
    Option<SwapMove>)
    requires
        model(*tree).settled(),
        model(*tree).keyed(),
        model(*tree).has(*id),
    ensures
        model(*tree).swap_move(*id, given, top, mode) == (match way {
            Some(way) => seq![way],
            None => seq![],
        }),
{
    let framed: Rectangle = frame(tree, id, given, top, mode);
    match get_node(tree, id) {
        Some(node) => {
            if !waits_for_swap(node, mode) || node.data.is_placeholder() {
                return None;
            }
            let from: Rectangle = if node.data.is_group() {
                open_group(&node.data, framed, mode)
            } else {
                let (_, area): (Rectangle, Rectangle) = window_areas(tree, id, framed, mode);
                area
            };
            Some(
                SwapMove { key: node.key, from, to: swap_geometry(from.size, mode.swap_anchor) },
            )
        },
        None => None,
    }
}

/// The places of other nodes do not matter for what is drawn for some.
proof fn lemma_same_drawing(
    tree: TreeModel,
    top: NodeId,
    mode: ViewMode,
    eased: Seq<EasedArea>,
    given: Map<NodeId, Rectangle>,
    other: Map<NodeId, Rectangle>,
    order: Seq<NodeId>,
)
    requires
        forall|k: int| 0 <= k < order.len() ==> given[#[trigger] order[k]] == other[order[k]],
    ensures
        tree.decorated(top, mode, eased, given, order) == tree.decorated(
            top,
            mode,
            eased,
            other,
            order,
        ),
        tree.moved_about(top, mode, given, order) == tree.moved_about(top, mode, other, order),
    decreases order.len(),
{
    if order.len() > 0 {
        let rest = order.drop_last();
        assert forall|k: int| 0 <= k < rest.len() implies given[#[trigger] rest[k]]
            == other[rest[k]] by {
            assert(rest[k] == order[k]);
        }
        lemma_same_drawing(tree, top, mode, eased, given, other, rest);
        assert(given[order[order.len() - 1]] == other[order[order.len() - 1]]);
    }
}

/// Adds a node to an overview.
fn show_node(
    tree: &Tree<TreeNode>,
    id: &NodeId,
    is_top: bool,
    area: Rectangle,
    mode: ViewMode,
    eased: &Vec<EasedArea>,
    view: &mut GroupView,
    Ghost(top): Ghost<NodeId>,
    Ghost(order): Ghost<Seq<NodeId>>,
    Ghost(given): Ghost<Map<NodeId, Rectangle>>,
)
    requires
        model(*tree).settled(),
        model(*tree).keyed(),
        model(*tree).has(*id),
        is_top == (*id == top),
        !order.contains(*id),
        model(*tree).shows_nodes(top, mode, eased@, given, order, *old(view)),
    ensures
        model(*tree).shows_nodes(
            top,
            mode,
            eased@,
            given.insert(*id, area),
            order.push(*id),
            *final(view),
        ),
{
    let ghost shape = model(*tree);
    let ghost next = given.insert(*id, area);
    let ghost longer = order.push(*id);
    proof {
        assert forall|k: int| 0 <= k < order.len() implies given[#[trigger] order[k]]
            == next[order[k]] by {
            assert(order.contains(order[k]));
        }
        lemma_same_drawing(shape, top, mode, eased@, given, next, order);
        assert(longer.drop_last() =~= order);
        assert forall|k: int| 0 <= k < order.len() implies #[trigger] view.areas@[k]
            == shape.keyed_area(longer[k], top, mode, eased@, next) by {
            assert(given[order[k]] == next[order[k]]);
        }
    }
    view.areas.push(node_area(tree, id, area, is_top, mode, eased));
    let mut decorations: Vec<Decoration> = decorate(tree, id, area, is_top, mode, eased);
    view.decorations.append(&mut decorations);
    match move_of(tree, id, area, is_top, mode) {
        Some(way) => {
            view.moves.push(way);
        },
        None => {},
    }
    assert(view.moves@ =~= shape.moved_about(top, mode, next, longer));
    assert(view.decorations@ =~= shape.decorated(top, mode, eased@, next, longer));
}

/// The overview of a branch in an area.
fn view_branch(
    tree: &Tree<TreeNode>,
    top: &NodeId,
    zone: Rectangle,
    mode: ViewMode,
    eased: &Vec<EasedArea>,
) -> (view: GroupView)
    requires
        model(*tree).settled(),
        model(*tree).keyed(),
        model(*tree).has(*top),
    ensures
        model(*tree).shows_branch(*top, zone, mode, eased@, view),
{
    let ghost shape = model(*tree);
    assert(shape.forest()) by {
        lemma_sound(shape);
    }
    let order: Vec<NodeId> = preorder_ids(tree, top);
    assert forall|k: int| 0 <= k < order@.len() implies shape.has(#[trigger] order@[k]) by {
        assert(order@.contains(order@[k]));
    }
    let mut areas: Vec<Rectangle> = Vec::new();
    let ghost mut given: Map<NodeId, Rectangle> = Map::empty();
    let mut view: GroupView = GroupView {
        areas: Vec::new(),
        decorations: Vec::new(),
        moves: Vec::new(),
    };
    assert(order@.take(0) =~= seq![]);
    let mut i: usize = 0;
    while i < order.len()
        invariant
            i <= order@.len(),
            shape == model(*tree),
            shape.settled(),
            shape.keyed(),
            shape.has(*top),
            shape.forest(),
            visits(shape.nodes, seq![*top], order@),
            order@.no_duplicates(),
            forall|k: int| 0 <= k < order@.len() ==> shape.has(#[trigger] order@[k]),
            order@[0] == *top,
            areas@.len() == i,
            forall|k: int| 0 <= k < i ==> given[#[trigger] order@[k]] == areas@[k],
            forall|id: NodeId| #[trigger]
                given.contains_key(id) == order@.take(i as int).contains(id),
            i > 0 ==> shape.viewed(*top, zone, mode, eased@, given),
            shape.shows_nodes(*top, mode, eased@, given, order@.take(i as int), view),
        decreases order@.len() - i,
    {
        let ghost before = order@.take(i as int);
        let ghost longer = order@.take(i + 1);
        let ghost id = order@[i as int];
        let id_now: NodeId = copy_id(&order[i]);
        assert(shape.has(order@[i as int]));
        let area: Rectangle = if i == 0 {
            zone
        } else {
            let ghost j: int = 0;
            proof {
                lemma_visits_parent(shape.nodes, seq![*top], order@, i as int);
                if seq![*top].contains(id) {
                    assert(order@[0] == order@[i as int]);
                }
                j = choose|j: int|
                    0 <= j < i && shape.nodes[#[trigger] order@[j]].children.contains(id);
                let above = order@[j];
                assert(shape.has(above));
                let m = choose|m: int|
                    0 <= m < shape.children(above).len() && shape.children(above)[m] == id;
                assert(shape.parent(shape.children(above)[m]) == Some(above));
                assert(order@.contains(order@[j]));
            }
            match parent_id(tree, &id_now) {
                Some(parent) => match position_of(&order, &parent) {
                    Some(place) => {
                        assert(order@[place as int] == order@[j]);
                        assert(before[j] == parent);
                        assert(order@[0] == order@[place as int] ==> place == 0);
                        given_area(tree, &parent, &id_now, areas[place], place == 0, mode, eased)
                    },
                    None => zone,
                },
                None => zone,
            }
        };
        proof {
            assert(longer =~= before.push(id));
            assert(!before.contains(id)) by {
                if before.contains(id) {
                    let k = choose|k: int| 0 <= k < before.len() && before[k] == id;
                    assert(order@[k] == order@[i as int]);
                }
            }
        }
        show_node(
            tree,
            &id_now,
            i == 0,
            area,
            mode,
            eased,
            &mut view,
            Ghost(*top),
            Ghost(before),
            Ghost(given),
        );
        proof {
            let next = given.insert(id, area);
            assert forall|other: NodeId| #[trigger]
                next.contains_key(other) == longer.contains(other) by {
                if before.contains(other) {
                    let k = choose|k: int| 0 <= k < before.len() && before[k] == other;
                    assert(longer[k] == other);
                }
                assert(longer[i as int] == id);
                if longer.contains(other) && other != id {
                    let k = choose|k: int| 0 <= k < longer.len() && longer[k] == other;
                    assert(before[k] == other);
                }
            }
            assert forall|k: int| 0 <= k < i implies next[#[trigger] order@[k]] == areas@[k] by {
                assert(before[k] == order@[k]);
                assert(before.contains(order@[k]));
            }
            assert forall|other: NodeId| #[trigger]
                next.contains_key(other) && other != *top implies shape.parent(other) is Some
                && next.contains_key(shape.parent(other)->0) && next[other] == shape.data(
                shape.parent(other)->0,
            ).view_slot(
                shape.shared(
                    shape.parent(other)->0,
                    next[shape.parent(other)->0],
                    shape.parent(other)->0 == *top,
                    mode,
                    eased@,
                ),
                shape.place(shape.parent(other)->0, other),
                mode.mouse,
            ) by {
                if other != id {
                    assert(given.contains_key(other));
                    assert(given.contains_key(shape.parent(other)->0));
                }
            }
            given = next;
        }
        areas.push(area);
        i += 1;
    }
    assert(order@.take(order@.len() as int) =~= order@);
    assert(shape.shows_along(*top, zone, mode, eased@, order@, given, view));
    view
}

/// How an overview of a tree is shown where a node has the focus.
fn view_mode(tree: &Tree<TreeNode>, zone: Rectangle, asked: Overview, focused: &Option<NodeId>) -> (mode:
    ViewMode)
    requires
        model(*tree).settled(),
        *focused matches Some(id) ==> model(*tree).has(id),
    ensures
        mode == model(*tree).view_mode(zone, asked, *focused),
{
    let ghost shape = model(*tree);
    assert(shape.forest()) by {
        lemma_sound(shape);
    }
    let border: i32 = WINDOW_BACKDROP_BORDER;
    let root: Option<u64> = match root_id(tree) {
        Some(root) => {
            assert(shape.has(root));
            match get_node(tree, &root) {
                Some(node) => Some(node.key),
                None => None,
            }
        },
        None => None,
    };
    let (key, potential, anchor): (Option<u64>, bool, Rectangle) = match focused {
        Some(id) => {
            assert(shape.has(*id));
            let potential: bool = match parent_id(tree, id) {
                Some(parent) => {
                    assert(shape.has(parent));
                    child_ids(tree, &parent).len() > 2
                },
                None => false,
            };
            match get_node(tree, id) {
                Some(node) => (Some(node.key), potential, node.data.geometry()),
                None => (None, potential, zone),
            }
        },
        None => (None, false, zone.shrunk_by(border, border, border, border)),
    };
    ViewMode {
        gap: asked.gap,
        mouse: asked.mouse,
        drawing: asked.drawing,
        root,
        focused: key,
        potential,
        swap: asked.swap,
        swap_anchor: anchor,
        stack_zone: asked.stack_zone,
    }
}

/// The overview of a tree in an area, with the branch of another tree that waits to be
/// exchanged. `eased` holds the areas of what is on its way.
pub fn geometries_for_groupview(
    tree: &Tree<TreeNode>,
    zone: Rectangle,
    focus: &Option<KeyboardFocus>,
    asked: Overview,
    guest: Option<&Tree<TreeNode>>,
    eased: &Vec<EasedArea>,
) -> (view: GroupView)
    requires
        model(*tree).settled(),
        model(*tree).keyed(),
        guest matches Some(guest) ==> model(*guest).settled() && model(*guest).keyed() && (
        asked.swap matches Some(swap) ==> (swap.whole ==> model(*guest).has_key(swap.node))),
    ensures
        model(*tree).shows_for(
            match guest {
                Some(guest) => Some(model(*guest)),
                None => None,
            },
            zone,
            focus_view(*focus),
            asked,
            eased@,
            view,
        ),
{
    let ghost shape = model(*tree);
    let found: Option<NodeId> = match focus {
        Some(focus) => currently_focused_node(tree, focus),
        None => None,
    };
    let mode: ViewMode = view_mode(tree, zone, asked, &found);
    let bare: GroupView = GroupView {
        areas: Vec::new(),
        decorations: Vec::new(),
        moves: Vec::new(),
    };
    let empty: GroupView = GroupView {
        areas: Vec::new(),
        decorations: Vec::new(),
        moves: Vec::new(),
    };
    assert(shape.forest()) by {
        lemma_sound(shape);
    }
    let root: Option<NodeId> = root_id(tree);
    let drawn: bool = root.is_some();
    let mut view: GroupView = match root {
        Some(root) => view_branch(tree, &root, zone, mode, eased),
        None => bare,
    };
    let mut other: GroupView = match (guest, asked.swap) {
        (Some(guest), Some(swap)) => if swap.whole {
            assert(model(*guest).regular()) by {
                lemma_sound(model(*guest));
            }
            match node_by_key(guest, swap.node) {
                Some(top) => view_branch(
                    guest,
                    &top,
                    Rectangle::new(0, 0, 320, 240),
                    mode,
                    eased,
                ),
                None => empty,
            }
        } else {
            empty
        },
        _ => empty,
    };
    let ghost shown = view;
    let ghost added = other;
    view.areas.append(&mut other.areas);
    view.moves.append(&mut other.moves);
    if drawn {
        view.decorations.append(&mut other.decorations);
    }
    assert(view.made_of(shown, added, shape.root is Some));
    assert(shape.shows(
        match guest {
            Some(guest) => Some(model(*guest)),
            None => None,
        },
        zone,
        shape.view_mode(zone, asked, found),
        eased@,
        shown,
        added,
        view,
    ));
    view
}

} // verus!
