//! Finding windows and groups in a tree.

use vstd::prelude::*;

use id_tree::{NodeId, Tree};

use crate::balance::lemma_sound;
use crate::copies::node_by_key;
use crate::data::{Data, DataView};
use crate::geometry::{add_saturating, plus, shrink, shrunk, Point, Rectangle};
use crate::placement::all_nodes;
use crate::tree::{child_ids, copy_id, get_node, model, root_id, visits, TreeModel, TreeNode};

verus! {

/// What has the keyboard focus.
#[derive(Debug)]
pub enum KeyboardFocus {
    /// A window.
    Window(u64),
    /// A group, and the nodes below it that had the focus before.
    Group { node: u64, focus_stack: Vec<u64> },
}

/// What has the keyboard focus, as the contracts speak of it.
#[verifier::ext_equal]
pub enum KeyboardFocusView {
    Window(u64),
    Group { node: u64, focus_stack: Seq<u64> },
}

impl View for KeyboardFocus {
    type V = KeyboardFocusView;

    open spec fn view(&self) -> KeyboardFocusView {
        match *self {
            KeyboardFocus::Window(window) => KeyboardFocusView::Window(window),
            KeyboardFocus::Group { node, focus_stack } => KeyboardFocusView::Group {
                node,
                focus_stack: focus_stack@,
            },
        }
    }
}

/// What has the keyboard focus, if anything, as the contracts speak of it.
pub open spec fn focus_view(focus: Option<KeyboardFocus>) -> Option<KeyboardFocusView> {
    match focus {
        Some(focus) => Some(focus@),
        None => None,
    }
}

/// A window and its area.
#[derive(Clone, Copy, Debug, PartialEq, Eq, Structural)]
pub struct WindowArea {
    pub window: u64,
    pub geometry: Rectangle,
}

impl TreeModel {
    /// The first of these nodes that is a window.
    pub open spec fn first_with(self, order: Seq<NodeId>, window: u64) -> Option<NodeId>
        decreases order.len(),
    {
        if order.len() == 0 {
            None
        } else {
            match self.first_with(order.drop_last(), window) {
                Some(id) => Some(id),
                None => if self.data(order.last()).is_window(window) {
                    Some(order.last())
                } else {
                    None
                },
            }
        }
    }

    /// Whether `order` visits all nodes, and `found` is the first of them that is a window.
    pub open spec fn finds_along(self, root: NodeId, order: Seq<NodeId>, window: u64, found: Option<NodeId>) -> bool {
        visits(self.nodes, seq![root], order) && found == self.first_with(order, window)
    }

    /// Whether `found` is the node of a window: the first one in the order of the tree.
    pub open spec fn finds(self, window: u64, found: Option<NodeId>) -> bool {
        match self.root {
            Some(root) => self.finds_from(root, window, found),
            None => found is None,
        }
    }

    /// Whether `found` is the first node from a root on that is a window.
    pub open spec fn finds_from(self, root: NodeId, window: u64, found: Option<NodeId>) -> bool {
        exists|order: Seq<NodeId>| #[trigger] self.finds_along(root, order, window, found)
    }

    /// Whether `found` is the node of the first of these windows that is in the tree.
    pub open spec fn finds_first(self, windows: Seq<u64>, found: Option<NodeId>) -> bool
        decreases windows.len(),
    {
        if windows.len() == 0 {
            found is None
        } else if found is Some && self.finds(windows[0], found) {
            true
        } else {
            self.finds(windows[0], None) && self.finds_first(windows.skip(1), found)
        }
    }

    /// The node that has the keyboard focus.
    pub open spec fn focused_node(self, focus: KeyboardFocusView, found: Option<NodeId>) -> bool {
        match focus {
            KeyboardFocusView::Window(window) => self.finds(window, found),
            KeyboardFocusView::Group { node, .. } => found == if self.has_key(node) && self.data(
                self.node_keyed(node),
            ) is Group {
                Some(self.node_keyed(node))
            } else {
                None
            },
        }
    }

    /// The windows among these nodes that are active, or those that are not, with their areas.
    pub open spec fn areas_of(self, order: Seq<NodeId>, active: bool) -> Seq<WindowArea>
        decreases order.len(),
    {
        if order.len() == 0 {
            seq![]
        } else {
            let rest = self.areas_of(order.drop_last(), active);
            match self.data(order.last()) {
                DataView::Mapped { mapped, last_geometry, .. } => if mapped.activated == active {
                    rest.push(WindowArea { window: mapped.id, geometry: last_geometry })
                } else {
                    rest
                },
                _ => rest,
            }
        }
    }

    /// Whether these are the windows of the tree with their areas: active ones first, and else
    /// in the order of the tree.
    pub open spec fn lists(self, windows: Seq<WindowArea>) -> bool {
        match self.root {
            Some(root) => exists|order: Seq<NodeId>| #[trigger]
                visits(self.nodes, seq![root], order) && windows == self.areas_of(order, true)
                    + self.areas_of(order, false),
            None => windows.len() == 0,
        }
    }

    /// What the focus on a node is: a window, or a group with its children.
    pub open spec fn focus_at(self, key: u64) -> Option<KeyboardFocusView> {
        if !self.has_key(key) {
            None
        } else {
            let id = self.node_keyed(key);
            match self.data(id) {
                DataView::Mapped { mapped, .. } => Some(KeyboardFocusView::Window(mapped.id)),
                DataView::Group { .. } => Some(
                    KeyboardFocusView::Group {
                        node: key,
                        focus_stack: self.children(id).map_values(|child: NodeId| self.key(child)),
                    },
                ),
                DataView::Placeholder { .. } => None,
            }
        }
    }
}

/// The node of a window: the first one in the order of the tree.
pub fn find_window(tree: &Tree<TreeNode>, window: u64) -> (found: Option<NodeId>)
    requires
        model(*tree).settled(),
    ensures
        model(*tree).finds(window, found),
        match found {
            Some(id) => model(*tree).has(id) && model(*tree).data(id).is_window(window),
            None => true,
        },
{
    let ghost shape = model(*tree);
    assert(shape.regular()) by {
        lemma_sound(shape);
    }
    let root: NodeId = match root_id(tree) {
        Some(root) => root,
        None => {
            return None;
        },
    };
    let order: Vec<NodeId> = all_nodes(tree, &root);
    let mut i: usize = 0;
    assert(order@.take(0) =~= seq![]);
    while i < order.len()
        invariant
            i <= order@.len(),
            shape == model(*tree),
            shape.root == Some(root),
            visits(shape.nodes, seq![root], order@),
            forall|k: int| 0 <= k < order@.len() ==> shape.has(#[trigger] order@[k]),
            shape.first_with(order@.take(i as int), window) is None,
        decreases order@.len() - i,
    {
        assert(order@.take(i as int + 1).drop_last() =~= order@.take(i as int));
        assert(shape.has(order@[i as int]));
        let here: bool = match get_node(tree, &order[i]) {
            Some(node) => node.data.is_mapped(Some(window)),
            None => false,
        };
        if here {
            let id: NodeId = copy_id(&order[i]);
            proof {
                lemma_first_with(shape, order@, window, i as int + 1);
                assert(shape.finds_along(root, order@, window, Some(id)));
                assert(shape.finds_from(root, window, Some(id)));
            }
            return Some(id);
        }
        i += 1;
    }
    proof {
        assert(order@.take(order@.len() as int) =~= order@);
        assert(shape.finds_along(root, order@, window, None));
    }
    None
}

/// What is found among the first nodes is found among all.
proof fn lemma_first_with(tree: TreeModel, order: Seq<NodeId>, window: u64, count: int)
    requires
        0 <= count <= order.len(),
        tree.first_with(order.take(count), window) is Some,
    ensures
        tree.first_with(order, window) == tree.first_with(order.take(count), window),
    decreases order.len() - count,
{
    if count < order.len() {
        assert(order.take(count + 1).drop_last() =~= order.take(count));
        lemma_first_with(tree, order, window, count + 1);
    } else {
        assert(order.take(count) =~= order);
    }
}

/// The node of the first of these windows that is in the tree.
pub fn last_active_window(tree: &Tree<TreeNode>, focus_stack: &Vec<u64>) -> (found: Option<NodeId>)
    requires
        model(*tree).settled(),
    ensures
        model(*tree).finds_first(focus_stack@, found),
        match found {
            Some(id) => model(*tree).has(id) && model(*tree).data(id) is Mapped,
            None => true,
        },
{
    let ghost shape = model(*tree);
    let mut i: usize = 0;
    assert(focus_stack@.skip(0) =~= focus_stack@);
    while i < focus_stack.len()
        invariant
            i <= focus_stack@.len(),
            shape == model(*tree),
            shape.settled(),
            forall|k: int| 0 <= k < i ==> shape.finds(#[trigger] focus_stack@[k], None),
        decreases focus_stack@.len() - i,
    {
        match find_window(tree, focus_stack[i]) {
            Some(id) => {
                proof {
                    assert(focus_stack@.skip(i as int)[0] == focus_stack@[i as int]);
                    assert(shape.finds_first(focus_stack@.skip(i as int), Some(id)));
                    lemma_passed(shape, focus_stack@, i as int, Some(id));
                }
                return Some(id);
            },
            None => {},
        }
        i += 1;
    }
    proof {
        assert(shape.finds_first(focus_stack@.skip(i as int), None));
        lemma_passed(shape, focus_stack@, i as int, None);
    }
    None
}

/// Windows that are not in the tree are passed over.
proof fn lemma_passed(tree: TreeModel, windows: Seq<u64>, count: int, found: Option<NodeId>)
    requires
        0 <= count <= windows.len(),
        forall|k: int| 0 <= k < count ==> tree.finds(#[trigger] windows[k], None),
        tree.finds_first(windows.skip(count), found),
    ensures
        tree.finds_first(windows, found),
    decreases count,
{
    if count == 0 {
        assert(windows.skip(0) =~= windows);
    } else {
        let rest = windows.skip(count - 1);
        assert(rest.skip(1) =~= windows.skip(count));
        assert(rest[0] == windows[count - 1]);
        lemma_passed(tree, windows, count - 1, found);
    }
}

/// The node that has the keyboard focus.
pub fn currently_focused_node(tree: &Tree<TreeNode>, focus: &KeyboardFocus) -> (found: Option<NodeId>)
    requires
        model(*tree).settled(),
        model(*tree).keyed(),
    ensures
        model(*tree).focused_node(focus@, found),
        match found {
            Some(id) => model(*tree).has(id) && (match focus@ {
                KeyboardFocusView::Window(window) => model(*tree).data(id).is_window(window),
                KeyboardFocusView::Group { .. } => model(*tree).data(id) is Group,
            }),
            None => true,
        },
{
    assert(model(*tree).regular()) by {
        lemma_sound(model(*tree));
    }
    match focus {
        KeyboardFocus::Window(window) => find_window(tree, *window),
        KeyboardFocus::Group { node, .. } => match node_by_key(tree, *node) {
            Some(id) => {
                let group: bool = match get_node(tree, &id) {
                    Some(found) => found.data.is_group(),
                    None => false,
                };
                assert(model(*tree).has(id) && model(*tree).key(id) == *node);
                if group {
                    Some(id)
                } else {
                    None
                }
            },
            None => None,
        },
    }
}

/// The windows of a tree with their areas: active ones first, and else in the order of the
/// tree.
pub fn mapped_windows(tree: &Tree<TreeNode>) -> (windows: Vec<WindowArea>)
    requires
        model(*tree).settled(),
    ensures
        model(*tree).lists(windows@),
{
    let ghost shape = model(*tree);
    assert(shape.regular()) by {
        lemma_sound(shape);
    }
    let mut windows: Vec<WindowArea> = Vec::new();
    let root: NodeId = match root_id(tree) {
        Some(root) => root,
        None => {
            return windows;
        },
    };
    let order: Vec<NodeId> = all_nodes(tree, &root);
    let mut active: bool = true;
    let mut done: bool = false;
    let ghost mut first = Seq::<WindowArea>::empty();
    while !done
        invariant
            shape == model(*tree),
            forall|k: int| 0 <= k < order@.len() ==> shape.has(#[trigger] order@[k]),
            first == if active {
                Seq::<WindowArea>::empty()
            } else {
                shape.areas_of(order@, true)
            },
            !done ==> windows@ == first,
            done ==> !active && windows@ == first + shape.areas_of(order@, false),
        decreases (if done { 0int } else { 1int }), (if active { 1int } else { 0int }),
    {
        let mut i: usize = 0;
        assert(order@.take(0) =~= seq![]);
        assert(first + seq![] =~= first);
        while i < order.len()
            invariant
                i <= order@.len(),
                shape == model(*tree),
                forall|k: int| 0 <= k < order@.len() ==> shape.has(#[trigger] order@[k]),
                windows@ == first + shape.areas_of(order@.take(i as int), active),
            decreases order@.len() - i,
        {
            assert(order@.take(i as int + 1).drop_last() =~= order@.take(i as int));
            assert(shape.has(order@[i as int]));
            match get_node(tree, &order[i]) {
                Some(node) => match &node.data {
                    Data::Mapped { mapped, last_geometry, .. } => {
                        if mapped.activated == active {
                            let area = WindowArea { window: mapped.id, geometry: *last_geometry };
                            let ghost rest = shape.areas_of(order@.take(i as int), active);
                            assert((first + rest).push(area) =~= first + rest.push(area));
                            windows.push(area);
                        }
                    },
                    _ => {},
                },
                None => {},
            }
            i += 1;
        }
        assert(order@.take(order@.len() as int) =~= order@);
        if active {
            active = false;
            proof {
                first = shape.areas_of(order@, true);
            }
        } else {
            done = true;
        }
    }
    assert(visits(shape.nodes, seq![root], order@) && windows@ == shape.areas_of(order@, true)
        + shape.areas_of(order@, false));
    windows
}

/// The area of a surface of a window that starts this far inside of it.
pub fn surface_area(geometry: Rectangle, offset: Point) -> (area: Rectangle)
    ensures
        area == Rectangle::of(
            plus(geometry.loc.x as int, offset.x as int),
            plus(geometry.loc.y as int, offset.y as int),
            shrunk(geometry.size.w as int, offset.x as int),
            shrunk(geometry.size.h as int, offset.y as int),
        ),
{
    Rectangle::new(
        add_saturating(geometry.loc.x, offset.x),
        add_saturating(geometry.loc.y, offset.y),
        shrink(geometry.size.w, offset.x),
        shrink(geometry.size.h, offset.y),
    )
}

/// The keys of some nodes.
pub(crate) fn keys_of(tree: &Tree<TreeNode>, ids: &Vec<NodeId>) -> (keys: Vec<u64>)
    requires
        forall|i: int| 0 <= i < ids@.len() ==> model(*tree).has(#[trigger] ids@[i]),
    ensures
        keys@ == ids@.map_values(|id: NodeId| model(*tree).key(id)),
{
    let mut keys: Vec<u64> = Vec::new();
    let mut i: usize = 0;
    while i < ids.len()
        invariant
            i <= ids@.len(),
            forall|k: int| 0 <= k < ids@.len() ==> model(*tree).has(#[trigger] ids@[k]),
            keys@.len() == i,
            forall|k: int| 0 <= k < i ==> #[trigger] keys@[k] == model(*tree).key(ids@[k]),
        decreases ids@.len() - i,
    {
        assert(model(*tree).has(ids@[i as int]));
        match get_node(tree, &ids[i]) {
            Some(node) => {
                keys.push(node.key);
            },
            None => {
                keys.push(0);
            },
        }
        i += 1;
    }
    assert(keys@ =~= ids@.map_values(|id: NodeId| model(*tree).key(id)));
    keys
}

/// What the focus on a node is.
pub fn focus_of(tree: &Tree<TreeNode>, key: u64) -> (focus: Option<KeyboardFocus>)
    requires
        model(*tree).settled(),
        model(*tree).keyed(),
    ensures
        focus_view(focus) == model(*tree).focus_at(key),
{
    let ghost shape = model(*tree);
    proof {
        lemma_sound(shape);
    }
    let id: NodeId = match node_by_key(tree, key) {
        Some(id) => id,
        None => {
            return None;
        },
    };
    assert(shape.has_key(key));
    match get_node(tree, &id) {
        Some(node) => match &node.data {
            Data::Mapped { mapped, .. } => Some(KeyboardFocus::Window(mapped.id)),
            Data::Group { .. } => {
                let children: Vec<NodeId> = child_ids(tree, &id);
                assert forall|i: int| 0 <= i < children@.len() implies shape.has(
                    #[trigger] children@[i],
                ) by {
                    assert(shape.has(shape.children(id)[i]));
                }
                Some(KeyboardFocus::Group { node: key, focus_stack: keys_of(tree, &children) })
            },
            Data::Placeholder { .. } => None,
        },
        None => None,
    }
}

} // verus!
