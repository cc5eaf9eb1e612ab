//! Bringing the areas of a scrolling strip into the tiling tree.

use vstd::prelude::*;

use id_tree::{NodeId, Tree};

use crate::balance::lemma_same_rooms;
use crate::classic::{lemma_below_root, lemma_child, lemma_room, Configure};
use crate::columns::{contains_item, ColumnModel};
use crate::data::{Data, DataView};
use crate::focus::key_of;
use crate::geometry::{
    add_saturating, double_saturating, larger, plus, sub_saturating, Point, Rectangle,
};
use crate::laws::lemma_contains_tiles;
use crate::lineage::{lemma_below_parent, lemma_below_self, lemma_branch};
use crate::rows::{row_height, row_offset, weighted_vertical_tile_rows};
use crate::strip::{tiles_of, Strip};
use crate::surgery::position_of;
use crate::tree::{
    child_ids, copy_id, get_node, get_node_mut, model, preorder_ids, visits, NodeModel, TreeModel,
    TreeNode,
};
use crate::units::{nearest_pixel, saturate_i32, to_nearest_pixel, SUBPIXEL};

verus! {

/// The part of the usable area that the strip is seen through: without the outer gap, and
/// without the inner gap that windows keep around them.
pub open spec fn viewport_area(usable: Rectangle, gaps: (i32, i32)) -> Rectangle {
    let outer = if gaps.0 > 0 {
        gaps.0
    } else {
        0
    };
    let inner = if gaps.1 > 0 {
        gaps.1
    } else {
        0
    };
    let boundary = saturate_i32(outer + inner);
    let both = saturate_i32(2 * boundary);
    let w = saturate_i32(usable.size.w - both);
    let h = saturate_i32(usable.size.h - both);
    Rectangle::of(
        plus(usable.loc.x as int, boundary),
        plus(usable.loc.y as int, boundary),
        (if w > 1 {
            w
        } else {
            1
        }) as i32,
        (if h > 1 {
            h
        } else {
            1
        }) as i32,
    )
}

/// The part of the usable area that the strip is seen through.
pub fn scrolling_viewport(usable: Rectangle, gaps: (i32, i32)) -> (viewport: Rectangle)
    ensures
        viewport == viewport_area(usable, gaps),
        viewport.size.w >= 1,
        viewport.size.h >= 1,
{
    let boundary: i32 = add_saturating(larger(gaps.0, 0), larger(gaps.1, 0));
    let both: i32 = double_saturating(boundary);
    Rectangle::new(
        add_saturating(usable.loc.x, boundary),
        add_saturating(usable.loc.y, boundary),
        larger(sub_saturating(usable.size.w, both), 1),
        larger(sub_saturating(usable.size.h, both), 1),
    )
}

impl Strip {
    /// Where a tile is seen, if the viewport has its corner at `origin`.
    pub open spec fn tile_area(self, tile: u64, origin: Point) -> Rectangle {
        let (column, row) = self.position(tile)->0;
        let weights = self.column_weights(column);
        Rectangle::of(
            nearest_pixel(SUBPIXEL * origin.x + self.left_edge(column) - self.viewport_x) as i32,
            plus(
                origin.y as int,
                row_offset(self.column_height, self.gap, weights, row) as i32 as int,
            ),
            self.width_of(column) as i32,
            row_height(self.column_height, self.gap, weights, row) as i32,
        )
    }
}

impl ColumnModel {
    /// Where a tile is seen, if the viewport has its corner at `origin`.
    pub fn tile_area(&self, tile: u64, origin: Point) -> (area: Option<Rectangle>)
        requires
            self@.wf(),
        ensures
            area == if self@.contains(tile) {
                Some(self@.tile_area(tile, origin))
            } else {
                None
            },
    {
        match self.tile_position(tile) {
            Some((column, row)) => {
                let left: i128 = self.layout_x(column);
                let x: i32 = to_nearest_pixel(
                    SUBPIXEL * origin.x as i128 + left - self.viewport_x,
                );
                let weights: Vec<u128> = self.column_weights(column);
                let rows: Vec<(i32, i32)> = weighted_vertical_tile_rows(
                    self.column_height,
                    self.gap,
                    weights.as_slice(),
                );
                let (offset, height): (i32, i32) = rows[row];
                Some(
                    Rectangle::new(
                        x,
                        add_saturating(origin.y, offset),
                        self.column_width(column),
                        height,
                    ),
                )
            },
            None => None,
        }
    }
}

impl TreeModel {
    /// Whether no two nodes have the same key.
    pub open spec fn keyed(self) -> bool {
        forall|first: NodeId, second: NodeId|
            #![trigger self.key(first), self.key(second)]
            self.has(first) && self.has(second) && self.key(first) == self.key(second) ==> first
                == second
    }

    /// The keys of the tiles among these nodes.
    pub open spec fn tile_keys(self, order: Seq<NodeId>) -> Seq<u64>
        decreases order.len(),
    {
        if order.len() == 0 {
            seq![]
        } else {
            let rest = self.tile_keys(order.drop_last());
            if self.data(order.last()).is_tile() {
                rest.push(self.key(order.last()))
            } else {
                rest
            }
        }
    }

    /// The key of the first window among these nodes that is activated.
    pub open spec fn first_active(self, order: Seq<NodeId>) -> Option<u64>
        decreases order.len(),
    {
        if order.len() == 0 {
            None
        } else {
            match self.first_active(order.drop_last()) {
                Some(key) => Some(key),
                None => match self.data(order.last()) {
                    DataView::Mapped { mapped, .. } => if mapped.activated {
                        Some(self.key(order.last()))
                    } else {
                        None
                    },
                    _ => None,
                },
            }
        }
    }

    /// Whether a tile is this node or stands below it.
    pub open spec fn holds_tile(self, id: NodeId) -> bool {
        exists|tile: NodeId|
            self.has(tile) && self.data(tile).is_tile() && #[trigger] self.below(tile, id)
    }

    /// The bounds of those of the nodes that hold tiles, as `after` has them.
    pub open spec fn bounds(self, after: TreeModel, ids: Seq<NodeId>) -> Option<Rectangle>
        decreases ids.len(),
    {
        if ids.len() == 0 {
            None
        } else {
            let rest = self.bounds(after, ids.drop_last());
            if !self.holds_tile(ids.last()) {
                rest
            } else {
                let area = after.data(ids.last()).geometry();
                match rest {
                    Some(bounds) => Some(bounds.joined(area)),
                    None => Some(area),
                }
            }
        }
    }

    /// What a node holds when the tiles are where the strip puts them and the groups around
    /// them are `after`.
    pub open spec fn scrolled_data(
        self,
        after: TreeModel,
        id: NodeId,
        strip: Strip,
        origin: Point,
    ) -> DataView {
        let data = self.data(id);
        if data.is_tile() {
            data.placed(strip.tile_area(self.key(id), origin))
        } else if data is Group {
            match self.bounds(after, self.children(id)) {
                Some(bounds) => data.placed(bounds),
                None => data,
            }
        } else {
            data
        }
    }

    /// Whether `after` is this tree with all tiles where the strip puts them, and with every
    /// group around its tiles.
    pub open spec fn scrolled(self, after: TreeModel, strip: Strip, origin: Point) -> bool {
        &&& self.same_shape(after)
        &&& forall|id: NodeId| #[trigger]
            after.has(id) ==> after.data(id) == self.scrolled_data(after, id, strip, origin)
    }
}

/// The keys of the tiles among these nodes.
pub(crate) fn tile_keys(tree: &Tree<TreeNode>, order: &Vec<NodeId>) -> (keys: Vec<u64>)
    requires
        forall|i: int| 0 <= i < order@.len() ==> model(*tree).has(#[trigger] order@[i]),
    ensures
        keys@ == model(*tree).tile_keys(order@),
{
    let mut keys: Vec<u64> = Vec::new();
    let mut i: usize = 0;
    assert(order@.take(0) =~= seq![]);
    while i < order.len()
        invariant
            i <= order@.len(),
            forall|i: int| 0 <= i < order@.len() ==> model(*tree).has(#[trigger] order@[i]),
            keys@ == model(*tree).tile_keys(order@.take(i as int)),
        decreases order@.len() - i,
    {
        assert(order@.take(i as int + 1).drop_last() =~= order@.take(i as int));
        assert(model(*tree).has(order@[i as int]));
        match get_node(tree, &order[i]) {
            Some(node) => {
                if node.data.takes_tile() {
                    keys.push(node.key);
                }
            },
            None => {},
        }
        i += 1;
    }
    assert(order@.take(order@.len() as int) =~= order@);
    keys
}

/// The key of the first window among these nodes that is activated.
pub(crate) fn first_active(tree: &Tree<TreeNode>, order: &Vec<NodeId>) -> (key: Option<u64>)
    requires
        forall|i: int| 0 <= i < order@.len() ==> model(*tree).has(#[trigger] order@[i]),
    ensures
        key == model(*tree).first_active(order@),
{
    let mut key: Option<u64> = None;
    let mut i: usize = 0;
    assert(order@.take(0) =~= seq![]);
    while i < order.len()
        invariant
            i <= order@.len(),
            forall|i: int| 0 <= i < order@.len() ==> model(*tree).has(#[trigger] order@[i]),
            key == model(*tree).first_active(order@.take(i as int)),
        decreases order@.len() - i,
    {
        assert(order@.take(i as int + 1).drop_last() =~= order@.take(i as int));
        assert(model(*tree).has(order@[i as int]));
        if key.is_none() {
            match get_node(tree, &order[i]) {
                Some(node) => match &node.data {
                    Data::Mapped { mapped, .. } => {
                        if mapped.activated {
                            key = Some(node.key);
                        }
                    },
                    _ => {},
                },
                None => {},
            }
        }
        i += 1;
    }
    assert(order@.take(order@.len() as int) =~= order@);
    key
}

impl TreeModel {
    /// Whether the tiles among `done` are where the strip puts them, and all other nodes as in
    /// this tree.
    spec fn partly_scrolled(self, now: TreeModel, done: Seq<NodeId>, strip: Strip, origin: Point) -> bool {
        &&& self.same_shape(now)
        &&& forall|id: NodeId| #[trigger]
            now.has(id) ==> now.data(id) == if done.contains(id) && self.data(id).is_tile() {
                self.data(id).placed(strip.tile_area(self.key(id), origin))
            } else {
                self.data(id)
            }
    }

    /// Whether the groups among `done` are around their tiles, and all other nodes are as
    /// `mid` has them.
    spec fn partly_bounded(self, mid: TreeModel, now: TreeModel, done: Seq<NodeId>) -> bool {
        &&& self.same_shape(now)
        &&& forall|id: NodeId| #[trigger]
            now.has(id) ==> now.data(id) == if done.contains(id) {
                self.bounded_data(mid, now, id)
            } else {
                mid.data(id)
            }
    }

    /// What a node holds when a group is around its tiles.
    spec fn bounded_data(self, mid: TreeModel, now: TreeModel, id: NodeId) -> DataView {
        if mid.data(id) is Group {
            match self.bounds(now, self.children(id)) {
                Some(bounds) => mid.data(id).placed(bounds),
                None => mid.data(id),
            }
        } else {
            mid.data(id)
        }
    }
}

/// The next of some nodes is not among those before it.
proof fn lemma_fresh(order: Seq<NodeId>, i: int)
    requires
        order.no_duplicates(),
        0 <= i < order.len(),
    ensures
        !order.take(i).contains(order[i]),
        forall|id: NodeId| #[trigger]
            order.take(i + 1).contains(id) <==> order.take(i).contains(id) || id == order[i],
{
    let before = order.take(i);
    let more = order.take(i + 1);
    assert forall|id: NodeId| #[trigger] more.contains(id) <==> before.contains(id) || id
        == order[i] by {
        if before.contains(id) {
            let k = before.index_of(id);
            assert(more[k] == id);
        }
        if more.contains(id) && id != order[i] {
            let k = more.index_of(id);
            assert(before[k] == id);
        }
        assert(more[i] == order[i]);
    }
}

/// Puts the tiles where the strip has them.
fn place_tiles(tree: &mut Tree<TreeNode>, order: &Vec<NodeId>, columns: &ColumnModel, origin: Point)
    requires
        columns@.wf(),
        order@.no_duplicates(),
        forall|id: NodeId| #[trigger] model(*old(tree)).has(id) ==> order@.contains(id),
        forall|i: int| 0 <= i < order@.len() ==> model(*old(tree)).has(#[trigger] order@[i]),
        forall|id: NodeId| #[trigger]
            model(*old(tree)).has(id) && model(*old(tree)).data(id).is_tile()
                ==> columns@.contains(model(*old(tree)).key(id)),
    ensures
        model(*old(tree)).partly_scrolled(model(*final(tree)), order@, columns@, origin),
{
    let ghost shape = model(*tree);
    let mut i: usize = 0;
    while i < order.len()
        invariant
            i <= order@.len(),
            columns@.wf(),
            order@.no_duplicates(),
            forall|i: int| 0 <= i < order@.len() ==> shape.has(#[trigger] order@[i]),
            forall|id: NodeId| #[trigger]
                shape.has(id) && shape.data(id).is_tile() ==> columns@.contains(shape.key(id)),
            shape.partly_scrolled(model(*tree), order@.take(i as int), columns@, origin),
        decreases order@.len() - i,
    {
        let ghost now = model(*tree);
        let id: NodeId = copy_id(&order[i]);
        proof {
            lemma_fresh(order@, i as int);
            assert(shape.has(order@[i as int]));
            assert(now.has(id));
        }
        match get_node_mut(tree, &id) {
            Some(node) => {
                if node.data.takes_tile() {
                    match columns.tile_area(node.key, origin) {
                        Some(area) => {
                            node.data.update_geometry(area);
                        },
                        None => {},
                    }
                }
            },
            None => {},
        }
        proof {
            let after = model(*tree);
            assert(after.nodes.dom() =~= shape.nodes.dom());
            assert forall|other: NodeId| #[trigger] after.has(other) implies after.parent(other)
                == shape.parent(other) && after.children(other) == shape.children(other)
                && after.key(other) == shape.key(other) && after.data(other)
                == if order@.take(i as int + 1).contains(other) && shape.data(other).is_tile() {
                shape.data(other).placed(columns@.tile_area(shape.key(other), origin))
            } else {
                shape.data(other)
            } by {
                assert(now.has(other));
                assert(shape.has(other));
            }
        }
        i += 1;
    }
    assert(order@.take(order@.len() as int) =~= order@);
}

/// The nodes that are waiting are visited later.
pub proof fn lemma_visits_pending(nodes: Map<NodeId, NodeModel>, pending: Seq<NodeId>, order: Seq<NodeId>)
    requires
        visits(nodes, pending, order),
    ensures
        forall|k: int| 0 <= k < pending.len() ==> order.contains(#[trigger] pending[k]),
    decreases order.len(),
{
    if order.len() > 0 {
        let next = nodes[pending[0]].children + pending.skip(1);
        lemma_visits_pending(nodes, next, order.skip(1));
        assert forall|k: int| 0 <= k < pending.len() implies order.contains(#[trigger] pending[k]) by {
            if k == 0 {
                assert(order[0] == pending[0]);
            } else {
                let place = nodes[pending[0]].children.len() + k - 1;
                assert(next[place] == pending[k]);
                assert(order.skip(1).contains(next[place]));
                let j = order.skip(1).index_of(pending[k]);
                assert(order[j + 1] == pending[k]);
            }
        }
    }
}

/// The children of a node are visited after it.
pub proof fn lemma_visits_children(
    nodes: Map<NodeId, NodeModel>,
    pending: Seq<NodeId>,
    order: Seq<NodeId>,
    i: int,
    child: int,
)
    requires
        visits(nodes, pending, order),
        0 <= i < order.len(),
        0 <= child < nodes[order[i]].children.len(),
    ensures
        order.skip(i + 1).contains(nodes[order[i]].children[child]),
    decreases order.len(),
{
    let next = nodes[pending[0]].children + pending.skip(1);
    if i == 0 {
        lemma_visits_pending(nodes, next, order.skip(1));
        assert(next[child] == nodes[order[0]].children[child]);
    } else {
        lemma_visits_children(nodes, next, order.skip(1), i - 1, child);
        assert(order.skip(1).skip(i) =~= order.skip(i + 1));
        assert(order.skip(1)[i - 1] == order[i]);
    }
}

/// What holds a tile is the tile or has a child that holds it.
pub proof fn lemma_holds_tile(tree: TreeModel, id: NodeId)
    requires
        tree.regular(),
        tree.has(id),
    ensures
        tree.data(id).is_tile() ==> tree.holds_tile(id),
        !tree.data(id).is_tile() ==> (tree.holds_tile(id) <==> exists|k: int|
            0 <= k < tree.children(id).len() && tree.holds_tile(#[trigger] tree.children(id)[k])),
{
    reveal(TreeModel::regular);
    if tree.data(id).is_tile() {
        lemma_below_self(tree, id);
    } else {
        if tree.holds_tile(id) {
            let tile = choose|tile: NodeId|
                tree.has(tile) && tree.data(tile).is_tile() && #[trigger] tree.below(tile, id);
            lemma_branch(tree, tile, id);
            let child = tree.branch(tile, id);
            assert(tree.has(child));
            assert(tree.children(id).contains(child));
            let k = tree.children(id).index_of(child);
            assert(tree.holds_tile(tree.children(id)[k]));
        }
        if exists|k: int|
            0 <= k < tree.children(id).len() && tree.holds_tile(#[trigger] tree.children(id)[k]) {
            let k = choose|k: int|
                0 <= k < tree.children(id).len() && tree.holds_tile(
                    #[trigger] tree.children(id)[k],
                );
            let child = tree.children(id)[k];
            let tile = choose|tile: NodeId|
                tree.has(tile) && tree.data(tile).is_tile() && #[trigger] tree.below(tile, child);
            assert(tree.has(child) && tree.parent(child) == Some(id));
            lemma_below_self(tree, id);
            lemma_below_parent(tree, child, id);
            crate::lineage::lemma_below_trans(tree, tile, child, id);
        }
    }
}

/// There are bounds if one of the nodes holds a tile.
proof fn lemma_bounds_some(tree: TreeModel, after: TreeModel, ids: Seq<NodeId>)
    ensures
        tree.bounds(after, ids) is Some <==> exists|k: int|
            0 <= k < ids.len() && tree.holds_tile(#[trigger] ids[k]),
    decreases ids.len(),
{
    if ids.len() > 0 {
        let before = ids.drop_last();
        lemma_bounds_some(tree, after, before);
        if tree.bounds(after, before) is Some {
            let k = choose|k: int| 0 <= k < before.len() && tree.holds_tile(#[trigger] before[k]);
            assert(ids[k] == before[k]);
        }
        if tree.holds_tile(ids.last()) {
            assert(tree.holds_tile(ids[ids.len() - 1]));
        }
        if exists|k: int| 0 <= k < ids.len() && tree.holds_tile(#[trigger] ids[k]) {
            let k = choose|k: int| 0 <= k < ids.len() && tree.holds_tile(#[trigger] ids[k]);
            if k < before.len() {
                assert(tree.holds_tile(before[k]));
            }
        }
    }
}

/// The bounds depend on the areas of the nodes only.
proof fn lemma_bounds_same(tree: TreeModel, first: TreeModel, second: TreeModel, ids: Seq<NodeId>)
    requires
        forall|k: int|
            0 <= k < ids.len() ==> first.data(#[trigger] ids[k]) == second.data(ids[k]),
    ensures
        tree.bounds(first, ids) == tree.bounds(second, ids),
    decreases ids.len(),
{
    if ids.len() > 0 {
        let before = ids.drop_last();
        assert forall|k: int| 0 <= k < before.len() implies first.data(#[trigger] before[k])
            == second.data(before[k]) by {
            assert(before[k] == ids[k]);
        }
        lemma_bounds_same(tree, first, second, before);
        assert(first.data(ids[ids.len() - 1]) == second.data(ids[ids.len() - 1]));
    }
}

/// The bounds of those children that hold tiles.
fn children_bounds(
    tree: &Tree<TreeNode>,
    children: &Vec<NodeId>,
    bounded: &Vec<NodeId>,
    Ghost(shape): Ghost<TreeModel>,
) -> (bounds: Option<Rectangle>)
    requires
        forall|k: int|
            0 <= k < children@.len() ==> model(*tree).has(#[trigger] children@[k]) && (
            bounded@.contains(children@[k]) <==> shape.holds_tile(children@[k])),
    ensures
        bounds == shape.bounds(model(*tree), children@),
{
    let mut bounds: Option<Rectangle> = None;
    let mut k: usize = 0;
    assert(children@.take(0) =~= seq![]);
    while k < children.len()
        invariant
            k <= children@.len(),
            forall|k: int|
                0 <= k < children@.len() ==> model(*tree).has(#[trigger] children@[k]) && (
                bounded@.contains(children@[k]) <==> shape.holds_tile(children@[k])),
            bounds == shape.bounds(model(*tree), children@.take(k as int)),
        decreases children@.len() - k,
    {
        assert(children@.take(k as int + 1).drop_last() =~= children@.take(k as int));
        assert(model(*tree).has(children@[k as int]));
        if position_of(bounded, &children[k]).is_some() {
            match get_node(tree, &children[k]) {
                Some(node) => {
                    let area: Rectangle = node.data.geometry();
                    bounds = Some(
                        match bounds {
                            Some(known) => known.merge(area),
                            None => area,
                        },
                    );
                },
                None => {},
            }
        }
        k += 1;
    }
    assert(children@.take(children@.len() as int) =~= children@);
    bounds
}

/// Among the nodes from a place on is the one at that place, and those after it.
proof fn lemma_skip_contains(order: Seq<NodeId>, i: int)
    requires
        order.no_duplicates(),
        0 <= i < order.len(),
    ensures
        !order.skip(i + 1).contains(order[i]),
        forall|id: NodeId| #[trigger]
            order.skip(i).contains(id) <==> order.skip(i + 1).contains(id) || id == order[i],
{
    let rest = order.skip(i + 1);
    let more = order.skip(i);
    assert forall|id: NodeId| #[trigger] more.contains(id) <==> rest.contains(id) || id
        == order[i] by {
        if rest.contains(id) {
            let k = rest.index_of(id);
            assert(more[k + 1] == id);
        }
        if more.contains(id) && id != order[i] {
            let k = more.index_of(id);
            assert(rest[k - 1] == id);
        }
        assert(more[0] == order[i]);
    }
    if rest.contains(order[i]) {
        let k = rest.index_of(order[i]);
        assert(order[i + 1 + k] == order[i]);
    }
}

/// Giving a group its bounds leaves the bounds of the groups after it.
proof fn lemma_bound_one(
    shape: TreeModel,
    mid: TreeModel,
    now: TreeModel,
    order: Seq<NodeId>,
    root: NodeId,
    i: int,
    data: DataView,
)
    requires
        visits(shape.nodes, seq![root], order),
        order.no_duplicates(),
        0 <= i < order.len(),
        shape.has(order[i]),
        shape.same_shape(mid),
        shape.partly_bounded(mid, now, order.skip(i + 1)),
        data == shape.bounded_data(mid, now, order[i]),
    ensures
        shape.partly_bounded(mid, now.with_data(order[i], data), order.skip(i)),
{
    let id = order[i];
    let after = now.with_data(id, data);
    lemma_skip_contains(order, i);
    assert(now.has(id));
    assert(after.nodes.dom() =~= now.nodes.dom());
    assert forall|other: NodeId| #[trigger] after.has(other) implies after.parent(other)
        == shape.parent(other) && after.children(other) == shape.children(other) && after.key(other)
        == shape.key(other) && after.data(other) == if order.skip(i).contains(other) {
        shape.bounded_data(mid, after, other)
    } else {
        mid.data(other)
    } by {
        assert(now.has(other));
        if order.skip(i).contains(other) {
            let place = if other == id {
                i
            } else {
                i + 1 + order.skip(i + 1).index_of(other)
            };
            assert(order[place] == other);
            assert forall|k: int| 0 <= k < shape.children(other).len() implies now.data(
                #[trigger] shape.children(other)[k],
            ) == after.data(shape.children(other)[k]) by {
                lemma_visits_children(shape.nodes, seq![root], order, place, k);
                let child = shape.children(other)[k];
                let j = order.skip(place + 1).index_of(child);
                assert(order[place + 1 + j] == child);
                assert(child != id);
            }
            lemma_bounds_same(shape, now, after, shape.children(other));
        }
    }
}

/// Puts every group around its tiles, from the last node to the first.
fn update_group_bounds(
    tree: &mut Tree<TreeNode>,
    order: &Vec<NodeId>,
    root: &NodeId,
    Ghost(shape): Ghost<TreeModel>,
)
    requires
        shape.regular(),
        shape.same_shape(model(*old(tree))),
        forall|id: NodeId| #[trigger]
            shape.has(id) ==> (model(*old(tree)).data(id) is Group <==> shape.data(id) is Group)
                && (model(*old(tree)).data(id).is_tile() <==> shape.data(id).is_tile()),
        visits(shape.nodes, seq![*root], order@),
        order@.no_duplicates(),
        forall|i: int| 0 <= i < order@.len() ==> shape.has(#[trigger] order@[i]),
    ensures
        shape.partly_bounded(model(*old(tree)), model(*final(tree)), order@),
{
    let ghost mid = model(*tree);
    let mut bounded: Vec<NodeId> = Vec::new();
    let mut i: usize = order.len();
    assert(order@.skip(order@.len() as int) =~= seq![]);
    while i > 0
        invariant
            i <= order@.len(),
            shape.regular(),
            shape.same_shape(mid),
            forall|id: NodeId| #[trigger]
                shape.has(id) ==> (mid.data(id) is Group <==> shape.data(id) is Group) && (mid.data(
                    id,
                ).is_tile() <==> shape.data(id).is_tile()),
            visits(shape.nodes, seq![*root], order@),
            order@.no_duplicates(),
            forall|i: int| 0 <= i < order@.len() ==> shape.has(#[trigger] order@[i]),
            shape.partly_bounded(mid, model(*tree), order@.skip(i as int)),
            forall|id: NodeId| #[trigger]
                bounded@.contains(id) <==> order@.skip(i as int).contains(id) && shape.holds_tile(
                    id,
                ),
        decreases i,
    {
        i = i - 1;
        let id: NodeId = copy_id(&order[i]);
        let ghost now = model(*tree);
        let ghost earlier = bounded@;
        proof {
            assert(shape.has(order@[i as int]));
            lemma_skip_contains(order@, i as int);
            assert(now.has(id));
            assert(now.data(id) == mid.data(id));
            lemma_holds_tile(shape, id);
            lemma_room(shape, id);
        }
        let children: Vec<NodeId> = child_ids(tree, &id);
        proof {
            assert forall|k: int| 0 <= k < children@.len() implies now.has(#[trigger] children@[k])
                && (bounded@.contains(children@[k]) <==> shape.holds_tile(children@[k])) by {
                lemma_visits_children(shape.nodes, seq![*root], order@, i as int, k);
                lemma_child(shape, id, k);
            }
        }
        let (is_group, is_tile): (bool, bool) = match get_node(tree, &id) {
            Some(node) => (node.data.is_group(), node.data.takes_tile()),
            None => (false, false),
        };
        if is_group {
            let bounds: Option<Rectangle> = children_bounds(
                tree,
                &children,
                &bounded,
                Ghost(shape),
            );
            proof {
                lemma_bounds_some(shape, now, children@);
            }
            match bounds {
                Some(bounds) => {
                    match get_node_mut(tree, &id) {
                        Some(node) => {
                            node.data.update_geometry(bounds);
                        },
                        None => {},
                    }
                    assert(model(*tree) =~~= now.with_data(id, mid.data(id).placed(bounds)));
                    bounded.push(copy_id(&id));
                },
                None => {
                    assert(now =~~= now.with_data(id, mid.data(id)));
                },
            }
        } else {
            assert(now =~~= now.with_data(id, mid.data(id)));
            if is_tile {
                bounded.push(copy_id(&id));
            }
        }
        proof {
            let data = shape.bounded_data(mid, now, id);
            assert(model(*tree) == now.with_data(id, data));
            lemma_bound_one(shape, mid, now, order@, *root, i as int, data);
            assert forall|other: NodeId| #[trigger]
                bounded@.contains(other) <==> order@.skip(i as int).contains(other)
                    && shape.holds_tile(other) by {
                lemma_pushed(earlier, id, other);
                assert(earlier.contains(other) <==> order@.skip(i as int + 1).contains(other)
                    && shape.holds_tile(other));
            }
        }
    }
    assert(order@.skip(0) =~= order@);
}

/// What a list holds with one more id.
proof fn lemma_pushed(ids: Seq<NodeId>, last: NodeId, id: NodeId)
    ensures
        ids.push(last).contains(id) <==> ids.contains(id) || id == last,
{
    let more = ids.push(last);
    if ids.contains(id) {
        let i = ids.index_of(id);
        assert(more[i] == id);
    }
    assert(more[ids.len() as int] == last);
    if more.contains(id) && id != last {
        let i = more.index_of(id);
        assert(ids[i] == id);
    }
}

/// Whether a window is told of its new size while it is being resized: each time it committed
/// the size before, and at the end.
pub open spec fn spec_should_configure(
    is_resized_tile: bool,
    final_configure: bool,
    size_changed: bool,
    latest_size_committed: bool,
) -> bool {
    is_resized_tile && (final_configure || (size_changed && latest_size_committed))
}

/// Whether a window is told of its new size while tiles are being resized.
pub fn should_configure_live_resize(
    is_resized_tile: bool,
    final_configure: bool,
    size_changed: bool,
    latest_size_committed: bool,
) -> (yes: bool)
    ensures
        yes == spec_should_configure(
            is_resized_tile,
            final_configure,
            size_changed,
            latest_size_committed,
        ),
{
    is_resized_tile && (final_configure || (size_changed && latest_size_committed))
}

/// Tiles that are resized while the pointer moves.
#[derive(Debug)]
pub struct LiveResize {
    pub tiles: Vec<u64>,
    /// Whether the pointer was released.
    pub final_configure: bool,
}

impl TreeModel {
    /// Whether a node has this key.
    pub open spec fn has_key(self, key: u64) -> bool {
        exists|id: NodeId| self.has(id) && #[trigger] self.key(id) == key
    }

    /// The node with this key.
    pub open spec fn node_keyed(self, key: u64) -> NodeId {
        choose|id: NodeId| self.has(id) && #[trigger] self.key(id) == key
    }

    /// What the window in a tile is asked to do.
    pub open spec fn tile_configure(
        self,
        tile: u64,
        strip: Strip,
        origin: Point,
        live: Option<LiveResize>,
    ) -> Seq<Configure> {
        let area = strip.tile_area(tile, origin);
        match self.data(self.node_keyed(tile)) {
            DataView::Mapped { mapped, last_geometry, .. } => if mapped.fullscreen
                || mapped.maximized {
                seq![]
            } else {
                seq![
                    Configure {
                        window: mapped.id,
                        geometry: area,
                        send: match live {
                            Some(resize) => spec_should_configure(
                                resize.tiles@.contains(tile),
                                resize.final_configure,
                                last_geometry.size != area.size,
                                mapped.latest_size_committed,
                            ),
                            None => true,
                        },
                    },
                ]
            },
            _ => seq![],
        }
    }

    /// What the windows in these tiles are asked to do.
    pub open spec fn tile_configures(
        self,
        tiles: Seq<u64>,
        strip: Strip,
        origin: Point,
        live: Option<LiveResize>,
    ) -> Seq<Configure>
        decreases tiles.len(),
    {
        if tiles.len() == 0 {
            seq![]
        } else {
            self.tile_configures(tiles.drop_last(), strip, origin, live) + self.tile_configure(
                tiles.last(),
                strip,
                origin,
                live,
            )
        }
    }
}

/// The node with this key among these nodes.
pub(crate) fn find_key(tree: &Tree<TreeNode>, order: &Vec<NodeId>, key: u64) -> (found: Option<NodeId>)
    requires
        forall|i: int| 0 <= i < order@.len() ==> model(*tree).has(#[trigger] order@[i]),
    ensures
        match found {
            Some(id) => model(*tree).has(id) && model(*tree).key(id) == key && order@.contains(id),
            None => forall|i: int|
                0 <= i < order@.len() ==> model(*tree).key(#[trigger] order@[i]) != key,
        },
{
    let mut i: usize = 0;
    while i < order.len()
        invariant
            i <= order@.len(),
            forall|i: int| 0 <= i < order@.len() ==> model(*tree).has(#[trigger] order@[i]),
            forall|k: int| 0 <= k < i ==> model(*tree).key(#[trigger] order@[k]) != key,
        decreases order@.len() - i,
    {
        assert(model(*tree).has(order@[i as int]));
        if key_of(tree, &order[i]) == key {
            return Some(copy_id(&order[i]));
        }
        i += 1;
    }
    None
}

/// The key of a node names it.
pub proof fn lemma_node_keyed(tree: TreeModel, id: NodeId)
    requires
        tree.keyed(),
        tree.has(id),
    ensures
        tree.node_keyed(tree.key(id)) == id,
{
    let other = tree.node_keyed(tree.key(id));
    assert(tree.has(other) && tree.key(other) == tree.key(id));
}

impl ColumnModel {
    /// All tiles, in strip order.
    pub fn all_tiles(&self) -> (tiles: Vec<u64>)
        ensures
            tiles@ == self@.tiles(),
    {
        let mut tiles: Vec<u64> = Vec::new();
        let mut column: usize = 0;
        while column < self.columns.len()
            invariant
                column <= self.columns@.len(),
                tiles@ == tiles_of(self@.columns, column as int),
            decreases self.columns@.len() - column,
        {
            let ghost before = tiles@;
            let mut row: usize = 0;
            assert(self@.columns[column as int].tiles == self.columns@[column as int].tiles@);
            assert(before + self.columns@[column as int].tiles@.take(0) =~= before);
            while row < self.columns[column].tiles.len()
                invariant
                    column < self.columns@.len(),
                    row <= self.columns@[column as int].tiles@.len(),
                    tiles@ == before + self.columns@[column as int].tiles@.take(row as int),
                decreases self.columns@[column as int].tiles@.len() - row,
            {
                tiles.push(self.columns[column].tiles[row]);
                row += 1;
                assert(tiles@ =~= before + self.columns@[column as int].tiles@.take(row as int));
            }
            assert(self.columns@[column as int].tiles@.take(row as int)
                =~= self.columns@[column as int].tiles@);
            column += 1;
        }
        tiles
    }
}

/// What the windows of the strip are asked to do, in strip order.
fn configure_tiles(
    tree: &Tree<TreeNode>,
    order: &Vec<NodeId>,
    columns: &ColumnModel,
    origin: Point,
    live: &Option<LiveResize>,
) -> (configures: Vec<Configure>)
    requires
        columns@.wf(),
        model(*tree).keyed(),
        forall|i: int| 0 <= i < order@.len() ==> model(*tree).has(#[trigger] order@[i]),
        forall|tile: u64| #[trigger]
            columns@.contains(tile) ==> exists|i: int|
                0 <= i < order@.len() && model(*tree).key(#[trigger] order@[i]) == tile,
    ensures
        configures@ == model(*tree).tile_configures(columns@.tiles(), columns@, origin, *live),
{
    let ghost shape = model(*tree);
    let tiles: Vec<u64> = columns.all_tiles();
    let mut configures: Vec<Configure> = Vec::new();
    let mut i: usize = 0;
    assert(tiles@.take(0) =~= seq![]);
    while i < tiles.len()
        invariant
            i <= tiles@.len(),
            shape == model(*tree),
            columns@.wf(),
            shape.keyed(),
            tiles@ == columns@.tiles(),
            forall|i: int| 0 <= i < order@.len() ==> shape.has(#[trigger] order@[i]),
            forall|tile: u64| #[trigger]
                columns@.contains(tile) ==> exists|i: int|
                    0 <= i < order@.len() && shape.key(#[trigger] order@[i]) == tile,
            configures@ == shape.tile_configures(tiles@.take(i as int), columns@, origin, *live),
        decreases tiles@.len() - i,
    {
        let tile: u64 = tiles[i];
        let ghost earlier = configures@;
        proof {
            assert(tiles@.take(i as int + 1).drop_last() =~= tiles@.take(i as int));
            assert(columns@.tiles().contains(tile)) by {
                assert(columns@.tiles()[i as int] == tile);
            }
            lemma_contains_tiles(columns@, tile);
        }
        match find_key(tree, order, tile) {
            Some(id) => {
                proof {
                    lemma_node_keyed(shape, id);
                }
                match (get_node(tree, &id), columns.tile_area(tile, origin)) {
                    (Some(node), Some(area)) => match &node.data {
                        Data::Mapped { mapped, last_geometry, .. } => {
                            if !(mapped.fullscreen || mapped.maximized) {
                                let send: bool = match live {
                                    Some(resize) => should_configure_live_resize(
                                        contains_item(&resize.tiles, tile),
                                        resize.final_configure,
                                        last_geometry.size != area.size,
                                        mapped.latest_size_committed,
                                    ),
                                    None => true,
                                };
                                configures.push(
                                    Configure { window: mapped.id, geometry: area, send },
                                );
                            }
                        },
                        _ => {},
                    },
                    _ => {},
                }
            },
            None => {},
        }
        assert(configures@ =~= earlier + shape.tile_configure(tile, columns@, origin, *live));
        i += 1;
    }
    assert(tiles@.take(tiles@.len() as int) =~= tiles@);
    configures
}

/// Placing the tiles and then the groups around them brings all of the strip into the tree.
proof fn lemma_scrolled(
    shape: TreeModel,
    mid: TreeModel,
    after: TreeModel,
    order: Seq<NodeId>,
    strip: Strip,
    origin: Point,
)
    requires
        shape.partly_scrolled(mid, order, strip, origin),
        shape.partly_bounded(mid, after, order),
        forall|id: NodeId| #[trigger] shape.has(id) ==> order.contains(id),
    ensures
        shape.scrolled(after, strip, origin),
{
    assert forall|id: NodeId| #[trigger] after.has(id) implies after.data(id)
        == shape.scrolled_data(after, id, strip, origin) by {
        assert(shape.has(id));
        assert(mid.has(id));
    }
}

/// A tree with its tiles in other places is as sound as it was.
pub proof fn lemma_scrolled_sound(shape: TreeModel, after: TreeModel, strip: Strip, origin: Point)
    requires
        shape.scrolled(after, strip, origin),
    ensures
        shape.forest() ==> after.forest(),
        shape.sound() ==> after.sound(),
        shape.settled() ==> after.settled(),
        shape.keyed() ==> after.keyed(),
{
    lemma_same_rooms(shape, after);
}

/// All nodes of a tree, each before its children.
pub(crate) fn all_nodes(tree: &Tree<TreeNode>, root: &NodeId) -> (order: Vec<NodeId>)
    requires
        model(*tree).regular(),
        model(*tree).root == Some(*root),
    ensures
        visits(model(*tree).nodes, seq![*root], order@),
        order@.no_duplicates(),
        forall|id: NodeId| #[trigger] model(*tree).has(id) <==> order@.contains(id),
        forall|i: int| 0 <= i < order@.len() ==> model(*tree).has(#[trigger] order@[i]),
{
    let ghost shape = model(*tree);
    assert(shape.forest() && shape.has(*root)) by {
        reveal(TreeModel::regular);
    }
    let order: Vec<NodeId> = preorder_ids(tree, root);
    assert forall|id: NodeId| #[trigger] shape.has(id) <==> order@.contains(id) by {
        if shape.has(id) {
            reveal(TreeModel::regular);
            let rank = choose|rank: Map<NodeId, nat>| shape.ranked(rank);
            lemma_below_root(shape, id, rank);
        }
        assert(order@.contains(id) == (shape.has(id) && shape.below(id, *root)));
    }
    assert forall|i: int| 0 <= i < order@.len() implies shape.has(#[trigger] order@[i]) by {
        assert(order@.contains(order@[i]));
    }
    order
}

/// Brings the strip into the tree: all tiles where the strip has them, and every group around
/// its tiles. Returns what the windows are asked to do, in strip order.
pub(crate) fn arrange_tiles(
    tree: &mut Tree<TreeNode>,
    order: &Vec<NodeId>,
    root: &NodeId,
    columns: &ColumnModel,
    origin: Point,
    live: &Option<LiveResize>,
) -> (configures: Vec<Configure>)
    requires
        columns@.wf(),
        model(*old(tree)).regular(),
        model(*old(tree)).keyed(),
        visits(model(*old(tree)).nodes, seq![*root], order@),
        order@.no_duplicates(),
        forall|id: NodeId| #[trigger] model(*old(tree)).has(id) <==> order@.contains(id),
        forall|i: int| 0 <= i < order@.len() ==> model(*old(tree)).has(#[trigger] order@[i]),
        forall|tile: u64| #[trigger]
            columns@.contains(tile) <==> model(*old(tree)).tile_keys(order@).contains(tile),
    ensures
        model(*old(tree)).scrolled(model(*final(tree)), columns@, origin),
        configures@ == model(*old(tree)).tile_configures(columns@.tiles(), columns@, origin, *live),
{
    let ghost shape = model(*tree);
    proof {
        assert forall|tile: u64| #[trigger] columns@.contains(tile) implies exists|i: int|
            0 <= i < order@.len() && shape.key(#[trigger] order@[i]) == tile by {
            lemma_tile_keys(shape, order@, tile);
        }
        assert forall|id: NodeId| #[trigger] shape.has(id) && shape.data(
            id,
        ).is_tile() implies columns@.contains(shape.key(id)) by {
            let i = order@.index_of(id);
            assert(order@[i] == id);
            lemma_tile_keyed(shape, order@, i);
        }
    }
    let configures: Vec<Configure> = configure_tiles(tree, order, columns, origin, live);
    place_tiles(tree, order, columns, origin);
    let ghost mid = model(*tree);
    assert forall|id: NodeId| #[trigger] shape.has(id) implies (mid.data(id) is Group
        <==> shape.data(id) is Group) && (mid.data(id).is_tile() <==> shape.data(id).is_tile()) by {
        assert(mid.has(id));
    }
    update_group_bounds(tree, order, root, Ghost(shape));
    proof {
        lemma_scrolled(shape, mid, model(*tree), order@, columns@, origin);
    }
    configures
}

/// The key of a tile is the key of one of the nodes.
pub proof fn lemma_tile_keys(tree: TreeModel, order: Seq<NodeId>, tile: u64)
    requires
        tree.tile_keys(order).contains(tile),
    ensures
        exists|i: int|
            0 <= i < order.len() && tree.key(#[trigger] order[i]) == tile && tree.data(
                order[i],
            ).is_tile(),
    decreases order.len(),
{
    if order.len() > 0 {
        let before = order.drop_last();
        let last = order.last();
        let rest = tree.tile_keys(before);
        if tree.data(last).is_tile() && tree.key(last) == tile {
            assert(order[order.len() - 1] == last);
        } else {
            assert(rest.contains(tile)) by {
                let k = tree.tile_keys(order).index_of(tile);
                assert(rest[k] == tile);
            }
            lemma_tile_keys(tree, before, tile);
            let i = choose|i: int|
                0 <= i < before.len() && tree.key(#[trigger] before[i]) == tile && tree.data(
                    before[i],
                ).is_tile();
            assert(order[i] == before[i]);
        }
    }
}

/// The key of a node that is a tile is the key of a tile.
pub proof fn lemma_tile_keyed(tree: TreeModel, order: Seq<NodeId>, i: int)
    requires
        0 <= i < order.len(),
        tree.data(order[i]).is_tile(),
    ensures
        tree.tile_keys(order).contains(tree.key(order[i])),
    decreases order.len(),
{
    let rest = tree.tile_keys(order.drop_last());
    let all = tree.tile_keys(order);
    if i == order.len() - 1 {
        assert(all[all.len() - 1] == tree.key(order[i]));
    } else {
        lemma_tile_keyed(tree, order.drop_last(), i);
        let k = rest.index_of(tree.key(order[i]));
        assert(all[k] == tree.key(order[i]));
    }
}

} // verus!
