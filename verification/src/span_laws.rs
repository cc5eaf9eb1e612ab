//! How long groups are on the strip, and what is left of their areas after it.

use vstd::prelude::*;

use id_tree::NodeId;

use crate::balance::{lemma_same_rooms, lemma_sound};
use crate::classic::{lemma_empty, outer_zone, Configure};
use crate::config::TilingEngine;
use crate::copies::law_copies_are_alike;
use crate::data::DataView;
use crate::geometry::{Orientation, Point, Rectangle};
use crate::layout::LayoutView;
use crate::lineage::{lemma_ancestor_add, lemma_ancestor_rank};
use crate::placement::{lemma_holds_tile, viewport_area};
use crate::queue::{blockers_of, QueueView};
use crate::return_laws::{
    lemma_branches, lemma_coming_back, lemma_tidied_stands, EXACT_LENGTH,
};
use crate::strip::Strip;
use crate::strip_actions::ResizingChange;
use crate::tree::{visits, TreeModel};
use crate::tree_actions::barriers;
use crate::twins::{
    lemma_copy_twin, lemma_shape_twin, lemma_twin_below, lemma_twin_chain, lemma_twin_has,
    lemma_twin_keyed, lemma_twin_of,
};

verus! {

/// How far from the corner of the screen areas are looked at, in each direction.
pub const SCREEN_LIMIT: i32 = 0x80_0000;

impl Rectangle {
    /// The edge that an area begins at, along an orientation.
    pub open spec fn near_edge(self, orientation: Orientation) -> int {
        match orientation {
            Orientation::Horizontal => self.loc.y as int,
            Orientation::Vertical => self.loc.x as int,
        }
    }

    /// The edge that an area ends at, along an orientation.
    pub open spec fn far_edge(self, orientation: Orientation) -> int {
        self.near_edge(orientation) + self.extent(orientation)
    }

    /// Whether an area is not far off.
    pub open spec fn nearby(self) -> bool {
        &&& self.size.w >= 0
        &&& self.size.h >= 0
        &&& -SCREEN_LIMIT <= self.loc.x
        &&& -SCREEN_LIMIT <= self.loc.y
        &&& self.loc.x + self.size.w <= SCREEN_LIMIT
        &&& self.loc.y + self.size.h <= SCREEN_LIMIT
    }

    /// Whether another area lies in this one.
    spec fn covers(self, other: Rectangle) -> bool {
        &&& self.loc.x <= other.loc.x
        &&& self.loc.y <= other.loc.y
        &&& other.loc.x + other.size.w <= self.loc.x + self.size.w
        &&& other.loc.y + other.size.h <= self.loc.y + self.size.h
    }
}

impl TreeModel {
    /// Whether every group of this tree is at least as long on a strip as it is now: some tile
    /// below it ends that far from where one below it begins.
    pub open spec fn spans(self, strip: Strip, origin: Point) -> bool {
        &&& forall|id: NodeId| #[trigger]
            self.has(id) && self.data(id).is_tile() ==> strip.tile_area(
                self.key(id),
                origin,
            ).nearby()
        &&& forall|id: NodeId| #[trigger]
            self.has(id) && self.data(id) is Group ==> self.reaches(
                id,
                self.data(id).geometry().extent(self.data(id).spec_orientation()) as int,
                strip,
                origin,
            )
    }

    /// Whether the tiles below a group reach this far on a strip, along its orientation.
    pub open spec fn reaches(self, id: NodeId, length: int, strip: Strip, origin: Point) -> bool {
        let orientation = self.data(id).spec_orientation();
        exists|first: NodeId, last: NodeId|
            #![trigger self.below(first, id), self.below(last, id)]
            self.has(first) && self.has(last) && self.data(first).is_tile() && self.data(
                last,
            ).is_tile() && self.below(first, id) && self.below(last, id) && length
                <= strip.tile_area(self.key(last), origin).far_edge(orientation) - strip.tile_area(
                self.key(first),
                origin,
            ).near_edge(orientation)
    }
}

impl LayoutView {
    /// Whether the strip can be this one once the layout scrolls.
    pub open spec fn scrolls_to(self, strip: Strip) -> bool {
        exists|copy: TreeModel, tree: TreeModel, grabbed: Option<u64>, order: Seq<NodeId>|
            self.newest().copied(copy) && #[trigger] copy.tidied(tree, grabbed) && #[trigger] visits(
                tree.nodes,
                seq![tree.root->0],
                order,
            ) && strip == self.scroll.strip.updated(
                self.scroll.pending_center,
                tree.tile_keys(order),
                tree.first_active(order),
                viewport_area(self.usable, self.gaps),
                if self.gaps.1 > 0 {
                    self.gaps.1 as int
                } else {
                    0
                },
                None,
                false,
                false,
            )
    }

    /// Whether every group of the newest tree will be at least as long on the strip as it is.
    pub open spec fn fits_the_strip(self) -> bool {
        forall|strip: Strip| #[trigger]
            self.scrolls_to(strip) ==> self.newest().spans(
                strip,
                viewport_area(self.usable, self.gaps).loc,
            )
    }
}

/// Two areas that are not far off are in the one around them.
proof fn lemma_joined(first: Rectangle, second: Rectangle)
    requires
        first.nearby(),
        second.nearby(),
    ensures
        first.joined(second).nearby(),
        first.joined(second).covers(first),
        first.joined(second).covers(second),
{
}

/// The bounds of nodes are around those of them that hold tiles.
proof fn lemma_bounds_cover(tree: TreeModel, after: TreeModel, ids: Seq<NodeId>)
    requires
        forall|k: int|
            0 <= k < ids.len() && tree.holds_tile(#[trigger] ids[k]) ==> after.data(
                ids[k],
            ).geometry().nearby(),
    ensures
        match tree.bounds(after, ids) {
            Some(bounds) => bounds.nearby() && forall|k: int|
                0 <= k < ids.len() && tree.holds_tile(#[trigger] ids[k]) ==> bounds.covers(
                    after.data(ids[k]).geometry(),
                ),
            None => forall|k: int| 0 <= k < ids.len() ==> !tree.holds_tile(#[trigger] ids[k]),
        },
    decreases ids.len(),
{
    if ids.len() > 0 {
        let rest = ids.drop_last();
        assert forall|k: int|
            0 <= k < rest.len() && tree.holds_tile(#[trigger] rest[k]) implies after.data(
            rest[k],
        ).geometry().nearby() by {
            assert(rest[k] == ids[k]);
        }
        lemma_bounds_cover(tree, after, rest);
        let last = ids.last();
        assert(ids[ids.len() - 1] == last);
        assert forall|k: int| 0 <= k < rest.len() implies #[trigger] ids[k] == rest[k] by {}
        if tree.holds_tile(last) {
            match tree.bounds(after, rest) {
                Some(bounds) => {
                    lemma_joined(bounds, after.data(last).geometry());
                },
                None => {},
            }
        }
    }
}

/// A number that no node is numbered above.
proof fn lemma_highest_rank(nodes: Set<NodeId>, rank: Map<NodeId, nat>) -> (top: nat)
    requires
        nodes.finite(),
    ensures
        forall|id: NodeId| #[trigger] nodes.contains(id) ==> rank[id] <= top,
    decreases nodes.len(),
{
    if nodes.len() == 0 {
        0
    } else {
        let one = nodes.choose();
        let top = lemma_highest_rank(nodes.remove(one), rank);
        let higher = if rank[one] > top {
            rank[one]
        } else {
            top
        };
        assert forall|id: NodeId| #[trigger] nodes.contains(id) implies rank[id] <= higher by {
            if id != one {
                assert(nodes.remove(one).contains(id));
            }
        }
        higher
    }
}

/// What holds a tile is not far off if no tile is.
proof fn lemma_placed_nearby(
    tree: TreeModel,
    after: TreeModel,
    strip: Strip,
    origin: Point,
    rank: Map<NodeId, nat>,
    top: nat,
    id: NodeId,
)
    requires
        tree.regular(),
        tree.ranked(rank),
        tree.scrolled(after, strip, origin),
        forall|tile: NodeId| #[trigger]
            tree.has(tile) && tree.data(tile).is_tile() ==> strip.tile_area(
                tree.key(tile),
                origin,
            ).nearby(),
        forall|node: NodeId| #[trigger] tree.nodes.dom().contains(node) ==> rank[node] <= top,
        tree.has(id),
        tree.holds_tile(id),
    ensures
        after.data(id).geometry().nearby(),
    decreases top - rank[id],
{
    lemma_branches(tree);
    lemma_holds_tile(tree, id);
    assert(tree.nodes.dom().contains(id));
    assert(after.nodes.dom().contains(id));
    assert(after.has(id));
    assert(after.data(id) == tree.scrolled_data(after, id, strip, origin));
    if !tree.data(id).is_tile() {
        let children = tree.children(id);
        assert forall|k: int|
            0 <= k < children.len() && tree.holds_tile(#[trigger] children[k]) implies after.data(
            children[k],
        ).geometry().nearby() by {
            let child = tree.children(id)[k];
            assert(tree.has(child) && tree.parent(child) == Some(id));
            assert(tree.nodes.dom().contains(child));
            lemma_placed_nearby(tree, after, strip, origin, rank, top, child);
        }
        lemma_bounds_cover(tree, after, children);
        assert(children.len() > 0);
        assert(tree.data(id) is Group);
    }
}

/// What a tile stands below is around it.
proof fn lemma_placed_covers(
    tree: TreeModel,
    after: TreeModel,
    strip: Strip,
    origin: Point,
    rank: Map<NodeId, nat>,
    top: nat,
    tile: NodeId,
    id: NodeId,
    steps: nat,
)
    requires
        tree.regular(),
        tree.ranked(rank),
        tree.scrolled(after, strip, origin),
        forall|tile: NodeId| #[trigger]
            tree.has(tile) && tree.data(tile).is_tile() ==> strip.tile_area(
                tree.key(tile),
                origin,
            ).nearby(),
        forall|node: NodeId| #[trigger] tree.nodes.dom().contains(node) ==> rank[node] <= top,
        tree.has(tile),
        tree.data(tile).is_tile(),
        tree.ancestor(tile, steps) == Some(id),
    ensures
        after.data(id).geometry().covers(strip.tile_area(tree.key(tile), origin)),
        after.data(id).geometry().nearby(),
    decreases steps,
{
    lemma_branches(tree);
    lemma_ancestor_rank(tree, rank, tile, steps);
    assert(tree.nodes.dom().contains(id));
    assert(after.nodes.dom().contains(id));
    assert(after.has(id));
    assert(after.data(id) == tree.scrolled_data(after, id, strip, origin));
    assert(tree.below(tile, id));
    assert(tree.holds_tile(id));
    lemma_placed_nearby(tree, after, strip, origin, rank, top, id);
    if steps > 0 {
        let fewer = (steps - 1) as nat;
        lemma_ancestor_add(tree, tile, fewer, 1);
        lemma_ancestor_rank(tree, rank, tile, fewer);
        reveal_with_fuel(TreeModel::ancestor, 2);
        let child = tree.ancestor(tile, fewer)->0;
        assert(tree.has(child) && tree.parent(child) == Some(id));
        lemma_placed_covers(tree, after, strip, origin, rank, top, tile, child, fewer);
        let children = tree.children(id);
        assert(children.contains(child));
        let at = children.index_of(child);
        assert(children[at] == child);
        assert(tree.below(tile, child));
        assert(tree.holds_tile(child));
        assert(children.len() > 0);
        assert(tree.data(id) is Group);
        assert forall|k: int|
            0 <= k < children.len() && tree.holds_tile(#[trigger] children[k]) implies after.data(
            children[k],
        ).geometry().nearby() by {
            let other = tree.children(id)[k];
            assert(tree.has(other) && tree.parent(other) == Some(id));
            lemma_placed_nearby(tree, after, strip, origin, rank, top, other);
        }
        lemma_bounds_cover(tree, after, children);
        assert(tree.holds_tile(children[at]));
    }
}

/// A group is as long on the strip as its tiles reach.
proof fn lemma_group_reaches(
    before: TreeModel,
    tree: TreeModel,
    after: TreeModel,
    ids: Map<NodeId, NodeId>,
    strip: Strip,
    origin: Point,
    id: NodeId,
)
    requires
        before.forest(),
        before.twinned(tree, ids),
        forall|node: NodeId| #[trigger]
            before.has(node) ==> before.data(node).stands_like(tree.data(ids[node])),
        before.spans(strip, origin),
        tree.regular(),
        tree.scrolled(after, strip, origin),
        before.has(id),
        before.data(id) is Group,
    ensures
        before.data(id).geometry().extent(before.data(id).spec_orientation()) <= after.data(
            ids[id],
        ).geometry().extent(before.data(id).spec_orientation()) <= EXACT_LENGTH,
{
    let orientation = before.data(id).spec_orientation();
    let length = before.data(id).geometry().extent(orientation) as int;
    lemma_branches(tree);
    let rank = choose|rank: Map<NodeId, nat>| tree.ranked(rank);
    let top = lemma_highest_rank(tree.nodes.dom(), rank);
    assert forall|tile: NodeId| #[trigger]
        tree.has(tile) && tree.data(tile).is_tile() implies strip.tile_area(
        tree.key(tile),
        origin,
    ).nearby() by {
        lemma_twin_of(before, tree, ids, tile);
        let source = choose|source: NodeId| #[trigger] before.has(source) && ids[source] == tile;
        assert(before.has(source));
        assert(before.data(source).stands_like(tree.data(tile)));
    }
    assert(before.reaches(id, length, strip, origin));
    let (first, last) = choose|first: NodeId, last: NodeId|
        #![trigger before.below(first, id), before.below(last, id)]
        before.has(first) && before.has(last) && before.data(first).is_tile() && before.data(
            last,
        ).is_tile() && before.below(first, id) && before.below(last, id) && length
            <= strip.tile_area(before.key(last), origin).far_edge(orientation) - strip.tile_area(
            before.key(first),
            origin,
        ).near_edge(orientation);
    lemma_twin_below(before, tree, ids, first, id);
    lemma_twin_below(before, tree, ids, last, id);
    lemma_twin_has(before, tree, ids, first);
    lemma_twin_has(before, tree, ids, last);
    assert(before.data(first).stands_like(tree.data(ids[first])));
    assert(before.data(last).stands_like(tree.data(ids[last])));
    let up = choose|steps: nat| #[trigger] tree.ancestor(ids[first], steps) == Some(ids[id]);
    lemma_placed_covers(tree, after, strip, origin, rank, top, ids[first], ids[id], up);
    let more = choose|steps: nat| #[trigger] tree.ancestor(ids[last], steps) == Some(ids[id]);
    lemma_placed_covers(tree, after, strip, origin, rank, top, ids[last], ids[id], more);
}

/// Groups that fit the strip are no shorter there.
#[verifier::rlimit(40)]
#[verifier::spinoff_prover]
proof fn lemma_switched_fits(
    layout: LayoutView,
    after: LayoutView,
    changes: Seq<ResizingChange>,
    configures: Seq<Configure>,
)
    requires
        layout.ready(),
        layout.newest().undropped(),
        layout.switches(after, TilingEngine::Scrolling, changes, configures),
        layout.fits_the_strip(),
    ensures
        layout.newest().fits_into(after.newest()),
{
    let engine = TilingEngine::Scrolling;
    let before = layout.newest();
    let (copy, tree, placed, grabbed) = choose|
        copy: TreeModel,
        tree: TreeModel,
        placed: TreeModel,
        grabbed: Option<u64>,
    |
        layout.newest().copied(copy) && #[trigger] copy.tidied(tree, grabbed)
            && #[trigger] layout.with_engine(engine, grabbed).positioned(
            after.scroll,
            tree,
            placed,
            configures,
            None,
        ) && changes == (match layout.live {
            Some(live) => copy.resizing_changes(live.tiles, false),
            None => seq![],
        }) && barriers(after.queue.trees, placed, blockers_of(layout.queue.trees)) && after == (
        LayoutView {
            queue: QueueView {
                trees: after.queue.trees,
                animation_start: None,
                retired: layout.queue.retired,
            },
            scroll: after.scroll,
            ..layout.with_engine(engine, grabbed)
        });
    let last = layout.queue.trees.len() - 1;
    assert(layout.queue.trees[last].tree.settled());
    lemma_sound(before);
    law_copies_are_alike(before, copy);
    lemma_copy_twin(before, copy);
    let first = choose|ids: Map<NodeId, NodeId>| #[trigger]
        before.renamed(copy, ids) && before.twinned(copy, ids);
    assert(copy.undropped()) by {
        assert forall|node: NodeId| #[trigger] copy.has(node) implies !(copy.data(
            node,
        ) matches DataView::Placeholder { type_, .. } && type_ is DropZone) by {
            lemma_twin_of(before, copy, first, node);
            let id = choose|id: NodeId| #[trigger] before.has(id) && first[id] == node;
            assert(before.has(id));
        }
    }
    lemma_tidied_stands(copy, tree, grabbed);
    lemma_shape_twin(before, copy, tree, first);
    assert(tree.settled()) by {
        assert forall|id: NodeId| #[trigger] tree.has(id) implies (tree.data(id) is Group
            <==> copy.data(id) is Group) && tree.data(id).room() == copy.data(id).room() by {
            assert(copy.data(id).stands_like(tree.data(id)));
        }
        lemma_same_rooms(copy, tree);
    }
    lemma_sound(tree);
    assert forall|id: NodeId| #[trigger] before.has(id) implies before.data(id).stands_like(
        tree.data(first[id]),
    ) by {
        lemma_twin_has(before, tree, first, id);
        assert(copy.data(first[id]) == before.data(id));
    }
    if tree.root is None {
        lemma_empty(before);
    } else {
        let order = choose|order: Seq<NodeId>| #[trigger]
            layout.scroll.arranged_over(
                after.scroll,
                tree,
                placed,
                configures,
                order,
                layout.usable,
                layout.gaps,
                None,
                false,
                None,
            );
        let origin = viewport_area(layout.usable, layout.gaps).loc;
        let strip = after.scroll.strip;
        assert(layout.scrolls_to(strip)) by {
            assert(copy.tidied(tree, grabbed));
            assert(visits(tree.nodes, seq![tree.root->0], order));
        }
        assert(before.spans(strip, origin));
        let end = after.queue.trees.len() - 1;
        assert(placed.copied(after.queue.trees[end].tree));
        lemma_shape_twin(before, tree, placed, first);
        lemma_copy_twin(placed, after.newest());
        let second = choose|second: Map<NodeId, NodeId>| #[trigger]
            placed.renamed(after.newest(), second) && placed.twinned(after.newest(), second);
        let ids = lemma_twin_chain(before, placed, after.newest(), first, second);
        assert forall|id: NodeId| #[trigger]
            before.has(id) && before.data(id) is Group implies ({
            let orientation = before.data(id).spec_orientation();
            before.data(id).geometry().extent(orientation) <= after.newest().data(
                after.newest().node_keyed(before.key(id)),
            ).geometry().extent(orientation) <= EXACT_LENGTH
        }) by {
            lemma_group_reaches(before, tree, placed, first, strip, origin, id);
            lemma_twin_keyed(before, after.newest(), ids, id);
            lemma_twin_has(before, placed, first, id);
            assert(placed.has(first[id]));
            assert(after.newest().data(ids[id]) == placed.data(first[id]));
        }
    }
}

/// Switching to the scrolling layout and back leaves every node where it was, if the tree was
/// laid out and every group will be at least as long on the strip as it is. How far the children
/// of a group that gets shorter there can be off says
/// `law_a_squeezed_group_is_nearly_restored`.
pub proof fn law_coming_back_restores_the_areas(
    layout: LayoutView,
    scrolling: LayoutView,
    back: LayoutView,
    changes: Seq<ResizingChange>,
    configures: Seq<Configure>,
    more_changes: Seq<ResizingChange>,
    more_configures: Seq<Configure>,
)
    requires
        layout.ready(),
        scrolling.ready(),
        layout.newest().undropped(),
        layout.newest().all_filled(),
        layout.newest().laid_out(
            layout.newest(),
            outer_zone(layout.usable, layout.gaps.0),
            layout.gaps.1,
        ),
        layout.fits_the_strip(),
        layout.switches(scrolling, TilingEngine::Scrolling, changes, configures),
        scrolling.switches(back, TilingEngine::Classic, more_changes, more_configures),
    ensures
        back.engine == TilingEngine::Classic,
        back.queue.animation_start is None,
        layout.newest().mirrored(back.newest()),
        forall|id: NodeId| #[trigger]
            layout.newest().has(id) ==> back.newest().has_key(layout.newest().key(id))
                && back.newest().data(
                back.newest().node_keyed(layout.newest().key(id)),
            ).geometry() == layout.newest().data(id).geometry(),
{
    lemma_switched_fits(layout, scrolling, changes, configures);
    lemma_coming_back(
        layout,
        scrolling,
        back,
        changes,
        configures,
        more_changes,
        more_configures,
    );
}

} // verus!
