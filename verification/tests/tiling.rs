//! The tiling layout of a workspace.

use id_tree::{InsertBehavior, Node, NodeId, Tree};

use scroll_tiling::actions::{Direction, FocusDirection, ResizeDirection};
use scroll_tiling::columns::{Column, ColumnDropTarget, ColumnModel, ColumnResizeAnchor, TileMove};
use scroll_tiling::config::TilingEngine;
use scroll_tiling::copies::duplicate;
use scroll_tiling::data::{Data, PlaceholderType};
use scroll_tiling::focus::FocusResult;
use scroll_tiling::geometry::{Orientation, Rectangle, Size};
use scroll_tiling::layout::{Hover, ScrollingResizeTarget, TilingLayout};
use scroll_tiling::queue::{EasedArea, TreeQueue, WaitState, ANIMATION_DURATION};
use scroll_tiling::rendering::{tiled_window_has_animated_width, tiled_window_render_max_size};
use scroll_tiling::scrolling::{FocusNavigation, ScrollingLayout};
use scroll_tiling::strip_actions::live_resize_tile_is_pending;
use scroll_tiling::surgery::unmap_internal;
use scroll_tiling::tree::TreeNode;
use scroll_tiling::units::Float64;
use scroll_tiling::zones::{scrolling_drop_target, scrolling_edge_focus_result, TargetZone};

/// The key of the root of the trees below.
const ROOT: u64 = 100;

fn rect(x: i32, y: i32, w: i32, h: i32) -> Rectangle {
    Rectangle::new(x, y, w, h)
}

fn number(value: f64) -> Float64 {
    Float64 { bits: value.to_bits() }
}

fn layout_of(w: i32, h: i32, tiling_engine: TilingEngine) -> TilingLayout {
    TilingLayout::new(rect(0, 0, w, h), Size { w, h }, (0, 8), tiling_engine)
}

fn empty_layout(tiling_engine: TilingEngine) -> TilingLayout {
    layout_of(0, 0, tiling_engine)
}

fn sized_scrolling_layout() -> TilingLayout {
    layout_of(1_200, 800, TilingEngine::Scrolling)
}

fn group(sizes: Vec<i32>, last_geometry: Rectangle) -> Node<TreeNode> {
    Node::new(TreeNode {
        key: ROOT,
        data: Data::Group {
            orientation: Orientation::Vertical,
            sizes,
            last_geometry,
            pill_indicator: None,
        },
    })
}

fn placeholder(key: u64, last_geometry: Rectangle) -> Node<TreeNode> {
    Node::new(TreeNode {
        key,
        data: Data::Placeholder { last_geometry, type_: PlaceholderType::GrabbedWindow },
    })
}

/// A group of placeholders with the keys 1, 2 and so on.
fn row_of(sizes: Vec<i32>, count: u64, geometry: Rectangle) -> Tree<TreeNode> {
    let mut tree = Tree::new();
    let root = tree
        .insert(group(sizes, geometry), InsertBehavior::AsRoot)
        .unwrap();
    for key in 1..=count {
        tree.insert(placeholder(key, geometry), InsertBehavior::UnderNode(&root))
            .unwrap();
    }
    tree
}

fn nodes(tree: &Tree<TreeNode>) -> Vec<NodeId> {
    match tree.root_node_id() {
        Some(root) => tree.traverse_pre_order_ids(root).unwrap().collect(),
        None => Vec::new(),
    }
}

fn keys(tree: &Tree<TreeNode>) -> Vec<u64> {
    nodes(tree)
        .iter()
        .map(|id| tree.get(id).unwrap().data().key)
        .collect()
}

fn find(tree: &Tree<TreeNode>, key: u64) -> Option<NodeId> {
    nodes(tree)
        .into_iter()
        .find(|id| tree.get(id).unwrap().data().key == key)
}

fn geometry_of(tree: &Tree<TreeNode>, key: u64) -> Rectangle {
    let id = find(tree, key).unwrap();
    tree.get(&id).unwrap().data().data.geometry()
}

fn set_geometry(tree: &mut Tree<TreeNode>, key: u64, geometry: Rectangle) {
    let id = find(tree, key).unwrap();
    tree.get_mut(&id)
        .unwrap()
        .data_mut()
        .data
        .update_geometry(geometry);
}

/// Adds a placeholder to the root group, without room for it.
fn insert(tree: &mut Tree<TreeNode>, key: u64, geometry: Rectangle) -> NodeId {
    let root = tree.root_node_id().unwrap().clone();
    tree.insert(placeholder(key, geometry), InsertBehavior::UnderNode(&root))
        .unwrap()
}

/// Makes room in the root group.
fn add_window(tree: &mut Tree<TreeNode>, place: usize) {
    let root = tree.root_node_id().unwrap().clone();
    tree.get_mut(&root).unwrap().data_mut().data.add_window(place);
}

/// Arranges a tree and makes it all that is in the queue.
fn show(layout: &mut TilingLayout, mut tree: Tree<TreeNode>) {
    layout.update_positions_for(&mut tree, None);
    layout.queue.trees.clear();
    layout.queue.push_tree(tree, 0, None);
}

/// Arranges the newest tree again and sets out for it.
fn animate(layout: &mut TilingLayout) {
    let mut tree = duplicate(layout.tree());
    layout.update_positions_for(&mut tree, None);
    push_scrolling_animation(layout, tree);
}

fn push_scrolling_animation(layout: &mut TilingLayout, tree: Tree<TreeNode>) {
    layout
        .queue
        .push_retargetable_tree(tree, ANIMATION_DURATION, None, &Vec::new());
}

fn last_duration(layout: &TilingLayout) -> u64 {
    layout.queue.trees.last().unwrap().duration
}

fn column_tiles(layout: &TilingLayout) -> Vec<Vec<u64>> {
    layout
        .scrolling
        .model
        .columns
        .iter()
        .map(|column| column.tiles.clone())
        .collect()
}

fn column_order(layout: &TilingLayout) -> Vec<u64> {
    column_tiles(layout).iter().map(|tiles| tiles[0]).collect()
}

fn column_width_fractions(layout: &TilingLayout) -> Vec<f64> {
    layout
        .scrolling
        .model
        .columns
        .iter()
        .map(|column| f64::from(column.width.num) / f64::from(column.width.den))
        .collect()
}

fn column_widths(layout: &TilingLayout) -> Vec<i32> {
    (0..layout.scrolling.model.columns.len())
        .map(|column| layout.scrolling.model.column_width(column))
        .collect()
}

fn resize_column(
    layout: &mut TilingLayout,
    tile: u64,
    delta: i32,
    anchor: ColumnResizeAnchor,
) -> Option<bool> {
    layout
        .resize_scrolling_column(tile, delta, anchor, &Vec::new())
        .map(|change| change.changed)
}

fn resize_rows(layout: &mut TilingLayout, upper: u64, lower: u64, delta: i32) -> Option<bool> {
    layout
        .resize_scrolling_rows(upper, lower, delta, &Vec::new())
        .map(|change| change.changed)
}

fn cycle_width(layout: &mut TilingLayout, tile: u64, direction: ResizeDirection) -> bool {
    layout
        .cycle_scrolling_column_width_for(tile, direction, &Vec::new())
        .is_some()
}

fn pan(layout: &mut TilingLayout, delta: f64) -> bool {
    layout
        .pan_scrolling_viewport(number(delta), &Vec::new())
        .0
}

/// Nothing has to be waited for.
fn done() -> WaitState {
    WaitState { processed: true, ready: true }
}

fn update_animation_state(layout: &mut TilingLayout, now: u64) {
    let waits = vec![done(); layout.queue.trees.len() - 1];
    layout.update_animation_state(now, done(), &waits);
}

#[test]
fn empty_layout_uses_requested_engine() {
    assert_eq!(
        empty_layout(TilingEngine::Classic).mode(),
        TilingEngine::Classic
    );
    assert_eq!(
        empty_layout(TilingEngine::Scrolling).mode(),
        TilingEngine::Scrolling
    );
}

#[test]
fn confirmed_new_toplevel_is_reconciled_after_the_focused_scrolling_column() {
    let geometry = rect(0, 0, 1_200, 800);
    let mut layout = sized_scrolling_layout();
    let mut tree = row_of(vec![400; 3], 3, geometry);
    let (first, second, third) = (1, 2, 3);
    layout.update_positions_for(&mut tree, None);

    assert!(layout.scrolling.begin_drag(second));
    layout
        .scrolling
        .finish_drag(Some(second), ColumnDropTarget::Above(first));
    assert_eq!(
        column_tiles(&layout),
        [vec![second, first], vec![third]]
    );

    let root = tree.root_node_id().unwrap().clone();
    if let Data::Group { sizes, .. } = &mut tree.get_mut(&root).unwrap().data_mut().data {
        sizes.push(400);
    }
    let new = 4;
    insert(&mut tree, new, geometry);
    layout.scrolling.insert_new_toplevel(new, Some(first));
    layout.update_positions_for(&mut tree, None);

    assert_eq!(
        column_tiles(&layout),
        [vec![second, first], vec![new], vec![third]]
    );
    assert_eq!(column_width_fractions(&layout), [0.66, 0.66, 0.66]);
}

#[test]
fn direct_geometry_updates_coalesce_before_presentation() {
    let mut layout = empty_layout(TilingEngine::Scrolling);

    layout.queue.push_direct_tree(Tree::new(), Some(1));
    layout.queue.push_direct_tree(Tree::new(), Some(2));

    assert_eq!(layout.queue.trees.len(), 2);
    assert_eq!(last_duration(&layout), 0);
    assert!(layout.queue.trees.last().unwrap().blocker.is_some());
    assert!(!layout.queue.retired.is_empty());
}

#[test]
fn scrolling_animations_retarget_from_current_visual_geometry() {
    let mut source = Tree::new();
    let tile = 1;
    source
        .insert(placeholder(tile, rect(0, 0, 600, 800)), InsertBehavior::AsRoot)
        .unwrap();
    let mut target = duplicate(&source);
    set_geometry(&mut target, tile, rect(100, 0, 600, 800));

    let mut queue = TreeQueue { trees: Vec::new(), animation_start: None, retired: Vec::new() };
    queue.push_tree(source, 0, None);
    queue.push_retargetable_tree(target, ANIMATION_DURATION, None, &Vec::new());
    queue.animation_start = Some(0);

    let mut final_target = duplicate(&queue.trees.last().unwrap().tree);
    set_geometry(&mut final_target, tile, rect(200, 0, 600, 800));
    // Halfway there.
    let moves = queue.visual_moves();
    assert_eq!(moves.len(), 1);
    let eased = vec![EasedArea {
        key: moves[0].key,
        geometry: rect((moves[0].from.loc.x + moves[0].to.loc.x) / 2, 0, 600, 800),
    }];
    queue.push_retargetable_tree(final_target, ANIMATION_DURATION, None, &eased);

    assert_eq!(queue.trees.len(), 2);
    assert_eq!(queue.trees.last().unwrap().duration, ANIMATION_DURATION);
    let current_x = geometry_of(&queue.trees[0].tree, tile).loc.x;
    assert!((0..=100).contains(&current_x));
    assert_eq!(current_x, 50);
    assert_eq!(
        geometry_of(&queue.trees.last().unwrap().tree, tile).loc.x,
        200
    );
}

#[test]
fn animated_tiled_elements_are_constrained_once_from_target_geometry() {
    let widening_target = rect(0, 0, 1_000, 390);
    let widening_frame = rect(0, 0, 830, 390);
    let widening_source = tiled_window_render_max_size(
        true,
        false,
        true,
        false,
        widening_frame,
        widening_target,
        widening_target.size,
    )
    .unwrap();
    assert_eq!(widening_source, widening_target.size);
    assert_eq!(
        (f64::from(widening_source.w) * f64::from(widening_frame.size.w)
            / f64::from(widening_target.size.w))
        .round() as i32,
        widening_frame.size.w
    );

    let narrowing_target = rect(0, 0, 660, 390);
    let narrowing_frame = rect(0, 0, 830, 390);
    let narrowing_source = tiled_window_render_max_size(
        true,
        false,
        true,
        false,
        narrowing_frame,
        narrowing_target,
        narrowing_target.size,
    )
    .unwrap();
    assert_eq!(narrowing_source, narrowing_target.size);
    assert_eq!(
        (f64::from(narrowing_source.w) * f64::from(narrowing_frame.size.w)
            / f64::from(narrowing_target.size.w))
        .round() as i32,
        narrowing_frame.size.w
    );
    assert_eq!(narrowing_source.h, narrowing_frame.size.h);

    assert_eq!(
        tiled_window_render_max_size(
            true,
            false,
            false,
            false,
            widening_frame,
            widening_target,
            widening_target.size,
        ),
        Some(widening_frame.size)
    );
    assert_eq!(
        tiled_window_render_max_size(
            true,
            true,
            true,
            false,
            widening_frame,
            widening_target,
            widening_target.size,
        ),
        None
    );

    let vertical_frame = rect(0, 0, 1_000, 300);
    assert_eq!(
        tiled_window_render_max_size(
            true,
            false,
            true,
            false,
            vertical_frame,
            widening_target,
            widening_target.size,
        ),
        Some(vertical_frame.size)
    );
    assert!(!tiled_window_has_animated_width(
        true,
        false,
        true,
        vertical_frame,
        widening_target
    ));
}

#[test]
fn classic_width_animations_preserve_the_upstream_constraint_source() {
    let frame = rect(50, 0, 830, 390);
    for width in [1_000, 660] {
        let target = rect(0, 0, width, 390);
        for is_scrolling in [false, true] {
            assert_eq!(
                tiled_window_has_animated_width(is_scrolling, false, true, frame, target),
                is_scrolling,
            );
            assert_eq!(
                tiled_window_render_max_size(
                    is_scrolling,
                    false,
                    true,
                    false,
                    frame,
                    target,
                    target.size,
                ),
                Some(if is_scrolling { target.size } else { frame.size }),
            );
            // Neither overview nor a steady frame may take this path.
            assert!(!tiled_window_has_animated_width(
                is_scrolling,
                true,
                true,
                frame,
                target
            ));
            assert!(!tiled_window_has_animated_width(
                is_scrolling,
                false,
                false,
                frame,
                target
            ));
            assert_eq!(
                tiled_window_render_max_size(
                    is_scrolling,
                    true,
                    true,
                    false,
                    frame,
                    target,
                    target.size,
                ),
                None,
            );
            assert_eq!(
                tiled_window_render_max_size(
                    is_scrolling,
                    false,
                    false,
                    false,
                    frame,
                    target,
                    target.size,
                ),
                Some(frame.size),
            );
        }
    }
}

#[test]
fn live_resize_uses_the_committed_buffer_as_its_single_constraint_source() {
    let widening_tile = rect(100, 0, 900, 390);
    let narrowing_tile = rect(100, 0, 500, 390);
    let committed = Size { w: 660, h: 390 };

    for tile in [widening_tile, narrowing_tile] {
        let source =
            tiled_window_render_max_size(true, false, false, true, tile, tile, committed).unwrap();
        assert_eq!(source, committed);

        // The committed content is stretched or clipped exactly once to
        // the current tile, so its resulting edge is the tile edge.
        let visible_width =
            (f64::from(source.w) * f64::from(tile.size.w) / f64::from(source.w)).round() as i32;
        assert_eq!(visible_width, tile.size.w);
        assert_eq!(
            tile.loc.x.saturating_add(visible_width),
            tile.loc.x + tile.size.w
        );
    }

    let taller_upper = rect(100, 0, 660, 500);
    let shorter_lower = rect(100, 510, 660, 280);
    for tile in [taller_upper, shorter_lower] {
        let source =
            tiled_window_render_max_size(true, false, false, true, tile, tile, committed).unwrap();
        assert_eq!(source, committed);
        let visible_height =
            (f64::from(source.h) * f64::from(tile.size.h) / f64::from(source.h)).round() as i32;
        assert_eq!(visible_height, tile.size.h);
        assert_eq!(
            tile.loc.y.saturating_add(visible_height),
            tile.loc.y + tile.size.h
        );
    }

    assert_eq!(
        tiled_window_render_max_size(
            true,
            true,
            false,
            true,
            widening_tile,
            widening_tile,
            committed,
        ),
        None
    );

    assert!(live_resize_tile_is_pending(false, true));
    assert!(live_resize_tile_is_pending(true, true));
    assert!(!live_resize_tile_is_pending(true, false));
}

#[test]
fn repeated_scrolling_animations_remain_bounded_and_preserve_blockers() {
    let mut queue = TreeQueue { trees: Vec::new(), animation_start: None, retired: Vec::new() };
    queue.push_tree(Tree::new(), 0, None);
    queue.push_retargetable_tree(Tree::new(), ANIMATION_DURATION, Some(1), &Vec::new());

    for _ in 0..32 {
        queue.push_retargetable_tree(Tree::new(), ANIMATION_DURATION, None, &Vec::new());
        assert_eq!(queue.trees.len(), 2);
    }

    assert!(!queue.retired.is_empty());
    assert_eq!(queue.trees.last().unwrap().duration, ANIMATION_DURATION);
}

#[test]
fn direct_input_interrupts_scrolling_animation_and_stays_immediate() {
    let mut queue = TreeQueue { trees: Vec::new(), animation_start: None, retired: Vec::new() };
    queue.push_tree(Tree::new(), 0, None);
    queue.push_retargetable_tree(Tree::new(), ANIMATION_DURATION, None, &Vec::new());
    queue.animation_start = Some(0);

    let direct = queue.prepare_direct_tree(&Vec::new());
    queue.push_direct_tree(direct, None);

    assert!(queue.animation_start.is_none());
    assert_eq!(queue.trees.len(), 2);
    assert_eq!(queue.trees.last().unwrap().duration, 0);
}

#[test]
fn interrupt_drops_nodes_confined_to_chained_trees() {
    // interrupt() rebuilds the queue from the visual tree, so a node inserted
    // only into a plain push_tree entry chained behind an animation disappears
    // from the authoritative tree. unmap_as_placeholder relies on this never
    // happening for newly mapped windows.
    let geometry = rect(0, 0, 1_200, 800);
    let mut queue = TreeQueue { trees: Vec::new(), animation_start: None, retired: Vec::new() };
    let tree = row_of(vec![600, 600], 1, geometry);
    let first = 1;
    queue.push_tree(duplicate(&tree), 0, None);
    queue.push_retargetable_tree(tree, ANIMATION_DURATION, None, &Vec::new());
    queue.animation_start = Some(0);

    // A newly mapped window lands only in the chained third tree.
    let mut newer = duplicate(&queue.trees.last().unwrap().tree);
    let chained = 2;
    insert(&mut newer, chained, geometry);
    assert_ne!(chained, first);
    queue.push_tree(newer, ANIMATION_DURATION, None);
    assert_eq!(queue.trees.len(), 3);
    let visual = queue.prepare_direct_tree(&Vec::new());
    // interrupt() collapses the queue to the single visual tree.
    assert_eq!(queue.trees.len(), 1);
    assert!(find(&visual, chained).is_none());
    assert!(find(&queue.trees.last().unwrap().tree, chained).is_none());
}

#[test]
fn retargetable_pushes_keep_an_animating_scrolling_queue_bounded() {
    // The map/remap/orientation paths use retargetable pushes in Scrolling
    // mode, so a window mapped during an animation can never end up
    // confined behind the visual source (see the test above).
    let mut queue = TreeQueue { trees: Vec::new(), animation_start: None, retired: Vec::new() };
    queue.push_tree(Tree::new(), 0, None);
    queue.push_retargetable_tree(Tree::new(), ANIMATION_DURATION, None, &Vec::new());
    queue.animation_start = Some(0);

    queue.push_retargetable_tree(Tree::new(), ANIMATION_DURATION, None, &Vec::new());

    assert_eq!(queue.trees.len(), 2);
    assert!(queue.animation_start.is_none());
}

#[test]
fn no_op_scrolling_pan_leaves_a_pending_animation_intact() {
    let geometry = rect(0, 0, 1_200, 800);
    let mut layout = sized_scrolling_layout();
    show(&mut layout, row_of(vec![400, 400, 400], 3, geometry));

    // Pan to the right clamp edge, then leave an animation pending.
    assert!(pan(&mut layout, 10_000.0));
    let newest = duplicate(layout.tree());
    push_scrolling_animation(&mut layout, newest);
    layout.queue.animation_start = Some(0);
    assert_eq!(layout.queue.trees.len(), 2);

    // A pan already clamped at the edge is a no-op and must not
    // interrupt the pending animation.
    assert!(!pan(&mut layout, 500.0));
    assert_eq!(layout.queue.trees.len(), 2);
    assert!(layout.queue.animation_start.is_some());

    // A productive pan still applies directly and interrupts.
    assert!(pan(&mut layout, -200.0));
    assert!(layout.queue.animation_start.is_none());
}

#[test]
fn scrolling_focus_and_center_viewport_changes_are_animated() {
    let geometry = rect(0, 0, 1_200, 800);
    let mut layout = sized_scrolling_layout();
    show(&mut layout, row_of(vec![400, 400, 400], 3, geometry));
    let (first, third) = (1, 3);

    assert!(!layout.scrolling.ensure_visible(first));
    assert_eq!(layout.queue.trees.len(), 1);
    assert!(layout.scrolling.ensure_visible(third));
    let mut focused = duplicate(layout.tree());
    layout.scrolling.update_positions_ensuring(
        &mut focused,
        layout.usable,
        layout.gaps,
        Some(third),
    );
    push_scrolling_animation(&mut layout, focused);
    assert_eq!(last_duration(&layout), ANIMATION_DURATION);

    assert!(layout.scrolling.request_center(third));
    animate(&mut layout);
    assert_eq!(layout.queue.trees.len(), 2);
    assert_eq!(last_duration(&layout), ANIMATION_DURATION);
}

#[test]
fn scrolling_vertical_focus_edges_allow_workspace_fallback() {
    assert!(matches!(
        scrolling_edge_focus_result(FocusDirection::Up),
        FocusResult::Unhandled
    ));
    assert!(matches!(
        scrolling_edge_focus_result(FocusDirection::Down),
        FocusResult::Unhandled
    ));
    assert!(matches!(
        scrolling_edge_focus_result(FocusDirection::Left),
        FocusResult::Handled
    ));
    assert!(matches!(
        scrolling_edge_focus_result(FocusDirection::Right),
        FocusResult::Handled
    ));
}

#[test]
fn empty_layout_mode_transition_replaces_pending_queue_state() {
    let mut layout = empty_layout(TilingEngine::Classic);
    let mut transient_tree = Tree::new();
    transient_tree
        .insert(
            Node::new(TreeNode {
                key: 1,
                data: Data::Placeholder {
                    last_geometry: rect(0, 0, 100, 100),
                    type_: PlaceholderType::DropZone,
                },
            }),
            InsertBehavior::AsRoot,
        )
        .unwrap();
    layout.queue.push_tree(transient_tree, ANIMATION_DURATION, None);
    layout.queue.animation_start = Some(0);
    layout.last_overview_hover = Some(Hover { since: None, zone: TargetZone::Initial });

    layout.set_mode(TilingEngine::Scrolling);

    assert_eq!(layout.mode(), TilingEngine::Scrolling);
    assert_eq!(layout.queue.trees.len(), 1);
    assert_eq!(layout.queue.trees[0].duration, 0);
    assert!(layout.queue.trees[0].blocker.is_none());
    assert!(layout.queue.animation_start.is_none());
    assert!(layout.last_overview_hover.is_none());
    assert!(layout.tree().root_node_id().is_none());

    layout.set_mode(TilingEngine::Classic);
    assert_eq!(layout.mode(), TilingEngine::Classic);
    assert_eq!(layout.queue.trees.len(), 1);
    assert!(layout.tree().root_node_id().is_none());
}

#[test]
fn mode_transition_keeps_grabbed_window_placeholder() {
    let mut layout = empty_layout(TilingEngine::Classic);
    let grabbed = 1;
    let mut grabbed_tree = Tree::new();
    grabbed_tree
        .insert(
            placeholder(grabbed, rect(0, 0, 100, 100)),
            InsertBehavior::AsRoot,
        )
        .unwrap();
    layout.queue.push_tree(grabbed_tree, 0, None);

    layout.set_mode(TilingEngine::Scrolling);

    assert_eq!(keys(layout.tree()), [grabbed]);
    assert_eq!(
        layout.last_overview_hover,
        Some(Hover { since: None, zone: TargetZone::InitialPlaceholder(grabbed) })
    );
    assert_eq!(
        layout
            .scrolling
            .next_focus(layout.tree(), grabbed, FocusDirection::Left),
        FocusNavigation::Edge
    );
    assert_ne!(geometry_of(layout.tree(), grabbed), rect(0, 0, 100, 100));

    layout.set_mode(TilingEngine::Classic);
    assert_eq!(layout.mode(), TilingEngine::Classic);
    assert_eq!(keys(layout.tree()), [grabbed]);
}

#[test]
fn non_empty_round_trip_preserves_nodes_and_scrolling_order() {
    let geometry = rect(0, 0, 1_200, 800);
    let mut layout = empty_layout(TilingEngine::Scrolling);
    show(&mut layout, row_of(vec![400, 400, 400], 3, geometry));
    let (first, second, third, fourth) = (1, 2, 3, 4);

    assert!(layout.scrolling.move_column(second, Direction::Right));
    assert_eq!(column_order(&layout), [first, third, second]);
    let initial_preorder = keys(layout.tree());

    layout.set_mode(TilingEngine::Classic);

    let mut classic_tree = duplicate(layout.tree());
    insert(&mut classic_tree, fourth, geometry);
    add_window(&mut classic_tree, 3);
    layout.update_positions_for(&mut classic_tree, None);
    layout.queue.push_tree(classic_tree, 0, None);
    layout.set_mode(TilingEngine::Scrolling);

    let final_preorder = keys(layout.tree());
    assert_eq!(&final_preorder[..initial_preorder.len()], initial_preorder);
    assert_eq!(final_preorder.last(), Some(&fourth));
    assert_eq!(column_order(&layout), [first, third, second, fourth]);
}

#[test]
fn scrolling_pointer_drop_commits_preview_node_replacement_at_target() {
    let geometry = rect(0, 0, 1_200, 800);
    let mut layout = empty_layout(TilingEngine::Scrolling);
    show(&mut layout, row_of(vec![400, 400, 400], 3, geometry));
    let (first, second, third, replacement) = (1, 2, 3, 4);

    assert!(layout.scrolling.begin_drag(third));
    let mut preview = duplicate(layout.tree());
    let dragged = find(&preview, third).unwrap();
    unmap_internal(&mut preview, &dragged);
    show(&mut layout, preview);
    assert_eq!(column_order(&layout), [first, second]);

    let mut dropped = duplicate(layout.tree());
    let replaced = insert(&mut dropped, replacement, geometry);
    add_window(&mut dropped, 1);
    dropped.make_nth_sibling(&replaced, 1).unwrap();
    let target = scrolling_drop_target(
        &dropped,
        Some(TargetZone::WindowSplit(second, Direction::Left)),
    );
    assert_eq!(target, ColumnDropTarget::Before(second));
    assert_eq!(
        scrolling_drop_target(
            &dropped,
            Some(TargetZone::GroupEdge(ROOT, Direction::Left)),
        ),
        ColumnDropTarget::Before(first)
    );
    assert_eq!(
        scrolling_drop_target(&dropped, Some(TargetZone::GroupInterior(ROOT, 0))),
        ColumnDropTarget::After(first)
    );

    layout.scrolling.finish_drag(Some(replacement), target);
    layout.update_positions_for(&mut dropped, None);
    push_scrolling_animation(&mut layout, dropped);
    assert_eq!(last_duration(&layout), ANIMATION_DURATION);

    assert_eq!(column_order(&layout), [first, replacement, second]);
}

#[test]
fn scrolling_pointer_drop_inserts_replacement_above_target_tile() {
    let geometry = rect(0, 0, 1_200, 800);
    let mut layout = empty_layout(TilingEngine::Scrolling);
    show(&mut layout, row_of(vec![400, 400, 400], 3, geometry));
    let (first, second, third, replacement) = (1, 2, 3, 4);

    assert!(layout.scrolling.begin_drag(third));
    let mut preview = duplicate(layout.tree());
    let dragged = find(&preview, third).unwrap();
    unmap_internal(&mut preview, &dragged);
    show(&mut layout, preview);

    let mut dropped = duplicate(layout.tree());
    insert(&mut dropped, replacement, geometry);
    let target = scrolling_drop_target(
        &dropped,
        Some(TargetZone::WindowSplit(second, Direction::Up)),
    );
    assert_eq!(target, ColumnDropTarget::Above(second));
    assert_eq!(
        scrolling_drop_target(
            &dropped,
            Some(TargetZone::WindowSplit(second, Direction::Down)),
        ),
        ColumnDropTarget::Below(second)
    );

    layout.scrolling.finish_drag(Some(replacement), target);
    layout.update_positions_for(&mut dropped, None);
    push_scrolling_animation(&mut layout, dropped);
    assert_eq!(last_duration(&layout), ANIMATION_DURATION);

    assert_eq!(
        column_tiles(&layout),
        vec![vec![first], vec![replacement, second]]
    );
}

#[test]
fn scrolling_directional_focus_never_targets_grabbed_placeholders() {
    let geometry = rect(0, 0, 1_200, 800);
    let mut layout = empty_layout(TilingEngine::Scrolling);
    show(&mut layout, row_of(vec![600, 600], 2, geometry));
    let (first, second) = (1, 2);

    assert_eq!(
        layout
            .scrolling
            .next_focus(layout.tree(), first, FocusDirection::Left),
        FocusNavigation::Edge
    );
    assert_eq!(
        layout
            .scrolling
            .next_focus(layout.tree(), first, FocusDirection::Right),
        FocusNavigation::Unavailable
    );

    assert!(layout.scrolling.begin_drag(second));
    layout
        .scrolling
        .finish_drag(Some(second), ColumnDropTarget::Above(first));
    assert_eq!(
        layout
            .scrolling
            .next_focus(layout.tree(), second, FocusDirection::Up),
        FocusNavigation::Edge
    );
    assert_eq!(
        layout
            .scrolling
            .next_focus(layout.tree(), second, FocusDirection::Down),
        FocusNavigation::Unavailable
    );
}

#[test]
fn scrolling_keyboard_actions_merge_extract_and_resize_columns() {
    let geometry = rect(0, 0, 1_200, 800);
    let mut layout = empty_layout(TilingEngine::Scrolling);
    show(&mut layout, row_of(vec![400, 400, 400], 3, geometry));
    let (first, second, third) = (1, 2, 3);

    assert_eq!(
        layout.scrolling.move_tile_vertical(second, Direction::Down),
        TileMove::Moved
    );
    assert_eq!(column_tiles(&layout), vec![vec![first, second], vec![third]]);
    animate(&mut layout);
    assert_eq!(last_duration(&layout), ANIMATION_DURATION);
    assert_eq!(
        layout.scrolling.move_tile_vertical(second, Direction::Down),
        TileMove::Edge
    );

    assert!(layout.scrolling.move_column(first, Direction::Left));
    assert_eq!(
        column_tiles(&layout),
        vec![vec![first], vec![second], vec![third]]
    );
    animate(&mut layout);
    assert_eq!(layout.queue.trees.len(), 2);
    assert_eq!(last_duration(&layout), ANIMATION_DURATION);

    assert!(cycle_width(&mut layout, second, ResizeDirection::Outwards));
    assert_eq!(column_width_fractions(&layout), [0.66, 1.0, 0.66]);
    assert_eq!(layout.queue.trees.len(), 2);
    assert_eq!(last_duration(&layout), ANIMATION_DURATION);
    assert!(cycle_width(&mut layout, second, ResizeDirection::Inwards));
    assert_eq!(column_width_fractions(&layout), [0.66, 0.66, 0.66]);
    assert_eq!(layout.queue.trees.len(), 2);
    assert_eq!(last_duration(&layout), ANIMATION_DURATION);

    let queued = layout.queue.trees.len();
    assert!(!cycle_width(&mut layout, ROOT, ResizeDirection::Outwards));
    assert_eq!(layout.queue.trees.len(), queued);

    assert_eq!(
        resize_column(&mut layout, second, 1, ColumnResizeAnchor::Left),
        Some(true)
    );
    assert_eq!(column_width_fractions(&layout), [0.66, 1.0, 0.66]);
    assert_eq!(layout.queue.trees.len(), 2);
    assert_eq!(last_duration(&layout), 0);

    let mut classic = empty_layout(TilingEngine::Classic);
    assert!(!cycle_width(&mut classic, second, ResizeDirection::Outwards));
    assert_eq!(classic.queue.trees.len(), 1);
    assert_eq!(last_duration(&classic), 0);
}

#[test]
fn scrolling_mouse_resize_keeps_the_opposite_column_edge_fixed() {
    let geometry = rect(0, 0, 1_200, 800);
    let mut layout = sized_scrolling_layout();
    show(&mut layout, row_of(vec![400, 400, 400], 3, geometry));
    let (first, second, third) = (1, 2, 3);

    assert_eq!(
        layout.scrolling.move_tile_vertical(second, Direction::Down),
        TileMove::Moved
    );
    let stacked = duplicate(layout.tree());
    show(&mut layout, stacked);
    assert_eq!(column_tiles(&layout), [vec![first, second], vec![third]]);

    let initial = geometry_of(layout.tree(), second);
    let initial_third = geometry_of(layout.tree(), third);
    let fixed_right = initial.loc.x.saturating_add(initial.size.w);
    assert_eq!(
        resize_column(&mut layout, second, 100, ColumnResizeAnchor::Right),
        Some(true)
    );
    let right_anchored = geometry_of(layout.tree(), second);
    let stacked_peer = geometry_of(layout.tree(), first);
    let unrelated = geometry_of(layout.tree(), third);
    assert_eq!(
        right_anchored.loc.x.saturating_add(right_anchored.size.w),
        fixed_right
    );
    assert_eq!(right_anchored.loc.x, initial.loc.x - 100);
    assert_eq!(stacked_peer.loc.x, right_anchored.loc.x);
    assert_eq!(stacked_peer.size.w, right_anchored.size.w);
    assert_eq!(unrelated.loc.x, initial_third.loc.x);
    assert_eq!(last_duration(&layout), 0);
    assert!(layout.queue.trees.last().unwrap().blocker.is_none());
    assert!(layout.scrolling_live_resize.as_ref().is_some_and(|resize| {
        !resize.finishing
            && matches!(
                resize.target,
                ScrollingResizeTarget::Column { tile, .. } if tile == second
            )
    }));

    let fixed_left = right_anchored.loc.x;
    assert_eq!(
        resize_column(&mut layout, second, -50, ColumnResizeAnchor::Left),
        Some(true)
    );
    let left_anchored = geometry_of(layout.tree(), second);
    assert_eq!(left_anchored.loc.x, fixed_left);
    assert_eq!(left_anchored.size.w, right_anchored.size.w - 50);

    for _ in 0..64 {
        assert_eq!(
            resize_column(&mut layout, second, 1, ColumnResizeAnchor::Left),
            Some(true)
        );
        assert_eq!(
            resize_column(&mut layout, second, -1, ColumnResizeAnchor::Left),
            Some(true)
        );
        assert!(layout.queue.trees.len() <= 2);
        assert_eq!(last_duration(&layout), 0);
        assert!(layout.queue.trees.last().unwrap().blocker.is_none());
    }
    assert_eq!(geometry_of(layout.tree(), second), left_anchored);

    layout.finish_scrolling_resize(&Vec::new());
    assert_eq!(geometry_of(layout.tree(), second), left_anchored);
    assert_eq!(last_duration(&layout), 0);
    assert!(layout.queue.trees.last().unwrap().blocker.is_none());
    assert!(layout
        .scrolling_live_resize
        .as_ref()
        .is_some_and(|resize| resize.finishing));
    update_animation_state(&mut layout, 0);
    assert!(layout.scrolling_live_resize.is_none());
}

#[test]
fn scrolling_vertical_resize_is_direct_bounded_and_changes_only_the_pair() {
    let geometry = rect(0, 0, 1_200, 1_200);
    let mut layout = layout_of(1_200, 1_200, TilingEngine::Scrolling);
    show(&mut layout, row_of(vec![400, 400, 400], 3, geometry));
    let (first, second, third) = (1, 2, 3);

    assert_eq!(
        layout.scrolling.move_tile_vertical(second, Direction::Down),
        TileMove::Moved
    );
    assert_eq!(
        layout.scrolling.move_tile_vertical(third, Direction::Down),
        TileMove::Moved
    );
    let stacked = duplicate(layout.tree());
    show(&mut layout, stacked);
    assert_eq!(column_tiles(&layout), [vec![first, second, third]]);

    let initial_upper = geometry_of(layout.tree(), first);
    let initial_lower = geometry_of(layout.tree(), second);
    let initial_third = geometry_of(layout.tree(), third);
    let gap = initial_lower.loc.y - initial_upper.loc.y.saturating_add(initial_upper.size.h);
    let fixed_pair_top = initial_upper.loc.y;
    let fixed_pair_bottom = initial_lower.loc.y.saturating_add(initial_lower.size.h);

    assert_eq!(resize_rows(&mut layout, first, second, 50), Some(true));
    let resized_upper = geometry_of(layout.tree(), first);
    let resized_lower = geometry_of(layout.tree(), second);
    assert_eq!(resized_upper.loc.y, fixed_pair_top);
    assert_eq!(
        resized_lower.loc.y.saturating_add(resized_lower.size.h),
        fixed_pair_bottom
    );
    assert_eq!(
        resized_lower.loc.y - resized_upper.loc.y.saturating_add(resized_upper.size.h),
        gap
    );
    assert_eq!(geometry_of(layout.tree(), third), initial_third);
    assert_eq!(last_duration(&layout), 0);
    assert!(layout.queue.trees.last().unwrap().blocker.is_none());
    assert!(layout.scrolling_live_resize.as_ref().is_some_and(|resize| {
        !resize.finishing
            && resize.tiles == [first, second]
            && matches!(
                resize.target,
                ScrollingResizeTarget::Rows { upper, lower }
                    if upper == first && lower == second
            )
    }));

    for _ in 0..64 {
        assert_eq!(resize_rows(&mut layout, first, second, 1), Some(true));
        assert_eq!(resize_rows(&mut layout, first, second, -1), Some(true));
        assert!(layout.queue.trees.len() <= 2);
        assert_eq!(last_duration(&layout), 0);
        assert!(layout.queue.trees.last().unwrap().blocker.is_none());
    }
    assert_eq!(geometry_of(layout.tree(), first), resized_upper);
    assert_eq!(geometry_of(layout.tree(), second), resized_lower);

    layout.finish_scrolling_resize(&Vec::new());
    assert!(layout
        .scrolling_live_resize
        .as_ref()
        .is_some_and(|resize| resize.finishing));
    assert!(layout.queue.trees.last().unwrap().blocker.is_none());
    update_animation_state(&mut layout, 0);
    assert!(layout.scrolling_live_resize.is_none());
    assert_eq!(geometry_of(layout.tree(), first), resized_upper);
    assert_eq!(geometry_of(layout.tree(), second), resized_lower);

    assert_eq!(resize_rows(&mut layout, first, second, 5), Some(true));
    assert!(layout.scrolling_live_resize.is_some());
    assert!(layout.scrolling.begin_drag(first));
    layout
        .scrolling
        .finish_drag(Some(first), ColumnDropTarget::Discard);
    layout.update_scrolling_live_resize_state();
    assert!(layout.scrolling_live_resize.is_none());
}

/// A layout with a single tile.
fn single_tile(tile: u64) -> TilingLayout {
    let mut layout = sized_scrolling_layout();
    let mut tree = Tree::new();
    tree.insert(
        placeholder(tile, rect(0, 0, 1_200, 800)),
        InsertBehavior::AsRoot,
    )
    .unwrap();
    show(&mut layout, tree);
    layout
}

#[test]
fn single_column_recenters_when_mouse_resize_finishes() {
    let tile = 1;
    let mut layout = single_tile(tile);

    let initial = geometry_of(layout.tree(), tile);
    let center = initial.loc.x.saturating_mul(2) + initial.size.w;
    let right = initial.loc.x.saturating_add(initial.size.w);
    assert_eq!(
        resize_column(&mut layout, tile, 100, ColumnResizeAnchor::Right),
        Some(true)
    );
    let anchored = geometry_of(layout.tree(), tile);
    assert_eq!(anchored.loc.x.saturating_add(anchored.size.w), right);

    layout.finish_scrolling_resize(&Vec::new());
    let centered = geometry_of(layout.tree(), tile);
    assert_eq!(centered.size.w, anchored.size.w);
    assert_eq!(centered.loc.x.saturating_mul(2) + centered.size.w, center);
}

#[test]
fn switching_engines_clears_an_active_scrolling_resize() {
    let tile = 1;
    let mut layout = single_tile(tile);

    assert_eq!(
        resize_column(&mut layout, tile, 50, ColumnResizeAnchor::Left),
        Some(true)
    );
    assert!(layout.scrolling_live_resize.is_some());

    layout.set_mode(TilingEngine::Classic);
    assert!(layout.scrolling_live_resize.is_none());
    assert_eq!(layout.mode(), TilingEngine::Classic);
}

#[test]
fn scrolling_keyboard_width_animation_retargets_every_preset() {
    let geometry = rect(0, 0, 1_200, 800);
    let mut layout = sized_scrolling_layout();
    show(&mut layout, row_of(vec![600, 600], 3, geometry));
    let (first, second, third) = (1, 2, 3);

    assert_eq!(
        layout.scrolling.move_tile_vertical(second, Direction::Down),
        TileMove::Moved
    );
    let stacked = duplicate(layout.tree());
    show(&mut layout, stacked);
    assert_eq!(column_tiles(&layout), [vec![first, second], vec![third]]);

    for expected in [1.0, 0.33, 0.5, 0.66] {
        assert!(cycle_width(&mut layout, second, ResizeDirection::Outwards));
        assert_eq!(column_width_fractions(&layout)[0], expected);
        assert_eq!(layout.queue.trees.len(), 2);
        assert_eq!(last_duration(&layout), ANIMATION_DURATION);

        let expected_width = column_widths(&layout)[0];
        assert_eq!(geometry_of(layout.tree(), first).size.w, expected_width);
        assert_eq!(geometry_of(layout.tree(), second).size.w, expected_width);
    }

    for expected in [0.5, 0.33, 1.0, 0.66] {
        assert!(cycle_width(&mut layout, second, ResizeDirection::Inwards));
        assert_eq!(column_width_fractions(&layout)[0], expected);
        assert_eq!(layout.queue.trees.len(), 2);
        assert_eq!(last_duration(&layout), ANIMATION_DURATION);
    }

    assert!(cycle_width(&mut layout, second, ResizeDirection::Outwards));
    layout.queue.animation_start = Some(0);
    // Halfway to the wider column.
    let eased = layout
        .queue
        .visual_moves()
        .iter()
        .map(|way| EasedArea {
            key: way.key,
            geometry: rect(
                (way.from.loc.x + way.to.loc.x) / 2,
                way.to.loc.y,
                (way.from.size.w + way.to.size.w) / 2,
                way.to.size.h,
            ),
        })
        .collect::<Vec<_>>();
    assert!(layout
        .cycle_scrolling_column_width_for(second, ResizeDirection::Inwards, &eased)
        .is_some());
    assert_eq!(column_width_fractions(&layout)[0], 0.66);
    assert_eq!(layout.queue.trees.len(), 2);
    let rendered_width = geometry_of(&layout.queue.trees[0].tree, second).size.w;
    let target_width = column_widths(&layout)[0];
    assert!(rendered_width > target_width);
    assert_eq!(geometry_of(layout.tree(), second).size.w, target_width);

    layout.queue.animation_start = Some(0);
    assert!(pan(&mut layout, 100.0));
    assert_eq!(layout.queue.trees.len(), 2);
    assert_eq!(last_duration(&layout), 0);

    assert_eq!(
        resize_column(&mut layout, second, 50, ColumnResizeAnchor::Left),
        Some(true)
    );
    let continuous = column_width_fractions(&layout)[0];
    assert!(continuous > 0.66 && continuous < 1.0);
    assert_eq!(last_duration(&layout), 0);
    assert!(cycle_width(&mut layout, second, ResizeDirection::Outwards));
    assert_eq!(column_width_fractions(&layout)[0], 1.0);
    assert_eq!(layout.queue.trees.len(), 2);
    assert_eq!(last_duration(&layout), ANIMATION_DURATION);

    layout.queue.animation_start = Some(0);
    assert_eq!(
        resize_column(&mut layout, second, -50, ColumnResizeAnchor::Left),
        Some(true)
    );
    let continuous = column_width_fractions(&layout)[0];
    assert!(continuous > 0.66 && continuous < 1.0);
    assert_eq!(last_duration(&layout), 0);
    assert!(cycle_width(&mut layout, second, ResizeDirection::Inwards));
    assert_eq!(column_width_fractions(&layout)[0], 0.66);
    assert_eq!(layout.queue.trees.len(), 2);
    assert_eq!(last_duration(&layout), ANIMATION_DURATION);
}

#[test]
fn mode_transition_retires_pending_blockers_on_new_geometry() {
    let mut layout = empty_layout(TilingEngine::Classic);
    layout
        .queue
        .push_tree(Tree::new(), ANIMATION_DURATION, Some(1));

    layout.set_mode(TilingEngine::Scrolling);

    assert_eq!(layout.queue.trees.len(), 2);
    assert!(layout.queue.trees[0].blocker.is_none());
    assert!(layout.queue.trees.last().unwrap().blocker.is_some());
    assert!(layout
        .queue
        .trees
        .iter()
        .all(|queued| queued.tree.root_node_id().is_none()));

    update_animation_state(&mut layout, 0);
    assert!(layout.queue.animation_start.is_some());
    update_animation_state(&mut layout, 0);
    assert_eq!(layout.queue.trees.len(), 1);
    assert!(layout.queue.trees[0].blocker.is_none());
}

#[test]
fn classic_geometry_is_restored_after_an_engine_round_trip() {
    let mut layout = layout_of(1_200, 800, TilingEngine::Classic);

    let sentinel = rect(0, 0, 7, 7);
    let mut tree = Tree::new();
    let root = tree
        .insert(
            group(vec![400, 400, 400], rect(0, 0, 1_200, 800)),
            InsertBehavior::AsRoot,
        )
        .unwrap();
    for key in 1..=3 {
        tree.insert(placeholder(key, sentinel), InsertBehavior::UnderNode(&root))
            .unwrap();
    }
    show(&mut layout, tree);

    let leaf_geometries = |layout: &TilingLayout| {
        (1..=3)
            .map(|leaf| geometry_of(layout.tree(), leaf))
            .collect::<Vec<_>>()
    };

    let before_geometries = leaf_geometries(&layout);
    let before_preorder = keys(layout.tree());
    // Classic must actually have sized these leaves, otherwise the
    // round-trip comparison below could pass without proving anything.
    assert!(before_geometries
        .iter()
        .all(|geometry| *geometry != sentinel));

    for (index, geometry) in before_geometries.iter().enumerate() {
        assert!(!before_geometries[..index].contains(geometry));
    }

    layout.set_mode(TilingEngine::Scrolling);
    assert_ne!(leaf_geometries(&layout), before_geometries);
    layout.set_mode(TilingEngine::Classic);

    assert_eq!(layout.mode(), TilingEngine::Classic);
    assert_eq!(leaf_geometries(&layout), before_geometries);
    assert_eq!(keys(layout.tree()), before_preorder);
}

/// A scrolling layout with these columns.
fn strip_of(columns: Vec<Column>) -> ScrollingLayout {
    let mut scrolling = ScrollingLayout::new();
    scrolling.model = ColumnModel { columns, ..ColumnModel::default() };
    scrolling.model.set_metrics(1_340, 10);
    scrolling
}

#[test]
fn mouse_resize_edges_are_limited_to_the_focused_columns_boundaries() {
    let mut tree = row_of(vec![670, 670], 0, rect(0, 0, 1_340, 800));
    let (first, second) = (1, 2);
    insert(&mut tree, second, rect(670, 0, 660, 800));
    insert(&mut tree, first, rect(0, 0, 660, 800));
    let scrolling = strip_of(vec![Column::single(first), Column::single(second)]);

    assert_eq!(
        scrolling.resize_edge_at(&tree, first, number(665.0)),
        Some((ColumnResizeAnchor::Left, 660))
    );
    assert_eq!(
        scrolling.resize_edge_at(&tree, second, number(665.0)),
        Some((ColumnResizeAnchor::Right, 660))
    );
    assert_eq!(
        scrolling.resize_edge_at(&tree, second, number(1_325.0)),
        Some((ColumnResizeAnchor::Left, 1_330))
    );
    assert_eq!(
        scrolling.resize_edge_at(&tree, first, number(1_325.0)),
        None
    );
}

#[test]
fn vertical_resize_hit_testing_only_accepts_focused_adjacent_separators() {
    let mut tree = row_of(vec![670, 670], 0, rect(0, 0, 1_340, 800));
    let (top, bottom, other) = (1, 2, 3);
    insert(&mut tree, top, rect(0, 0, 660, 395));
    insert(&mut tree, bottom, rect(0, 405, 660, 395));
    insert(&mut tree, other, rect(670, 0, 660, 800));
    let mut column = Column::single(top);
    column.tiles.push(bottom);
    let mut scrolling = strip_of(vec![column, Column::single(other)]);
    scrolling.model.set_column_height(800);

    assert_eq!(
        scrolling.row_resize_edge_at(&tree, top, number(100.0), number(400.0)),
        Some((top, bottom, 395))
    );
    assert_eq!(
        scrolling.row_resize_edge_at(&tree, bottom, number(100.0), number(400.0)),
        Some((top, bottom, 395))
    );
    assert_eq!(
        scrolling.row_resize_edge_at(&tree, top, number(700.0), number(400.0)),
        None
    );
    assert_eq!(
        scrolling.row_resize_edge_at(&tree, top, number(100.0), number(800.0)),
        None
    );
}

#[test]
fn scrolling_group_bounds_preserve_classic_split_ratios() {
    let classic_geometry = rect(0, 0, 1_000, 600);
    let mut layout = layout_of(1_000, 600, TilingEngine::Scrolling);
    let mut tree = row_of(vec![300, 700], 2, classic_geometry);

    for _ in 0..3 {
        layout.update_positions_for(&mut tree, None);
        assert_ne!(geometry_of(&tree, ROOT), classic_geometry);
        set_geometry(&mut tree, ROOT, classic_geometry);

        let root = find(&tree, ROOT).unwrap();
        let Data::Group { sizes, last_geometry, .. } = &tree.get(&root).unwrap().data().data
        else {
            unreachable!()
        };
        assert_eq!(sizes, &[300, 700]);
        assert_eq!(*last_geometry, classic_geometry);
    }
}
