//! Windows that come, go and move about in the layout of a workspace.

use id_tree::{NodeId, Tree};

use scroll_tiling::actions::{Direction, FocusDirection, ResizeDirection, ResizeEdge};
use scroll_tiling::classic::Configure;
use scroll_tiling::columns::ColumnResizeAnchor;
use scroll_tiling::config::TilingEngine;
use scroll_tiling::copies::duplicate;
use scroll_tiling::data::{Data, PlaceholderType, Window};
use scroll_tiling::focus::FocusResult;
use scroll_tiling::geometry::{Orientation, Point, Rectangle, Size};
use scroll_tiling::keys::KeySource;
use scroll_tiling::layout::{Hover, ScrollingResizeTarget, TilingLayout};
use scroll_tiling::lookups::{surface_area, KeyboardFocus, WindowArea};
use scroll_tiling::navigation::{MoveResult, NodeDesc, StackMove};
use scroll_tiling::neighbours::resize_request;
use scroll_tiling::queue::{WaitState, ANIMATION_DURATION, MINIMIZE_ANIMATION_DURATION};
use scroll_tiling::reshape::RestoreTilingState;
use scroll_tiling::transfers::swap_refused;
use scroll_tiling::tree::TreeNode;
use scroll_tiling::units::{Float64, SUBPIXEL};
use scroll_tiling::unmapping::UnmapError;
use scroll_tiling::zones::TargetZone;

fn rect(x: i32, y: i32, w: i32, h: i32) -> Rectangle {
    Rectangle::new(x, y, w, h)
}

fn window(id: u64) -> Window {
    Window {
        id,
        stack: false,
        activated: false,
        fullscreen: false,
        maximized: false,
        latest_size_committed: true,
        resizing: false,
    }
}

fn stack(id: u64) -> Window {
    Window { stack: true, ..window(id) }
}

fn layout(engine: TilingEngine) -> TilingLayout {
    TilingLayout::new(rect(0, 0, 1_200, 800), Size { w: 1_200, h: 800 }, (0, 8), engine)
}

/// Maps a window beside those that were focused last, and returns its key.
fn open(layout: &mut TilingLayout, keys: &mut KeySource, id: u64, focused: &[u64]) -> u64 {
    layout
        .map(window(id), &Some(focused.to_vec()), None, keys, &Vec::new())
        .0
}

/// One window on the left, and two on the right above each other.
fn three(engine: TilingEngine, keys: &mut KeySource) -> (TilingLayout, [u64; 3]) {
    let mut layout = layout(engine);
    let first = open(&mut layout, keys, 1, &[]);
    let second = open(&mut layout, keys, 2, &[1]);
    let third = open(&mut layout, keys, 3, &[2]);
    (layout, [first, second, third])
}

fn nodes(tree: &Tree<TreeNode>) -> Vec<NodeId> {
    match tree.root_node_id() {
        Some(root) => tree.traverse_pre_order_ids(root).unwrap().collect(),
        None => Vec::new(),
    }
}

/// The windows of a tree and their areas.
fn areas_in(tree: &Tree<TreeNode>) -> Vec<(u64, Rectangle)> {
    nodes(tree)
        .iter()
        .filter_map(|id| match &tree.get(id).unwrap().data().data {
            Data::Mapped { mapped, last_geometry, .. } => Some((mapped.id, *last_geometry)),
            _ => None,
        })
        .collect()
}

/// The windows of the newest tree and their areas.
fn areas(layout: &TilingLayout) -> Vec<(u64, Rectangle)> {
    areas_in(layout.tree())
}

fn number(value: f64) -> Float64 {
    Float64 { bits: value.to_bits() }
}

/// The key of the group that a node is in.
fn group_of(layout: &TilingLayout, key: u64) -> Option<u64> {
    let tree = layout.tree();
    let id = nodes(tree)
        .into_iter()
        .find(|id| tree.get(id).unwrap().data().key == key)
        .unwrap();
    let parent = tree.get(&id).unwrap().parent()?;
    Some(tree.get(parent).unwrap().data().key)
}

fn focus_on(id: u64) -> Option<KeyboardFocus> {
    Some(KeyboardFocus::Window(id))
}

fn edges(left: bool, right: bool, top: bool, bottom: bool) -> ResizeEdge {
    ResizeEdge { top, bottom, left, right }
}

fn asked(configures: &[Configure], id: u64) -> Option<Rectangle> {
    configures
        .iter()
        .find(|configure| configure.window == id)
        .map(|configure| configure.geometry)
}

/// What is left to be shown is shown.
fn settle(layout: &mut TilingLayout) {
    let done = WaitState { processed: true, ready: true };
    let mut now = 1_000;
    while layout.queue.trees.len() > 1 {
        let waits = vec![done; layout.queue.trees.len() - 1];
        layout.update_animation_state(now, done, &waits);
        now += 10_000;
    }
}

#[test]
fn keys_are_handed_out_once() {
    let mut keys = KeySource::new();
    assert_eq!(keys.take(), 0);
    assert_eq!(keys.take(), 1);
    assert_eq!(keys.next, 2);
}

#[test]
fn a_lone_window_fills_the_output() {
    let mut keys = KeySource::new();
    let mut layout = layout(TilingEngine::Classic);
    let (key, configures) = layout.map(window(1), &None, None, &mut keys, &Vec::new());
    assert_eq!(areas(&layout), [(1, rect(8, 8, 1_184, 784))]);
    assert_eq!(asked(&configures, 1), Some(rect(8, 8, 1_184, 784)));
    assert_eq!(layout.element_geometry(Some(key)), Some(rect(8, 8, 1_184, 784)));
    assert_eq!(layout.element_for_node(key), Some(1));
    assert!(layout.has_node(key));
    assert!(!layout.has_node(key + 1));
    assert_eq!(layout.queue.trees.len(), 2);
    assert_eq!(layout.queue.trees[1].duration, ANIMATION_DURATION);
}

#[test]
fn new_windows_split_the_focused_one_along_its_longer_side() {
    let mut keys = KeySource::new();
    let (layout, _) = three(TilingEngine::Classic, &mut keys);
    assert_eq!(
        areas(&layout),
        [
            (1, rect(8, 8, 588, 784)),
            (2, rect(604, 8, 588, 388)),
            (3, rect(604, 404, 588, 388)),
        ]
    );
    assert_eq!(
        layout.mapped(),
        [
            WindowArea { window: 1, geometry: rect(8, 8, 588, 784) },
            WindowArea { window: 2, geometry: rect(604, 8, 588, 388) },
            WindowArea { window: 3, geometry: rect(604, 404, 588, 388) },
        ]
    );
}

#[test]
fn a_window_that_comes_from_elsewhere_opens_on_the_side_it_comes_from() {
    let mut keys = KeySource::new();
    let mut layout = layout(TilingEngine::Classic);
    open(&mut layout, &mut keys, 1, &[]);
    open(&mut layout, &mut keys, 2, &[1]);
    layout.map(window(3), &Some(vec![2]), Some(Direction::Left), &mut keys, &Vec::new());
    assert_eq!(
        areas(&layout),
        [
            (1, rect(8, 8, 288, 784)),
            (2, rect(304, 8, 292, 784)),
            (3, rect(604, 8, 588, 784)),
        ]
    );
}

#[test]
fn unmapping_gives_the_room_to_the_others() {
    let mut keys = KeySource::new();
    let (mut layout, [first, second, third]) = three(TilingEngine::Classic, &mut keys);
    let unmapped = match layout.unmap(1, Some(first), None, &Vec::new()) {
        Ok(unmapped) => unmapped,
        Err(_) => panic!("the window is there"),
    };
    assert_eq!(
        areas(&layout),
        [(2, rect(8, 8, 1_184, 388)), (3, rect(8, 404, 1_184, 388))]
    );
    let state = unmapped.state.unwrap();
    assert_eq!(state.orientation, Orientation::Vertical);
    assert_eq!(state.idx, 0);
    assert_eq!(state.sizes, [600, 600]);

    assert!(layout.unmap(2, Some(second), None, &Vec::new()).is_ok());
    assert_eq!(areas(&layout), [(3, rect(8, 8, 1_184, 784))]);
    assert!(layout.unmap(3, Some(third), None, &Vec::new()).is_ok());
    assert!(layout.tree().root_node_id().is_none());
}

#[test]
fn unmapping_what_is_not_there_is_an_error() {
    let mut keys = KeySource::new();
    let (mut layout, [first, second, _]) = three(TilingEngine::Classic, &mut keys);
    assert!(matches!(
        layout.unmap(1, None, None, &Vec::new()),
        Err(UnmapError::NodeIdNoLongerValid)
    ));
    assert!(matches!(
        layout.unmap(1, Some(second), None, &Vec::new()),
        Err(UnmapError::InvalidNodeIdForTree)
    ));
    assert!(matches!(
        layout.unmap(1, Some(keys.next), None, &Vec::new()),
        Err(UnmapError::InvalidNodeIdForTree)
    ));
    assert!(layout.unmap_window_internal(2, first, false, &Vec::new()).is_none());
    assert_eq!(areas(&layout).len(), 3);
}

#[test]
fn minimized_windows_shrink_to_where_they_go_and_come_back_to_their_place() {
    let mut keys = KeySource::new();
    let (mut layout, [_, second, _]) = three(TilingEngine::Classic, &mut keys);
    settle(&mut layout);
    let dock = rect(590, 790, 20, 10);
    let unmapped = match layout.unmap(2, Some(second), Some(dock), &Vec::new()) {
        Ok(unmapped) => unmapped,
        Err(_) => panic!("the window is there"),
    };
    assert_eq!(layout.queue.trees.last().unwrap().duration, MINIMIZE_ANIMATION_DURATION);
    let shown = &layout.queue.trees[0].tree;
    assert!(nodes(shown).iter().any(|id| matches!(
        &shown.get(id).unwrap().data().data,
        Data::Mapped { mapped, minimize_rect: Some(rect), .. } if mapped.id == 2 && *rect == dock
    )));
    assert_eq!(
        areas(&layout),
        [(1, rect(8, 8, 588, 784)), (3, rect(604, 8, 588, 784))]
    );

    layout.remap(
        window(2),
        Some(dock),
        unmapped.state,
        &Some(vec![3]),
        &mut keys,
        &Vec::new(),
    );
    assert_eq!(layout.queue.trees.last().unwrap().duration, MINIMIZE_ANIMATION_DURATION);
    assert_eq!(
        areas(&layout),
        [
            (1, rect(8, 8, 588, 784)),
            (2, rect(604, 8, 588, 388)),
            (3, rect(604, 404, 588, 388)),
        ]
    );
}

#[test]
fn a_window_that_does_not_fit_its_old_place_is_mapped_anew() {
    let mut keys = KeySource::new();
    let (mut layout, [_, _, third]) = three(TilingEngine::Classic, &mut keys);
    let mut more_keys = KeySource::new();
    let (mut other, _) = three(TilingEngine::Classic, &mut more_keys);
    let state = RestoreTilingState {
        parent: group_of(&layout, third),
        sibling: None,
        orientation: Orientation::Vertical,
        idx: 0,
        sizes: vec![100; 5],
    };
    assert!(!layout.can_restore(&state));
    let (key, _) = layout.remap_if_fitting(
        window(9),
        None,
        Some(state),
        &Some(vec![3]),
        &mut keys,
        &Vec::new(),
    );
    let (mapped, _) =
        other.map(window(9), &Some(vec![3]), None, &mut more_keys, &Vec::new());
    assert_eq!(key, mapped);
    assert_eq!(areas(&layout), areas(&other));
    assert_eq!(areas(&layout).len(), 4);
}

#[test]
fn a_window_that_fits_its_old_place_gets_it_back() {
    let mut keys = KeySource::new();
    let (mut layout, [_, second, _]) = three(TilingEngine::Classic, &mut keys);
    let before = areas(&layout);
    let unmapped = match layout.unmap(2, Some(second), None, &Vec::new()) {
        Ok(unmapped) => unmapped,
        Err(_) => panic!("the window is there"),
    };
    layout.remap_if_fitting(
        window(2),
        None,
        unmapped.state,
        &Some(vec![1]),
        &mut keys,
        &Vec::new(),
    );
    assert_eq!(areas(&layout), before);
}

#[test]
fn dead_windows_are_unmapped_by_a_refresh() {
    let mut keys = KeySource::new();
    let (mut layout, [first, _, third]) = three(TilingEngine::Classic, &mut keys);
    layout.refresh(&vec![(1, first), (3, third)], &Vec::new());
    assert_eq!(areas(&layout), [(2, rect(8, 8, 1_184, 784))]);
}

#[test]
fn windows_that_close_leave_no_trace_on_the_strip() {
    let mut keys = KeySource::new();
    let (mut layout, [first, second, third]) = three(TilingEngine::Scrolling, &mut keys);
    assert!(layout.scrolling.contains(second));
    assert!(layout.unmap(2, Some(second), None, &Vec::new()).is_ok());
    assert!(!layout.scrolling.contains(second));
    assert!(layout.scrolling.contains(first) && layout.scrolling.contains(third));
}

#[test]
fn a_new_toplevel_opens_beside_the_focused_column() {
    let mut keys = KeySource::new();
    let mut layout = layout(TilingEngine::Scrolling);
    let first = open(&mut layout, &mut keys, 1, &[]);
    let second = open(&mut layout, &mut keys, 2, &[1]);
    let (third, _) =
        layout.map_new_toplevel(window(3), &Some(vec![1]), &mut keys, &Vec::new());
    let order: Vec<u64> = layout
        .scrolling
        .model
        .columns
        .iter()
        .map(|column| column.tiles[0])
        .collect();
    assert_eq!(order, [first, third, second]);
}

#[test]
fn windows_and_groups_turn_with_their_group() {
    let mut keys = KeySource::new();
    let (mut layout, [first, ..]) = three(TilingEngine::Classic, &mut keys);
    assert!(layout.update_orientation(None, &focus_on(1), &Vec::new()).is_some());
    assert_eq!(
        areas(&layout),
        [
            (1, rect(8, 8, 1_184, 388)),
            (2, rect(8, 404, 1_184, 192)),
            (3, rect(8, 604, 1_184, 188)),
        ]
    );
    assert!(layout
        .update_orientation(Some(Orientation::Horizontal), &focus_on(1), &Vec::new())
        .is_some());
    assert_eq!(layout.element_geometry(Some(first)), Some(rect(8, 8, 1_184, 388)));
    assert!(layout.update_orientation(None, &focus_on(9), &Vec::new()).is_none());
}

#[test]
fn the_focus_goes_to_the_nearest_window() {
    let mut keys = KeySource::new();
    let (layout, _) = three(TilingEngine::Classic, &mut keys);
    let recent = vec![3, 2, 1];
    let next = |direction: FocusDirection, id: u64| {
        layout.next_focus(direction, &focus_on(id), &recent, None)
    };
    assert!(matches!(
        next(FocusDirection::Left, 3),
        FocusResult::Window { window: 1, whole: false }
    ));
    assert!(matches!(
        next(FocusDirection::Right, 1),
        FocusResult::Window { window: 2, whole: false }
    ));
    assert!(matches!(
        next(FocusDirection::Up, 3),
        FocusResult::Window { window: 2, whole: false }
    ));
    assert!(matches!(next(FocusDirection::Left, 1), FocusResult::Unhandled));
    assert!(matches!(next(FocusDirection::Down, 3), FocusResult::Unhandled));
}

#[test]
fn the_focus_goes_out_to_the_group_and_back_in() {
    let mut keys = KeySource::new();
    let (layout, [_, _, third]) = three(TilingEngine::Classic, &mut keys);
    let inner = group_of(&layout, third).unwrap();
    let recent = vec![3, 2, 1];
    let out = layout.next_focus(FocusDirection::Out, &focus_on(3), &recent, None);
    let memory = match out {
        FocusResult::Group { node, focus_stack } => {
            assert_eq!(node, inner);
            focus_stack
        }
        _ => panic!("a window in a group has a group around it"),
    };
    let group = Some(KeyboardFocus::Group { node: inner, focus_stack: memory });
    assert!(matches!(
        layout.next_focus(FocusDirection::In, &group, &recent, None),
        FocusResult::Window { window: 3, .. }
    ));
    assert!(matches!(
        layout.next_focus(FocusDirection::Left, &group, &recent, None),
        FocusResult::Window { window: 1, .. }
    ));
}

#[test]
fn the_focus_stays_with_a_node_that_waits_to_be_exchanged() {
    let mut keys = KeySource::new();
    let (layout, [_, _, third]) = three(TilingEngine::Classic, &mut keys);
    let recent = vec![3, 2, 1];
    let swap = Some(NodeDesc { node: third, whole: true });
    assert!(matches!(
        layout.next_focus(FocusDirection::Left, &focus_on(3), &recent, swap),
        FocusResult::Window { window: 1, whole: false }
    ));
}

#[test]
fn windows_move_through_the_tree() {
    let mut keys = KeySource::new();
    let (mut layout, _) = three(TilingEngine::Classic, &mut keys);
    let (result, _) = layout.move_current_node(
        Direction::Down,
        &focus_on(2),
        StackMove::Default,
        &mut keys,
        &Vec::new(),
    );
    assert!(matches!(result, MoveResult::Done));
    assert_eq!(
        areas(&layout),
        [
            (1, rect(8, 8, 588, 784)),
            (3, rect(604, 8, 588, 388)),
            (2, rect(604, 404, 588, 388)),
        ]
    );
    let (result, configures) = layout.move_current_node(
        Direction::Left,
        &focus_on(1),
        StackMove::Default,
        &mut keys,
        &Vec::new(),
    );
    assert!(matches!(result, MoveResult::MoveFurther));
    assert!(configures.is_empty());
    let (result, _) = layout.move_current_node(
        Direction::Left,
        &focus_on(9),
        StackMove::Default,
        &mut keys,
        &Vec::new(),
    );
    assert!(matches!(result, MoveResult::Unhandled));
}

#[test]
fn columns_and_tiles_move_on_the_strip() {
    let mut keys = KeySource::new();
    let (mut layout, [first, second, third]) = three(TilingEngine::Scrolling, &mut keys);
    let order = |layout: &TilingLayout| -> Vec<Vec<u64>> {
        layout
            .scrolling
            .model
            .columns
            .iter()
            .map(|column| column.tiles.clone())
            .collect()
    };
    assert_eq!(order(&layout), [[first], [second], [third]]);
    let (result, _) = layout.move_current_node(
        Direction::Left,
        &focus_on(3),
        StackMove::Default,
        &mut keys,
        &Vec::new(),
    );
    assert!(matches!(result, MoveResult::Handled));
    assert_eq!(order(&layout), [[first], [third], [second]]);
    let (result, configures) = layout.move_current_node(
        Direction::Left,
        &focus_on(1),
        StackMove::Default,
        &mut keys,
        &Vec::new(),
    );
    assert!(matches!(result, MoveResult::Handled));
    assert!(configures.is_empty());
    assert_eq!(order(&layout), [[first], [third], [second]]);
}

#[test]
fn resizing_moves_a_separator_and_stops_at_the_minimum() {
    let mut keys = KeySource::new();
    let (mut layout, _) = three(TilingEngine::Classic, &mut keys);
    settle(&mut layout);
    let (found, _) = layout.resize(
        &focus_on(1),
        ResizeDirection::Outwards,
        edges(false, true, false, false),
        100,
    );
    assert!(found);
    assert_eq!(
        areas(&layout),
        [
            (1, rect(8, 8, 688, 784)),
            (2, rect(704, 8, 488, 388)),
            (3, rect(704, 404, 488, 388)),
        ]
    );
    layout.resize(
        &focus_on(1),
        ResizeDirection::Outwards,
        edges(false, true, false, false),
        10_000,
    );
    let before: i32 = areas(&layout).iter().map(|(_, area)| area.size.w).min().unwrap();
    assert!(before >= 200);
    let (found, _) = layout.resize(
        &focus_on(9),
        ResizeDirection::Outwards,
        edges(false, true, false, false),
        10,
    );
    assert!(!found);
}

#[test]
fn two_windows_of_a_tree_change_places_and_back() {
    let mut keys = KeySource::new();
    let (mut layout, [first, _, third]) = three(TilingEngine::Classic, &mut keys);
    let before = areas(&layout);
    assert!(layout.can_swap(first, third));
    let (focus, _) = layout.swap_nodes(first, third, &Vec::new());
    assert!(matches!(focus, Some(KeyboardFocus::Window(1))));
    assert_eq!(
        areas(&layout),
        [
            (3, rect(8, 8, 588, 784)),
            (2, rect(604, 8, 588, 388)),
            (1, rect(604, 404, 588, 388)),
        ]
    );
    assert!(layout.swap_if_apart(first, third, &Vec::new()).is_some());
    assert_eq!(areas(&layout), before);
    let around = group_of(&layout, third).unwrap();
    assert!(layout.swap_if_apart(third, around, &Vec::new()).is_none());
    assert!(!layout.can_swap(around, third));
    assert!(layout.swap_if_apart(third, third, &Vec::new()).is_none());
    assert!(layout.swap_if_apart(third, keys.next, &Vec::new()).is_none());
    assert_eq!(areas(&layout), before);
}

#[test]
fn branches_of_two_workspaces_change_places() {
    let mut keys = KeySource::new();
    let (mut here, [_, _, third]) = three(TilingEngine::Classic, &mut keys);
    let mut there = layout(TilingEngine::Classic);
    let other = open(&mut there, &mut keys, 7, &[]);
    let inner = group_of(&here, third).unwrap();
    let (before, before_there) = (areas(&here), areas(&there));
    let moved = TilingLayout::swap_trees(
        &mut here,
        &mut there,
        inner,
        other,
        &Vec::new(),
        &Vec::new(),
    );
    assert!(moved.is_some());
    assert_eq!(
        areas(&here),
        [(1, rect(8, 8, 588, 784)), (7, rect(604, 8, 588, 784))]
    );
    assert_eq!(
        areas(&there),
        [(2, rect(8, 8, 1_184, 388)), (3, rect(8, 404, 1_184, 388))]
    );
    assert!(TilingLayout::swap_trees(
        &mut here,
        &mut there,
        inner,
        other,
        &Vec::new(),
        &Vec::new(),
    )
    .is_some());
    assert_eq!(areas(&here), before);
    assert_eq!(areas(&there), before_there);
    assert!(TilingLayout::swap_trees(
        &mut here,
        &mut there,
        keys.next,
        other,
        &Vec::new(),
        &Vec::new(),
    )
    .is_none());
}

#[test]
fn a_branch_moves_to_another_workspace() {
    let mut keys = KeySource::new();
    let (mut here, [_, _, third]) = three(TilingEngine::Classic, &mut keys);
    let mut there = layout(TilingEngine::Classic);
    open(&mut there, &mut keys, 7, &[]);
    let inner = group_of(&here, third).unwrap();
    let moved = TilingLayout::move_tree(
        &mut here,
        &mut there,
        inner,
        &focus_on(7),
        Some(Direction::Right),
        &mut keys,
        &Vec::new(),
        &Vec::new(),
    );
    assert!(moved.is_some());
    assert_eq!(areas(&here), [(1, rect(8, 8, 1_184, 784))]);
    let ids: Vec<u64> = areas(&there).iter().map(|(id, _)| *id).collect();
    assert_eq!(ids, [2, 3, 7]);
    assert!(TilingLayout::move_tree(
        &mut here,
        &mut there,
        inner,
        &focus_on(7),
        None,
        &mut keys,
        &Vec::new(),
        &Vec::new(),
    )
    .is_none());
}

#[test]
fn two_workspaces_become_one() {
    let mut keys = KeySource::new();
    let mut here = layout(TilingEngine::Classic);
    open(&mut here, &mut keys, 1, &[]);
    let mut there = layout(TilingEngine::Classic);
    open(&mut there, &mut keys, 7, &[]);
    here.merge(there, &mut keys, &Vec::new());
    assert_eq!(
        areas(&here),
        [(1, rect(8, 8, 588, 784)), (7, rect(604, 8, 588, 784))]
    );
    here.merge(layout(TilingEngine::Classic), &mut keys, &Vec::new());
    assert_eq!(areas(&here).len(), 2);
}

#[test]
fn a_group_becomes_a_stack_and_a_stack_a_group() {
    let mut keys = KeySource::new();
    let (mut layout, [first, _, third]) = three(TilingEngine::Classic, &mut keys);
    let inner = group_of(&layout, third).unwrap();
    let group = Some(KeyboardFocus::Group { node: inner, focus_stack: vec![] });
    let restacked = layout.toggle_stacking_focused(
        &group,
        stack(2),
        window(2),
        &vec![],
        None,
        &mut keys,
        &Vec::new(),
    );
    let restacked = restacked.unwrap();
    assert_eq!(restacked.windows, [2, 3]);
    assert_eq!(restacked.entered, [inner]);
    assert_eq!(
        areas(&layout),
        [(1, rect(8, 8, 588, 784)), (2, rect(604, 8, 588, 784))]
    );
    let base = keys.next;
    let spread = layout.toggle_stacking_focused(
        &focus_on(2),
        stack(2),
        window(2),
        &vec![window(3), window(4)],
        Some(0),
        &mut keys,
        &Vec::new(),
    );
    let spread = spread.unwrap();
    // The first of the others has the focus, so it comes last.
    assert_eq!(spread.entered, [base + 2, inner, base]);
    assert!(spread.windows.is_empty());
    let ids: Vec<u64> = areas(&layout).iter().map(|(id, _)| *id).collect();
    assert_eq!(ids, [1, 2, 3, 4]);
    assert!(layout
        .toggle_stacking(None, window(1), &vec![], None, &mut keys, &Vec::new())
        .is_none());
    let made = layout.toggle_stacking(
        Some(first),
        stack(1),
        &vec![],
        None,
        &mut keys,
        &Vec::new(),
    );
    assert!(made.is_some());
}

#[test]
fn another_window_takes_the_place_of_one() {
    let mut keys = KeySource::new();
    let (mut layout, [_, second, _]) = three(TilingEngine::Classic, &mut keys);
    assert!(layout.replace_window(2, Some(second), window(8)).is_some());
    assert_eq!(
        areas(&layout),
        [
            (1, rect(8, 8, 588, 784)),
            (8, rect(604, 8, 588, 388)),
            (3, rect(604, 404, 588, 388)),
        ]
    );
    assert!(layout.replace_window(2, Some(second), window(9)).is_none());
    assert!(layout.replace_window(8, None, window(9)).is_none());
}

#[test]
fn a_smaller_output_makes_windows_smaller() {
    let mut keys = KeySource::new();
    let (mut layout, _) = three(TilingEngine::Classic, &mut keys);
    layout.set_output(rect(0, 40, 800, 560), Size { w: 800, h: 600 });
    assert_eq!(
        areas(&layout),
        [
            (1, rect(8, 48, 388, 544)),
            (2, rect(404, 48, 388, 268)),
            (3, rect(404, 324, 388, 268)),
        ]
    );
    assert_eq!(layout.queue.trees.last().unwrap().duration, 0);
    layout.recalculate();
    assert_eq!(layout.queue.trees.last().unwrap().duration, ANIMATION_DURATION);
}

#[test]
fn windows_report_what_they_are_told() {
    let mut keys = KeySource::new();
    let (mut layout, [first, ..]) = three(TilingEngine::Classic, &mut keys);
    layout.update_window(Window { activated: true, ..window(1) });
    let tree = layout.tree();
    assert!(nodes(tree).iter().any(|id| matches!(
        &tree.get(id).unwrap().data().data,
        Data::Mapped { mapped, .. } if mapped.id == 1 && mapped.activated
    )));
    assert!(matches!(layout.node_desc_to_focus(first), Some(KeyboardFocus::Window(1))));
    assert!(layout.node_desc_to_focus(keys.next).is_none());
}

#[test]
fn waits_hold_back_the_trees_after_them() {
    let mut keys = KeySource::new();
    let mut layout = layout(TilingEngine::Classic);
    open(&mut layout, &mut keys, 1, &[]);
    layout.attach_blocker(77);
    let waiting = WaitState { processed: false, ready: false };
    let done = WaitState { processed: true, ready: true };
    let (released, _) = layout.update_animation_state(10, waiting, &vec![waiting]);
    assert!(released.is_empty());
    assert!(!layout.animations_going());
    let (released, _) = layout.update_animation_state(20, waiting, &vec![done]);
    assert_eq!(released, [77]);
    assert!(layout.animations_going());
    assert_eq!(layout.progress(120), Some((100, ANIMATION_DURATION)));
    layout.update_animation_state(20 + ANIMATION_DURATION, waiting, &vec![done]);
    assert!(!layout.animations_going());
    assert_eq!(layout.queue.trees.len(), 1);
    assert_eq!(layout.progress(500), None);
    layout.push_barrier(78);
    assert_eq!(layout.queue.trees.len(), 2);
    assert_eq!(layout.queue.trees[1].blocker, Some(78));
    layout.retire_blocker(79);
    assert_eq!(layout.queue.retired, [79]);
}

#[test]
fn a_new_window_is_not_lost_when_its_transition_is_stopped() {
    let mut keys = KeySource::new();
    let mut layout = layout(TilingEngine::Scrolling);
    let done = WaitState { processed: true, ready: true };
    open(&mut layout, &mut keys, 1, &[]);
    layout.update_animation_state(10, done, &vec![done]);
    assert!(layout.animations_going());
    // The second window comes while the first one is still on its way.
    let second = open(&mut layout, &mut keys, 2, &[1]);
    assert_eq!(layout.queue.trees.len(), 2);
    layout.update_animation_state(20, done, &vec![done]);
    let stopped = layout.queue.prepare_direct_tree(&Vec::new());
    assert_eq!(layout.queue.trees.len(), 1);
    for tree in [&stopped, layout.tree()] {
        assert!(nodes(tree)
            .iter()
            .any(|id| tree.get(id).unwrap().data().key == second));
    }
}

#[test]
fn a_new_window_is_not_lost_before_its_transition_begins() {
    let mut keys = KeySource::new();
    let mut layout = layout(TilingEngine::Scrolling);
    let done = WaitState { processed: true, ready: true };
    let first = open(&mut layout, &mut keys, 1, &[]);
    layout.update_animation_state(10, done, &vec![done]);
    assert!(layout.animations_going());
    let second = open(&mut layout, &mut keys, 2, &[1]);
    assert!(layout.queue.animation_start.is_none());
    assert!(layout.queue.trees[1].retargetable);
    let before = areas_in(&layout.queue.trees[0].tree);
    let stopped = layout.queue.prepare_direct_tree(&Vec::new());
    assert_eq!(layout.queue.trees.len(), 1);
    for tree in [&stopped, layout.tree()] {
        let keys: Vec<u64> = nodes(tree).iter().map(|id| tree.get(id).unwrap().data().key).collect();
        assert!(keys.contains(&first) && keys.contains(&second));
        // What was shown before is where it was.
        assert!(areas_in(tree).contains(&before[0]));
    }
}

#[test]
fn a_stop_before_a_plain_transition_begins_stays_at_what_is_shown() {
    let mut keys = KeySource::new();
    let mut layout = layout(TilingEngine::Classic);
    open(&mut layout, &mut keys, 1, &[]);
    settle(&mut layout);
    open(&mut layout, &mut keys, 2, &[1]);
    assert!(!layout.queue.trees[1].retargetable);
    let stopped = layout.queue.prepare_direct_tree(&Vec::new());
    assert_eq!(areas_in(&stopped).len(), 1);
    assert_eq!(areas(&layout).len(), 1);
}

#[test]
fn a_pan_leaves_the_focus_of_the_strip_alone() {
    let mut keys = KeySource::new();
    let mut layout = layout(TilingEngine::Scrolling);
    let first = open(&mut layout, &mut keys, 1, &[]);
    settle(&mut layout);
    layout.scrolling.model.focused = None;
    layout.scrolling.model.viewport_x = 0;
    let (done, _) = layout.pan_scrolling_viewport(number(100.0), &Vec::new());
    assert!(done);
    assert_eq!(layout.scrolling.model.focused, None);
    let area = areas(&layout)[0].1;
    assert!((2 * area.loc.x + area.size.w - 1_200).abs() <= 1);
    // With another window, the one that is activated does not become the focused one.
    open(&mut layout, &mut keys, 2, &[1]);
    settle(&mut layout);
    layout.scrolling.model.focused = Some(first);
    layout.update_window(Window { activated: true, ..window(2) });
    let (done, _) = layout.pan_scrolling_viewport(number(-10.0), &Vec::new());
    assert!(done);
    assert_eq!(layout.scrolling.model.focused, Some(first));
}

#[test]
fn the_focused_column_gets_another_width_and_the_middle() {
    let mut keys = KeySource::new();
    let mut layout = layout(TilingEngine::Scrolling);
    let first = open(&mut layout, &mut keys, 1, &[]);
    open(&mut layout, &mut keys, 2, &[1]);
    settle(&mut layout);
    let none = Vec::new();
    let before = areas(&layout)[0].1.size.w;
    assert!(layout
        .cycle_scrolling_column_width(ResizeDirection::Outwards, &None, &none)
        .is_none());
    assert!(layout
        .cycle_scrolling_column_width(ResizeDirection::Outwards, &focus_on(1), &none)
        .is_some());
    assert!(areas(&layout)[0].1.size.w > before);
    settle(&mut layout);
    assert!(layout
        .cycle_scrolling_column_width(ResizeDirection::Inwards, &focus_on(1), &none)
        .is_some());
    assert_eq!(areas(&layout)[0].1.size.w, before);
    settle(&mut layout);
    assert!(layout.center_scrolling_column(&None, &none).is_none());
    assert!(layout.center_scrolling_column(&focus_on(1), &none).is_some());
    let area = areas(&layout)[0].1;
    assert!((2 * area.loc.x + area.size.w - 1_200).abs() <= 1);
    // Its right edge moves while the left one stays. Only what has the focus is resized.
    assert_eq!(
        layout.scrolling_resize_target(first, edges(false, true, false, false), &focus_on(1)),
        Some(ScrollingResizeTarget::Column { tile: first, anchor: ColumnResizeAnchor::Left })
    );
    assert_eq!(
        layout.scrolling_resize_target(first, edges(false, true, false, false), &focus_on(2)),
        None
    );
}

#[test]
fn a_resize_moves_the_nearest_separator() {
    let mut keys = KeySource::new();
    let (layout, [_, second, _]) = three(TilingEngine::Classic, &mut keys);
    let tree = layout.tree();
    let id = nodes(tree)
        .into_iter()
        .find(|id| tree.get(id).unwrap().data().key == second)
        .unwrap();
    let inner = tree.get(&id).unwrap().parent().unwrap().clone();
    let root = tree.root_node_id().unwrap().clone();
    // The second window is above the third one, and both are right of the first one.
    assert_eq!(
        resize_request(tree, &id, edges(false, false, false, true)),
        Some((inner, 0, Orientation::Horizontal))
    );
    assert_eq!(
        resize_request(tree, &id, edges(true, false, false, false)),
        Some((root, 0, Orientation::Vertical))
    );
    assert_eq!(resize_request(tree, &id, edges(false, true, true, false)), None);
}

#[test]
fn a_resize_without_motion_keeps_a_lone_column_centered() {
    let mut keys = KeySource::new();
    let mut layout = layout(TilingEngine::Scrolling);
    open(&mut layout, &mut keys, 1, &[]);
    settle(&mut layout);
    let before = areas(&layout)[0].1;
    assert!((2 * before.loc.x + before.size.w - 1_200).abs() <= 1);
    assert!(before.loc.x > 0);
    assert!(layout.scrolling_live_resize.is_none());
    let (changes, _) = layout.finish_scrolling_resize(&Vec::new());
    assert!(changes.is_empty());
    assert_eq!(areas(&layout)[0].1, before);
    settle(&mut layout);
    assert_eq!(areas(&layout)[0].1, before);
}

#[test]
fn a_dragged_window_leaves_a_place_and_can_be_dropped_beside_another() {
    let mut keys = KeySource::new();
    let (mut layout, [first, second, _]) = three(TilingEngine::Classic, &mut keys);
    let place =
        layout.unmap_as_placeholder(Some(second), PlaceholderType::GrabbedWindow, &Vec::new());
    assert_eq!(place, Some(second));
    assert_eq!(areas(&layout).len(), 2);
    layout.last_overview_hover =
        Some(Hover { since: None, zone: TargetZone::WindowSplit(first, Direction::Left) });
    let dropped =
        layout.drop_window(window(2), stack(2), rect(0, 0, 50, 50), &mut keys, &Vec::new());
    assert!(!dropped.stacked);
    assert_eq!(dropped.location, Some(Point { x: 8, y: 8 }));
    let ids: Vec<u64> = areas(&layout).iter().map(|(id, _)| *id).collect();
    assert_eq!(ids, [2, 1, 3]);
    assert!(nodes(layout.tree())
        .iter()
        .all(|id| !layout.tree().get(id).unwrap().data().data.is_placeholder()));
}

#[test]
fn a_window_that_is_dropped_on_another_joins_it() {
    let mut keys = KeySource::new();
    let (mut layout, [first, second, _]) = three(TilingEngine::Classic, &mut keys);
    layout.unmap_as_placeholder(Some(second), PlaceholderType::GrabbedWindow, &Vec::new());
    let area = rect(8, 8, 588, 784);
    layout.last_overview_hover =
        Some(Hover { since: None, zone: TargetZone::WindowStack(first, area) });
    assert_eq!(layout.stacking_indicator(), Some(area));
    let dropped =
        layout.drop_window(window(2), stack(1), rect(0, 0, 50, 50), &mut keys, &Vec::new());
    assert!(dropped.stacked);
    assert_eq!(dropped.node, first);
    let ids: Vec<u64> = areas(&layout).iter().map(|(id, _)| *id).collect();
    assert_eq!(ids, [1, 3]);
}

#[test]
fn an_ended_drag_leaves_nothing_behind() {
    let mut keys = KeySource::new();
    let (mut layout, [_, second, _]) = three(TilingEngine::Classic, &mut keys);
    assert!(layout.cleanup_drag().is_none());
    layout.unmap_as_placeholder(Some(second), PlaceholderType::GrabbedWindow, &Vec::new());
    assert!(layout.cleanup_drag().is_some());
    assert_eq!(
        areas(&layout),
        [(1, rect(8, 8, 588, 784)), (3, rect(604, 8, 588, 784))]
    );
    assert_eq!(layout.stacking_indicator(), None);
    assert!(layout
        .unmap_as_placeholder(Some(second), PlaceholderType::GrabbedWindow, &Vec::new())
        .is_none());
}

#[test]
fn a_window_leaves_a_stack_for_the_place_of_another() {
    let mut keys = KeySource::new();
    let (mut layout, [first, second, _]) = three(TilingEngine::Classic, &mut keys);
    assert!(layout.toggle_stacking(Some(first), stack(1), &vec![], None, &mut keys, &Vec::new())
        .is_some());
    let swapped = layout.swap_stack_window(first, second, window(9), true, &Vec::new());
    let (taken, focus, _) = swapped.unwrap();
    assert_eq!(taken, [2]);
    assert!(matches!(focus, Some(KeyboardFocus::Window(9))));
    let ids: Vec<u64> = areas(&layout).iter().map(|(id, _)| *id).collect();
    assert_eq!(ids, [1, 9, 3]);
    assert!(layout
        .swap_stack_window(first, keys.next, window(9), true, &Vec::new())
        .is_none());
    // The other way round the focus goes to the stack.
    let swapped = layout.swap_stack_window(first, second, window(8), false, &Vec::new());
    let (taken, focus, _) = swapped.unwrap();
    assert_eq!(taken, [9]);
    assert!(matches!(focus, Some(KeyboardFocus::Window(1))));
}

#[test]
fn a_window_leaves_a_stack_for_the_place_of_one_elsewhere() {
    let mut keys = KeySource::new();
    let mut here = layout(TilingEngine::Classic);
    let mut there = layout(TilingEngine::Scrolling);
    let first = open(&mut here, &mut keys, 1, &[]);
    let second = open(&mut there, &mut keys, 2, &[]);
    assert!(here
        .toggle_stacking(Some(first), stack(1), &vec![], None, &mut keys, &Vec::new())
        .is_some());
    let (taken, focus, _, _) = TilingLayout::swap_stack_window_between(
        &mut here,
        &mut there,
        first,
        second,
        window(9),
        true,
        &Vec::new(),
        &Vec::new(),
    )
    .unwrap();
    assert_eq!(taken, [2]);
    assert!(matches!(focus, Some(KeyboardFocus::Window(9))));
    assert_eq!(areas(&there)[0].0, 9);
    let (_, focus, _, _) = TilingLayout::swap_stack_window_between(
        &mut here,
        &mut there,
        first,
        second,
        window(7),
        false,
        &Vec::new(),
        &Vec::new(),
    )
    .unwrap();
    assert!(matches!(focus, Some(KeyboardFocus::Window(1))));
}

#[test]
fn surfaces_are_found_within_their_windows() {
    assert_eq!(
        surface_area(rect(100, 50, 300, 200), Point { x: 10, y: 5 }),
        rect(110, 55, 290, 195)
    );
}

#[test]
fn a_node_does_not_change_places_with_itself() {
    assert!(swap_refused(true, 4, None, 4, None));
    assert!(swap_refused(true, 4, Some(1), 4, Some(1)));
    assert!(swap_refused(true, 4, Some(1), 4, None));
    assert!(!swap_refused(true, 4, Some(1), 4, Some(2)));
    assert!(!swap_refused(true, 4, None, 5, None));
    assert!(!swap_refused(false, 4, None, 4, None));
}

#[test]
fn the_viewport_is_read_back_from_what_is_shown() {
    let mut keys = KeySource::new();
    let (mut layout, _) = three(TilingEngine::Scrolling, &mut keys);
    open(&mut layout, &mut keys, 4, &[3]);
    settle(&mut layout);
    let before = layout.scrolling.model.viewport_x;
    let (moved, _) =
        layout.pan_scrolling_viewport(Float64 { bits: (-10.25f64).to_bits() }, &Vec::new());
    assert!(moved);
    let panned = layout.scrolling.model.viewport_x;
    assert_ne!(panned, before);
    let newest = duplicate(layout.tree());
    layout.scrolling.model.viewport_x = 0;
    assert!(layout.scrolling.sync_viewport_from_tree(&newest, rect(0, 0, 1_200, 800), (0, 8)));
    let back = layout.scrolling.model.viewport_x;
    assert!((back - panned).abs() <= SUBPIXEL / 2);
    assert_eq!(back % SUBPIXEL, 0);
}

#[test]
fn a_window_that_does_not_fit_its_old_place_any_more_is_not_put_there() {
    let mut keys = KeySource::new();
    let (mut layout, [_, second, _]) = three(TilingEngine::Classic, &mut keys);
    let unmapped = match layout.unmap(2, Some(second), None, &Vec::new()) {
        Ok(unmapped) => unmapped,
        Err(_) => panic!("the window is there"),
    };
    let mut state = unmapped.state.unwrap();
    assert!(layout.can_restore(&state));
    state.sizes.push(10);
    assert!(!layout.can_restore(&state));
    assert!(layout.has_room_beside_windows());
}
