//! The pointer over a layout, overviews of it, and how it is drawn.

use id_tree::{NodeId, Tree};

use scroll_tiling::actions::Direction;
use scroll_tiling::config::TilingEngine;
use scroll_tiling::data::{Data, PillIndicator, Window};
use scroll_tiling::fitting::{scale_to_center, swap_factor, swap_geometry, Proportion};
use scroll_tiling::geometry::{Orientation, Point, Rectangle, Size};
use scroll_tiling::groupview::{
    geometries_for_groupview, DecorationKey, GroupView, NodeArea, Overview, SwapMove,
};
use scroll_tiling::hover::{OverviewState, PointerPosition};
use scroll_tiling::keys::KeySource;
use scroll_tiling::layout::{Hover, TilingLayout};
use scroll_tiling::lookups::{KeyboardFocus, WindowArea};
use scroll_tiling::navigation::NodeDesc;
use scroll_tiling::pointer::{Beneath, ResizeForkTarget, WindowBounds};
use scroll_tiling::queue::WaitState;
use scroll_tiling::rendering::{
    drawn_focus, focus_area, overview_thickness, render_new_tree_windows, stack_swap_areas,
    DrawState, Fading, RenderState, Shown,
};
use scroll_tiling::tree::TreeNode;
use scroll_tiling::units::Float64;
use scroll_tiling::zones::TargetZone;

fn rect(x: i32, y: i32, w: i32, h: i32) -> Rectangle {
    Rectangle::new(x, y, w, h)
}

fn at(x: f64, y: f64) -> PointerPosition {
    PointerPosition { x: Float64 { bits: x.to_bits() }, y: Float64 { bits: y.to_bits() } }
}

fn window(id: u64) -> Window {
    Window {
        id,
        stack: false,
        activated: false,
        fullscreen: false,
        maximized: false,
        latest_size_committed: true,
        resizing: false,
    }
}

fn layout(engine: TilingEngine) -> TilingLayout {
    TilingLayout::new(rect(0, 0, 1_200, 800), Size { w: 1_200, h: 800 }, (0, 8), engine)
}

fn open(layout: &mut TilingLayout, keys: &mut KeySource, id: u64, focused: &[u64]) -> u64 {
    layout
        .map(window(id), &Some(focused.to_vec()), None, keys, &Vec::new())
        .0
}

/// One window on the left, and two on the right above each other.
fn three(keys: &mut KeySource) -> (TilingLayout, [u64; 3]) {
    let mut layout = layout(TilingEngine::Classic);
    let first = open(&mut layout, keys, 1, &[]);
    let second = open(&mut layout, keys, 2, &[1]);
    let third = open(&mut layout, keys, 3, &[2]);
    settle(&mut layout);
    (layout, [first, second, third])
}

fn settle(layout: &mut TilingLayout) {
    let done = WaitState { processed: true, ready: true };
    let mut now = 1_000;
    while layout.queue.trees.len() > 1 {
        let waits = vec![done; layout.queue.trees.len() - 1];
        layout.update_animation_state(now, done, &waits);
        now += 10_000;
    }
}

fn nodes(tree: &Tree<TreeNode>) -> Vec<NodeId> {
    match tree.root_node_id() {
        Some(root) => tree.traverse_pre_order_ids(root).unwrap().collect(),
        None => Vec::new(),
    }
}

fn root_key(layout: &TilingLayout) -> u64 {
    let tree = layout.tree();
    tree.get(tree.root_node_id().unwrap()).unwrap().data().key
}

fn placeholders(layout: &TilingLayout) -> usize {
    nodes(layout.tree())
        .iter()
        .filter(|id| layout.tree().get(id).unwrap().data().data.is_placeholder())
        .count()
}

fn bounds(ids: &[u64]) -> Vec<WindowBounds> {
    ids.iter()
        .map(|id| WindowBounds { window: *id, bbox: rect(-20, -20, 700, 900), maximized: false })
        .collect()
}

fn hovering() -> OverviewState {
    OverviewState { active: true, by_pointer: true, gap: 0 }
}

fn area_of(areas: &[NodeArea], key: u64) -> Option<Rectangle> {
    areas.iter().find(|area| area.key == key).map(|area| area.geometry)
}

fn view_of(layout: &TilingLayout, gap: i32, swap: Option<NodeDesc>) -> GroupView {
    geometries_for_groupview(
        layout.tree(),
        rect(0, 0, 1_200, 800),
        &Some(KeyboardFocus::Window(1)),
        Overview { gap, mouse: false, drawing: true, swap, stack_zone: None },
        None,
        &Vec::new(),
    )
}

fn bare(overview: Option<Overview>, swap: Option<NodeDesc>) -> RenderState {
    RenderState { zone: rect(0, 0, 1_200, 800), overview, active_output: true, swap }
}

#[test]
fn an_overview_shows_windows_with_gaps_around_them() {
    let mut keys = KeySource::new();
    let (layout, [first, second, third]) = three(&mut keys);
    let view = view_of(&layout, 20, None);
    assert_eq!(area_of(&view.areas, root_key(&layout)), Some(rect(0, 0, 1_200, 800)));
    assert_eq!(area_of(&view.areas, first), Some(rect(36, 36, 538, 728)));
    assert_eq!(area_of(&view.areas, second), Some(rect(646, 56, 498, 318)));
    assert_eq!(area_of(&view.areas, third), Some(rect(646, 426, 498, 318)));
    let backdrop = view
        .decorations
        .iter()
        .find(|decoration| decoration.key == DecorationKey::Overview(first))
        .unwrap();
    assert_eq!(backdrop.geometry, rect(24, 24, 562, 752));
    assert_eq!(backdrop.percent, 40);
    let other = view
        .decorations
        .iter()
        .find(|decoration| decoration.key == DecorationKey::Overview(third))
        .unwrap();
    assert_eq!(other.percent, 15);
    assert!(view.moves.is_empty());
}

#[test]
fn an_overview_without_gaps_still_keeps_backdrops_apart() {
    let mut keys = KeySource::new();
    let (layout, [first, second, _]) = three(&mut keys);
    let view = view_of(&layout, 0, None);
    assert_eq!(area_of(&view.areas, first), Some(rect(16, 16, 568, 768)));
    assert_eq!(area_of(&view.areas, second), Some(rect(616, 16, 568, 368)));
}

#[test]
fn a_node_that_waits_to_be_exchanged_goes_to_the_focused_one() {
    let mut keys = KeySource::new();
    let (layout, [_, _, third]) = three(&mut keys);
    let view = view_of(&layout, 20, Some(NodeDesc { node: third, whole: true }));
    assert_eq!(
        view.moves,
        [SwapMove {
            key: third,
            from: rect(646, 426, 498, 318),
            to: rect(236, 8, 360, 230),
        }]
    );
}

#[test]
fn the_layout_opens_where_the_pointer_rests() {
    let mut keys = KeySource::new();
    let (mut layout, [first, second, _]) = three(&mut keys);
    let mut hover = |layout: &mut TilingLayout, x: f64, y: f64, now: u64| {
        layout
            .update_pointer_position(Some(at(x, y)), hovering(), now, &mut keys)
            .is_some()
    };
    assert!(!hover(&mut layout, 300., 400., 0));
    assert_eq!(
        layout.last_overview_hover,
        Some(Hover { since: None, zone: TargetZone::Initial })
    );
    assert!(!hover(&mut layout, 300., 400., 10));
    assert!(!hover(&mut layout, 300., 400., 160));
    assert_eq!(
        layout.last_overview_hover,
        Some(Hover { since: Some(10), zone: TargetZone::Initial })
    );
    assert!(!hover(&mut layout, 300., 400., 161));
    assert_eq!(
        layout.last_overview_hover,
        Some(Hover {
            since: None,
            zone: TargetZone::WindowStack(first, rect(0, 0, 600, 800))
        })
    );
    assert_eq!(layout.stacking_indicator(), Some(rect(0, 0, 600, 800)));
    assert_eq!(placeholders(&layout), 0);

    assert!(!hover(&mut layout, 100., 400., 700));
    assert!(!hover(&mut layout, 100., 400., 850));
    assert!(hover(&mut layout, 100., 400., 851));
    assert_eq!(
        layout.last_overview_hover,
        Some(Hover { since: None, zone: TargetZone::WindowSplit(first, Direction::Left) })
    );
    assert_eq!(placeholders(&layout), 1);

    assert!(!hover(&mut layout, 700., 398., 900));
    assert!(hover(&mut layout, 700., 398., 1_100));
    assert_eq!(
        layout.last_overview_hover,
        Some(Hover { since: None, zone: TargetZone::WindowSplit(second, Direction::Down) })
    );
    assert_eq!(placeholders(&layout), 1);
    assert!(layout.cleanup_drag().is_some());
    assert_eq!(placeholders(&layout), 0);
}

#[test]
fn a_pointer_at_the_edge_of_everything_shows_a_bar_there() {
    let mut keys = KeySource::new();
    let (mut layout, _) = three(&mut keys);
    let root = root_key(&layout);
    layout.last_overview_hover = Some(Hover { since: Some(0), zone: TargetZone::Initial });
    let overview = OverviewState { gap: 32, ..hovering() };
    assert!(layout
        .update_pointer_position(Some(at(4., 400.)), overview, 1_000, &mut keys)
        .is_some());
    assert_eq!(
        layout.last_overview_hover,
        Some(Hover { since: None, zone: TargetZone::GroupEdge(root, Direction::Left) })
    );
    let tree = layout.tree();
    assert!(matches!(
        &tree.get(tree.root_node_id().unwrap()).unwrap().data().data,
        Data::Group { pill_indicator: Some(PillIndicator::Outer(Direction::Left)), .. }
    ));
}

#[test]
fn a_pointer_that_leaves_ends_the_hovering() {
    let mut keys = KeySource::new();
    let (mut layout, _) = three(&mut keys);
    layout.last_overview_hover = Some(Hover { since: None, zone: TargetZone::Initial });
    assert!(layout.update_pointer_position(None, hovering(), 0, &mut keys).is_none());
    assert_eq!(layout.last_overview_hover, None);

    let mut empty = self::layout(TilingEngine::Classic);
    assert!(empty.update_pointer_position(None, hovering(), 0, &mut keys).is_none());
    assert!(empty
        .update_pointer_position(Some(at(5., 5.)), hovering(), 0, &mut keys)
        .is_some());
    assert_eq!(placeholders(&empty), 1);
}

#[test]
fn the_pointer_finds_windows_and_the_gaps_between_them() {
    let mut keys = KeySource::new();
    let (layout, [first, second, third]) = three(&mut keys);
    let all = bounds(&[1, 2, 3]);
    let left = WindowArea { window: 1, geometry: rect(8, 8, 588, 784) };
    let (found, beneath) = layout.toplevel_surface_under(at(100., 100.), false, &None, &all);
    assert_eq!(found, [left]);
    assert_eq!(beneath, Some(Beneath::Tile(left)));
    assert_eq!(layout.toplevel_element_under(at(100., 100.), &all), [left]);

    let (found, beneath) = layout.toplevel_surface_under(at(700., 400.), false, &None, &all);
    assert!(found.is_empty());
    let inner = {
        let tree = layout.tree();
        let id = nodes(tree)
            .into_iter()
            .find(|id| tree.get(id).unwrap().data().key == third)
            .unwrap();
        let parent = tree.get(&id).unwrap().parent().unwrap().clone();
        tree.get(&parent).unwrap().data().key
    };
    assert_eq!(
        beneath,
        Some(Beneath::Fork(
            ResizeForkTarget {
                node: inner,
                left_up_idx: 0,
                orientation: Orientation::Horizontal,
                scrolling_resize: None,
            },
            Point { x: 1_792, y: 396 },
        ))
    );
    assert_eq!(layout.popup_element_under(at(600., 100.), &all).len(), 2);
    assert_eq!(layout.popup_surface_under(at(600., 100.), false, &all).len(), 2);
    assert!(layout.popup_surface_under(at(600., 100.), true, &all).is_empty());
    let (found, beneath) = layout.toplevel_surface_under(at(100., 100.), true, &None, &all);
    assert!(found.is_empty() && beneath.is_none());
    assert!(layout.toplevel_element_under(at(100., 100.), &Vec::new()).is_empty());
    assert!(first != second);
}

#[test]
fn maximized_windows_are_not_under_the_pointer() {
    let mut keys = KeySource::new();
    let (layout, _) = three(&mut keys);
    let known =
        vec![WindowBounds { window: 1, bbox: rect(0, 0, 588, 784), maximized: true }];
    assert_eq!(layout.toplevel_element_under(at(100., 100.), &known).len(), 1);
    let (found, _) = layout.toplevel_surface_under(at(100., 100.), false, &None, &known);
    assert!(found.is_empty());
}

#[test]
fn what_is_gone_fades_out_and_what_stays_moves() {
    let mut keys = KeySource::new();
    let (mut layout, [first, second, _]) = three(&mut keys);
    assert!(layout.unmap(2, Some(second), None, &Vec::new()).is_ok());
    let done = WaitState { processed: true, ready: true };
    layout.update_animation_state(50_000, done, &vec![done]);
    assert!(layout.animations_going());
    let scene = layout.render(&None, bare(None, None), None, &Vec::new(), &Vec::new());
    assert_eq!(
        scene.fading,
        [Fading {
            window: 2,
            original: rect(604, 8, 588, 388),
            geometry: rect(604, 8, 588, 388),
            minimize: None,
        }]
    );
    let moved: Vec<&Shown> = scene.shown.iter().filter(|shown| shown.is_animating()).collect();
    assert_eq!(moved.len(), 1);
    assert_eq!(moved[0].window, Some(3));
    assert_eq!(moved[0].from, Some(rect(604, 404, 588, 388)));
    assert_eq!(moved[0].target, rect(604, 8, 588, 784));
    let still = scene.shown.iter().find(|shown| shown.key == first).unwrap();
    assert_eq!(still.from, Some(still.target));
    let popups = layout.render_popups(&None, bare(None, None), None, &Vec::new(), &Vec::new());
    assert_eq!(popups.fading, scene.fading);
    let windows: Vec<Option<u64>> = popups.shown.iter().map(|shown| shown.window).collect();
    assert_eq!(windows, [Some(1), Some(3)]);
}

#[test]
fn the_focused_window_gets_an_indicator() {
    let mut keys = KeySource::new();
    let (layout, [first, _, third]) = three(&mut keys);
    let scene = layout.render(&None, bare(None, None), None, &Vec::new(), &Vec::new());
    assert!(scene.fading.is_empty());
    assert_eq!(scene.shown.len(), 5);
    assert_eq!(
        drawn_focus(layout.tree(), &None, Some((first, 1))),
        Some(first)
    );
    assert_eq!(drawn_focus(layout.tree(), &None, Some((first, 2))), None);
    let areas: Vec<Rectangle> = scene.shown.iter().map(|shown| shown.target).collect();
    let sizes: Vec<Size> = scene.shown.iter().map(|shown| shown.target.size).collect();
    let state = DrawState {
        is_overview: false,
        is_scrolling: false,
        focused: Some(first),
        swap: None,
        swap_window_shows: None,
        indicator_thickness: 4,
        resizing: false,
    };
    let drawing = render_new_tree_windows(
        layout.tree(),
        &scene.shown,
        &areas,
        &sizes,
        &scene.areas,
        rect(0, 0, 1_200, 800),
        &scene.live,
        state,
    );
    assert!(drawing.placeholder.is_none());
    for (shown, node) in scene.shown.iter().zip(drawing.nodes.iter()) {
        assert_eq!(node.indicator.is_some(), shown.key == first);
        if shown.key == third {
            assert_eq!(node.max_size, Some(Size { w: 588, h: 388 }));
        }
    }
    assert_eq!(
        focus_area(layout.tree(), Some(third), &Vec::new(), rect(0, 0, 1_200, 800)),
        rect(604, 404, 588, 388)
    );
    assert_eq!(
        focus_area(layout.tree(), None, &Vec::new(), rect(0, 0, 1_200, 800)),
        rect(4, 4, 1_192, 792)
    );
}

#[test]
fn indicators_get_as_thick_as_in_an_overview() {
    assert_eq!(overview_thickness(0, 4), 4);
    assert_eq!(overview_thickness(2, 1), 3);
    assert_eq!(overview_thickness(3, 1), 2);
    assert_eq!(overview_thickness(8, 4), 4);
}

#[test]
fn windows_that_wait_to_be_exchanged_are_scaled_down() {
    assert_eq!(swap_factor(Size { w: 300, h: 200 }), Proportion { num: 1, den: 1 });
    assert_eq!(swap_factor(Size { w: 720, h: 240 }), Proportion { num: 360, den: 720 });
    assert_eq!(swap_factor(Size { w: 360, h: 960 }), Proportion { num: 240, den: 960 });
    assert_eq!(
        swap_geometry(Size { w: 720, h: 240 }, rect(100, 50, 1_000, 600)),
        rect(740, 50, 360, 120)
    );
}

#[test]
fn areas_are_fitted_as_doubles_are() {
    let sizes = [(29, 100), (100, 29), (641, 480), (1_919, 1_079), (7, 3), (3_840, 2_160), (1, 1)];
    let rooms = [(50, 50), (14, 200), (333, 1_000), (1_200, 777), (6, 5), (2_560, 1_440)];
    for (w, h) in sizes {
        for (room_w, room_h) in rooms {
            let from = Size { w, h };
            let to = Size { w: room_w, h: room_h };
            let scale_w = f64::from(room_w) / f64::from(w);
            let scale_h = f64::from(room_h) / f64::from(h);
            let (scale, x, y) = if scale_w > scale_h {
                let rest = f64::from(room_w) - f64::from(w) * scale_h;
                (scale_h, (rest / 2.0).round() as i32, 0)
            } else {
                let rest = f64::from(room_h) - f64::from(h) * scale_w;
                (scale_w, 0, (rest / 2.0).round() as i32)
            };
            let (proportion, offset) = scale_to_center(from, to);
            assert_eq!((offset.x, offset.y), (x, y));
            assert_eq!(proportion.apply(w), (f64::from(w) * scale).round() as i32);
            assert_eq!(proportion.apply(h), (f64::from(h) * scale).round() as i32);
        }
    }
}

#[test]
fn areas_are_scaled_into_the_middle_of_others() {
    assert_eq!(
        scale_to_center(Size { w: 200, h: 100 }, Size { w: 100, h: 100 }),
        (Proportion { num: 100, den: 200 }, Point { x: 0, y: 25 })
    );
    assert_eq!(
        scale_to_center(Size { w: 100, h: 200 }, Size { w: 100, h: 100 }),
        (Proportion { num: 100, den: 200 }, Point { x: 25, y: 0 })
    );
    assert_eq!(
        rect(0, 0, 200, 100).fitted(rect(10, 20, 100, 100)),
        rect(10, 45, 100, 50)
    );
}

#[test]
fn a_stack_that_gives_up_a_window_leaves_room_for_its_tabs() {
    let (stack, swapped) = stack_swap_areas(rect(100, 50, 600, 400), Size { w: 720, h: 240 }, 24);
    assert_eq!(stack, rect(124, 50, 600, 376));
    assert_eq!(swapped, rect(340, 50, 360, 120));
}
