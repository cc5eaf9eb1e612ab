//! The strip of columns.

use scroll_tiling::actions::ResizeDirection;
use scroll_tiling::columns::{
    Column, ColumnDropTarget, ColumnModel, ColumnResizeAnchor, ColumnWidth, TileMove,
};
use scroll_tiling::geometry::Rectangle;
use scroll_tiling::placement::{scrolling_viewport, should_configure_live_resize};
use scroll_tiling::rows::{vertical_tile_rows, weighted_vertical_tile_rows};
use scroll_tiling::units::{Float64, SUBPIXEL};

/// A number of pixels in subpixels.
fn pixels(pixels: i32) -> i128 {
    i128::from(pixels) * SUBPIXEL
}

/// A row weight as it is stored.
fn weight(weight: u64) -> u128 {
    u128::from(weight) << 52
}

/// A number as the library takes it.
fn number(value: f64) -> Float64 {
    Float64 { bits: value.to_bits() }
}

fn fraction_of(width: ColumnWidth) -> f64 {
    f64::from(width.num) / f64::from(width.den)
}

fn fraction_width(fraction: f64) -> ColumnWidth {
    ColumnWidth::new((fraction * 100.0).round() as u32, 100)
}

fn assert_viewport(model: &ColumnModel, expected: f64) {
    assert_eq!(model.viewport_x as f64 / SUBPIXEL as f64, expected);
}

fn tile_columns(model: &ColumnModel) -> Vec<Vec<u64>> {
    model
        .columns
        .iter()
        .map(|column| column.tiles.clone())
        .collect()
}

fn width_fractions(model: &ColumnModel) -> Vec<f64> {
    model
        .columns
        .iter()
        .map(|column| fraction_of(column.width))
        .collect()
}

fn column_row_heights(model: &ColumnModel, column: usize) -> Vec<i32> {
    let weights = model.columns[column]
        .tiles
        .iter()
        .map(|tile| model.tile_weight(*tile))
        .collect::<Vec<_>>();
    weighted_vertical_tile_rows(model.column_height, model.gap, &weights)
        .into_iter()
        .map(|(_, height)| height)
        .collect()
}

#[test]
fn initial_reconciliation_creates_default_width_single_tile_columns() {
    let mut model = ColumnModel::default();
    model.reconcile(&[1, 2, 3]);

    assert_eq!(tile_columns(&model), [[1], [2], [3]]);
    assert_eq!(
        width_fractions(&model),
        [
            0.66,
            0.66,
            0.66
        ]
    );
}

#[test]
fn new_toplevel_opens_after_the_focused_multi_tile_column() {
    let mut model = ColumnModel {
        columns: vec![
            Column {
                tiles: vec![1, 2],
                width: ColumnWidth::new(50, 100),
            },
            Column {
                tiles: vec![3, 4],
                width: ColumnWidth::new(80, 100),
            },
        ],
        tile_weights: vec![(1, weight(2)), (2, weight(1)), (3, weight(1)), (4, weight(3))],
        focused: Some(2),
        ..ColumnModel::default()
    };

    model.insert_new_toplevel(5, Some(2));

    assert_eq!(tile_columns(&model), [vec![1, 2], vec![5], vec![3, 4]]);
    assert_eq!(width_fractions(&model), [0.5, 0.66, 0.8]);
    assert_eq!(model.tile_weight(1), weight(2));
    assert_eq!(model.tile_weight(2), weight(1));
    assert_eq!(model.tile_weight(3), weight(1));
    assert_eq!(model.tile_weight(4), weight(3));
    assert_eq!(model.tile_weight(5), weight(1));
    assert_eq!(model.focused, Some(2));
}

#[test]
fn new_toplevel_after_last_column_or_invalid_focus_appends_deterministically() {
    let mut model = ColumnModel::default();
    model.reconcile(&[1, 2]);

    model.insert_new_toplevel(3, Some(2));
    model.insert_new_toplevel(4, Some(99));
    model.insert_new_toplevel(5, None);

    assert_eq!(tile_columns(&model), [[1], [2], [3], [4], [5]]);
    assert_eq!(width_fractions(&model), [0.66; 5]);
}

#[test]
fn repeated_new_toplevel_notification_never_duplicates_a_tile() {
    let mut model = ColumnModel::default();
    model.reconcile(&[1, 2, 3]);

    model.insert_new_toplevel(4, Some(1));
    model.insert_new_toplevel(4, Some(3));

    assert_eq!(tile_columns(&model), [[1], [2], [3], [4]]);
    assert_eq!(
        model
            .columns
            .iter()
            .flat_map(|column| column.tiles.iter())
            .filter(|tile| **tile == 4)
            .count(),
        1
    );
}

#[test]
fn reconciliation_preserves_strip_order_and_appends_in_supplied_order() {
    let mut model = ColumnModel::default();
    model.reconcile(&[1, 2, 3]);

    assert!(model.move_by(2, 1));
    model.reconcile(&[3, 1, 5, 2, 4]);
    assert_eq!(tile_columns(&model), [[1], [3], [2], [5], [4]]);

    model.reconcile(&[4, 3, 2]);
    assert_eq!(tile_columns(&model), [[3], [2], [4]]);
}

#[test]
fn reconciliation_prevents_input_and_modeled_duplicates() {
    let mut model = ColumnModel {
        columns: vec![
            Column {
                tiles: vec![1, 2],
                width: ColumnWidth::new(40, 100),
            },
            Column {
                tiles: vec![2, 3, 1],
                width: ColumnWidth::new(70, 100),
            },
        ],
        ..ColumnModel::default()
    };

    model.reconcile(&[1, 1, 2, 3, 3]);

    assert_eq!(tile_columns(&model), [vec![1, 2], vec![3]]);
    assert_eq!(width_fractions(&model), [0.4, 0.7]);
}

#[test]
fn reconciliation_removes_stale_tiles_and_empty_columns() {
    let mut model = ColumnModel {
        columns: vec![
            Column {
                tiles: vec![1, 2],
                width: ColumnWidth::new(40, 100),
            },
            Column::single(3),
            Column {
                tiles: vec![4, 5],
                width: ColumnWidth::new(80, 100),
            },
        ],
        ..ColumnModel::default()
    };

    model.reconcile(&[4, 2]);

    assert_eq!(tile_columns(&model), [[2], [4]]);
    assert_eq!(width_fractions(&model), [0.4, 0.8]);
}

#[test]
fn reconciliation_preserves_a_modeled_multi_tile_column() {
    let mut model = ColumnModel {
        columns: vec![
            Column {
                tiles: vec![1, 2, 3],
                width: ColumnWidth::new(75, 100),
            },
            Column {
                tiles: vec![4],
                width: ColumnWidth::new(50, 100),
            },
        ],
        ..ColumnModel::default()
    };

    model.reconcile(&[3, 2, 4, 5]);

    assert_eq!(tile_columns(&model), [vec![2, 3], vec![4], vec![5]]);
    assert_eq!(
        width_fractions(&model),
        [0.75, 0.5, 0.66]
    );
}

#[test]
fn focus_follows_tile_identity_and_clears_when_the_tile_is_removed() {
    let mut model = ColumnModel::default();
    model.reconcile(&[1, 2, 3]);
    model.set_metrics(1_000, 10);
    assert!(model.ensure_visible(2));
    assert_eq!(model.focused, Some(2));

    assert!(model.move_by(2, 1));
    model.reconcile(&[3, 2, 1]);
    assert_eq!(tile_columns(&model), [[1], [3], [2]]);
    assert_eq!(model.focused, Some(2));

    model.reconcile(&[1, 3]);
    assert_eq!(model.focused, None);
    assert_viewport(&model, 330.0);
}

#[test]
fn horizontal_focus_finds_neighbors_and_edges() {
    let mut model = ColumnModel::default();
    model.reconcile(&[10, 20, 30]);

    assert_eq!(model.adjacent_column(20, -1), Some(10));
    assert_eq!(model.adjacent_column(20, 1), Some(30));
    assert_eq!(model.adjacent_column(10, -1), None);
    assert_eq!(model.adjacent_column(30, 1), None);
}

#[test]
fn vertical_focus_finds_neighbors_and_stops_at_column_edges() {
    let model = ColumnModel {
        columns: vec![
            Column {
                tiles: vec![10, 20, 30],
                width: ColumnWidth::new(40, 100),
            },
            Column::single(40),
        ],
        ..ColumnModel::default()
    };

    assert_eq!(model.adjacent_tile(20, -1), Some(10));
    assert_eq!(model.adjacent_tile(20, 1), Some(30));
    assert_eq!(model.adjacent_tile(10, -1), None);
    assert_eq!(model.adjacent_tile(30, 1), None);
    assert_eq!(model.adjacent_tile(40, -1), None);
    assert_eq!(model.adjacent_tile(40, 1), None);
    assert_eq!(model.adjacent_tile(99, 1), None);
}

#[test]
fn vertical_focus_follows_pointer_order_and_replacement_identity() {
    let mut model = ColumnModel {
        columns: vec![
            Column::single(1),
            Column {
                tiles: vec![2, 3, 4],
                width: ColumnWidth::new(75, 100),
            },
            Column::single(5),
        ],
        ..ColumnModel::default()
    };
    model.set_metrics(1_000, 10);
    model.ensure_visible(3);

    assert!(model.begin_drag(3));
    model.reconcile(&[1, 2, 4, 5]);
    model.finish_drag(Some(6), ColumnDropTarget::Below(4));
    assert!(model.begin_drag(6));
    model.reconcile(&[1, 2, 4, 5]);
    model.finish_drag(Some(7), ColumnDropTarget::Above(2));

    let columns = model.columns.clone();
    let viewport = model.viewport_x;
    assert_eq!(tile_columns(&model), [vec![1], vec![7, 2, 4], vec![5]]);
    assert_eq!(model.adjacent_tile(2, -1), Some(7));
    assert_eq!(model.adjacent_tile(2, 1), Some(4));
    assert!(!model.ensure_visible(4));
    assert_eq!(model.columns, columns);
    assert_eq!(model.viewport_x, viewport);
    assert_eq!(model.focused, Some(4));
}

#[test]
fn adding_a_column_keeps_existing_virtual_geometry() {
    let mut model = ColumnModel::default();
    model.reconcile(&[1, 2]);
    model.set_metrics(1_000, 10);
    let before = [model.layout_x(0), model.layout_x(1)];

    model.reconcile(&[1, 2, 3]);
    model.set_metrics(1_000, 10);

    assert_eq!(model.column_width(0), 660);
    assert_eq!([model.layout_x(0), model.layout_x(1)], before);
    assert_viewport(&model, 0.0);
}

#[test]
fn viewport_follows_focus_without_moving_visible_columns() {
    let mut model = ColumnModel::default();
    model.reconcile(&[1, 2, 3]);
    model.set_metrics(1_000, 10);

    assert!(!model.ensure_visible(1));
    assert_viewport(&model, 0.0);

    assert!(model.ensure_visible(2));
    assert_viewport(&model, 330.0);

    assert!(model.ensure_visible(3));
    assert_viewport(&model, 1_000.0);

    assert!(model.ensure_visible(2));
    assert_viewport(&model, 670.0);
}

#[test]
fn requested_focus_fully_reveals_edge_columns_before_activation_updates() {
    let mut model = ColumnModel::default();
    model.reconcile(&[1, 2, 3]);
    model.set_metrics(1_000, 10);

    assert!(model.ensure_visible(2));
    assert_viewport(&model, 330.0);

    // During Shell::set_focus, 2 is still activated while 3 is the new
    // requested focus. The request must win so the last column is fully
    // visible rather than leaving the viewport between both columns.
    assert!(model.ensure_preferred_visible(Some(3), Some(2)));
    assert_viewport(&model, 1_000.0);

    // The same rule must fully reveal the first column at the other edge.
    assert!(model.ensure_preferred_visible(Some(1), Some(3)));
    assert_viewport(&model, 0.0);
}

#[test]
fn reorder_moves_only_the_focused_column() {
    let mut model = ColumnModel::default();
    model.reconcile(&[1, 2, 3]);
    model.set_metrics(1_000, 10);
    let first = model.columns[0].clone();
    let third = model.columns[2].clone();

    assert!(model.move_by(2, 1));
    assert_eq!(tile_columns(&model), [[1], [3], [2]]);
    assert_eq!(model.columns[0], first);
    assert_eq!(model.columns[1], third);
    assert_eq!(model.focused, Some(2));
    assert!(!model.move_by(2, 1));

    assert!(model.move_by(2, -1));
    assert_eq!(tile_columns(&model), [[1], [2], [3]]);
    assert_eq!(model.focused, Some(2));
}

#[test]
fn width_state_follows_a_reordered_column() {
    let mut model = ColumnModel::default();
    model.reconcile(&[1, 2, 3]);
    model.columns[1].width = ColumnWidth::new(35, 100);

    assert!(model.move_by(2, 1));
    assert_eq!(tile_columns(&model), [[1], [3], [2]]);
    assert_eq!(
        width_fractions(&model),
        [0.66, 0.66, 0.35]
    );
}

#[test]
fn horizontal_move_extracts_only_the_focused_tile_from_a_stack() {
    let columns = vec![
        Column::single(1),
        Column {
            tiles: vec![2, 3, 4],
            width: ColumnWidth::new(75, 100),
        },
        Column {
            tiles: vec![5],
            width: ColumnWidth::new(80, 100),
        },
    ];
    let mut move_left = ColumnModel {
        columns: columns.clone(),
        ..ColumnModel::default()
    };
    let mut move_right = ColumnModel {
        columns,
        ..ColumnModel::default()
    };

    assert!(move_left.move_by(3, -1));
    assert_eq!(
        tile_columns(&move_left),
        [vec![1], vec![3], vec![2, 4], vec![5]]
    );
    assert_eq!(
        width_fractions(&move_left),
        [0.66, 0.66, 0.75, 0.8]
    );
    assert_eq!(move_left.focused, Some(3));

    assert!(move_right.move_by(3, 1));
    assert_eq!(
        tile_columns(&move_right),
        [vec![1], vec![2, 4], vec![3], vec![5]]
    );
    assert_eq!(
        width_fractions(&move_right),
        [0.66, 0.75, 0.66, 0.8]
    );
    assert_eq!(move_right.focused, Some(3));

    assert!(move_right.move_by(3, 1));
    assert_eq!(
        tile_columns(&move_right),
        [vec![1], vec![2, 4], vec![5], vec![3]]
    );
    assert_eq!(
        width_fractions(&move_right),
        [0.66, 0.75, 0.8, 0.66]
    );
}

#[test]
fn horizontal_move_can_extract_at_both_strip_edges() {
    let columns = vec![
        Column {
            tiles: vec![1, 2],
            width: ColumnWidth::new(40, 100),
        },
        Column {
            tiles: vec![3, 4],
            width: ColumnWidth::new(80, 100),
        },
    ];
    let mut left = ColumnModel {
        columns: columns.clone(),
        ..ColumnModel::default()
    };
    let mut right = ColumnModel {
        columns,
        ..ColumnModel::default()
    };

    assert!(left.move_by(1, -1));
    assert_eq!(tile_columns(&left), [vec![1], vec![2], vec![3, 4]]);
    assert_eq!(width_fractions(&left), [0.66, 0.4, 0.8]);

    assert!(right.move_by(4, 1));
    assert_eq!(tile_columns(&right), [vec![1, 2], vec![3], vec![4]]);
    assert_eq!(width_fractions(&right), [0.4, 0.8, 0.66]);
}

#[test]
fn vertical_move_reorders_tiles_until_the_focused_tile_reaches_an_edge() {
    let mut model = ColumnModel {
        columns: vec![
            Column::single(1),
            Column {
                tiles: vec![2, 3, 4],
                width: ColumnWidth::new(75, 100),
            },
            Column::single(5),
        ],
        ..ColumnModel::default()
    };
    model.set_metrics(1_000, 10);
    model.ensure_visible(3);
    let viewport = model.viewport_x;
    let widths = width_fractions(&model);

    assert_eq!(model.move_tile_vertical(3, 1), TileMove::Moved);
    assert_eq!(tile_columns(&model), [vec![1], vec![2, 4, 3], vec![5]]);
    assert_eq!(model.focused, Some(3));
    assert_eq!(model.viewport_x, viewport);
    assert_eq!(width_fractions(&model), widths);
    assert_eq!(model.move_tile_vertical(3, 1), TileMove::Edge);

    assert_eq!(model.move_tile_vertical(3, -1), TileMove::Moved);
    assert_eq!(tile_columns(&model), [vec![1], vec![2, 3, 4], vec![5]]);
}

#[test]
fn vertical_move_first_merges_a_single_tile_into_its_left_neighbor() {
    let mut model = ColumnModel {
        columns: vec![
            Column {
                tiles: vec![1],
                width: ColumnWidth::new(40, 100),
            },
            Column {
                tiles: vec![2],
                width: ColumnWidth::new(35, 100),
            },
            Column {
                tiles: vec![3, 4],
                width: ColumnWidth::new(80, 100),
            },
        ],
        ..ColumnModel::default()
    };

    assert_eq!(model.move_tile_vertical(2, 1), TileMove::Moved);
    assert_eq!(tile_columns(&model), [vec![1, 2], vec![3, 4]]);
    assert_eq!(width_fractions(&model), [0.4, 0.8]);
    assert_eq!(model.focused, Some(2));
    assert_eq!(model.move_tile_vertical(2, 1), TileMove::Edge);
}

#[test]
fn vertical_move_uses_the_right_neighbor_for_the_first_column() {
    let columns = vec![
        Column {
            tiles: vec![1],
            width: ColumnWidth::new(35, 100),
        },
        Column {
            tiles: vec![2, 3],
            width: ColumnWidth::new(80, 100),
        },
    ];
    let mut move_up = ColumnModel {
        columns: columns.clone(),
        ..ColumnModel::default()
    };
    let mut move_down = ColumnModel {
        columns,
        ..ColumnModel::default()
    };

    assert_eq!(move_up.move_tile_vertical(1, -1), TileMove::Moved);
    assert_eq!(tile_columns(&move_up), [[1, 2, 3]]);
    assert_eq!(width_fractions(&move_up), [0.8]);
    assert_eq!(move_up.move_tile_vertical(1, -1), TileMove::Edge);

    assert_eq!(move_down.move_tile_vertical(1, 1), TileMove::Moved);
    assert_eq!(tile_columns(&move_down), [[2, 3, 1]]);
    assert_eq!(width_fractions(&move_down), [0.8]);
    assert_eq!(move_down.move_tile_vertical(1, 1), TileMove::Edge);
}

#[test]
fn vertical_move_handles_an_only_column_and_stale_identity_safely() {
    let mut model = ColumnModel::default();
    model.reconcile(&[1]);

    assert_eq!(model.move_tile_vertical(1, -1), TileMove::Edge);
    assert_eq!(model.move_tile_vertical(1, 1), TileMove::Edge);
    assert_eq!(model.move_tile_vertical(2, 1), TileMove::Unavailable);
    assert_eq!(tile_columns(&model), [[1]]);
}

#[test]
fn pointer_drop_places_columns_before_after_and_at_strip_edges() {
    let mut model = ColumnModel::default();
    model.reconcile(&[1, 2, 3, 4]);

    assert!(model.begin_drag(3));
    model.finish_drag(Some(3), ColumnDropTarget::Before(1));
    assert_eq!(tile_columns(&model), [[3], [1], [2], [4]]);

    assert!(model.begin_drag(3));
    model.finish_drag(Some(3), ColumnDropTarget::After(4));
    assert_eq!(tile_columns(&model), [[1], [2], [4], [3]]);

    assert!(model.begin_drag(3));
    model.finish_drag(Some(3), ColumnDropTarget::First);
    assert_eq!(tile_columns(&model), [[3], [1], [2], [4]]);

    assert!(model.begin_drag(3));
    model.finish_drag(Some(3), ColumnDropTarget::Last);
    assert_eq!(tile_columns(&model), [[1], [2], [4], [3]]);
}

#[test]
fn pointer_drop_at_current_position_is_a_noop() {
    let mut model = ColumnModel::default();
    model.reconcile(&[1, 2, 3, 4]);
    let before = model.columns.clone();

    assert!(model.begin_drag(2));
    model.finish_drag(Some(2), ColumnDropTarget::Before(3));

    assert_eq!(model.columns, before);
    assert_eq!(model.focused, Some(2));
}

#[test]
fn pointer_drop_above_and_below_builds_one_ordered_column() {
    let mut model = ColumnModel {
        columns: vec![
            Column {
                tiles: vec![1],
                width: ColumnWidth::new(40, 100),
            },
            Column {
                tiles: vec![2],
                width: ColumnWidth::new(80, 100),
            },
            Column::single(3),
        ],
        ..ColumnModel::default()
    };

    assert!(model.begin_drag(1));
    model.reconcile(&[2, 3]);
    model.finish_drag(Some(4), ColumnDropTarget::Above(2));
    assert_eq!(tile_columns(&model), [vec![4, 2], vec![3]]);
    assert_eq!(width_fractions(&model), [0.8, 0.66]);

    assert!(model.begin_drag(3));
    model.reconcile(&[4, 2]);
    model.finish_drag(Some(5), ColumnDropTarget::Below(2));
    assert_eq!(tile_columns(&model), [vec![4, 2, 5]]);
    assert_eq!(width_fractions(&model), [0.8]);
    assert_eq!(model.focused, Some(5));
}

#[test]
fn pointer_drop_reorders_stably_within_a_column() {
    let mut model = ColumnModel {
        columns: vec![Column {
            tiles: vec![1, 2, 3, 4],
            width: ColumnWidth::new(75, 100),
        }],
        ..ColumnModel::default()
    };

    assert!(model.begin_drag(2));
    model.reconcile(&[1, 3, 4]);
    model.finish_drag(Some(5), ColumnDropTarget::Below(4));
    assert_eq!(tile_columns(&model), [[1, 3, 4, 5]]);

    assert!(model.begin_drag(4));
    model.reconcile(&[1, 3, 5]);
    model.finish_drag(Some(6), ColumnDropTarget::Above(1));
    assert_eq!(tile_columns(&model), [[6, 1, 3, 5]]);
    assert_eq!(width_fractions(&model), [0.75]);
    assert_eq!(model.focused, Some(6));
}

#[test]
fn vertical_drop_moves_only_one_tile_between_columns() {
    let mut model = ColumnModel {
        columns: vec![
            Column {
                tiles: vec![1, 2],
                width: ColumnWidth::new(40, 100),
            },
            Column {
                tiles: vec![3, 4],
                width: ColumnWidth::new(80, 100),
            },
        ],
        ..ColumnModel::default()
    };

    assert!(model.begin_drag(2));
    model.reconcile(&[1, 3, 4]);
    model.finish_drag(Some(5), ColumnDropTarget::Above(4));

    assert_eq!(tile_columns(&model), [vec![1], vec![3, 5, 4]]);
    assert_eq!(width_fractions(&model), [0.4, 0.8]);
    assert_eq!(model.focused, Some(5));
}

#[test]
fn horizontal_drop_extracts_one_tile_with_default_width() {
    let mut model = ColumnModel {
        columns: vec![
            Column {
                tiles: vec![1, 2],
                width: ColumnWidth::new(40, 100),
            },
            Column {
                tiles: vec![3, 4],
                width: ColumnWidth::new(80, 100),
            },
        ],
        ..ColumnModel::default()
    };

    assert!(model.begin_drag(2));
    model.reconcile(&[1, 3, 4]);
    model.finish_drag(Some(5), ColumnDropTarget::Before(3));

    assert_eq!(tile_columns(&model), [vec![1], vec![5], vec![3, 4]]);
    assert_eq!(width_fractions(&model), [0.4, 0.66, 0.8]);
}

#[test]
fn cancelling_multi_tile_drag_restores_the_exact_model() {
    let mut model = ColumnModel {
        columns: vec![
            Column {
                tiles: vec![1, 2, 3],
                width: ColumnWidth::new(40, 100),
            },
            Column {
                tiles: vec![4],
                width: ColumnWidth::new(80, 100),
            },
        ],
        ..ColumnModel::default()
    };
    model.set_metrics(1_000, 10);
    model.ensure_visible(2);
    let before = model.clone();

    assert!(model.begin_drag(2));
    model.reconcile(&[1, 3, 4]);
    model.cancel_drag();

    assert_eq!(model.columns, before.columns);
    assert_eq!(model.focused, before.focused);
    assert_eq!(model.viewport_x, before.viewport_x);
    assert!(model.pending_drag.is_none());
}

#[test]
fn pointer_drop_transfers_width_and_focus_to_a_replaced_node() {
    let mut model = ColumnModel::default();
    model.reconcile(&[1, 2, 3]);
    model.columns[1].width = ColumnWidth::new(35, 100);
    model.set_metrics(1_000, 10);
    model.ensure_visible(2);

    assert!(model.begin_drag(2));
    model.reconcile(&[1, 3]);
    model.finish_drag(Some(4), ColumnDropTarget::After(3));

    assert_eq!(tile_columns(&model), [[1], [3], [4]]);
    assert_eq!(
        width_fractions(&model),
        [0.66, 0.66, 0.35]
    );
    assert_eq!(model.focused, Some(4));
    assert_eq!(
        model
            .columns
            .iter()
            .map(|column| column.tiles.len())
            .sum::<usize>(),
        3
    );
}

#[test]
fn cancelling_pointer_drag_restores_order_width_focus_and_viewport() {
    let mut model = ColumnModel::default();
    model.reconcile(&[1, 2, 3]);
    model.columns[1].width = ColumnWidth::new(35, 100);
    model.set_metrics(1_000, 10);
    model.ensure_visible(2);
    let viewport = model.viewport_x;

    assert!(model.begin_drag(2));
    model.reconcile(&[1, 3]);
    model.cancel_drag();

    assert_eq!(tile_columns(&model), [[1], [2], [3]]);
    assert_eq!(
        width_fractions(&model),
        [0.66, 0.35, 0.66]
    );
    assert_eq!(model.focused, Some(2));
    assert_eq!(model.viewport_x, viewport);
}

#[test]
fn repeated_pointer_drops_do_not_leave_duplicates_or_phantom_columns() {
    let mut model = ColumnModel::default();
    model.reconcile(&[1, 2, 3]);

    assert!(model.begin_drag(2));
    model.reconcile(&[1, 3]);
    model.finish_drag(Some(4), ColumnDropTarget::After(3));
    model.reconcile(&[1, 3, 4, 4]);
    assert_eq!(tile_columns(&model), [[1], [3], [4]]);

    assert!(model.begin_drag(4));
    model.reconcile(&[1, 3]);
    model.finish_drag(Some(5), ColumnDropTarget::Above(3));
    model.reconcile(&[5, 1, 3]);
    assert_eq!(tile_columns(&model), [vec![1], vec![5, 3]]);

    assert!(model.begin_drag(5));
    model.reconcile(&[1, 3]);
    model.finish_drag(Some(6), ColumnDropTarget::Before(1));
    model.reconcile(&[6, 1, 3]);

    assert_eq!(tile_columns(&model), [[6], [1], [3]]);
    assert!(!model.contains(2));
    assert!(!model.contains(4));
    assert!(!model.contains(5));
    assert_eq!(model.focused, Some(6));
}

#[test]
fn stacking_drop_discards_only_the_dragged_tile() {
    let mut model = ColumnModel {
        columns: vec![
            Column {
                tiles: vec![1, 2],
                width: ColumnWidth::new(40, 100),
            },
            Column::single(3),
        ],
        ..ColumnModel::default()
    };

    assert!(model.begin_drag(2));
    model.finish_drag(Some(3), ColumnDropTarget::Discard);
    model.reconcile(&[1, 3]);

    assert_eq!(tile_columns(&model), [[1], [3]]);
    assert_eq!(width_fractions(&model), [0.4, 0.66]);
    assert_eq!(model.focused, Some(3));
}

#[test]
fn vertical_tile_geometry_preserves_single_tile_and_equal_two_tile_layouts() {
    assert_eq!(vertical_tile_rows(100, 10, 1), [(0, 100)]);
    assert_eq!(vertical_tile_rows(100, 10, 2), [(0, 45), (55, 45)]);
}

#[test]
fn vertical_tile_geometry_distributes_remainder_from_the_top() {
    let rows = vertical_tile_rows(100, 10, 3);

    assert_eq!(rows, [(0, 27), (37, 27), (74, 26)]);
    assert_eq!(rows.last().map(|(y, height)| y + height), Some(100));

    let weighted = weighted_vertical_tile_rows(100, 10, &[weight(2), weight(1), weight(1)]);
    assert_eq!(weighted, [(0, 40), (50, 20), (80, 20)]);
    assert_eq!(weighted.last().map(|(y, height)| y + height), Some(100));
}

#[test]
fn vertical_tile_geometry_is_safe_when_the_viewport_is_smaller_than_the_gaps() {
    let rows = vertical_tile_rows(2, 10, 3);

    assert_eq!(rows, [(0, 0), (1, 0), (2, 0)]);
    assert!(rows.iter().all(|(_, height)| *height >= 0));
    assert_eq!(vertical_tile_rows(100, 10, 0), []);
}

#[test]
fn variable_widths_drive_strip_positions_and_total_width() {
    let mut model = ColumnModel::default();
    model.reconcile(&[1, 2, 3]);
    model.columns[0].width = ColumnWidth::new(40, 100);
    model.columns[1].width = ColumnWidth::new(70, 100);
    model.columns[2].width = ColumnWidth::new(50, 100);
    model.set_metrics(1_000, 10);

    assert_eq!(model.column_width(0), 400);
    assert_eq!(model.column_width(1), 700);
    assert_eq!(model.column_width(2), 500);
    assert_eq!(
        [model.layout_x(0), model.layout_x(1), model.layout_x(2)],
        [pixels(0), pixels(410), pixels(1_120)]
    );
    assert_eq!(model.strip_width(), pixels(1620));
}

#[test]
fn column_width_presets_cycle_forwards_and_backwards_with_wrapping() {
    let mut forwards = ColumnModel::default();
    forwards.reconcile(&[1]);
    forwards.set_metrics(1_000, 10);
    for (fraction, pixels) in [(1.0, 1_000), (0.33, 330), (0.5, 500), (0.66, 660)] {
        assert!(forwards.cycle_column_width(1, ResizeDirection::Outwards));
        assert_eq!(fraction_of(forwards.columns[0].width), fraction);
        assert_eq!(forwards.column_width(0), pixels);
    }

    let mut backwards = ColumnModel::default();
    backwards.reconcile(&[1]);
    backwards.set_metrics(1_000, 10);
    for (fraction, pixels) in [(0.5, 500), (0.33, 330), (1.0, 1_000), (0.66, 660)] {
        assert!(backwards.cycle_column_width(1, ResizeDirection::Inwards));
        assert_eq!(fraction_of(backwards.columns[0].width), fraction);
        assert_eq!(backwards.column_width(0), pixels);
    }
}

#[test]
fn width_cycle_changes_the_whole_focused_column_only() {
    let mut model = ColumnModel {
        columns: vec![
            Column {
                tiles: vec![1, 2, 3],
                width: ColumnWidth::new(40, 100),
            },
            Column {
                tiles: vec![4],
                width: ColumnWidth::new(80, 100),
            },
        ],
        ..ColumnModel::default()
    };
    model.set_metrics(1_000, 10);

    assert!(model.cycle_column_width(2, ResizeDirection::Outwards));
    assert_eq!(tile_columns(&model), [vec![1, 2, 3], vec![4]]);
    assert_eq!(width_fractions(&model), [0.5, 0.8]);
    assert_eq!(model.focused, Some(2));
    assert!(!model.cycle_column_width(5, ResizeDirection::Outwards));
    assert_eq!(width_fractions(&model), [0.5, 0.8]);
}

#[test]
fn continuous_width_selects_the_adjacent_preset_in_each_direction() {
    let mut model = ColumnModel {
        columns: vec![
            Column {
                tiles: vec![1, 2],
                width: ColumnWidth::new(58, 100),
            },
            Column::single(3),
        ],
        tile_weights: vec![(1, weight(3)), (2, weight(2)), (3, weight(1))],
        focused: Some(2),
        ..ColumnModel::default()
    };
    model.set_metrics(1_000, 10);
    let columns = tile_columns(&model);
    let weights = model.tile_weights.clone();

    assert!(model.cycle_column_width(2, ResizeDirection::Outwards));
    assert_eq!(width_fractions(&model), [0.66, 0.66]);
    assert_eq!(tile_columns(&model), columns);
    assert_eq!(model.tile_weights, weights);
    assert_eq!(model.focused, Some(2));

    model.columns[0].width = ColumnWidth::new(58, 100);
    assert!(model.cycle_column_width(2, ResizeDirection::Inwards));
    assert_eq!(width_fractions(&model), [0.5, 0.66]);
    assert_eq!(tile_columns(&model), columns);
    assert_eq!(model.tile_weights, weights);
    assert_eq!(model.focused, Some(2));
}

#[test]
fn mouse_resize_changes_column_width_continuously_and_clamps_safely() {
    let mut model = ColumnModel::default();
    model.reconcile(&[1, 2]);
    model.set_metrics(1_000, 10);

    assert_eq!(
        model.resize_column_by_pixels(1, 100, ColumnResizeAnchor::Left),
        Some((true, 100))
    );
    assert_eq!(fraction_of(model.columns[0].width), 0.76);
    assert_eq!(model.column_width(0), 760);
    assert_eq!(
        model.resize_column_by_pixels(1, -260, ColumnResizeAnchor::Left),
        Some((true, -260))
    );
    assert_eq!(fraction_of(model.columns[0].width), 0.5);

    assert_eq!(
        model.resize_column_by_pixels(1, -10_000, ColumnResizeAnchor::Left),
        Some((true, -170))
    );
    assert_eq!(fraction_of(model.columns[0].width), 0.33);
    assert_eq!(
        model.resize_column_by_pixels(1, -1, ColumnResizeAnchor::Left),
        Some((false, 0))
    );
    assert_eq!(
        model.resize_column_by_pixels(1, 10_000, ColumnResizeAnchor::Left),
        Some((true, 670))
    );
    assert_eq!(fraction_of(model.columns[0].width), 1.0);
    assert_eq!(
        model.resize_column_by_pixels(1, 1, ColumnResizeAnchor::Left),
        Some((false, 0))
    );
    assert_eq!(model.focused, Some(1));
    assert_eq!(fraction_of(model.columns[1].width), 0.66);
    assert_eq!(
        model.resize_column_by_pixels(3, 100, ColumnResizeAnchor::Left),
        None
    );
}

#[test]
fn mouse_resize_applies_to_every_tile_in_the_target_column() {
    let mut model = ColumnModel {
        columns: vec![
            Column {
                tiles: vec![1, 2, 3],
                width: ColumnWidth::new(50, 100),
            },
            Column {
                tiles: vec![4],
                width: ColumnWidth::new(80, 100),
            },
        ],
        ..ColumnModel::default()
    };
    model.set_metrics(1_000, 10);

    assert_eq!(
        model.resize_column_by_pixels(2, 100, ColumnResizeAnchor::Left),
        Some((true, 100))
    );
    assert_eq!(tile_columns(&model), [vec![1, 2, 3], vec![4]]);
    assert_eq!(width_fractions(&model), [0.6, 0.8]);
    assert_eq!(model.focused, Some(2));
    assert_eq!(model.adjacent_column(2, -1), None);
    assert_eq!(model.adjacent_column(4, -1), Some(1));
}

#[test]
fn mouse_resize_anchors_the_opposite_horizontal_edge() {
    let mut left_fixed = ColumnModel::default();
    left_fixed.reconcile(&[1, 2]);
    left_fixed.set_metrics(1_000, 10);
    left_fixed.viewport_x = pixels(120);
    let old_left = left_fixed.layout_x(0) - left_fixed.viewport_x;

    assert_eq!(
        left_fixed.resize_column_by_pixels(1, 100, ColumnResizeAnchor::Left),
        Some((true, 100))
    );
    assert_eq!(left_fixed.layout_x(0) - left_fixed.viewport_x, old_left);
    assert_eq!(left_fixed.viewport_x, pixels(120));

    let mut right_fixed = ColumnModel::default();
    right_fixed.reconcile(&[1, 2]);
    right_fixed.set_metrics(1_000, 10);
    right_fixed.viewport_x = pixels(120);
    let old_right = right_fixed.layout_x(0) + pixels(right_fixed.column_width(0))
        - right_fixed.viewport_x;

    assert_eq!(
        right_fixed.resize_column_by_pixels(1, 100, ColumnResizeAnchor::Right),
        Some((true, 100))
    );
    assert_eq!(right_fixed.viewport_x, pixels(220));
    assert_eq!(
        right_fixed.layout_x(0) + pixels(right_fixed.column_width(0))
            - right_fixed.viewport_x,
        old_right
    );
    assert_eq!(
        right_fixed.resize_column_by_pixels(1, -60, ColumnResizeAnchor::Right),
        Some((true, -60))
    );
    assert_eq!(right_fixed.viewport_x, pixels(160));
    assert_eq!(
        right_fixed.layout_x(0) + pixels(right_fixed.column_width(0))
            - right_fixed.viewport_x,
        old_right
    );
    assert!(right_fixed.user_positioned_viewport);
}

#[test]
fn left_edge_anchor_uses_the_applied_clamped_width_delta() {
    let mut model = ColumnModel {
        columns: vec![
            Column {
                tiles: vec![1, 2],
                width: ColumnWidth::new(95, 100),
            },
            Column::single(3),
        ],
        tile_weights: vec![(1, weight(3)), (2, weight(2)), (3, weight(1))],
        focused: Some(2),
        viewport_x: pixels(200),
        ..ColumnModel::default()
    };
    model.set_metrics(1_000, 10);
    let columns = tile_columns(&model);
    let weights = model.tile_weights.clone();
    let old_viewport = model.viewport_x;
    let right = model.layout_x(0) + pixels(model.column_width(0)) - model.viewport_x;

    assert_eq!(
        model.resize_column_by_pixels(2, 500, ColumnResizeAnchor::Right),
        Some((true, 50))
    );
    assert_eq!(model.viewport_x, old_viewport + pixels(50));
    assert_eq!(
        model.layout_x(0) + pixels(model.column_width(0)) - model.viewport_x,
        right
    );
    assert_eq!(
        model.resize_column_by_pixels(2, 1, ColumnResizeAnchor::Right),
        Some((false, 0))
    );
    assert_eq!(model.viewport_x, old_viewport + pixels(50));
    assert_eq!(tile_columns(&model), columns);
    assert_eq!(model.tile_weights, weights);
    assert_eq!(model.focused, Some(2));
    assert_eq!(width_fractions(&model), [1.0, 0.66]);

    assert_eq!(ColumnResizeAnchor::Left.width_delta(pixels(40)), pixels(40));
    assert_eq!(ColumnResizeAnchor::Right.width_delta(pixels(-40)), pixels(40));
}

#[test]
fn vertical_mouse_resize_changes_only_the_adjacent_pair() {
    let mut model = ColumnModel {
        columns: vec![
            Column {
                tiles: vec![1, 2, 3],
                width: ColumnWidth::new(66, 100),
            },
            Column {
                tiles: vec![4, 5],
                width: ColumnWidth::new(50, 100),
            },
        ],
        ..ColumnModel::default()
    };
    model.set_metrics(1_000, 10);
    model.set_column_height(800);
    model.focused = Some(2);
    model.viewport_x = pixels(75);

    assert_eq!(model.row_pair(1, -1), None);
    assert_eq!(model.row_pair(1, 1), Some((1, 2)));
    assert_eq!(model.row_pair(3, -1), Some((2, 3)));
    assert_eq!(model.row_pair(3, 1), None);
    assert_eq!(model.row_pair(4, -1), None);
    assert_eq!(column_row_heights(&model, 0), [260, 260, 260]);
    assert_eq!(column_row_heights(&model, 1), [395, 395]);
    assert_eq!(model.resize_rows_by_pixels(1, 2, 10), Some(true));
    assert_eq!(column_row_heights(&model, 0), [270, 250, 260]);
    assert_eq!(column_row_heights(&model, 1), [395, 395]);
    assert_eq!(model.focused, Some(2));
    assert_viewport(&model, 75.0);
    assert_eq!(model.resize_rows_by_pixels(1, 3, 10), None);
    assert_eq!(model.resize_rows_by_pixels(1, 4, 10), None);
}

#[test]
fn vertical_mouse_resize_clamps_and_reverses_without_releasing() {
    let mut model = ColumnModel {
        columns: vec![Column {
            tiles: vec![1, 2],
            width: ColumnWidth::default(),
        }],
        ..ColumnModel::default()
    };
    model.set_metrics(1_000, 10);
    model.set_column_height(800);

    assert_eq!(model.resize_rows_by_pixels(1, 2, 10_000), Some(true));
    assert_eq!(column_row_heights(&model, 0), [550, 240]);
    assert_eq!(model.resize_rows_by_pixels(1, 2, 1), Some(false));
    assert_eq!(model.resize_rows_by_pixels(1, 2, -50), Some(true));
    assert_eq!(column_row_heights(&model, 0), [500, 290]);
    assert_eq!(column_row_heights(&model, 0).iter().sum::<i32>(), 790);
}

#[test]
fn vertical_weights_follow_identity_through_reorder_extract_and_insert() {
    let mut model = ColumnModel {
        columns: vec![
            Column::single(1),
            Column {
                tiles: vec![2, 3],
                width: ColumnWidth::new(75, 100),
            },
        ],
        ..ColumnModel::default()
    };
    model.set_metrics(1_000, 10);
    model.set_column_height(800);
    assert_eq!(model.resize_rows_by_pixels(2, 3, 100), Some(true));
    assert_eq!(column_row_heights(&model, 1), [495, 295]);

    assert_eq!(model.move_tile_vertical(1, 1), TileMove::Moved);
    assert_eq!(tile_columns(&model), [vec![2, 3, 1]]);
    assert_eq!(model.tile_weight(2), weight(495));
    assert_eq!(model.tile_weight(3), weight(295));
    assert_eq!(model.tile_weight(1), weight(395));

    assert!(model.move_by(3, 1));
    assert_eq!(tile_columns(&model), [vec![2, 1], vec![3]]);
    assert_eq!(model.tile_weight(2), weight(495));
    assert_eq!(model.tile_weight(1), weight(395));
    assert_eq!(model.tile_weight(3), weight(1));
}

#[test]
fn vertical_weight_transfers_to_pointer_replacement_and_cancel_restores_it() {
    let mut model = ColumnModel {
        columns: vec![Column {
            tiles: vec![1, 2],
            width: ColumnWidth::default(),
        }],
        focused: Some(1),
        ..ColumnModel::default()
    };
    model.set_metrics(1_000, 10);
    model.set_column_height(800);
    assert_eq!(model.resize_rows_by_pixels(1, 2, 100), Some(true));

    assert!(model.begin_drag(1));
    model.reconcile(&[2]);
    model.finish_drag(Some(3), ColumnDropTarget::Above(2));
    assert_eq!(tile_columns(&model), [vec![3, 2]]);
    assert_eq!(model.tile_weight(3), weight(495));

    assert!(model.begin_drag(3));
    model.reconcile(&[2]);
    model.cancel_drag();
    assert_eq!(tile_columns(&model), [vec![3, 2]]);
    assert_eq!(model.tile_weight(3), weight(495));
    assert_eq!(model.focused, Some(3));
}

#[test]
fn centering_uses_each_columns_virtual_center_without_clamping_edges() {
    let mut model = ColumnModel {
        columns: vec![
            Column {
                tiles: vec![1],
                width: ColumnWidth::new(33, 100),
            },
            Column {
                tiles: vec![2, 3],
                width: ColumnWidth::new(50, 100),
            },
            Column {
                tiles: vec![4],
                width: ColumnWidth::new(66, 100),
            },
        ],
        ..ColumnModel::default()
    };
    model.set_metrics(1_000, 10);
    let columns = tile_columns(&model);
    let widths = width_fractions(&model);

    assert!(model.center_column(1));
    assert_viewport(&model, -335.0);
    assert!(!model.ensure_visible(1));
    assert!(model.center_column(3));
    assert_viewport(&model, 90.0);
    assert!(model.center_column(4));
    assert_viewport(&model, 680.0);
    assert!(!model.centering_changes_viewport(4));
    assert_eq!(tile_columns(&model), columns);
    assert_eq!(width_fractions(&model), widths);
    assert_eq!(model.focused, Some(4));
    assert!(!model.center_column(99));
}

#[test]
fn centering_supports_every_preset_and_continuous_width() {
    for fraction in [0.33, 0.5, 0.66, 1.0, 0.73] {
        let mut model = ColumnModel {
            columns: vec![Column {
                tiles: vec![1],
                width: fraction_width(fraction),
            }],
            ..ColumnModel::default()
        };
        model.set_metrics(1_000, 10);

        assert!(model.center_column(1) || fraction == 1.0);
        assert_viewport(&model, (model.column_width(0) as f64 - 1_000.0) / 2.0);
    }
}

#[test]
fn automatic_centering_tracks_exactly_one_modeled_tile() {
    let mut model = ColumnModel::default();
    model.reconcile(&[1]);
    model.set_metrics(1_000, 10);

    assert!(model.center_only_tile());
    assert_viewport(&model, -170.0);

    model.reconcile(&[1, 2]);
    assert_viewport(&model, 0.0);
    assert!(!model.center_only_tile());

    model.columns = vec![Column {
        tiles: vec![1, 2],
        width: ColumnWidth::new(66, 100),
    }];
    assert!(!model.center_only_tile());

    model.reconcile(&[1]);
    assert!(model.center_only_tile());
    assert_viewport(&model, -170.0);
}

#[test]
fn touchpad_pan_is_direct_reversible_and_clamped_to_centered_edges() {
    let mut model = ColumnModel::default();
    model.reconcile(&[1, 2, 3]);
    model.set_metrics(1_000, 10);
    let columns = tile_columns(&model);
    let widths = width_fractions(&model);

    assert!(model.pan_viewport(number(200.0)));
    assert_viewport(&model, 200.0);
    assert!(model.pan_viewport(number(-50.0)));
    assert_viewport(&model, 150.0);
    assert!(model.pan_viewport(number(-10_000.0)));
    assert_viewport(&model, -170.0);
    assert!(model.pan_viewport(number(10_000.0)));
    assert_viewport(&model, 1_170.0);

    assert_eq!(tile_columns(&model), columns);
    assert_eq!(width_fractions(&model), widths);
    assert_eq!(model.focused, None);
}

#[test]
fn touchpad_position_survives_reconciliation_until_explicit_focus() {
    let mut model = ColumnModel::default();
    model.reconcile(&[1, 2, 3]);
    model.set_metrics(1_000, 10);
    assert!(model.pan_viewport(number(900.0)));
    assert_viewport(&model, 900.0);

    model.reconcile(&[1, 2, 3]);
    model.set_metrics(1_000, 10);
    assert!(!model.ensure_preferred_visible(None, Some(1)));
    assert_viewport(&model, 900.0);
    assert_eq!(model.focused, Some(1));

    assert!(model.ensure_preferred_visible(Some(1), Some(3)));
    assert_viewport(&model, 0.0);
    assert!(!model.user_positioned_viewport);
    assert_eq!(model.focused, Some(1));
}

#[test]
fn touchpad_pan_rejects_invalid_deltas_and_centers_a_single_tile() {
    let mut model = ColumnModel::default();
    model.reconcile(&[1, 2]);
    model.set_metrics(1_000, 10);

    assert!(!model.pan_viewport(number(f64::NAN)));
    assert!(!model.pan_viewport(number(f64::INFINITY)));
    assert_viewport(&model, 0.0);

    model.reconcile(&[1]);
    assert!(model.pan_viewport(number(100.0)));
    assert_viewport(&model, -170.0);
    assert!(!model.user_positioned_viewport);
}

#[test]
fn panning_a_lone_tile_centers_it_and_keeps_the_focus() {
    let mut model = ColumnModel::default();
    model.reconcile(&[1]);
    model.set_metrics(1_000, 10);
    assert_eq!(model.focused, None);
    assert!(model.pan_viewport_would_change(number(100.0)));
    assert!(model.pan_viewport(number(100.0)));
    assert_viewport(&model, -170.0);
    assert!(!model.user_positioned_viewport);
    assert_eq!(model.focused, None);
    assert_eq!(tile_columns(&model), vec![vec![1]]);
    assert!(!model.pan_viewport(number(-300.0)));
    assert_viewport(&model, -170.0);
}

#[test]
fn reconciling_again_changes_nothing() {
    let mut model = ColumnModel {
        columns: vec![
            Column { tiles: vec![1, 2, 1], width: ColumnWidth::new(40, 100) },
            Column { tiles: vec![2], width: ColumnWidth::new(50, 100) },
            Column { tiles: vec![3, 4], width: ColumnWidth::new(80, 100) },
        ],
        tile_weights: vec![(2, weight(3)), (4, weight(2)), (9, weight(5))],
        focused: Some(4),
        ..ColumnModel::default()
    };
    model.set_metrics(1_000, 10);
    model.reconcile(&[5, 4, 2, 5, 1]);
    assert_eq!(tile_columns(&model), vec![vec![1, 2], vec![4], vec![5]]);
    assert_eq!(model.tile_weight(2), weight(3));
    assert_eq!(model.tile_weight(5), weight(1));
    let once = model.clone();
    model.reconcile(&[5, 4, 2, 5, 1]);
    assert_eq!(model.columns, once.columns);
    assert_eq!(model.tile_weights, once.tile_weights);
    assert_eq!(model.focused, Some(4));
    assert_eq!(model.viewport_x, once.viewport_x);
}

#[test]
fn a_new_strip_is_empty() {
    let model = ColumnModel::default();
    assert!(model.columns.is_empty());
    assert!(model.tile_weights.is_empty());
    assert_eq!(model.focused, None);
    assert_eq!(model.viewport_x, 0);
    assert_eq!((model.viewport_width, model.column_height, model.gap), (0, 0, 0));
    assert!(!model.user_positioned_viewport);
}

/// A double from one on as a row weight is stored.
fn stored(weight: f64) -> u128 {
    (weight * 4_503_599_627_370_496.0) as u128
}

/// The heights that doubles give to rows that share a column without gaps.
fn heights_of(column_height: i32, weights: &[f64]) -> Vec<i32> {
    let total = weights.iter().sum::<f64>();
    let mut heights: Vec<i32> = weights
        .iter()
        .map(|weight| (f64::from(column_height) * weight / total).floor() as i32)
        .collect();
    let rest = column_height - heights.iter().sum::<i32>();
    for height in heights.iter_mut().take(rest as usize) {
        *height += 1;
    }
    heights
}

#[test]
fn rows_follow_the_mean_of_the_others_as_doubles_do() {
    let model = ColumnModel {
        columns: vec![Column { tiles: vec![1, 2, 3], width: ColumnWidth::new(66, 100) }],
        tile_weights: vec![(1, weight(2)), (2, weight(1)), (3, weight(1))],
        ..Default::default()
    };
    let mean = model.mean_column_weight(0);
    assert_eq!(mean, stored(4.0 / 3.0));
    let rows = weighted_vertical_tile_rows(80, 0, &[weight(2), weight(1), weight(1), mean]);
    let heights: Vec<i32> = rows.iter().map(|row| row.1).collect();
    assert_eq!(heights, [30, 15, 15, 20]);
    assert_eq!(model.mean_column_weight(1), weight(1));
}

#[test]
fn rows_are_as_high_as_doubles_make_them() {
    let mut seed: u64 = 7;
    let mut next = || {
        seed = seed.wrapping_mul(6_364_136_223_846_793_005).wrapping_add(1_442_695_040_888_963_407);
        seed >> 33
    };
    for _ in 0..400 {
        let count = 1 + next() % 7;
        let mut weights: Vec<f64> = (0..count).map(|_| (1 + next() % 1_200) as f64).collect();
        // Tiles that join get the mean of those that are there.
        for _ in 0..next() % 4 {
            let mean = weights.iter().sum::<f64>() / weights.len() as f64;
            weights.push(mean);
        }
        let kept: Vec<u128> = weights.iter().map(|weight| stored(*weight)).collect();
        for column_height in [0, 1, 79, 80, 1_064, 2_160, 1_000_003, i32::MAX] {
            let rows = weighted_vertical_tile_rows(column_height, 0, &kept);
            let heights: Vec<i32> = rows.iter().map(|row| row.1).collect();
            assert_eq!(heights, heights_of(column_height, &weights));
            assert_eq!(rows.last().map(|(y, height)| y + height), Some(column_height));
        }
    }
    // What is not a weight counts as one.
    let rows = weighted_vertical_tile_rows(90, 0, &[0, u128::MAX, weight(1)]);
    assert_eq!(rows, [(0, 30), (30, 30), (60, 30)]);
}

#[test]
fn a_cancelled_drag_keeps_the_weights_of_all_tiles() {
    let mut model = ColumnModel {
        columns: vec![Column { tiles: vec![1, 2, 3], width: ColumnWidth::new(40, 100) }],
        tile_weights: vec![(1, weight(2)), (2, weight(5)), (3, weight(3))],
        ..ColumnModel::default()
    };
    model.set_metrics(1_000, 10);
    assert!(model.begin_drag(2));
    model.reconcile(&[1, 3]);
    model.cancel_drag();
    assert_eq!(tile_columns(&model), vec![vec![1, 2, 3]]);
    assert_eq!(model.tile_weight(1), weight(2));
    assert_eq!(model.tile_weight(2), weight(5));
    assert_eq!(model.tile_weight(3), weight(3));
}

#[test]
fn a_drop_keeps_the_order_of_the_other_tiles() {
    let mut model = ColumnModel {
        columns: vec![
            Column { tiles: vec![1, 2], width: ColumnWidth::new(40, 100) },
            Column { tiles: vec![3], width: ColumnWidth::new(50, 100) },
            Column { tiles: vec![4], width: ColumnWidth::new(80, 100) },
        ],
        ..ColumnModel::default()
    };
    model.set_metrics(1_000, 10);
    // Alone in its column, a tile takes the width along.
    assert!(model.begin_drag(3));
    model.finish_drag(Some(7), ColumnDropTarget::First);
    assert_eq!(tile_columns(&model), vec![vec![7], vec![1, 2], vec![4]]);
    assert_eq!(model.columns[0].width, ColumnWidth::new(50, 100));
    // Out of a shared column it does not.
    assert!(model.begin_drag(2));
    model.finish_drag(Some(2), ColumnDropTarget::Last);
    assert_eq!(tile_columns(&model), vec![vec![7], vec![1], vec![4], vec![2]]);
    assert_eq!(fraction_of(model.columns[3].width), 0.66);
}

#[test]
fn first_and_last_columns_become_fully_visible() {
    let mut model = ColumnModel::default();
    model.reconcile(&[1, 2, 3]);
    model.set_metrics(1_000, 10);

    assert!(model.ensure_visible(3));
    assert_viewport(&model, 1_000.0);
    assert_eq!(model.layout_x(2), pixels(1340));
    assert_eq!(model.layout_x(2) + pixels(model.column_width(2)), pixels(2_000));

    assert!(model.ensure_visible(1));
    assert_viewport(&model, 0.0);
    assert_eq!(model.layout_x(0), pixels(0));
}

#[test]
fn empty_model_resets_viewport_focus_and_navigation_safely() {
    let mut model = ColumnModel::default();
    model.reconcile(&[1, 2, 3]);
    model.set_metrics(1_000, 10);
    assert!(model.ensure_visible(3));

    model.reconcile(&[]);

    assert!(model.columns.is_empty());
    assert_eq!(model.focused, None);
    assert_viewport(&model, 0.0);
    assert_eq!(model.strip_width(), pixels(0));
    assert_eq!(model.adjacent_column(1, 1), None);
    assert_eq!(model.adjacent_tile(1, 1), None);
    assert!(!model.ensure_visible(1));
    assert!(!model.move_by(1, 1));

    model.set_metrics(1_000, -10);
    assert_eq!(model.gap, 0);
    assert_viewport(&model, 0.0);
}

#[test]
fn scrolling_order_and_widths_survive_a_classic_round_trip() {
    let mut model = ColumnModel::default();
    model.reconcile(&[1, 2, 3]);
    model.columns[0].width = ColumnWidth::new(40, 100);
    model.columns[1].width = ColumnWidth::new(70, 100);
    model.columns[2].width = ColumnWidth::new(50, 100);
    assert!(model.begin_drag(2));
    model.finish_drag(Some(2), ColumnDropTarget::After(3));
    assert_eq!(tile_columns(&model), [[1], [3], [2]]);

    // While classic tiling is active the scrolling model is intentionally
    // left dormant. On return, surviving columns keep their relative
    // order and widths, while newly mapped leaves append with the default.
    model.reconcile(&[3, 4, 2, 1]);
    assert_eq!(tile_columns(&model), [[1], [3], [2], [4]]);
    assert_eq!(
        width_fractions(&model),
        [0.4, 0.5, 0.7, 0.66]
    );
}

#[test]
fn multi_tile_order_and_widths_survive_a_classic_round_trip() {
    let mut model = ColumnModel {
        columns: vec![
            Column {
                tiles: vec![1, 2, 3],
                width: ColumnWidth::new(40, 100),
            },
            Column {
                tiles: vec![4, 5],
                width: ColumnWidth::new(80, 100),
            },
        ],
        ..ColumnModel::default()
    };

    model.reconcile(&[5, 3, 2, 4, 1, 6]);

    assert_eq!(tile_columns(&model), [vec![1, 2, 3], vec![4, 5], vec![6]]);
    assert_eq!(width_fractions(&model), [0.4, 0.8, 0.66]);
}

#[test]
fn live_pointer_resize_coalesces_each_tiles_configures_and_flushes_release() {
    assert!(should_configure_live_resize(true, false, true, true));

    // Pointer geometry continues changing while the preceding size is in
    // flight, but those intermediate sizes do not produce configures.
    for _ in 0..1_000 {
        assert!(!should_configure_live_resize(true, false, true, false));
    }

    // Once the previous size commits, the newest pending geometry is the
    // only next configure. Release is forced even without another delta.
    assert!(should_configure_live_resize(true, false, true, true));
    assert!(should_configure_live_resize(true, true, false, false));
    assert!(!should_configure_live_resize(false, true, true, true));
    assert!(!should_configure_live_resize(true, false, false, true));

    // Adjacent rows make their decisions independently: a fast upper tile
    // may advance while the lower tile still has a configure in flight.
    let upper_ready = should_configure_live_resize(true, false, true, true);
    let lower_ready = should_configure_live_resize(true, false, true, false);
    assert!(upper_ready);
    assert!(!lower_ready);
    assert!(should_configure_live_resize(true, true, false, false));
}

#[test]
fn viewport_keeps_inner_gap_at_every_workspace_boundary() {
    let usable = Rectangle::new(0, 32, 1_920, 1_000);

    let viewport = scrolling_viewport(usable, (4, 8));

    assert_eq!(
        viewport,
        Rectangle::new(12, 44, 1_896, 976)
    );
    assert_eq!(viewport.loc.x - usable.loc.x, 12);
    assert_eq!(
        usable.size.w - viewport.size.w - (viewport.loc.x - usable.loc.x),
        12
    );
    assert_eq!(viewport.loc.y - usable.loc.y, 12);
    assert_eq!(
        usable.size.h - viewport.size.h - (viewport.loc.y - usable.loc.y),
        12
    );
}
