//! The settings of the compositor.

use scroll_tiling::config::{
    default_repeat_delay, default_repeat_rate, ActivationPolicy, AppearanceConfig, ClickMethod,
    CosmicCompConfig, DecorationPreference, DeviceState, EavesdroppingKeyboardMode, InputConfig,
    KeyboardConfig, NumlockState, TapButtonMap, TapConfig, TileBehavior, TilingEngine,
    WorkspaceLayout, XkbConfig, XwaylandDescaling, XwaylandEavesdropping, ZoomConfig, ZoomMovement,
};

#[test]
fn tiling_engine_defaults_to_classic() {
    assert_eq!(TilingEngine::default(), TilingEngine::Classic);
}

#[test]
fn cosmic_comp_config_defaults_to_classic_tiling() {
    assert_eq!(
        CosmicCompConfig::default().tiling_engine,
        TilingEngine::Classic
    );
}

#[test]
fn effective_workspace_layout_tracks_engine_and_restores_configuration() {
    assert_eq!(
        TilingEngine::Classic.effective_workspace_layout(WorkspaceLayout::Vertical),
        WorkspaceLayout::Vertical
    );
    assert_eq!(
        TilingEngine::Classic.effective_workspace_layout(WorkspaceLayout::Horizontal),
        WorkspaceLayout::Horizontal
    );
    assert_eq!(
        TilingEngine::Scrolling.effective_workspace_layout(WorkspaceLayout::Vertical),
        WorkspaceLayout::Vertical
    );
    assert_eq!(
        TilingEngine::Scrolling.effective_workspace_layout(WorkspaceLayout::Horizontal),
        WorkspaceLayout::Vertical
    );

    let configured = WorkspaceLayout::Horizontal;
    assert_eq!(
        TilingEngine::Scrolling.effective_workspace_layout(configured),
        WorkspaceLayout::Vertical
    );
    assert_eq!(
        TilingEngine::Classic.effective_workspace_layout(configured),
        configured
    );
}

#[test]
fn touchpads_tap_and_pause_while_typing() {
    assert_eq!(
        CosmicCompConfig::default().input_touchpad,
        InputConfig {
            state: DeviceState::Enabled,
            click_method: Some(ClickMethod::Clickfinger),
            disable_while_typing: Some(true),
            tap_config: Some(TapConfig {
                enabled: true,
                button_map: Some(TapButtonMap::LeftRightMiddle),
                drag: true,
                drag_lock: false,
            }),
        }
    );
}

#[test]
fn keys_repeat_at_the_usual_rate() {
    let keymap = XkbConfig::default();
    assert_eq!(keymap.repeat_delay, 600);
    assert_eq!(keymap.repeat_rate, 25);
    assert_eq!(default_repeat_delay(), 600);
    assert_eq!(default_repeat_rate(), 25);
    assert_eq!(keymap.layout, "");
    assert_eq!(keymap.options, None);
    assert_eq!(CosmicCompConfig::default().xkb_config, keymap);
}

#[test]
fn everything_else_has_its_usual_setting() {
    let config = CosmicCompConfig::default();
    assert!(!config.autotile);
    assert_eq!(config.autotile_behavior, TileBehavior::Global);
    assert!(config.active_hint);
    assert!(!config.focus_follows_cursor);
    assert!(!config.cursor_follows_focus);
    assert_eq!(config.focus_follows_cursor_delay, 250);
    assert_eq!(config.descale_xwayland, XwaylandDescaling::Fractional);
    assert_eq!(
        config.xwayland_eavesdropping,
        XwaylandEavesdropping {
            keyboard: EavesdroppingKeyboardMode::NoKeys,
            pointer: false,
        }
    );
    assert_eq!(config.edge_snap_threshold, 0);
    assert_eq!(config.cursor_hide_timeout, None);
    assert!(config.cursor_shake_to_find);
    assert_eq!(config.activation_policy, ActivationPolicy::Focus);
    assert_eq!(config.decoration_preference, DecorationPreference::ClientSide);
    assert_eq!(
        config.keyboard_config,
        KeyboardConfig { numlock_state: NumlockState::BootOff }
    );
    assert_eq!(
        config.appearance_settings,
        AppearanceConfig {
            clip_floating_windows: true,
            clip_tiled_windows: true,
            shadow_tiled_windows: false,
        }
    );
}

#[test]
fn the_magnifier_offers_seven_steps() {
    assert_eq!(
        ZoomConfig::zoom_increment_presets(),
        [10, 25, 50, 75, 100, 150, 200]
    );
    let zoom = ZoomConfig::default();
    assert_eq!(zoom.increment, 50);
    assert_eq!(zoom.view_moves, ZoomMovement::Continuously);
    assert!(zoom.show_overlay);
    assert!(!zoom.start_on_login);
    assert!(zoom.enable_mouse_zoom_shortcuts);
}
