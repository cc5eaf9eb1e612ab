//! The settings of the compositor that the layouts and their surroundings go by.

use vstd::prelude::*;

verus! {

/// The identity of a monitor, as it tells it itself.
#[derive(Debug, Copy, Clone, PartialEq, Eq, PartialOrd, Ord, Hash)]
pub struct EdidProduct {
    pub manufacturer: [char; 3],
    pub product: u16,
    pub serial: Option<u32>,
    pub manufacture_week: i32,
    pub manufacture_year: i32,
    pub model_year: Option<i32>,
}

/// The settings of the keyboard.
#[derive(Clone, Copy, Debug, PartialEq, Eq, Structural)]
pub struct KeyboardConfig {
    /// Boot state for numlock
    pub numlock_state: NumlockState,
}

impl Default for KeyboardConfig {
    fn default() -> (config: Self)
        ensures
            config.numlock_state is BootOff,
    {
        KeyboardConfig { numlock_state: NumlockState::default() }
    }
}

/// The state of numlock after a boot.
#[derive(Copy, Clone, Debug, PartialEq, Eq, Structural)]
pub enum NumlockState {
    BootOn,
    BootOff,
    LastBoot,
}

impl Default for NumlockState {
    fn default() -> (state: Self)
        ensures
            state is BootOff,
    {
        NumlockState::BootOff
    }
}

/// How windows are decorated.
#[derive(Debug, Clone, Copy, PartialEq, Eq, Hash, Structural)]
pub struct AppearanceConfig {
    pub clip_floating_windows: bool,
    pub clip_tiled_windows: bool,
    pub shadow_tiled_windows: bool,
}

impl Default for AppearanceConfig {
    fn default() -> (config: Self)
        ensures
            config.clip_floating_windows,
            config.clip_tiled_windows,
            !config.shadow_tiled_windows,
    {
        AppearanceConfig {
            clip_floating_windows: true,
            clip_tiled_windows: true,
            shadow_tiled_windows: false,
        }
    }
}

/// Who is to draw the decorations of windows.
#[derive(Copy, Clone, Debug, PartialEq, Eq, Structural)]
pub enum DecorationPreference {
    ClientSide,
    ServerSide,
}

impl Default for DecorationPreference {
    fn default() -> (preference: Self)
        ensures
            preference is ClientSide,
    {
        DecorationPreference::ClientSide
    }
}

/// In which direction workspaces follow each other.
#[derive(Debug, Clone, Copy, PartialEq, Eq, Structural)]
pub enum WorkspaceLayout {
    Vertical,
    Horizontal,
}

/// Selects the layout engine used when a workspace has tiling enabled.
#[derive(Debug, Clone, Copy, PartialEq, Eq, Hash, Structural)]
pub enum TilingEngine {
    /// COSMIC's tree-based tiling layout.
    Classic,
    /// A horizontally scrolling strip of tiled columns.
    Scrolling,
}

impl Default for TilingEngine {
    fn default() -> (engine: Self)
        ensures
            engine is Classic,
    {
        TilingEngine::Classic
    }
}

impl TilingEngine {
    /// The layout of workspaces that this engine works with: scrolling takes the horizontal
    /// direction for itself.
    pub fn effective_workspace_layout(self, configured: WorkspaceLayout) -> (layout:
        WorkspaceLayout)
        ensures
            layout == match self {
                TilingEngine::Classic => configured,
                TilingEngine::Scrolling => WorkspaceLayout::Vertical,
            },
    {
        match self {
            TilingEngine::Classic => configured,
            TilingEngine::Scrolling => WorkspaceLayout::Vertical,
        }
    }
}

/// Whether a device is used.
#[derive(Debug, Clone, Copy, PartialEq, Eq, Structural)]
pub enum DeviceState {
    Enabled,
    Disabled,
}

/// How a touchpad tells its buttons apart.
#[derive(Debug, Clone, Copy, PartialEq, Eq, Structural)]
pub enum ClickMethod {
    ButtonAreas,
    Clickfinger,
}

/// Which buttons taps with one, two and three fingers stand for.
#[derive(Debug, Clone, Copy, PartialEq, Eq, Structural)]
pub enum TapButtonMap {
    LeftRightMiddle,
    LeftMiddleRight,
}

/// What taps on a touchpad do.
#[derive(Debug, Clone, Copy, PartialEq, Eq, Structural)]
pub struct TapConfig {
    pub enabled: bool,
    pub button_map: Option<TapButtonMap>,
    pub drag: bool,
    pub drag_lock: bool,
}

/// The settings of an input device.
#[derive(Debug, Clone, Copy, PartialEq, Eq, Structural)]
pub struct InputConfig {
    pub state: DeviceState,
    pub click_method: Option<ClickMethod>,
    pub disable_while_typing: Option<bool>,
    pub tap_config: Option<TapConfig>,
}

/// The settings of the compositor.
#[derive(Clone, Debug, PartialEq)]
pub struct CosmicCompConfig {
    pub input_touchpad: InputConfig,
    pub xkb_config: XkbConfig,
    pub keyboard_config: KeyboardConfig,
    /// Autotiling enabled
    pub autotile: bool,
    /// Selects the tiling layout engine independently of whether tiling is enabled
    pub tiling_engine: TilingEngine,
    /// Determines the behavior of the autotile variable
    /// If set to Global, autotile applies to all windows in all workspaces
    /// If set to PerWorkspace, autotile only applies to new windows, and new workspaces
    pub autotile_behavior: TileBehavior,
    /// Active hint enabled
    pub active_hint: bool,
    /// Enables changing keyboard focus to windows when the cursor passes into them
    pub focus_follows_cursor: bool,
    /// Enables warping the cursor to the focused window when focus changes due to keyboard input
    pub cursor_follows_focus: bool,
    /// The delay in milliseconds before focus follows mouse (if enabled)
    pub focus_follows_cursor_delay: u64,
    /// Let X11 applications scale themselves
    pub descale_xwayland: XwaylandDescaling,
    /// Let X11 applications snoop on certain key-presses to allow for global shortcuts
    pub xwayland_eavesdropping: XwaylandEavesdropping,
    /// The threshold before windows snap themselves to output edges
    pub edge_snap_threshold: u32,
    pub accessibility_zoom: ZoomConfig,
    pub appearance_settings: AppearanceConfig,
    /// Hide the cursor after this many seconds of pointer inactivity (None disables)
    pub cursor_hide_timeout: Option<u32>,
    /// Briefly magnify the cursor when the pointer is shaken, to help locate it
    pub cursor_shake_to_find: bool,
    pub activation_policy: ActivationPolicy,
    pub decoration_preference: DecorationPreference,
}

impl Default for CosmicCompConfig {
    fn default() -> (config: Self)
        ensures
            config.input_touchpad == (InputConfig {
                state: DeviceState::Enabled,
                click_method: Some(ClickMethod::Clickfinger),
                disable_while_typing: Some(true),
                tap_config: Some(
                    TapConfig {
                        enabled: true,
                        button_map: Some(TapButtonMap::LeftRightMiddle),
                        drag: true,
                        drag_lock: false,
                    },
                ),
            }),
            config.xkb_config.is_default(),
            config.keyboard_config.numlock_state is BootOff,
            !config.autotile,
            config.tiling_engine is Classic,
            config.autotile_behavior is Global,
            config.active_hint,
            !config.focus_follows_cursor,
            !config.cursor_follows_focus,
            config.focus_follows_cursor_delay == 250,
            config.descale_xwayland is Fractional,
            config.xwayland_eavesdropping == (XwaylandEavesdropping {
                keyboard: EavesdroppingKeyboardMode::NoKeys,
                pointer: false,
            }),
            config.edge_snap_threshold == 0,
            config.accessibility_zoom == ZoomConfig::spec_default(),
            config.appearance_settings == (AppearanceConfig {
                clip_floating_windows: true,
                clip_tiled_windows: true,
                shadow_tiled_windows: false,
            }),
            config.cursor_hide_timeout is None,
            config.cursor_shake_to_find,
            config.activation_policy is Focus,
            config.decoration_preference is ClientSide,
    {
        CosmicCompConfig {
            // By default, enable tap-to-click and disable-while-typing.
            input_touchpad: InputConfig {
                state: DeviceState::Enabled,
                click_method: Some(ClickMethod::Clickfinger),
                disable_while_typing: Some(true),
                tap_config: Some(
                    TapConfig {
                        enabled: true,
                        button_map: Some(TapButtonMap::LeftRightMiddle),
                        drag: true,
                        drag_lock: false,
                    },
                ),
            },
            xkb_config: XkbConfig::default(),
            keyboard_config: KeyboardConfig::default(),
            autotile: false,
            tiling_engine: TilingEngine::default(),
            autotile_behavior: TileBehavior::default(),
            active_hint: true,
            focus_follows_cursor: false,
            cursor_follows_focus: false,
            focus_follows_cursor_delay: 250,
            descale_xwayland: XwaylandDescaling::default(),
            xwayland_eavesdropping: XwaylandEavesdropping::default(),
            edge_snap_threshold: 0,
            accessibility_zoom: ZoomConfig::default(),
            appearance_settings: AppearanceConfig::default(),
            cursor_hide_timeout: None,
            cursor_shake_to_find: true,
            activation_policy: ActivationPolicy::default(),
            decoration_preference: DecorationPreference::default(),
        }
    }
}

/// What autotiling applies to.
#[derive(Debug, Copy, Clone, PartialEq, Eq, Structural)]
pub enum TileBehavior {
    Global,
    PerWorkspace,
}

impl Default for TileBehavior {
    fn default() -> (behavior: Self)
        ensures
            behavior is Global,
    {
        TileBehavior::Global
    }
}

/// The keymap, and how keys repeat.
#[derive(Debug, Clone, PartialEq)]
pub struct XkbConfig {
    pub rules: String,
    pub model: String,
    pub layout: String,
    pub variant: String,
    pub options: Option<String>,
    /// In milliseconds
    pub repeat_delay: u32,
    /// In keys per second
    pub repeat_rate: u32,
}

impl XkbConfig {
    /// Whether this is the system's keymap with the usual repetition.
    pub open spec fn is_default(self) -> bool {
        &&& self.rules@.len() == 0
        &&& self.model@.len() == 0
        &&& self.layout@.len() == 0
        &&& self.variant@.len() == 0
        &&& self.options is None
        &&& self.repeat_delay == 600
        &&& self.repeat_rate == 25
    }
}

impl Default for XkbConfig {
    fn default() -> (config: XkbConfig)
        ensures
            config.is_default(),
    {
        XkbConfig {
            rules: String::new(),
            model: String::new(),
            layout: String::new(),
            variant: String::new(),
            options: None,
            repeat_delay: default_repeat_delay(),
            repeat_rate: default_repeat_rate(),
        }
    }
}

/// How many times a second a held key repeats.
pub fn default_repeat_rate() -> (rate: u32)
    ensures
        rate == 25,
{
    25
}

/// How many milliseconds a key is held before it repeats.
pub fn default_repeat_delay() -> (delay: u32)
    ensures
        delay == 600,
{
    600
}

/// The settings of the screen magnifier.
#[derive(Debug, Clone, Copy, PartialEq, Eq, Structural)]
pub struct ZoomConfig {
    pub start_on_login: bool,
    pub show_overlay: bool,
    /// In percent
    pub increment: u32,
    pub view_moves: ZoomMovement,
    pub enable_mouse_zoom_shortcuts: bool,
}

impl ZoomConfig {
    /// The usual settings.
    pub open spec fn spec_default() -> ZoomConfig {
        ZoomConfig {
            start_on_login: false,
            show_overlay: true,
            increment: 50,
            view_moves: ZoomMovement::Continuously,
            enable_mouse_zoom_shortcuts: true,
        }
    }

    /// The increments that are offered, in percent.
    pub fn zoom_increment_presets() -> (presets: [u32; 7])
        ensures
            presets@ == seq![10u32, 25u32, 50u32, 75u32, 100u32, 150u32, 200u32],
    {
        [10, 25, 50, 75, 100, 150, 200]
    }
}

impl Default for ZoomConfig {
    fn default() -> (config: Self)
        ensures
            config == ZoomConfig::spec_default(),
    {
        ZoomConfig {
            start_on_login: false,
            show_overlay: true,
            increment: 50,
            view_moves: ZoomMovement::Continuously,
            enable_mouse_zoom_shortcuts: true,
        }
    }
}

/// When the magnified view moves.
#[derive(Debug, Clone, Copy, PartialEq, Eq, Structural)]
pub enum ZoomMovement {
    OnEdge,
    Centered,
    Continuously,
}

/// What X11 applications may see of the input to others.
#[derive(Debug, Clone, Copy, PartialEq, Eq, Structural)]
pub struct XwaylandEavesdropping {
    pub keyboard: EavesdroppingKeyboardMode,
    pub pointer: bool,
}

impl Default for XwaylandEavesdropping {
    fn default() -> (config: Self)
        ensures
            config.keyboard is NoKeys,
            !config.pointer,
    {
        XwaylandEavesdropping { keyboard: EavesdroppingKeyboardMode::default(), pointer: false }
    }
}

/// Which key presses X11 applications may see.
#[derive(Debug, Clone, Copy, PartialEq, Eq, Structural)]
pub enum EavesdroppingKeyboardMode {
    NoKeys,
    Modifiers,
    Combinations,
    All,
}

impl Default for EavesdroppingKeyboardMode {
    fn default() -> (mode: Self)
        ensures
            mode is NoKeys,
    {
        EavesdroppingKeyboardMode::NoKeys
    }
}

/// What happens when an application asks for the focus.
#[derive(Debug, Clone, Copy, PartialEq, Eq, Structural)]
pub enum ActivationPolicy {
    Focus,
    FocusIfActiveWorkspace,
    Urgent,
}

impl Default for ActivationPolicy {
    fn default() -> (policy: Self)
        ensures
            policy is Focus,
    {
        ActivationPolicy::Focus
    }
}

/// Whether X11 applications scale themselves.
#[derive(Debug, Clone, Copy, PartialEq, Eq, Structural)]
pub enum XwaylandDescaling {
    Enabled,
    Disabled,
    Fractional,
}

impl Default for XwaylandDescaling {
    fn default() -> (descaling: Self)
        ensures
            descaling is Fractional,
    {
        XwaylandDescaling::Fractional
    }
}

} // verus!
