//! The configuration: what it holds, which file it comes from, and which values are repaired.
//!
//! Lengths and font sizes are single-precision numbers. The library keeps them as the bits of
//! their IEEE 754 form and never calculates with them.

use vstd::prelude::*;

use crate::paths;
use crate::paths::{legacy_config_path, preferred_config_path};
use crate::text;
use crate::text::{chars_of, copy_opt, trim_bounds};

verus! {

/// The bits of 960.0.
pub const DEFAULT_WINDOW_WIDTH: u32 = 0x4470_0000;

/// The bits of 520.0.
pub const DEFAULT_WINDOW_HEIGHT: u32 = 0x4402_0000;

/// The bits of 430.0.
pub const DEFAULT_PICKER_PANE_WIDTH: u32 = 0x43D7_0000;

/// The bits of positive infinity.
pub const INFINITY_BITS: u32 = 0x7F80_0000;

#[derive(Debug)]
pub struct FontConfig {
    pub family: Option<String>,
    pub ui_family: Option<String>,
    pub buffer_family: Option<String>,
    pub size: Option<u32>,
    pub ui_size: Option<u32>,
    pub buffer_size: Option<u32>,
}

pub open spec fn no_font_config() -> FontConfig {
    FontConfig {
        family: None,
        ui_family: None,
        buffer_family: None,
        size: None,
        ui_size: None,
        buffer_size: None,
    }
}

impl Default for FontConfig {
    fn default() -> (r: Self)
        ensures
            r == no_font_config(),
    {
        FontConfig {
            family: None,
            ui_family: None,
            buffer_family: None,
            size: None,
            ui_size: None,
            buffer_size: None,
        }
    }
}

#[derive(Debug)]
pub struct ThemeConfig {
    pub name: Option<String>,
    pub bg: Option<String>,
    pub border: Option<String>,
    pub selected_row: Option<String>,
    pub hover_row: Option<String>,
    pub text_primary: Option<String>,
    pub text_secondary: Option<String>,
    pub text_dim: Option<String>,
    pub status_bar_bg: Option<String>,
    pub match_highlight: Option<String>,
    pub match_highlight_bg: Option<String>,
    pub preview_bg: Option<String>,
    pub input_bg: Option<String>,
    pub input_text: Option<String>,
    pub cursor: Option<String>,
    pub cursor_selection: Option<String>,
    pub icon_muted: Option<String>,
    pub icon_accent: Option<String>,
}

pub open spec fn no_theme_config() -> ThemeConfig {
    ThemeConfig {
        name: None,
        bg: None,
        border: None,
        selected_row: None,
        hover_row: None,
        text_primary: None,
        text_secondary: None,
        text_dim: None,
        status_bar_bg: None,
        match_highlight: None,
        match_highlight_bg: None,
        preview_bg: None,
        input_bg: None,
        input_text: None,
        cursor: None,
        cursor_selection: None,
        icon_muted: None,
        icon_accent: None,
    }
}

impl Default for ThemeConfig {
    fn default() -> (r: Self)
        ensures
            r == no_theme_config(),
    {
        ThemeConfig {
            name: None,
            bg: None,
            border: None,
            selected_row: None,
            hover_row: None,
            text_primary: None,
            text_secondary: None,
            text_dim: None,
            status_bar_bg: None,
            match_highlight: None,
            match_highlight_bg: None,
            preview_bg: None,
            input_bg: None,
            input_text: None,
            cursor: None,
            cursor_selection: None,
            icon_muted: None,
            icon_accent: None,
        }
    }
}

#[derive(Debug)]
pub struct AppConfig {
    pub editor: Option<String>,
    pub sync_zed_settings: bool,
    pub global_keybind: Option<String>,
    pub window_width: u32,
    pub window_height: u32,
    pub picker_pane_width: u32,
    pub font: FontConfig,
    pub theme: ThemeConfig,
}

pub open spec fn default_config() -> AppConfig {
    AppConfig {
        editor: None,
        sync_zed_settings: true,
        global_keybind: None,
        window_width: DEFAULT_WINDOW_WIDTH,
        window_height: DEFAULT_WINDOW_HEIGHT,
        picker_pane_width: DEFAULT_PICKER_PANE_WIDTH,
        font: no_font_config(),
        theme: no_theme_config(),
    }
}

impl Default for AppConfig {
    fn default() -> (r: Self)
        ensures
            r == default_config(),
    {
        AppConfig {
            editor: None,
            sync_zed_settings: true,
            global_keybind: None,
            window_width: DEFAULT_WINDOW_WIDTH,
            window_height: DEFAULT_WINDOW_HEIGHT,
            picker_pane_width: DEFAULT_PICKER_PANE_WIDTH,
            font: FontConfig::default(),
            theme: ThemeConfig::default(),
        }
    }
}

/// A configuration and the file that it came from.
#[derive(Debug)]
pub struct LoadedConfig {
    pub path: String,
    pub config: AppConfig,
}

/// The path of the configuration file: the preferred one if it exists, else the legacy one if that
/// exists, else the preferred one.
pub open spec fn active_config(
    xdg: Option<&str>,
    home: Option<&str>,
    preferred_exists: bool,
    legacy_exists: bool,
) -> Seq<char> {
    if !preferred_exists && legacy_exists {
        paths::legacy_config(home)
    } else {
        paths::preferred_config(xdg, home)
    }
}

pub fn active_config_path(
    xdg_config_home: Option<&str>,
    home: Option<&str>,
    preferred_exists: bool,
    legacy_exists: bool,
) -> (r: String)
    ensures
        r@ == active_config(xdg_config_home, home, preferred_exists, legacy_exists),
{
    if preferred_exists {
        return preferred_config_path(xdg_config_home, home);
    }
    if legacy_exists {
        return legacy_config_path(home);
    }
    preferred_config_path(xdg_config_home, home)
}

/// The configuration file to load, and whether the default configuration is to be written there
/// first because neither file exists.
#[derive(Debug)]
pub struct ConfigSource {
    pub path: String,
    pub write_default: bool,
}

pub fn load_active_config(
    xdg_config_home: Option<&str>,
    home: Option<&str>,
    preferred_exists: bool,
    legacy_exists: bool,
) -> (r: ConfigSource)
    ensures
        r.path@ == active_config(xdg_config_home, home, preferred_exists, legacy_exists),
        r.write_default == (!preferred_exists && !legacy_exists),
{
    ConfigSource {
        path: active_config_path(xdg_config_home, home, preferred_exists, legacy_exists),
        write_default: !preferred_exists && !legacy_exists,
    }
}

/// Whether bits stand for a finite number above zero.
pub open spec fn is_length(bits: u32) -> bool {
    0 < bits < INFINITY_BITS
}

pub open spec fn length_or(bits: u32, fallback: u32) -> u32 {
    if is_length(bits) {
        bits
    } else {
        fallback
    }
}

/// A length, or the fallback where it is not a finite number above zero.
pub fn checked_length(bits: u32, fallback: u32) -> (r: u32)
    ensures
        r == length_or(bits, fallback),
{
    if 0 < bits && bits < INFINITY_BITS {
        bits
    } else {
        fallback
    }
}

/// A key binding of white space alone is none.
pub open spec fn keybind_or_none(binding: Option<Seq<char>>) -> Option<Seq<char>> {
    match binding {
        Some(t) => if text::trim(t).len() == 0 {
            None
        } else {
            binding
        },
        None => None,
    }
}

/// Takes a configuration as it was parsed from its file: drops a blank key binding, and gives each
/// length that is not a finite number above zero its default.
pub fn load_config_from(path: &str, config: AppConfig) -> (r: LoadedConfig)
    ensures
        r.path@ == path@,
        text::opt_text(r.config.global_keybind) == keybind_or_none(
            text::opt_text(config.global_keybind),
        ),
        r.config.window_width == length_or(config.window_width, DEFAULT_WINDOW_WIDTH),
        r.config.window_height == length_or(config.window_height, DEFAULT_WINDOW_HEIGHT),
        r.config.picker_pane_width == length_or(
            config.picker_pane_width,
            DEFAULT_PICKER_PANE_WIDTH,
        ),
        r.config.editor == config.editor,
        r.config.sync_zed_settings == config.sync_zed_settings,
        r.config.font == config.font,
        r.config.theme == config.theme,
{
    let global_keybind = match &config.global_keybind {
        Some(binding) => {
            let (from, to) = trim_bounds(&chars_of(binding.as_str()));
            if from == to {
                None
            } else {
                copy_opt(&config.global_keybind)
            }
        },
        None => None,
    };
    LoadedConfig {
        path: path.to_owned(),
        config: AppConfig {
            editor: config.editor,
            sync_zed_settings: config.sync_zed_settings,
            global_keybind,
            window_width: checked_length(config.window_width, DEFAULT_WINDOW_WIDTH),
            window_height: checked_length(config.window_height, DEFAULT_WINDOW_HEIGHT),
            picker_pane_width: checked_length(
                config.picker_pane_width,
                DEFAULT_PICKER_PANE_WIDTH,
            ),
            font: config.font,
            theme: config.theme,
        },
    }
}

/// All lengths of a loaded configuration are finite and above zero, its key binding is not blank,
/// and loading it again would change none of them.
pub proof fn law_loading_repairs_once(width: u32, height: u32, pane: u32, binding: Option<Seq<char>>)
    ensures
        ({
            let w = length_or(width, DEFAULT_WINDOW_WIDTH);
            let h = length_or(height, DEFAULT_WINDOW_HEIGHT);
            let p = length_or(pane, DEFAULT_PICKER_PANE_WIDTH);
            let b = keybind_or_none(binding);
            &&& is_length(w) && is_length(h) && is_length(p)
            &&& length_or(w, DEFAULT_WINDOW_WIDTH) == w
            &&& length_or(h, DEFAULT_WINDOW_HEIGHT) == h
            &&& length_or(p, DEFAULT_PICKER_PANE_WIDTH) == p
            &&& b matches Some(t) ==> text::trim(t).len() > 0
            &&& keybind_or_none(b) == b
        }),
{
}

/// The file in the old place counts only where it is there and the one in the new place is not.
pub proof fn law_config_place(
    xdg: Option<&str>,
    home: Option<&str>,
    preferred_exists: bool,
    legacy_exists: bool,
)
    ensures
        preferred_exists ==> active_config(xdg, home, preferred_exists, legacy_exists)
            == paths::preferred_config(xdg, home),
        !legacy_exists ==> active_config(xdg, home, preferred_exists, legacy_exists)
            == paths::preferred_config(xdg, home),
        !preferred_exists && legacy_exists ==> active_config(
            xdg,
            home,
            preferred_exists,
            legacy_exists,
        ) == paths::legacy_config(home),
{
}

/// A length that is finite and above zero is kept, and others give way to the default; a shortcut
/// is kept unless it is blank.
pub proof fn law_loading_keeps_what_is_right(bits: u32, fallback: u32, binding: Seq<char>)
    ensures
        0 < bits < 0x7f80_0000 ==> length_or(bits, fallback) == bits,
        bits == 0 || bits >= 0x7f80_0000 ==> length_or(bits, fallback) == fallback,
        text::all_white(binding) ==> keybind_or_none(Some(binding)) is None,
        !text::all_white(binding) ==> keybind_or_none(Some(binding)) == Some(binding),
        keybind_or_none(None) is None,
{
    let (a, b) = text::lemma_trim_range(binding);
    if text::all_white(binding) && text::trim(binding).len() > 0 {
        assert(text::trim(binding)[0] == binding[a]);
    }
    if !text::all_white(binding) {
        let i = choose|i: int| 0 <= i < binding.len() && !text::is_white(#[trigger] binding[i]);
        text::lemma_trim_keeps(binding, i);
    }
}

} // verus!
