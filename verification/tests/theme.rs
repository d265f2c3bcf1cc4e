use fff_gpui::color::parse_color_rgb;
use fff_gpui::config::{AppConfig, FontConfig, ThemeConfig};
use fff_gpui::theme::{
    buffer_font_family, current, palette, syntax_color, syntax_color_from_styles,
    syntax_render_style, ui_font_family, version, ActiveTheme, Palette, ResolvedTheme,
    SyntaxRenderStyle, SyntaxStyle,
};
use fff_gpui::zed::{
    is_theme_file, load_theme_catalog, load_theme_family_file, normalize_name, palette_from_style, resolve_from_zed_settings,
    resolve_theme_name, style_is_ok, sync_from_config, syntax_styles_from_style, StyleValue,
    ThemeCatalog, ThemeMode, ThemeSelection, ThemeVariant, WindowAppearance, ZedSettings,
};

fn syntax_style(color: u32) -> SyntaxStyle {
    SyntaxStyle {
        color: Some(format!("#{color:06x}")),
        ..SyntaxStyle::default()
    }
}

fn text(s: &str) -> StyleValue {
    StyleValue::Text(s.to_string())
}

fn object(fields: Vec<(&str, StyleValue)>) -> StyleValue {
    StyleValue::Object(fields.into_iter().map(|(k, v)| (k.to_string(), v)).collect())
}

fn variant(name: &str, background: &str) -> ThemeVariant {
    ThemeVariant {
        name: name.to_string(),
        style: object(vec![("background", text(background))]),
    }
}

#[test]
fn parses_hex_colors() {
    assert_eq!(parse_color_rgb("#ff00aa"), Some(0xff00aa));
    assert_eq!(parse_color_rgb("#ff00aaff"), Some(0xff00aa));
    assert_eq!(parse_color_rgb("#f0a"), Some(0xff00aa));
}

#[test]
fn resolves_dynamic_theme_names() {
    let selection = ThemeSelection::Dynamic {
        mode: ThemeMode::System,
        light: "Light Theme".to_string(),
        dark: "Dark Theme".to_string(),
    };

    assert_eq!(
        resolve_theme_name(&selection, WindowAppearance::Dark),
        "Dark Theme"
    );
    assert_eq!(
        resolve_theme_name(&selection, WindowAppearance::Light),
        "Light Theme"
    );
}

#[test]
fn syntax_color_prefers_later_matches_on_ties() {
    let styles = vec![
        ("foo.bar".to_string(), syntax_style(0x111111)),
        ("baz.qux".to_string(), syntax_style(0x222222)),
    ];

    assert_eq!(
        syntax_color_from_styles(&styles, "foo.bar.baz.qux", 0x999999),
        0x222222
    );
}

#[test]
fn constant_and_punctuation_captures_follow_variable_and_text_colors() {
    let theme = ResolvedTheme {
        syntax_styles: vec![
            ("variable".to_string(), syntax_style(0x112233)),
            ("constant".to_string(), syntax_style(0x445566)),
            ("constructor".to_string(), syntax_style(0x778899)),
            ("punctuation".to_string(), syntax_style(0xaabbcc)),
        ],
        syntax_default_color: 0xddeeff,
        ..ResolvedTheme::default()
    };

    assert_eq!(theme.syntax_color("constant"), 0x112233);
    assert_eq!(theme.syntax_color("constructor"), 0x112233);
    assert_eq!(theme.syntax_color("type"), 0x112233);
    assert_eq!(theme.syntax_color("punctuation"), 0xddeeff);
    assert_eq!(theme.syntax_color("punctuation.bracket"), 0xddeeff);
}

#[test]
fn color_edge_cases() {
    assert_eq!(parse_color_rgb("  #1c1c1e  "), Some(0x1c1c1e));
    assert_eq!(parse_color_rgb("ABCDEF"), Some(0xabcdef));
    assert_eq!(parse_color_rgb("#f0a8"), Some(0xff00aa));
    assert_eq!(parse_color_rgb("#ff00a"), None);
    assert_eq!(parse_color_rgb("#gg00aa"), None);
    assert_eq!(parse_color_rgb(""), None);
    assert_eq!(parse_color_rgb("red"), None);
}

#[test]
fn more_parts_win_over_fewer() {
    let styles = vec![
        ("function.method".to_string(), syntax_style(0x010101)),
        ("function".to_string(), syntax_style(0x020202)),
    ];
    assert_eq!(syntax_color_from_styles(&styles, "function.method", 9), 0x010101);
    assert_eq!(syntax_color_from_styles(&styles, "function", 9), 0x020202);
    assert_eq!(syntax_color_from_styles(&styles, "string", 9), 9);
}

#[test]
fn render_styles_carry_weight_and_slant() {
    let theme = ResolvedTheme {
        syntax_styles: vec![
            (
                "comment".to_string(),
                SyntaxStyle {
                    font_style: Some("italic".to_string()),
                    ..syntax_style(0x010203)
                },
            ),
            (
                "keyword".to_string(),
                SyntaxStyle {
                    font_weight: Some(600),
                    ..SyntaxStyle::default()
                },
            ),
        ],
        ..ResolvedTheme::default()
    };
    assert_eq!(
        theme.syntax_render_style("comment.doc"),
        SyntaxRenderStyle {
            color: 0x010203,
            italic: true,
            bold: false,
            underline: false,
            strikethrough: false,
        }
    );
    let keyword = theme.syntax_render_style("keyword");
    assert!(keyword.bold);
    assert_eq!(keyword.color, 0xffffff);
    assert!(!theme.syntax_render_style("operator").bold);
}

#[test]
fn an_active_theme_counts_its_versions() {
    let mut active = ActiveTheme::default();
    assert_eq!(version(&active), 1);
    assert_eq!(palette(&active), Palette::default());
    assert_eq!(palette(&active).bg, 0x1c1c1e);
    assert_eq!(ui_font_family(&active), ".ZedSans");
    assert_eq!(buffer_font_family(&active), ".ZedMono");
    assert_eq!(syntax_color(&active, "keyword"), 0xffffff);
    assert_eq!(syntax_render_style(&active, "keyword").color, 0xffffff);
    sync_from_config(
        &mut active,
        &AppConfig::default(),
        None,
        &ThemeCatalog::new(),
        WindowAppearance::Dark,
    );
    assert_eq!(version(&active), 2);
    assert_eq!(current(&active).syntax_default_color, 0xffffff);
}

#[test]
fn palettes_follow_their_chains_of_keys() {
    let style = object(vec![
        ("surface.background", text("#010101")),
        ("editor.background", text("#020202")),
        ("element.active", text("#030303")),
        ("text", text("none")),
    ]);
    assert!(style_is_ok(&style));
    let palette = palette_from_style(&style);
    assert_eq!(palette.bg, 0x010101);
    assert_eq!(palette.preview_bg, 0x020202);
    assert_eq!(palette.selected_row, 0x030303);
    assert_eq!(palette.text_primary, 0xffffff);
    assert_eq!(palette.match_highlight, 0x4a9eff);
    let broken = object(vec![("border", text("\u{e9}\u{e9}a\u{e9}b"))]);
    assert!(!style_is_ok(&broken));
}

#[test]
fn syntax_styles_skip_what_is_no_object() {
    let style = object(vec![(
        "syntax",
        object(vec![
            (
                "comment",
                object(vec![
                    ("color", text("#111111")),
                    ("font_weight", StyleValue::Number(700)),
                ]),
            ),
            ("background_color", object(vec![])),
            ("note", StyleValue::Other),
            ("string", object(vec![("font_style", text("italic"))])),
        ]),
    )]);
    let styles = syntax_styles_from_style(&style);
    let names: Vec<&str> = styles.iter().map(|(name, _)| name.as_str()).collect();
    assert_eq!(names, vec!["comment", "string"]);
    assert_eq!(styles[0].1.color.as_deref(), Some("#111111"));
    assert_eq!(styles[0].1.font_weight, Some(700));
    assert_eq!(styles[1].1.font_style.as_deref(), Some("italic"));
    assert!(syntax_styles_from_style(&StyleValue::Other).is_empty());
}

#[test]
fn theme_names_are_compared_in_lower_case() {
    assert_eq!(normalize_name("  One Dark "), "one dark");
    assert_eq!(normalize_name("\u{c9}TUDE"), "\u{e9}tude");
}

#[test]
fn later_themes_win_in_the_catalog() {
    let mut catalog = ThemeCatalog::new();
    load_theme_family_file(
        &vec![variant("One", "#010101"), variant("Two", "#020202")],
        &mut catalog,
    );
    load_theme_family_file(&vec![variant(" ONE ", "#030303")], &mut catalog);
    assert_eq!(catalog.get("one").map(|e| e.palette.bg), Some(0x030303));
    assert_eq!(catalog.get("two").map(|e| e.palette.bg), Some(0x020202));
    assert!(catalog.get("three").is_none());
}

#[test]
fn settings_choose_theme_and_fonts() {
    let mut catalog = ThemeCatalog::new();
    load_theme_family_file(
        &vec![variant("Day", "#eeeeee"), variant("Night", "#111111")],
        &mut catalog,
    );
    let settings = ZedSettings {
        theme: Some(ThemeSelection::Dynamic {
            mode: ThemeMode::System,
            light: "Day".to_string(),
            dark: "Night".to_string(),
        }),
        ui_font_family: Some("Inter".to_string()),
        ..ZedSettings::default()
    };
    let config = AppConfig::default();
    let theme = resolve_from_zed_settings(
        &settings,
        &catalog,
        WindowAppearance::VibrantDark,
        &config,
    );
    assert_eq!(theme.palette.bg, 0x111111);
    assert_eq!(theme.ui_font_family, "Inter");
    assert_eq!(theme.buffer_font_family, ".ZedMono");
    let unknown = ZedSettings {
        theme: Some(ThemeSelection::Static("Nowhere".to_string())),
        ..ZedSettings::default()
    };
    let theme = resolve_from_zed_settings(&unknown, &catalog, WindowAppearance::Light, &config);
    assert_eq!(theme.palette, Palette::default());
}

#[test]
fn explicit_values_of_the_configuration_win() {
    let mut catalog = ThemeCatalog::new();
    load_theme_family_file(
        &vec![variant("Day", "#eeeeee"), variant("Night", "#111111")],
        &mut catalog,
    );
    let settings = ZedSettings {
        theme: Some(ThemeSelection::Static("Night".to_string())),
        ui_font_family: Some("Inter".to_string()),
        buffer_font_size: Some(15.0f32.to_bits()),
        ..ZedSettings::default()
    };
    let config = AppConfig {
        font: FontConfig {
            family: Some("General".to_string()),
            ui_family: Some("Special".to_string()),
            ui_size: Some(16.0f32.to_bits()),
            ..FontConfig::default()
        },
        theme: ThemeConfig {
            name: Some("day".to_string()),
            border: Some("#abc".to_string()),
            hover_row: Some("no colour".to_string()),
            ..ThemeConfig::default()
        },
        ..AppConfig::default()
    };
    let mut active = ActiveTheme::default();
    sync_from_config(&mut active, &config, Some(settings), &catalog, WindowAppearance::Dark);
    let theme = current(&active);
    assert_eq!(theme.palette.bg, 0xeeeeee);
    assert_eq!(theme.palette.border, 0xaabbcc);
    assert_eq!(theme.palette.hover_row, 0x2a2a2c);
    assert_eq!(theme.ui_font_family, "Special");
    assert_eq!(theme.buffer_font_family, "General");
    assert_eq!(theme.ui_font_size, Some(16.0f32.to_bits()));
    assert_eq!(theme.buffer_font_size, Some(15.0f32.to_bits()));
}

#[test]
fn settings_are_ignored_without_sync() {
    let settings = ZedSettings {
        ui_font_family: Some("Inter".to_string()),
        ..ZedSettings::default()
    };
    let config = AppConfig {
        sync_zed_settings: false,
        ..AppConfig::default()
    };
    let mut active = ActiveTheme::default();
    sync_from_config(
        &mut active,
        &config,
        Some(settings),
        &ThemeCatalog::new(),
        WindowAppearance::Light,
    );
    assert_eq!(ui_font_family(&active), ".ZedSans");
}

#[test]
fn catalogs_are_made_in_layers() {
    let bundled = vec![Some(vec![variant("One", "#010101"), variant("Two", "#020202")])];
    let installed = vec![None, Some(vec![variant("Two", "#030303")])];
    let local = vec![Some(vec![variant("Three", "#040404"), variant("One", "#050505")])];
    let catalog = load_theme_catalog(&bundled, &installed, &local).unwrap();
    let bg = |key: &str| catalog.get(key).map(|entry| entry.palette.bg);
    assert_eq!(bg("one"), Some(0x050505));
    assert_eq!(bg("two"), Some(0x030303));
    assert_eq!(bg("three"), Some(0x040404));
    assert!(load_theme_catalog(&bundled, &installed, &vec![None]).is_none());
}

#[test]
fn theme_files_end_in_json() {
    assert!(is_theme_file("/themes/one.json"));
    assert!(!is_theme_file("/themes/one.JSON"));
    assert!(!is_theme_file("/themes/json"));
}

#[test]
fn unreadable_colours_are_noticed() {
    let broken = SyntaxStyle {
        color: Some("\u{e9}\u{e9}a\u{e9}b".to_string()),
        ..SyntaxStyle::default()
    };
    let theme = ResolvedTheme {
        syntax_styles: vec![
            ("keyword".to_string(), broken),
            ("keyword.control".to_string(), syntax_style(0x010203)),
        ],
        ..ResolvedTheme::default()
    };
    assert!(!theme.can_color("keyword.control"));
    assert!(theme.can_render("keyword.control"));
    assert!(!theme.can_render("keyword"));
    assert!(theme.can_color("string"));
    assert!(theme.can_color("operator"));
}

#[test]
fn colours_are_read_in_each_spelling() {
    for value in [0x00000fu32, 0x1a2b3c, 0xffffff] {
        for text in [
            format!("#{value:06x}"),
            format!("#{value:06X}"),
            format!("{value:06x}"),
            format!("  #{value:06x}80\t"),
            format!("0x{value:06x}"),
        ] {
            let expected = if text.starts_with("0x") { None } else { Some(value) };
            assert_eq!(parse_color_rgb(&text), expected, "{text:?}");
        }
    }
}

#[test]
fn each_sync_counts() {
    let mut active = ActiveTheme::default();
    let start = version(&active);
    for n in 1..=5u64 {
        sync_from_config(
            &mut active,
            &AppConfig::default(),
            None,
            &ThemeCatalog::new(),
            WindowAppearance::Light,
        );
        assert_eq!(version(&active), start + n);
    }
}
