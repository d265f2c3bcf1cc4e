use std::hash::Hasher;

use fff_gpui::assets::{external_key, AssetSource, Assets, FontAssets};
use fff_gpui::config::{
    active_config_path, load_active_config, load_config_from, AppConfig, DEFAULT_PICKER_PANE_WIDTH,
    DEFAULT_WINDOW_HEIGHT, DEFAULT_WINDOW_WIDTH,
};
use fff_gpui::editor::{choose_editor, editor_command};
use fff_gpui::launch::{
    first_step, forward_command, help_text, parse_launch_options, FirstStep, LaunchArgument,
};
use fff_gpui::login_item::{
    apply_launch_at_login, set_launch_at_login, sync_launch_at_login, RegistrationReply,
};
use fff_gpui::paths::{
    join_path, log_path, socket_path, tracker_files, zed_installed_themes_dir,
    zed_local_themes_dir, zed_settings_path,
};
use fff_gpui::service::{
    frame_line, read_request, status_item_clicked, ForwardOutcome, MenuBarClick, PickResponse,
    ServiceAction, ServiceCommand, Sessions,
};

fn open(path: &str, in_grep: bool) -> ServiceCommand {
    ServiceCommand::OpenPath {
        path: path.to_string(),
        in_grep,
    }
}

fn one_shot(path: &str) -> ServiceCommand {
    ServiceCommand::OpenOneShot {
        path: path.to_string(),
        in_grep: false,
    }
}

fn sessions() -> Sessions {
    Sessions::new("/home/u".to_string(), false, false)
}

#[test]
fn messages_survive_their_lines() {
    let payload = "{\"cmd\":\"quit\"}";
    let line = frame_line(payload);
    assert_eq!(line, "{\"cmd\":\"quit\"}\n");
    assert_eq!(read_request(&line).as_deref(), Some(payload));
    assert_eq!(read_request(" \r\n"), None);
}

#[test]
fn empty_answers_hold_nothing() {
    assert!(PickResponse::default().paths.is_empty());
    assert_eq!(ForwardOutcome::Picked(vec![]), ForwardOutcome::Picked(vec![]));
}

#[test]
fn showing_and_toggling() {
    let mut s = sessions();
    match s.handle_service_command(ServiceCommand::ShowPicker, None, false) {
        ServiceAction::Open(session) => assert_eq!(session.base_path, "/home/u"),
        other => panic!("unexpected: {other:?}"),
    }
    assert!(matches!(
        s.handle_service_command(ServiceCommand::ShowPicker, None, true),
        ServiceAction::Nothing
    ));
    assert!(matches!(
        s.handle_service_command(ServiceCommand::ToggleWindow, None, true),
        ServiceAction::Close
    ));
    assert!(matches!(
        s.handle_service_command(ServiceCommand::ToggleWindow, None, false),
        ServiceAction::Open(_)
    ));
    assert!(matches!(
        s.handle_service_command(ServiceCommand::OpenConfig, None, true),
        ServiceAction::OpenConfig
    ));
    assert!(matches!(
        s.handle_service_command(ServiceCommand::Quit, None, true),
        ServiceAction::Quit
    ));
}

#[test]
fn opening_a_path_replaces_the_resident_session() {
    let mut s = sessions();
    match s.handle_service_command(open("/p", true), Some(7), true) {
        ServiceAction::Replace(session) => {
            assert_eq!((session.base_path.as_str(), session.index), ("/p", 1));
            assert!(session.enable_content_indexing && session.start_in_grep);
            assert_eq!(session.responder, Some(7));
        }
        other => panic!("unexpected: {other:?}"),
    }
    assert!(matches!(
        s.handle_service_command(open("/p", false), Some(8), true),
        ServiceAction::Nothing
    ));
    assert_eq!(s.current.index, 1);
    assert!(!s.current.start_in_grep);
    assert_eq!(s.current.responder, Some(8));
}

#[test]
fn single_launches_share_an_index() {
    let mut s = sessions();
    let mut index = Vec::new();
    for responder in [1, 2] {
        match s.handle_service_command(one_shot("/p"), Some(responder), true) {
            ServiceAction::Open(session) => {
                assert_eq!(session.responder, Some(responder));
                index.push(session.index);
            }
            other => panic!("unexpected: {other:?}"),
        }
    }
    assert_eq!(index[0], index[1]);
    assert_eq!(s.one_shots.len(), 1);
    assert_eq!(s.current.base_path, "/home/u");
}

#[test]
fn clicks_on_the_menu_bar() {
    assert_eq!(status_item_clicked(1), MenuBarClick::ShowMenu);
    assert_eq!(
        status_item_clicked(0),
        MenuBarClick::Send(ServiceCommand::ToggleWindow)
    );
}

fn args(list: &[(&str, Option<&str>)]) -> Vec<LaunchArgument> {
    list.iter()
        .map(|(text, dir)| LaunchArgument {
            text: text.to_string(),
            dir: dir.map(str::to_string),
        })
        .collect()
}

#[test]
fn launches_are_read() {
    let launch = parse_launch_options(
        &args(&[
            ("nowhere", None),
            ("a", Some("/a")),
            ("b", Some("/b")),
            ("--open", None),
            (".", Some("/here")),
            ("--grep", None),
        ]),
        Some("/home/u"),
    );
    assert_eq!(launch.base_path, "/a");
    assert!(launch.base_path_explicit && launch.start_in_grep);
    assert_eq!(launch.open_path.as_deref(), Some("/here"));
    assert_eq!(
        forward_command(&launch),
        ServiceCommand::OpenOneShot {
            path: "/here".to_string(),
            in_grep: true
        }
    );
    assert_eq!(first_step(&launch), FirstStep::Forward);
}

#[test]
fn launches_without_arguments_start_at_home() {
    let launch = parse_launch_options(&vec![], Some("/home/u"));
    assert_eq!(launch.base_path, "/home/u");
    assert!(!launch.base_path_explicit);
    assert_eq!(
        forward_command(&launch),
        ServiceCommand::OpenPath {
            path: "/home/u".to_string(),
            in_grep: false
        }
    );
    assert_eq!(parse_launch_options(&vec![], None).base_path, "/");
    let open = parse_launch_options(&args(&[("-V", None), ("--open", None)]), None);
    assert!(open.open_path.is_none());
    assert_eq!(first_step(&open), FirstStep::PrintVersion);
    let help = parse_launch_options(&args(&[("--version", None), ("-h", None)]), None);
    assert_eq!(first_step(&help), FirstStep::PrintHelp);
    let missing = parse_launch_options(&args(&[("--open", None), ("--grep", None)]), None);
    assert!(missing.open_path.is_none() && !missing.start_in_grep);
}

#[test]
fn editors_are_chosen_in_turn() {
    let pick = |e, v, c| choose_editor(e, v, c);
    assert_eq!(pick(Some("hx"), Some("vi"), Some("zed")).as_deref(), Some("hx"));
    assert_eq!(pick(None, Some("vi"), Some("zed")).as_deref(), Some("vi"));
    assert_eq!(pick(None, None, Some("zed")).as_deref(), Some("zed"));
    assert_eq!(pick(None, None, None), None);
}

#[test]
fn editors_get_their_arguments() {
    assert_eq!(editor_command("hx", "/a b", None), vec!["hx", "/a b"]);
    assert_eq!(editor_command("hx", "/a", Some(12)), vec!["hx", "+12", "/a"]);
    assert_eq!(
        editor_command("code -w", "/a", Some(3)),
        vec!["sh", "-c", "exec code -w +3 \"$1\"", "fff-editor", "/a"]
    );
    assert_eq!(
        editor_command("code -w", "/a", None),
        vec!["sh", "-c", "exec code -w \"$1\"", "fff-editor", "/a"]
    );
}

#[test]
fn configuration_paths() {
    let path = |x, h, p, l| active_config_path(x, h, p, l);
    assert_eq!(
        path(Some("/x"), Some("/h"), false, false),
        "/x/fff-gpui/config.toml"
    );
    assert_eq!(path(None, Some("/h"), false, true), "/h/.fff-gpui.toml");
    assert_eq!(
        path(None, Some("/h"), true, true),
        "/h/.config/fff-gpui/config.toml"
    );
    assert_eq!(path(None, None, false, false), "/.config/fff-gpui/config.toml");
    assert_eq!(join_path("", "zed"), "zed");
    assert_eq!(join_path("/x/", "zed"), "/x/zed");
}

#[test]
fn other_paths() {
    assert_eq!(zed_settings_path(None, Some("/h")), "/h/.config/zed/settings.json");
    assert_eq!(zed_local_themes_dir(Some("/x"), None), "/x/zed/themes");
    assert_eq!(
        zed_installed_themes_dir(true, Some("/d"), Some("/h")),
        "/h/Library/Application Support/Zed/extensions/installed"
    );
    assert_eq!(
        zed_installed_themes_dir(false, Some("/d"), Some("/h")),
        "/d/zed/extensions/installed"
    );
    assert_eq!(
        zed_installed_themes_dir(false, None, Some("/h")),
        "/h/.local/share/zed/extensions/installed"
    );
    assert_eq!(log_path(None), "/tmp/.local/state/fff-gpui/fff-gpui.log");
    assert_eq!(socket_path(Some("/h")), "/h/.local/state/fff-gpui/fff-gpui.sock");
    assert_eq!(
        tracker_files(Some("/h")).map(|t| t.1).as_deref(),
        Some("/h/.local/share/fff/frecency.lmdb")
    );
    assert!(tracker_files(None).is_none());
}

#[test]
fn lengths_are_bits_of_numbers() {
    assert_eq!(DEFAULT_WINDOW_WIDTH, 960.0f32.to_bits());
    assert_eq!(DEFAULT_WINDOW_HEIGHT, 520.0f32.to_bits());
    assert_eq!(DEFAULT_PICKER_PANE_WIDTH, 430.0f32.to_bits());
}

#[test]
fn configurations_are_repaired() {
    for bad in [0.0f32, -0.0, -1.0, f32::NAN, f32::INFINITY, f32::NEG_INFINITY] {
        let config = AppConfig {
            window_width: bad.to_bits(),
            window_height: bad.to_bits(),
            picker_pane_width: bad.to_bits(),
            global_keybind: Some("  ".to_string()),
            ..AppConfig::default()
        };
        let loaded = load_config_from("/c", config);
        assert_eq!(loaded.path, "/c");
        assert_eq!(loaded.config.window_width, DEFAULT_WINDOW_WIDTH);
        assert_eq!(loaded.config.window_height, DEFAULT_WINDOW_HEIGHT);
        assert_eq!(loaded.config.picker_pane_width, DEFAULT_PICKER_PANE_WIDTH);
        assert!(loaded.config.global_keybind.is_none());
        assert!(loaded.config.sync_zed_settings);
    }
    for good in [f32::MIN_POSITIVE, 1.0e-40, 640.5, f32::MAX] {
        let config = AppConfig {
            window_width: good.to_bits(),
            global_keybind: Some(" f1 ".to_string()),
            ..AppConfig::default()
        };
        let loaded = load_config_from("/c", config);
        assert_eq!(loaded.config.window_width, good.to_bits());
        assert_eq!(loaded.config.global_keybind.as_deref(), Some(" f1 "));
    }
}

#[test]
fn login_items_report_failures() {
    assert!(set_launch_at_login(RegistrationReply::Unsupported).is_ok());
    assert!(set_launch_at_login(RegistrationReply::Done).is_ok());
    assert_eq!(
        set_launch_at_login(RegistrationReply::Unavailable),
        Err("SMAppService.mainApp is unavailable".to_string())
    );
    assert_eq!(
        set_launch_at_login(RegistrationReply::Failed(None)),
        Err("unknown error".to_string())
    );
    let error = apply_launch_at_login(RegistrationReply::Failed(Some("no".to_string())))
        .unwrap_err();
    assert_eq!(error.context, "failed to update launch-at-login setting");
    assert_eq!(error.cause, "no");
    assert!(sync_launch_at_login(RegistrationReply::Done).is_none());
    assert!(sync_launch_at_login(RegistrationReply::Unavailable).is_some());
}

#[test]
fn assets_are_listed_in_order() {
    let mut assets = Assets::new(vec![
        "file_icons/rust.svg".to_string(),
        "file_icons/dir/a.svg".to_string(),
        "file_icons/dir/b.svg".to_string(),
        "other/x".to_string(),
    ]);
    assert_eq!(assets.list("file_icons"), vec!["dir", "rust.svg"]);
    assert_eq!(assets.list("file_icons/"), vec!["dir", "rust.svg"]);
    assert_eq!(assets.list(""), vec!["file_icons", "other"]);
    assert!(assets.list("nothing").is_empty());
    let key = assets.register_external_asset("file_icons/zig.svg", "/disk/zig.svg");
    assert_eq!(key, "file_icons/zig.svg");
    assert_eq!(assets.list("file_icons"), vec!["dir", "rust.svg", "zig.svg"]);
    assert_eq!(assets.load("other/x"), Some(AssetSource::Embedded));
    assert_eq!(
        assets.load("file_icons/zig.svg"),
        Some(AssetSource::File("/disk/zig.svg".to_string()))
    );
    assert_eq!(assets.load("missing"), None);
}

#[test]
fn files_on_disk_get_keys() {
    let mut assets = Assets::new(vec![]);
    let key = assets.register_external_asset_path("/disk/icon.svg");
    let mut hasher = std::collections::hash_map::DefaultHasher::new();
    hasher.write(b"/disk/icon.svg");
    assert_eq!(key, format!("external/{:016x}.svg", hasher.finish()));
    assert_eq!(assets.register_external_asset_path("/disk/icon.svg"), key);
    assert_eq!(
        assets.load(&key),
        Some(AssetSource::File("/disk/icon.svg".to_string()))
    );
    assert_eq!(external_key(0xab), "external/00000000000000ab.svg");
    assert_eq!(external_key(u64::MAX), "external/ffffffffffffffff.svg");
}

#[test]
fn fonts_are_picked_by_their_ending() {
    let fonts = FontAssets {
        files: vec!["a.ttf".to_string(), "readme".to_string(), "b.ttf".to_string()],
    };
    assert_eq!(fonts.load_fonts(), vec!["a.ttf", "b.ttf"]);
}

#[test]
fn a_default_configuration_is_written_where_none_is() {
    let source = load_active_config(None, Some("/h"), false, false);
    assert_eq!(source.path, "/h/.config/fff-gpui/config.toml");
    assert!(source.write_default);
    let source = load_active_config(None, Some("/h"), false, true);
    assert_eq!(source.path, "/h/.fff-gpui.toml");
    assert!(!source.write_default);
}

#[test]
fn the_help_text_begins_with_the_version() {
    let help = help_text("1.2.3");
    assert!(help.starts_with("fff-gpui 1.2.3\n\nUsage:\n  fff-gpui [OPTIONS] [PATH]\n\nOptions:\n"));
    assert!(help.ends_with("  -V, --version     Show version information"));
}

#[test]
fn paths_are_the_same_with_a_slash_at_the_end() {
    let mut s = sessions();
    let index = s.current.index;
    assert!(matches!(
        s.handle_service_command(open("/home/u/", true), Some(3), true),
        ServiceAction::Nothing
    ));
    assert_eq!(s.current.index, index);
    assert_eq!(s.current.base_path, "/home/u");
    assert_eq!(s.current.responder, Some(3));
    assert!(matches!(
        s.handle_service_command(open("/home/u/..", false), None, true),
        ServiceAction::Replace(_)
    ));
    let first = s.one_shot_session("/tmp".to_string(), false, None);
    let second = s.one_shot_session("/tmp/.".to_string(), true, None);
    assert_eq!(first.index, second.index);
    assert_eq!(s.one_shots.len(), 1);
}

#[test]
fn a_line_ends_where_its_message_ends() {
    for payload in ["\"quit\"", "{\"open_path\":{\"path\":\"/a b\",\"in_grep\":false}}"] {
        let line = frame_line(payload);
        assert_eq!(line.find('\n'), Some(line.len() - 1));
        assert_eq!(read_request(&line).as_deref(), Some(payload));
    }
    assert_eq!(read_request(""), None);
    assert_eq!(read_request("\t \n"), None);
}

#[test]
fn launches_go_by_what_stands_behind_open() {
    let launch = parse_launch_options(
        &args(&[
            ("--open", None),
            ("--open", Some("/odd")),
            ("a", None),
            ("--open", None),
            ("--help", Some("/late")),
            ("b", Some("/b")),
            ("--open", None),
            ("c", None),
            ("d", Some("/d")),
        ]),
        None,
    );
    assert_eq!(launch.open_path.as_deref(), Some("/late"));
    assert_eq!(launch.base_path, "/b");
    assert!(!launch.show_help && !launch.start_in_grep);
}

#[test]
fn connections_are_held_until_another_path_is_opened() {
    let mut s = sessions();
    s.handle_service_command(open("/a", false), Some(1), false);
    assert!(s.holds_responder(1));
    s.handle_service_command(ServiceCommand::ToggleWindow, Some(2), true);
    s.handle_service_command(one_shot("/b"), Some(3), true);
    assert!(s.holds_responder(1));
    assert!(!s.holds_responder(2) && !s.holds_responder(3));
    s.handle_service_command(open("/a", true), Some(4), true);
    assert!(!s.holds_responder(1) && s.holds_responder(4));
    s.handle_service_command(open("/c", true), None, true);
    assert!(!s.holds_responder(4));
}
