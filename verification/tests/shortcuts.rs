use fff_gpui::config::AppConfig;
use fff_gpui::hotkey::{
    apply_key_bindings, expand_hyper, finish_registration, parse_hotkey, plan_key_bindings,
    register_global_hotkey, settle_hotkey, HotkeyError, RegistrationPlan,
};
use fff_gpui::keys::{base_key_bindings, KeyAction};

#[test]
fn expands_hyper_into_all_modifiers() {
    assert_eq!(
        expand_hyper("hyper+f"),
        "shift+control+alt+super+f"
    );
    assert_eq!(
        expand_hyper("cmd-hyper-f"),
        "cmd+shift+control+alt+super+f"
    );
}

#[test]
fn blank_parts_of_a_shortcut_are_dropped() {
    assert_eq!(expand_hyper("cmd++ HYPER +f"), "cmd+shift+control+alt+super+f");
    assert_eq!(expand_hyper(""), "");
}

#[test]
fn shortcuts_are_read() {
    assert_eq!(parse_hotkey(None), Ok(None));
    assert_eq!(parse_hotkey(Some("   ")), Ok(None));
    assert_eq!(
        parse_hotkey(Some(" hyper-f ")),
        Ok(Some("shift+control+alt+super+f".to_string()))
    );
    assert_eq!(parse_hotkey(Some("cmd+shift+p")), Ok(Some("cmd+shift+p".to_string())));
}

#[test]
fn a_shortcut_of_two_words_is_refused() {
    assert_eq!(
        parse_hotkey(Some("cmd f")),
        Err(HotkeyError::NotSingle {
            binding: "cmd f".to_string()
        })
    );
}

#[test]
fn an_unknown_key_is_refused_with_the_reason() {
    match parse_hotkey(Some("cmd+nosuchkey")) {
        Err(HotkeyError::Invalid { binding, problem }) => {
            assert_eq!(binding, "cmd+nosuchkey");
            assert!(problem.contains("nosuchkey"));
        }
        other => panic!("unexpected: {other:?}"),
    }
}

#[test]
fn the_outcome_follows_what_the_parser_found() {
    assert_eq!(
        settle_hotkey(Some("a-b"), None),
        Ok(Some("a+b".to_string()))
    );
    assert_eq!(
        settle_hotkey(Some("a-b"), Some("no".to_string())),
        Err(HotkeyError::Invalid {
            binding: "a-b".to_string(),
            problem: "no".to_string()
        })
    );
    assert_eq!(settle_hotkey(Some(" "), Some("no".to_string())), Ok(None));
}

#[test]
fn key_bindings_are_planned() {
    let config = AppConfig {
        global_keybind: Some("hyper+f".to_string()),
        ..AppConfig::default()
    };
    let plan = apply_key_bindings(&config, true);
    assert!(plan.accepted && plan.clear && plan.bind_base);
    assert_eq!(plan.bind_toggle.as_deref(), Some("hyper+f"));
    let plan = apply_key_bindings(&AppConfig::default(), false);
    assert!(plan.accepted && !plan.clear && plan.bind_base);
    assert!(plan.bind_toggle.is_none());
    let refused = Err(HotkeyError::NotSingle {
        binding: "a b".to_string(),
    });
    let plan = plan_key_bindings(&config, &refused, false);
    assert!(!plan.accepted && plan.clear && plan.bind_base);
    let plan = plan_key_bindings(&config, &refused, true);
    assert!(!plan.accepted && !plan.clear && !plan.bind_base);
    assert!(plan.bind_toggle.is_none());
}

#[test]
fn registration_replaces_and_restores() {
    let plan = register_global_hotkey(Some(2), true, Some(1));
    assert_eq!(
        plan,
        RegistrationPlan {
            unregister: Some(1),
            register: Some(2),
            registered: None
        }
    );
    assert_eq!(finish_registration(&plan, true), (None, Some(2)));
    assert_eq!(finish_registration(&plan, false), (Some(1), Some(1)));
    let plan = register_global_hotkey(Some(1), true, Some(1));
    assert_eq!(finish_registration(&plan, false), (None, Some(1)));
    let plan = register_global_hotkey(None, true, Some(1));
    assert_eq!(plan.unregister, Some(1));
    assert_eq!(finish_registration(&plan, true), (None, None));
    let plan = register_global_hotkey(Some(2), false, None);
    assert_eq!(plan.register, None);
}

#[test]
fn keys_are_bound_once() {
    let bindings = base_key_bindings();
    assert_eq!(bindings.len(), 25);
    assert_eq!(bindings[0], ("escape", KeyAction::Quit));
    assert!(bindings.contains(&("ctrl-g", KeyAction::SwitchGrep)));
    for (i, (key, _)) in bindings.iter().enumerate() {
        assert!(bindings[i + 1..].iter().all(|(other, _)| other != key));
    }
}

#[test]
fn writing_a_shortcut_out_twice_changes_nothing() {
    for binding in ["hyper+f", " cmd - Hyper-f", "++", "a- -b", ""] {
        let once = expand_hyper(binding);
        assert_eq!(expand_hyper(&once), once, "{binding:?}");
        for key in once.split('+').filter(|_| !once.is_empty()) {
            assert!(!key.is_empty() && key.trim() == key && key.to_lowercase() != "hyper");
        }
    }
}

#[test]
fn hyper_is_read_like_the_four_modifiers() {
    assert_eq!(
        parse_hotkey(Some("HYPER-f")),
        parse_hotkey(Some("shift+control+alt+super+f"))
    );
    assert!(parse_hotkey(Some("hyper+nosuchkey")).is_err());
    assert!(parse_hotkey(Some("shift+control+alt+super+nosuchkey")).is_err());
}
