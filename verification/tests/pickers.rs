use fff_gpui::components::{is_same_path, strip_base};
use fff_gpui::opening::{OpenPlan, TrackStep};
use fff_gpui::picker::{
    build_preview, plan_search, FffPicker, PreviewRequest, ProgressStep, RowClick, ScanPlan,
    SearchPlan, SearchRequest, SearchView, ShiftTabOutcome,
};
use fff_gpui::preview::plain_text_lines;
use fff_gpui::query::{FuzzyText, GrepMode};
use fff_gpui::search::{FileItemSnapshot, GrepMatchLine, SearchOutcome};
use fff_gpui::service::PickEntry;
use fff_gpui::theme::ResolvedTheme;

fn item(path: &str) -> FileItemSnapshot {
    FileItemSnapshot {
        file_name: path.rsplit('/').next().unwrap().to_string(),
        dir: "some/dir".to_string(),
        absolute_path: path.to_string(),
        git_status: Some("modified".to_string()),
        frecency_score: 3,
        match_ranges: vec![],
        grep_matches: vec![],
    }
}

fn hit(number: usize, content: &str, ranges: &[(u32, u32)]) -> GrepMatchLine {
    GrepMatchLine {
        line_number: number,
        line_content: content.to_string(),
        byte_ranges: ranges.to_vec(),
    }
}

fn outcome(items: Vec<FileItemSnapshot>) -> SearchOutcome {
    let total_matched = items.len();
    SearchOutcome {
        items,
        total_files: 100,
        total_matched,
    }
}

/// A picker with three results.
fn filled() -> FffPicker {
    let mut picker = FffPicker::new("/p".to_string(), false, 1, false);
    let request = picker.finish_scan().unwrap();
    picker
        .apply_search(
            request.epoch,
            outcome(vec![item("/p/c"), item("/p/a"), item("/p/b")]),
        )
        .unwrap();
    picker
}

#[test]
fn a_new_picker_waits_for_its_files() {
    let mut picker = FffPicker::new("/p".to_string(), true, 1, false);
    assert_eq!(picker.view, SearchView::Grep);
    assert!(picker.run_search().is_none());
    assert_eq!(picker.list_notice().as_deref(), Some("Indexing"));
    assert_eq!(
        picker.index_progress(Some((12, true))),
        ProgressStep { notify: true, again: true }
    );
    assert_eq!(
        picker.index_progress(Some((12, false))),
        ProgressStep { notify: false, again: false }
    );
    assert_eq!(
        picker.index_progress(None),
        ProgressStep { notify: false, again: true }
    );
    assert_eq!(picker.list_notice().as_deref(), Some("Indexing 12 files"));
    assert_eq!(
        picker.status_text(),
        "indexing. 12 files  \u{2022}  mode: plain  \u{21E7}tab mode"
    );
    assert_eq!(picker.preview_placeholder(), "");
}

#[test]
fn scans_are_reused() {
    let mut picker = FffPicker::new("/p".to_string(), false, 1, false);
    assert!(matches!(picker.start_scan(None), ScanPlan::Start));
    assert!(matches!(picker.start_scan(Some(("/q", false))), ScanPlan::Start));
    assert!(matches!(picker.start_scan(Some(("/p", true))), ScanPlan::Wait));
    assert!(!picker.scan_done);
    match picker.start_scan(Some(("/p", false))) {
        ScanPlan::Reuse(Some(request)) => assert_eq!(request.epoch, 1),
        other => panic!("unexpected: {other:?}"),
    }
    assert!(picker.scan_done);
}

#[test]
fn old_results_are_dropped() {
    let mut picker = filled();
    let first = picker.set_query("a".to_string()).unwrap();
    assert!(picker.search_in_flight);
    let second = picker.set_query("ab".to_string()).unwrap();
    assert!(second.abort_previous);
    assert!(picker.apply_search(first.epoch, outcome(vec![])).is_none());
    assert_eq!(picker.results.len(), 3);
    let applied = picker.apply_search(second.epoch, outcome(vec![item("/p/a")])).unwrap();
    assert_eq!(applied.scroll_to, Some(0));
    assert_eq!(applied.preview.unwrap().path, "/p/a");
    assert!(!picker.search_in_flight);
    assert!(picker.set_query("ab".to_string()).is_none());
}

#[test]
fn the_cursor_moves_and_stops_at_the_ends() {
    let mut picker = filled();
    assert!(picker.on_select_next().is_none());
    let moved = picker.on_select_prev().unwrap();
    assert_eq!(moved.scroll_to, 1);
    assert_eq!(moved.preview.unwrap().path, "/p/a");
    assert_eq!(picker.on_select_prev().unwrap().scroll_to, 0);
    assert!(picker.on_select_prev().is_none());
    assert_eq!(picker.selected, 2);
    assert_eq!(picker.on_select_next().unwrap().scroll_to, 1);
    assert_eq!(picker.selected, 1);
    assert_eq!(picker.visual_index(0), 2);
    assert_eq!(picker.visual_index(9), 0);
}

#[test]
fn clicks_select_and_open() {
    let mut picker = filled();
    assert!(matches!(picker.on_select_row(3), RowClick::Ignored));
    assert!(matches!(picker.on_select_row(0), RowClick::Open));
    match picker.on_select_row(2) {
        RowClick::Moved(moved) => assert_eq!(moved.scroll_to, 0),
        other => panic!("unexpected: {other:?}"),
    }
    assert_eq!(picker.selected, 2);
}

#[test]
fn marks_come_and_go() {
    let mut picker = filled();
    picker.on_toggle_selected();
    picker.on_select_prev();
    picker.on_toggle_selected();
    assert_eq!(picker.selected_paths, vec!["/p/a", "/p/c"]);
    picker.on_toggle_selected();
    assert_eq!(picker.selected_paths, vec!["/p/c"]);
    picker.on_toggle_select_all();
    assert!(picker.selected_paths.is_empty());
    picker.on_toggle_select_all();
    assert_eq!(picker.selected_paths, vec!["/p/a", "/p/b", "/p/c"]);
    let request = picker.run_search().unwrap();
    picker.apply_search(request.epoch, outcome(vec![item("/p/b"), item("/p/x")]));
    assert_eq!(picker.selected_paths, vec!["/p/b"]);
    picker.set_query("new".to_string());
    assert!(picker.selected_paths.is_empty());
}

#[test]
fn marks_are_in_the_order_of_paths() {
    let mut picker = FffPicker::new("/p".to_string(), false, 1, false);
    let request = picker.finish_scan().unwrap();
    let paths = ["/p/a-b", "/p/a/z", "/p/a", "/p/B"];
    picker.apply_search(request.epoch, outcome(paths.iter().map(|p| item(p)).collect()));
    picker.on_toggle_select_all();
    let mut expected: Vec<std::path::PathBuf> = paths.iter().map(|p| p.into()).collect();
    expected.sort();
    let marked: Vec<std::path::PathBuf> = picker.selected_paths.iter().map(|p| p.into()).collect();
    assert_eq!(marked, expected);
}

#[test]
fn modes_switch_and_clear() {
    let mut picker = filled();
    assert!(picker.on_switch_files().is_none());
    assert_eq!(picker.on_switch_grep(), Some(false));
    assert!(picker.results.is_empty());
    assert!(picker.on_switch_grep().is_none());
    assert_eq!(picker.grep_mode, GrepMode::PlainText);
    picker.run_search().unwrap();
    match picker.on_shift_tab() {
        ShiftTabOutcome::ModeChanged { abort } => assert!(abort),
        other => panic!("unexpected: {other:?}"),
    }
    assert_eq!(picker.grep_mode, GrepMode::Regex);
    picker.on_cycle_grep_mode();
    assert_eq!(picker.grep_mode, GrepMode::Fuzzy);
    picker.on_cycle_grep_mode();
    assert_eq!(picker.grep_mode, GrepMode::PlainText);
    assert_eq!(picker.on_switch_files(), Some(true));
    assert_eq!(picker.view, SearchView::Files);
    assert!(matches!(filled().on_shift_tab(), ShiftTabOutcome::Moved(Some(_))));
}

#[test]
fn history_fills_the_field() {
    let mut picker = filled();
    assert_eq!(picker.on_cycle_previous_query(Some("old".to_string())).as_deref(), Some("old"));
    assert!(picker.status_message.is_none());
    assert!(picker.on_cycle_previous_query(None).is_none());
    assert_eq!(picker.status_text(), "No query history");
}

#[test]
fn previews_load_and_scroll() {
    let mut picker = filled();
    let request = picker.load_preview().unwrap();
    assert!(picker.show_loading(request.epoch));
    assert_eq!(picker.preview_placeholder(), "Loading\u{2026}");
    let lines = plain_text_lines(&"x\n".repeat(20), &ResolvedTheme::default());
    assert!(picker.apply_preview(request.epoch - 1, 1, vec![], None).is_none());
    assert_eq!(picker.apply_preview(request.epoch, 12, lines, Some(30)), Some(10));
    assert_eq!(picker.preview_scroll_row, 18);
    assert!(!picker.show_loading(request.epoch));
    assert_eq!(picker.on_preview_scroll_down(), Some(19));
    assert_eq!(picker.on_preview_scroll_up(), 13);
    picker.preview_scroll_row = 4;
    assert_eq!(picker.on_preview_scroll_up(), 0);
    let mut empty = FffPicker::new("/p".to_string(), false, 1, false);
    assert!(empty.on_preview_scroll_down().is_none());
    assert!(empty.load_preview().is_none());
}

#[test]
fn a_new_theme_loads_the_preview_again() {
    let mut picker = filled();
    assert!(picker.sync_theme(1).is_none());
    assert_eq!(picker.sync_theme(2).unwrap().path, "/p/c");
    assert!(picker.sync_theme(2).is_none());
}

#[test]
fn previews_show_the_matches() {
    let request = PreviewRequest {
        epoch: 1,
        path: "/p/x.txt".to_string(),
        grep_matches: vec![hit(2, "hello", &[(0, 2)]), hit(9, "none", &[(0, 1)])],
        first_match_line: Some(2),
    };
    let theme = ResolvedTheme::default();
    let (start, lines) = build_preview(&request, Some("one\nhello\n"), &theme, 7, 8);
    assert_eq!((start, lines.len()), (1, 2));
    let spans: Vec<(&str, u32, Option<u32>)> = lines[1]
        .spans
        .iter()
        .map(|s| (s.text.as_str(), s.color, s.bg))
        .collect();
    assert_eq!(spans, vec![("he", 7, Some(8)), ("llo", 0xffffff, None)]);
    let (start, lines) = build_preview(&request, None, &theme, 7, 8);
    assert_eq!((start, lines.len()), (1, 0));
}

#[test]
fn the_first_found_line_is_the_smallest() {
    let mut picker = FffPicker::new("/p".to_string(), true, 1, false);
    let request = picker.finish_scan().unwrap();
    let mut found = item("/p/a");
    found.grep_matches = vec![hit(9, "x", &[]), hit(4, "y", &[])];
    let applied = picker.apply_search(request.epoch, outcome(vec![found])).unwrap();
    assert_eq!(applied.preview.unwrap().first_match_line, Some(4));
}

#[test]
fn searches_are_planned() {
    let request = |view, query: &str, grep_mode| SearchRequest {
        epoch: 1,
        query: query.to_string(),
        view,
        grep_mode,
        abort_previous: false,
    };
    match plan_search(&request(SearchView::Files, " main ", GrepMode::PlainText)) {
        SearchPlan::Files { query, parsed } => {
            assert_eq!(query.fuzzy, FuzzyText::Text("main".to_string()));
            assert!(!parsed);
        }
        other => panic!("unexpected: {other:?}"),
    }
    match plan_search(&request(SearchView::Grep, "a b", GrepMode::PlainText)) {
        SearchPlan::Grep { query, parsed } => {
            assert_eq!(query.fuzzy, FuzzyText::Parts(vec!["a".to_string(), "b".to_string()]));
            assert!(parsed);
        }
        other => panic!("unexpected: {other:?}"),
    }
    assert!(matches!(
        plan_search(&request(SearchView::Files, " src/ main ", GrepMode::PlainText)),
        SearchPlan::Files { parsed: true, .. }
    ));
    assert!(matches!(
        plan_search(&request(SearchView::Grep, "a b", GrepMode::Fuzzy)),
        SearchPlan::Grep { parsed: false, .. }
    ));
    assert!(matches!(
        plan_search(&request(SearchView::Grep, "  ", GrepMode::Regex)),
        SearchPlan::Blank
    ));
}

#[test]
fn files_are_opened_or_answered() {
    let mut picker = filled();
    assert_eq!(
        picker.track_open(),
        vec![
            TrackStep::QueryCompletion("/p/c".to_string()),
            TrackStep::Access("/p/c".to_string())
        ]
    );
    let entry = PickEntry {
        path: "/p/c".to_string(),
        line: None,
        column: None,
    };
    match picker.on_open_selected() {
        OpenPlan::Edit(entries) => assert_eq!(entries, vec![entry]),
        other => panic!("unexpected: {other:?}"),
    }
    picker.on_toggle_select_all();
    picker.awaits_answer = true;
    match picker.on_open_selected() {
        OpenPlan::Answer(entries) => assert_eq!(entries.len(), 3),
        other => panic!("unexpected: {other:?}"),
    }
    assert!(!picker.dismiss());
    let mut waiting = FffPicker::new("/p".to_string(), false, 1, true);
    assert!(matches!(waiting.on_open_selected(), OpenPlan::Nothing));
    assert!(waiting.dismiss());
    assert!(!waiting.dismiss());
    assert!(waiting.track_open().is_empty());
}

#[test]
fn content_searches_open_at_the_match() {
    let mut picker = FffPicker::new("/p".to_string(), true, 1, false);
    let request = picker.finish_scan().unwrap();
    let mut found = item("/p/a");
    found.grep_matches = vec![hit(9, "abc", &[(2, 3)])];
    picker.apply_search(request.epoch, outcome(vec![found]));
    assert_eq!(
        picker.track_open(),
        vec![TrackStep::GrepQuery, TrackStep::Access("/p/a".to_string())]
    );
    match picker.on_open_selected() {
        OpenPlan::Edit(entries) => {
            assert_eq!((entries[0].line, entries[0].column), (Some(9), Some(3)))
        }
        other => panic!("unexpected: {other:?}"),
    }
}

#[test]
fn opening_leaves_a_message() {
    let entry = |path: &str| PickEntry {
        path: path.to_string(),
        line: None,
        column: None,
    };
    let mut picker = filled();
    let one = vec![entry("/p/a")];
    let two = vec![entry("/p/a"), entry("/p/b")];
    assert!(picker.finish_open(&one, 1, None, "/log"));
    assert_eq!(picker.status_text(), "Opened /p/a");
    assert!(picker.finish_open(&two, 2, Some("late"), "/log"));
    assert_eq!(picker.status_text(), "Opened 2 files");
    assert!(!picker.finish_open(&one, 0, Some("no editor"), "/log"));
    assert_eq!(picker.status_text(), "Open failed: no editor  (log: /log)");
}

#[test]
fn the_window_shows_the_state() {
    let mut picker = filled();
    assert_eq!(
        picker.status_text(),
        "3 shown  0 selected  3 matches  100 indexed"
    );
    assert_eq!(
        picker.key_hints(),
        "\u{2191}\u{2193} nav  tab toggle  cmd-g grep  \u{23CE} open  esc quit"
    );
    assert_eq!(picker.preview_header_path().as_deref(), Some("c"));
    assert_eq!(picker.preview_placeholder(), "No preview");
    assert!(picker.list_notice().is_none());
    picker.on_switch_grep();
    assert_eq!(picker.preview_placeholder(), "Type to grep");
    assert_eq!(
        picker.list_notice().as_deref(),
        Some("Start typing to search file contents...")
    );
    assert_eq!(
        picker.key_hints(),
        "\u{2191}\u{2193} nav  tab toggle  cmd-f files  \u{23CE} open  esc quit"
    );
    picker.set_query("x".to_string());
    assert_eq!(picker.list_notice().as_deref(), Some("No files matched"));
    assert!(picker.preview_header_path().is_none());
}

#[test]
fn rows_show_their_results() {
    let mut picker = filled();
    picker.on_toggle_selected();
    let row = picker.row_view(2, 40);
    assert_eq!(row.index, 0);
    assert!(row.is_selected && row.is_marked);
    assert_eq!(row.bar_color, Some(0xF5A524));
    assert_eq!((row.file_name.as_str(), row.dir.as_str()), ("c", "some/dir"));
    assert_eq!(row.frecency.as_deref(), Some("\u{2728} 3"));
    assert!(row.match_count.is_none() && row.content.is_none());
    assert_eq!(row.name.len(), 1);
    picker.results[1].grep_matches = vec![hit(7, "  abc", &[(2, 3)])];
    let row = picker.row_view(1, 40);
    assert!(!row.is_selected);
    assert_eq!(row.match_count.as_deref(), Some("1"));
    let content = row.content.unwrap();
    assert_eq!(content.label, ":7");
    assert_eq!(content.segments[0].text, "a");
    assert!(content.segments[0].matched);
}

#[test]
fn paths_are_seen_from_their_base() {
    for (path, base) in [
        ("/p/a/b", "/p"),
        ("/p/a/b", "/p/"),
        ("/p/a", "/"),
        ("/p", "/p"),
        ("/pq/a", "/p"),
        ("/q/a", "/p"),
        ("p/a", "/p"),
        ("/p//a", "/p"),
        ("/p/a/", "/p"),
        ("/p/a/./", "/p"),
        ("/p/./a//.", "/p/."),
        ("/p/.", "/p"),
        ("./a/b", "a"),
        ("./a/b", "."),
        ("./a/b/", ""),
        ("a/./b/", "a"),
        ("//a/", ""),
        ("//", ""),
        ("", ""),
        ("a/../b", "a/.."),
        ("..", "."),
    ] {
        let full = std::path::Path::new(path);
        let expected = full.strip_prefix(base).unwrap_or(full);
        assert_eq!(strip_base(path, base), expected.to_str().unwrap(), "{path} {base}");
    }
}

#[test]
fn paths_are_compared_by_their_components() {
    let paths = [
        "", "/", "//", ".", "./", "./.", "..", "/..", "a", "./a", "a/", "a/.", "/a", "/./a", "a/b", "a//b",
        "a/./b", "a/../b", "a/-x", "a/..", "a.b", "a b", "ab", "\u{e9}",
    ];
    for a in paths {
        for b in paths {
            let same = std::path::Path::new(a) == std::path::Path::new(b);
            assert_eq!(is_same_path(a, b), same, "{a:?} {b:?}");
        }
    }
}

#[test]
fn marks_on_all_results_are_ordered_by_component() {
    let paths = ["/p/ab", "/p/a b", "/p/a/b", "/p/a", "/p/-x", "/p/..", "/p/a//b", "./x", "/", "x"];
    let mut picker = FffPicker::new("/p".to_string(), false, 1, false);
    let request = picker.finish_scan().unwrap();
    picker.apply_search(request.epoch, outcome(paths.iter().map(|path| item(path)).collect()));
    picker.on_toggle_select_all();
    let mut expected = std::collections::BTreeSet::new();
    for path in paths {
        expected.insert(std::path::PathBuf::from(path));
    }
    let expected: Vec<&str> = expected.iter().map(|path| path.to_str().unwrap()).collect();
    assert_eq!(picker.selected_paths, expected);
}

#[test]
fn a_mark_goes_by_its_path() {
    let mut picker = filled();
    picker.on_toggle_selected();
    assert_eq!(picker.selected_paths, vec!["/p/c"]);
    picker.results[0].absolute_path = "/p/./c/".to_string();
    assert!(picker.row_view(2, 40).is_marked);
    picker.on_toggle_selected();
    assert!(picker.selected_paths.is_empty());
    picker.on_toggle_selected();
    assert_eq!(picker.selected_paths, vec!["/p/./c/"]);
}

#[test]
fn scans_are_found_however_the_path_is_written() {
    let mut picker = FffPicker::new("/p".to_string(), false, 1, false);
    assert!(matches!(picker.start_scan(Some(("/p/", true))), ScanPlan::Wait));
    assert!(matches!(picker.start_scan(Some(("/p/..", true))), ScanPlan::Start));
}
