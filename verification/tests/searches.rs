use fff_gpui::matching::{find_match_ranges, match_ranges, render_highlighted};
use fff_gpui::path_shortening::PathShortenStrategy;
use fff_gpui::query::{
    build_file_query, build_grep_query, grep_text_is_ok, is_useful_fuzzy_token,
    should_parse_file_constraints, FuzzyText, GrepMode,
};
use fff_gpui::search::{
    content_match, execute_file_search, execute_grep_search, fallback_mode, git_status_bar_color,
    git_status_name, goto_for_path, shorten_dir_for_row, FileItemSnapshot, FoundFile, FoundLine,
    GrepMatchLine,
};
use fff_gpui::text::char_is_white;

fn shorten(path: &str, max: usize) -> String {
    PathShortenStrategy::MiddleNumber.shorten_path(path, max)
}

fn chars(s: &str) -> Vec<char> {
    s.chars().collect()
}

fn file(name: &str, path: &str) -> FoundFile {
    FoundFile {
        file_name: name.to_string(),
        dir: "src".to_string(),
        absolute_path: path.to_string(),
        git_status: None,
        frecency_score: 0,
        binary: false,
    }
}

fn hit(number: usize, content: &str, ranges: &[(u32, u32)]) -> GrepMatchLine {
    GrepMatchLine {
        line_number: number,
        line_content: content.to_string(),
        byte_ranges: ranges.to_vec(),
    }
}

fn pieces(text: &str, ranges: &[(usize, usize)]) -> Vec<(String, bool)> {
    render_highlighted(text, &ranges.to_vec())
        .into_iter()
        .map(|s| (s.text, s.matched))
        .collect()
}

#[test]
fn white_space_is_that_of_unicode() {
    for c in '\0'..=char::MAX {
        assert_eq!(char_is_white(c), c.is_whitespace(), "{c:?}");
    }
}

#[test]
fn short_paths_stay() {
    assert_eq!(shorten("a/b/c", 20), "a/b/c");
    assert_eq!(shorten("../..", 8), "../..");
}

#[test]
fn long_paths_lose_their_middle() {
    assert_eq!(shorten("one/two/three/four", 13), "one/../four");
    assert_eq!(shorten("one/two/three/four", 17), "one/./three/four");
    assert_eq!(shorten("one/two/three/four", 14), "one/two/./four");
    assert_eq!(shorten("alpha/beta", 8), "alp/beta");
    assert_eq!(shorten("verylongname", 8), "verylong");
    assert_eq!(shorten("a/b/c", 3), "a/b");
}

#[test]
fn paths_without_names_are_cut_off() {
    assert_eq!(shorten("../../../../..", 8), "../../..");
    assert_eq!(shorten("////////////", 8), "////////");
}

#[test]
fn shortening_twice_changes_nothing() {
    let paths = ["one/two/three/four", "../../../../..", "alpha/beta", "a/bbbb/cccc/dddd/z"];
    for path in paths {
        for max in 0..20 {
            let once = shorten(path, max);
            assert!(once.chars().count() <= max);
            assert_eq!(shorten(&once, max), once, "{path} {max}");
        }
    }
}

#[test]
fn many_hidden_components_are_counted() {
    assert_eq!(shorten("a/bbbb/cccc/dddd/eeee/ffff/z", 8), "a/.5./z");
}

#[test]
fn queries_that_look_like_paths_are_parsed() {
    assert!(should_parse_file_constraints("main.rs"));
    assert!(should_parse_file_constraints("foo src/bar"));
    assert!(should_parse_file_constraints("type:rust"));
    assert!(!should_parse_file_constraints("struct Data {"));
    assert!(is_useful_fuzzy_token("a{"));
    assert!(!is_useful_fuzzy_token("{}"));
}

#[test]
fn code_shaped_queries_keep_their_words() {
    let q = build_file_query("  struct Data { ");
    assert_eq!(q.raw, "struct Data {");
    assert!(q.constraints.is_empty());
    assert_eq!(
        q.fuzzy,
        FuzzyText::Parts(vec!["struct".to_string(), "Data".to_string()])
    );
    assert_eq!(build_file_query("main").fuzzy, FuzzyText::Text("main".to_string()));
    assert_eq!(build_file_query("{ }").fuzzy, FuzzyText::Empty);
    assert_eq!(build_file_query("   ").fuzzy, FuzzyText::Empty);
}

#[test]
fn file_filters_become_constraints() {
    let q = build_file_query("name *.rs");
    assert_eq!(q.raw, "name *.rs");
    assert_eq!(q.constraints, vec!["Extension(\"rs\")".to_string()]);
    assert_eq!(q.fuzzy, FuzzyText::Text("name".to_string()));
    let q = build_file_query("file.rs:12");
    assert_eq!(q.fuzzy, FuzzyText::Text("file.rs".to_string()));
    assert_eq!(q.location.as_deref(), Some("Line(12)"));
}

#[test]
fn content_queries_depend_on_the_mode() {
    let q = build_grep_query(" foo  { bar ", GrepMode::Fuzzy);
    assert_eq!(q.raw, "foo  { bar");
    assert_eq!(q.fuzzy, FuzzyText::Text("foo bar".to_string()));
    assert_eq!(build_grep_query("{", GrepMode::Fuzzy).fuzzy, FuzzyText::Empty);
    let q = build_grep_query("pattern *.rs", GrepMode::PlainText);
    assert_eq!(q.constraints, vec!["Extension(\"rs\")".to_string()]);
    assert_eq!(q.fuzzy, FuzzyText::Text("pattern".to_string()));
    let q = build_grep_query("localhost:8080", GrepMode::Regex);
    assert_eq!(q.fuzzy, FuzzyText::Text("localhost:8080".to_string()));
    assert!(q.location.is_none());
}

#[test]
fn crossed_braces_are_known() {
    assert!(!grep_text_is_ok("}{"));
    assert!(!grep_text_is_ok("a !}x{"));
    assert!(grep_text_is_ok("{}"));
    assert!(grep_text_is_ok("}/{"));
    assert!(grep_text_is_ok("\\}{"));
    assert!(grep_text_is_ok("} {"));
}

#[test]
fn matches_are_found_in_order() {
    assert_eq!(find_match_ranges("man", "main.rs"), vec![(0, 2), (3, 4)]);
    assert_eq!(find_match_ranges(" MAIN ", "main.rs"), vec![(0, 4)]);
    assert_eq!(find_match_ranges("xyz", "main.rs"), vec![]);
    assert_eq!(find_match_ranges("", "main.rs"), vec![]);
    assert_eq!(find_match_ranges("\u{c9}", "a\u{c9}"), vec![(1, 3)]);
    assert_eq!(match_ranges(&chars("ab"), &chars("xaxb"), "XAXB"), vec![(1, 2), (3, 4)]);
}

#[test]
fn texts_are_cut_into_pieces() {
    assert_eq!(
        pieces("main.rs", &[(5, 7), (0, 2)]),
        vec![
            ("ma".to_string(), true),
            ("in.".to_string(), false),
            ("rs".to_string(), true)
        ]
    );
    assert_eq!(pieces("abc", &[]), vec![("abc".to_string(), false)]);
    assert_eq!(
        pieces("abcd", &[(0, 2), (1, 3)]),
        vec![("ab".to_string(), true), ("cd".to_string(), false)]
    );
    assert_eq!(
        pieces("\u{e9}b", &[(1, 2)]),
        vec![("\u{e9}".to_string(), true), ("b".to_string(), false)]
    );
}

#[test]
fn found_files_become_items() {
    let mut binary = file("b.bin", "/p/b.bin");
    binary.binary = true;
    let mut new = file("main.rs", "/p/main.rs");
    new.git_status = Some(0x80);
    let outcome = execute_file_search("mn", &vec![binary, new], 10, 5);
    assert_eq!(outcome.items.len(), 1);
    assert_eq!((outcome.total_files, outcome.total_matched), (10, 5));
    let item = &outcome.items[0];
    assert_eq!(item.git_status.as_deref(), Some("untracked"));
    assert_eq!(item.match_ranges, vec![(0, 1), (3, 4)]);
    assert!(item.grep_matches.is_empty());
}

#[test]
fn found_lines_are_grouped_by_path() {
    let mut binary = file("c", "/p/c");
    binary.binary = true;
    let files = vec![file("a", "/p/a"), file("b", "/p/b"), binary, file("a", "/p/a")];
    let lines = vec![
        FoundLine { file_index: 1, line: hit(4, "x", &[]) },
        FoundLine { file_index: 0, line: hit(2, "y", &[]) },
        FoundLine { file_index: 2, line: hit(1, "z", &[]) },
        FoundLine { file_index: 9, line: hit(1, "z", &[]) },
        FoundLine { file_index: 1, line: hit(7, "w", &[]) },
        FoundLine { file_index: 3, line: hit(8, "v", &[]) },
    ];
    let outcome = execute_grep_search("x", &lines, &files, 3, 8);
    let grouped: Vec<(&str, Vec<usize>)> = outcome
        .items
        .iter()
        .map(|i| {
            (
                i.absolute_path.as_str(),
                i.grep_matches.iter().map(|m| m.line_number).collect(),
            )
        })
        .collect();
    assert_eq!(grouped, vec![("/p/b", vec![4, 7]), ("/p/a", vec![2, 8])]);
    assert_eq!((outcome.total_files, outcome.total_matched), (8, 2));
}

#[test]
fn plain_searches_fall_back_to_fuzzy_ones() {
    assert_eq!(fallback_mode(GrepMode::PlainText, 0), Some(GrepMode::Fuzzy));
    assert_eq!(fallback_mode(GrepMode::PlainText, 1), None);
    assert_eq!(fallback_mode(GrepMode::Regex, 0), None);
    assert_eq!(fallback_mode(GrepMode::Fuzzy, 0), None);
}

#[test]
fn statuses_have_names_and_colours() {
    assert_eq!(git_status_name(None), "clean");
    assert_eq!(git_status_name(Some(0)), "clean");
    assert_eq!(git_status_name(Some(0x100 | 0x1)), "modified");
    assert_eq!(git_status_name(Some(0x1)), "staged_new");
    assert_eq!(git_status_name(Some(0x4000)), "ignored");
    assert_eq!(git_status_name(Some(0x8000)), "clean");
    assert_eq!(git_status_bar_color(Some("modified")), Some(0xF5A524));
    assert_eq!(git_status_bar_color(Some("staged_modified")), Some(0x32D583));
    assert_eq!(git_status_bar_color(Some("deleted")), Some(0xF97066));
    assert_eq!(git_status_bar_color(Some("renamed")), Some(0x8E8E93));
    assert_eq!(git_status_bar_color(Some("untracked")), Some(0xA48EFF));
    assert_eq!(git_status_bar_color(Some("ignored")), Some(0x6C6C70));
    assert_eq!(git_status_bar_color(Some("something")), Some(0x6C6C70));
    assert_eq!(git_status_bar_color(Some("clean")), None);
    assert_eq!(git_status_bar_color(None), None);
}

fn item(path: &str, matches: Vec<GrepMatchLine>) -> FileItemSnapshot {
    FileItemSnapshot {
        file_name: "a.rs".to_string(),
        dir: String::new(),
        absolute_path: path.to_string(),
        git_status: None,
        frecency_score: 0,
        match_ranges: vec![],
        grep_matches: matches,
    }
}

#[test]
fn files_open_at_their_first_match() {
    let items = vec![
        item("/a", vec![hit(12, "\u{e9}t\u{e9} x", &[(6, 7)])]),
        item("/b", vec![hit(3, "\u{e9}", &[(1, 2)])]),
        item("/c", vec![]),
    ];
    assert_eq!(goto_for_path(&items, "/a"), Some((12, 5)));
    assert_eq!(goto_for_path(&items, "/b"), Some((3, 1)));
    assert_eq!(goto_for_path(&items, "/c"), None);
    assert_eq!(goto_for_path(&items, "/d"), None);
}

#[test]
fn rows_show_the_first_found_line() {
    let found = item("/a", vec![hit(1, "   let x = 1; ", &[(3, 6), (0, 2), (11, 30)])]);
    let (text, ranges) = content_match(&found).unwrap();
    assert_eq!(text, "let x = 1;");
    assert_eq!(ranges, vec![(0, 3), (8, 10)]);
    let mut named = item("/a", vec![hit(1, "x", &[])]);
    named.match_ranges = vec![(0, 1)];
    assert!(content_match(&named).is_none());
    assert!(content_match(&item("/a", vec![])).is_none());
}

#[test]
fn directories_are_shortened_for_rows() {
    assert_eq!(shorten_dir_for_row("/src/a/", 20), "src/a");
    assert_eq!(shorten_dir_for_row("///", 20), "");
    assert_eq!(shorten_dir_for_row("one/two/three/four/", 13), "one/../four");
}

#[test]
fn ascii_names_match_whatever_their_case() {
    assert_eq!(find_match_ranges("m", "m"), vec![(0, 1)]);
    assert_eq!(find_match_ranges("Ab", "xA_Bab"), vec![(1, 2), (3, 4)]);
}

#[test]
fn found_ranges_lie_apart() {
    let name = "a\u{e9}bbxcad";
    let ranges = find_match_ranges("abcd", name);
    assert_eq!(ranges, vec![(0, 1), (3, 4), (6, 7), (8, 9)]);
    for (i, (from, to)) in ranges.iter().enumerate() {
        assert!(from < to && *to <= name.len());
        assert!(name.is_char_boundary(*from) && name.is_char_boundary(*to));
        assert!(i == 0 || ranges[i - 1].1 < *from);
    }
}
