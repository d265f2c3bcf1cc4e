use fff_gpui::grammar::{extension_of, file_name_of, syntax_set_for_path, Grammar, TraceEvent};
use fff_gpui::overlay::{clamp_range_to_char_boundaries, overlay_match_ranges};
use fff_gpui::preview::{
    append_span, draw_trace, has_text_lines, highlight_file_window, highlighted_lines, plain_text_lines,
    slice_preview_lines,
    syntax_lines_for_path, warm_highlighter, HighlightedLine, HighlightedSpan,
};
use fff_gpui::theme;
use fff_gpui::theme::{ActiveTheme, Palette, ResolvedTheme, SyntaxStyle};

fn line_text(line: &HighlightedLine) -> String {
    line.spans.iter().map(|s| s.text.as_str()).collect()
}

fn texts(lines: &[HighlightedLine]) -> Vec<String> {
    lines.iter().map(line_text).collect()
}

fn span(text: &str) -> HighlightedSpan {
    HighlightedSpan {
        color: 1,
        bg: None,
        italic: true,
        bold: false,
        underline: false,
        strikethrough: false,
        text: text.to_string(),
    }
}

fn cut(spans: &[HighlightedSpan]) -> Vec<(&str, u32, Option<u32>)> {
    spans
        .iter()
        .map(|s| (s.text.as_str(), s.color, s.bg))
        .collect()
}

fn keyword_theme() -> ResolvedTheme {
    ResolvedTheme {
        syntax_styles: vec![(
            "keyword".to_string(),
            SyntaxStyle {
                color: Some("#0000ff".to_string()),
                ..SyntaxStyle::default()
            },
        )],
        syntax_default_color: 0x777777,
        ..ResolvedTheme::default()
    }
}

#[test]
fn tree_sitter_capture_name_aliases_resolve_to_zed_tokens() {
    let active = ActiveTheme::default();
    assert_eq!(
        theme::syntax_color(&active, "comment.documentation"),
        theme::syntax_color(&active, "comment")
    );
}

#[test]
fn tree_sitter_highlight_map_detects_typescript_files() {
    let spec = syntax_set_for_path("component.ts")
        .expect("typescript should be supported");

    assert_eq!(spec.name, "typescript");
}

#[test]
fn extensions_choose_grammars() {
    let cases = [
        ("a/main.rs", Grammar::Rust, "rust"),
        ("x.mjs", Grammar::JavaScript, "javascript"),
        ("x.JSX", Grammar::Jsx, "javascript"),
        ("x.tsx", Grammar::Tsx, "tsx"),
        ("x.go", Grammar::Go, "go"),
        ("x.py", Grammar::Python, "python"),
        ("x.jsonc", Grammar::Json, "json"),
        ("x.yml", Grammar::Yaml, "yaml"),
        ("x.zsh", Grammar::Bash, "bash"),
        ("x.h", Grammar::C, "c"),
        ("x.hxx", Grammar::Cpp, "cpp"),
        ("x.css", Grammar::Css, "css"),
        ("x.htm", Grammar::Html, "html"),
        ("x.markdown", Grammar::Markdown, "markdown"),
        ("x.re", Grammar::Regex, "regex"),
    ];
    for (path, grammar, name) in cases {
        let spec = syntax_set_for_path(path).unwrap();
        assert_eq!(spec.grammar, grammar);
        assert_eq!(spec.name, name);
    }
    assert!(syntax_set_for_path("Makefile").is_none());
    assert!(syntax_set_for_path(".rs").is_none());
    assert!(syntax_set_for_path("x.unknown").is_none());
}

#[test]
fn file_names_and_extensions() {
    let cases = [
        "a/b.c", "/", "", ".", "..", "a/..", "a/.", "a/b.tar.gz/", ".hidden", "a//b.", "./x.y",
    ];
    for case in cases {
        let path = std::path::Path::new(case);
        assert_eq!(
            file_name_of(case).as_deref(),
            path.file_name().map(|n| n.to_str().unwrap()),
            "{case}"
        );
        assert_eq!(
            extension_of(case).as_deref(),
            path.extension().map(|n| n.to_str().unwrap()),
            "{case}"
        );
    }
}

#[test]
fn every_grammar_colours_its_text_and_keeps_it() {
    let theme = keyword_theme();
    let cases = [
        ("x.rs", "fn main() {\n    let x = 1;\n}\n"),
        ("x.js", "const a = 1;\nfunction f() {}\n"),
        ("x.jsx", "const a = <b/>;\n"),
        ("x.ts", "let a: number = 1;\n"),
        ("x.tsx", "let a: number = 1;\n"),
        ("x.go", "package main\n"),
        ("x.py", "def f():\n    pass\n"),
        ("x.json", "{\"a\": 1}\n"),
        ("x.yaml", "a: 1\n"),
        ("x.sh", "if true; then echo a; fi\n"),
        ("x.c", "int main(void) { return 0; }\n"),
        ("x.cpp", "class A {};\n"),
        ("x.css", "a { color: red; }\n"),
        ("x.html", "<p>a</p>\n"),
        ("x.md", "# Title\n\ntext\n"),
        ("x.regex", "a+b*"),
    ];
    for (path, content) in cases {
        let spec = syntax_set_for_path(path).unwrap();
        if let Some(lines) = highlighted_lines(content, &spec, &theme) {
            let expected: Vec<&str> = content.split('\n').collect();
            assert_eq!(texts(&lines), expected, "{path}");
        }
        let shown = syntax_lines_for_path(path, content, &theme);
        assert_eq!(line_text(&shown[0]), content.split('\n').next().unwrap(), "{path}");
    }
}

#[test]
fn keywords_have_the_colour_of_keywords() {
    let theme = keyword_theme();
    let spec = syntax_set_for_path("x.rs").unwrap();
    let lines = highlighted_lines("fn main() {}", &spec, &theme).unwrap();
    assert_eq!(lines.len(), 1);
    assert_eq!(lines[0].spans[0].text, "fn");
    assert_eq!(lines[0].spans[0].color, 0x0000ff);
    assert!(lines[0].spans[1..].iter().all(|s| s.color == 0x777777));
    assert!(highlighted_lines("", &spec, &theme).unwrap().is_empty());
}

#[test]
fn traces_are_drawn() {
    let theme = keyword_theme();
    let captures = vec!["keyword".to_string()];
    let events = vec![
        TraceEvent::Piece { start: 0, end: 1 },
        TraceEvent::Start(0),
        TraceEvent::Piece { start: 1, end: 5 },
        TraceEvent::End,
        TraceEvent::End,
        TraceEvent::Start(7),
        TraceEvent::Piece { start: 5, end: 6 },
    ];
    let lines = draw_trace("ab\r\ncd", &captures, &theme, &events).unwrap();
    assert_eq!(texts(&lines), vec!["ab", "cd"]);
    assert_eq!(cut(&lines[0].spans), vec![("a", 0x777777, None), ("b", 0x0000ff, None)]);
    assert_eq!(cut(&lines[1].spans), vec![("c", 0x0000ff, None), ("d", 0x777777, None)]);
    let outside = vec![TraceEvent::Piece { start: 0, end: 9 }];
    assert!(draw_trace("ab", &captures, &theme, &outside).is_none());
    let inside = vec![TraceEvent::Piece { start: 0, end: 1 }];
    assert!(draw_trace("\u{e9}", &captures, &theme, &inside).is_none());
}

#[test]
fn plain_text_has_one_span_for_each_line() {
    let theme = keyword_theme();
    let lines = plain_text_lines("a\r\n\nb", &theme);
    assert_eq!(texts(&lines), vec!["a", "", "b"]);
    assert!(lines[1].spans.is_empty());
    assert_eq!(lines[0].spans[0].color, 0x777777);
    assert_eq!(plain_text_lines("a\n", &theme).len(), 1);
    assert!(plain_text_lines("", &theme).is_empty());
}

#[test]
fn windows_start_a_little_before_the_match() {
    let theme = keyword_theme();
    let content: String = (1..=600).map(|n| format!("line {n}\n")).collect();
    let (start, lines) = highlight_file_window("x.txt", Some(&content), Some(20), &theme);
    assert_eq!(start, 12);
    assert_eq!(lines.len(), 500);
    assert_eq!(line_text(&lines[8]), "line 20");
    let (start, lines) = highlight_file_window("x.txt", Some(&content), None, &theme);
    assert_eq!((start, line_text(&lines[0])), (1, "line 1".to_string()));
    let (start, lines) = highlight_file_window("x.txt", None, Some(20), &theme);
    assert_eq!((start, lines.len()), (1, 0));
    let (start, lines) = slice_preview_lines(plain_text_lines("a\nb", &theme), 5);
    assert_eq!((start, lines.len()), (5, 0));
}

#[test]
fn warming_up_looks_up_palette_and_keywords() {
    let active = ActiveTheme::default();
    assert_eq!(warm_highlighter(&active), (Palette::default(), 0xffffff));
}

#[test]
fn matches_are_laid_over_spans() {
    let spans = vec![span("hello "), span("world")];
    let out = overlay_match_ranges(&spans, &vec![(8, 10), (4, 7)], 9, Some(3));
    assert_eq!(
        cut(&out),
        vec![
            ("hell", 1, None),
            ("o ", 9, Some(3)),
            ("w", 9, Some(3)),
            ("o", 1, None),
            ("rl", 9, Some(3)),
            ("d", 1, None),
        ]
    );
    assert!(out.iter().all(|s| s.italic));
    let same = overlay_match_ranges(&spans, &vec![], 9, None);
    assert_eq!(cut(&same), vec![("hello ", 1, None), ("world", 1, None)]);
    let behind = overlay_match_ranges(&spans, &vec![(40, 50)], 9, None);
    assert_eq!(cut(&behind), cut(&same));
}

#[test]
fn overlapping_ranges_are_marked_once() {
    let out = overlay_match_ranges(&vec![span("abcdef")], &vec![(1, 4), (2, 5)], 9, None);
    assert_eq!(
        cut(&out),
        vec![("a", 1, None), ("bcd", 9, None), ("e", 9, None), ("f", 1, None)]
    );
}

#[test]
fn ranges_widen_to_whole_characters() {
    assert_eq!(clamp_range_to_char_boundaries("a\u{e9}b", 2, 2), Some((1, 3)));
    assert_eq!(clamp_range_to_char_boundaries("a\u{e9}b", 1, 9), Some((1, 4)));
    assert_eq!(clamp_range_to_char_boundaries("ab", 1, 1), None);
    assert_eq!(clamp_range_to_char_boundaries("ab", 5, 9), None);
}

#[test]
fn blank_texts_need_no_style() {
    let broken = ResolvedTheme {
        syntax_styles: vec![(
            "text".to_string(),
            SyntaxStyle {
                color: Some("\u{e9}\u{e9}a\u{e9}b".to_string()),
                ..SyntaxStyle::default()
            },
        )],
        ..ResolvedTheme::default()
    };
    assert!(!broken.can_render("text"));
    for (content, lines) in [("", 0), ("\n", 1), ("\n\r\n", 2), ("\r", 1)] {
        assert!(!has_text_lines(content));
        assert_eq!(plain_text_lines(content, &broken).len(), lines, "{content:?}");
        assert_eq!(syntax_lines_for_path("a.rs", content, &broken).len(), lines, "{content:?}");
    }
    assert!(highlight_file_window("a", Some("\n"), None, &broken).1[0].spans.is_empty());
    assert!(has_text_lines("\r\r\n"));
    assert!(has_text_lines("\n a"));
    assert!(draw_trace("a", &vec![], &broken, &vec![]).is_none());
}

#[test]
fn pieces_of_one_style_become_one_span() {
    let theme = keyword_theme();
    let captures = vec!["keyword".to_string()];
    let events = vec![
        TraceEvent::Piece { start: 0, end: 1 },
        TraceEvent::Piece { start: 1, end: 2 },
        TraceEvent::Start(0),
        TraceEvent::Piece { start: 2, end: 3 },
        TraceEvent::Piece { start: 3, end: 3 },
        TraceEvent::Piece { start: 3, end: 4 },
        TraceEvent::End,
        TraceEvent::Piece { start: 4, end: 5 },
    ];
    let lines = draw_trace("abcde", &captures, &theme, &events).unwrap();
    assert_eq!(lines.len(), 1);
    assert_eq!(
        cut(&lines[0].spans),
        vec![("ab", 0x777777, None), ("cd", 0x0000ff, None), ("e", 0x777777, None)]
    );
}

#[test]
fn spans_are_appended_to_their_like() {
    let style = |color: u32| theme::SyntaxRenderStyle {
        color,
        italic: false,
        bold: false,
        underline: false,
        strikethrough: false,
    };
    let mut line = HighlightedLine { spans: vec![] };
    for (color, text) in [(1, ""), (1, "a"), (1, "b"), (2, ""), (1, "c"), (2, "d")] {
        append_span(&mut line, style(color), text.to_string());
    }
    assert_eq!(cut(&line.spans), vec![("abc", 1, None), ("d", 2, None)]);
}
