//! The grammars of the preview: which files they are for, and what a highlighter makes of a text.

use tree_sitter_bash::{HIGHLIGHT_QUERY as BASH_H, LANGUAGE as BASH};
use tree_sitter_c::{HIGHLIGHT_QUERY as C_H, LANGUAGE as LANG_C};
use tree_sitter_cpp::{HIGHLIGHT_QUERY as CPP_H, LANGUAGE as CPP};
use tree_sitter_css::{HIGHLIGHTS_QUERY as CSS_H, LANGUAGE as CSS};
use tree_sitter_go::{HIGHLIGHTS_QUERY as GO_H, LANGUAGE as GO};
use tree_sitter_highlight::HighlightEvent::{HighlightEnd, HighlightStart, Source};
use tree_sitter_highlight::{HighlightConfiguration, Highlighter};
use tree_sitter_html::{
    HIGHLIGHTS_QUERY as HTML_H, INJECTIONS_QUERY as HTML_I, LANGUAGE as HTML,
};
use tree_sitter_javascript::{
    HIGHLIGHT_QUERY as JS_H, INJECTIONS_QUERY as JS_I, JSX_HIGHLIGHT_QUERY as JSX_H,
    LANGUAGE as JS, LOCALS_QUERY as JS_L,
};
use tree_sitter_json::{HIGHLIGHTS_QUERY as JSON_H, LANGUAGE as JSON};
use tree_sitter_md::{
    HIGHLIGHT_QUERY_BLOCK as MD_H, INJECTION_QUERY_BLOCK as MD_I, LANGUAGE as MD,
};
use tree_sitter_python::{HIGHLIGHTS_QUERY as PY_H, LANGUAGE as PY};
use tree_sitter_regex::{HIGHLIGHTS_QUERY as RE_H, LANGUAGE as RE};
use tree_sitter_rust::{HIGHLIGHTS_QUERY as RS_H, INJECTIONS_QUERY as RS_I, LANGUAGE as RS};
use tree_sitter_typescript::{
    HIGHLIGHTS_QUERY as TS_H, LANGUAGE_TSX as TSX, LANGUAGE_TYPESCRIPT as TS, LOCALS_QUERY as TS_L,
};
use tree_sitter_yaml::{HIGHLIGHTS_QUERY as YAML_H, LANGUAGE as YAML};
use vstd::prelude::*;

use crate::grammar::Grammar::{
    Bash, Cpp, Css, Go, Html, JavaScript, Json, Jsx, Markdown, Python, Regex, Rust, Tsx,
    TypeScript, Yaml, C,
};
use crate::grammar::QueryFile::{
    BashHighlights, CHighlights, CppHighlights, CssHighlights, GoHighlights, HtmlHighlights,
    HtmlInjections, JsHighlights, JsInjections, JsLocals, JsonHighlights, JsxHighlights,
    MdHighlights, MdInjections, PythonHighlights, RegexHighlights, RustHighlights, RustInjections,
    TsHighlights, TsLocals, YamlHighlights,
};
use crate::grammar::TraceEvent::{End, Piece, Start};
use crate::text;
use crate::text::{ascii_lowercase_of, chars_of, same, slice_text, split_chars};

verus! {

/// The grammars that come with the finder. JSX has the grammar of JavaScript with other
/// highlights.
#[derive(Debug, Clone, Copy, PartialEq, Eq, Structural)]
pub enum Grammar {
    Rust,
    JavaScript,
    Jsx,
    TypeScript,
    Tsx,
    Go,
    Python,
    Json,
    Yaml,
    Bash,
    C,
    Cpp,
    Css,
    Html,
    Markdown,
    Regex,
}

/// The queries that come with the grammars.
#[derive(Debug, Clone, Copy, PartialEq, Eq, Structural)]
pub enum QueryFile {
    RustHighlights,
    RustInjections,
    JsHighlights,
    JsxHighlights,
    JsInjections,
    JsLocals,
    TsHighlights,
    TsLocals,
    GoHighlights,
    PythonHighlights,
    JsonHighlights,
    YamlHighlights,
    BashHighlights,
    CHighlights,
    CppHighlights,
    CssHighlights,
    HtmlHighlights,
    HtmlInjections,
    MdHighlights,
    MdInjections,
    RegexHighlights,
}

/// The part of a path after its last slash, where empty parts and `.` do not count at the end.
pub open spec fn last_name(parts: Seq<Seq<char>>) -> Option<Seq<char>>
    decreases parts.len(),
{
    if parts.len() == 0 {
        None
    } else if parts.last().len() == 0 || parts.last() == "."@ {
        last_name(parts.drop_last())
    } else if parts.last() == ".."@ {
        None
    } else {
        Some(parts.last())
    }
}

/// The name of the file that a path leads to.
pub open spec fn file_name(path: Seq<char>) -> Option<Seq<char>> {
    last_name(text::split(path, '/', '/'))
}

pub fn file_name_of(path: &str) -> (r: Option<String>)
    ensures
        text::opt_text(r) == file_name(path@),
{
    let parts = split_chars(&chars_of(path), '/', '/');
    let ghost all = text::texts(parts@);
    let mut n: usize = parts.len();
    assert(all.take(n as int) =~= all);
    while n > 0
        invariant
            n <= parts.len(),
            all == text::texts(parts@),
            all == text::split(path@, '/', '/'),
            last_name(all) == last_name(all.take(n as int)),
        decreases n,
    {
        assert(all.take(n as int).drop_last() =~= all.take(n - 1));
        assert(all.take(n as int).last() == parts@[n - 1]@);
        let part = &parts[n - 1];
        let empty = chars_of(part.as_str()).len() == 0;
        if !empty && !same(part.as_str(), ".") {
            if same(part.as_str(), "..") {
                return None;
            }
            return Some(part.clone());
        }
        n -= 1;
    }
    None
}

/// The index of the last occurrence of a character, or -1.
pub open spec fn last_index(s: Seq<char>, c: char) -> int
    decreases s.len(),
{
    if s.len() == 0 {
        -1
    } else if s.last() == c {
        s.len() - 1
    } else {
        last_index(s.drop_last(), c)
    }
}

/// The extension of a path: what follows the last dot of the file's name, unless the name has no
/// dot or only one at its start.
pub open spec fn extension(path: Seq<char>) -> Option<Seq<char>> {
    match file_name(path) {
        Some(name) => if last_index(name, '.') > 0 {
            Some(name.skip(last_index(name, '.') + 1))
        } else {
            None
        },
        None => None,
    }
}

pub fn extension_of(path: &str) -> (r: Option<String>)
    ensures
        text::opt_text(r) == extension(path@),
{
    let name = match file_name_of(path) {
        Some(name) => chars_of(name.as_str()),
        None => return None,
    };
    let mut n: usize = name.len();
    assert(name@.take(n as int) =~= name@);
    while n > 0
        invariant
            n <= name.len(),
            file_name(path@) == Some(name@),
            last_index(name@, '.') == last_index(name@.take(n as int), '.'),
        decreases n,
    {
        assert(name@.take(n as int).drop_last() =~= name@.take(n - 1));
        if name[n - 1] == '.' {
            if n == 1 {
                return None;
            }
            let ext = slice_text(&name, n, name.len());
            assert(name@.skip(n as int) =~= name@.subrange(n as int, name@.len() as int));
            return Some(ext);
        }
        n -= 1;
    }
    None
}

/// The grammar for an extension in lower case.
pub open spec fn grammar_for(ext: Seq<char>) -> Option<Grammar> {
    if ext == "rs"@ {
        Some(Rust)
    } else if ext == "js"@ || ext == "mjs"@ || ext == "cjs"@ {
        Some(JavaScript)
    } else if ext == "jsx"@ {
        Some(Jsx)
    } else if ext == "ts"@ {
        Some(TypeScript)
    } else if ext == "tsx"@ {
        Some(Tsx)
    } else if ext == "go"@ {
        Some(Go)
    } else if ext == "py"@ {
        Some(Python)
    } else if ext == "json"@ || ext == "jsonc"@ {
        Some(Json)
    } else if ext == "yaml"@ || ext == "yml"@ {
        Some(Yaml)
    } else if ext == "sh"@ || ext == "bash"@ || ext == "zsh"@ {
        Some(Bash)
    } else if ext == "c"@ || ext == "h"@ {
        Some(C)
    } else if ext == "cc"@ || ext == "cpp"@ || ext == "cxx"@ || ext == "hpp"@ || ext == "hh"@
        || ext == "hxx"@ {
        Some(Cpp)
    } else if ext == "css"@ {
        Some(Css)
    } else if ext == "html"@ || ext == "htm"@ {
        Some(Html)
    } else if ext == "md"@ || ext == "markdown"@ {
        Some(Markdown)
    } else if ext == "regex"@ || ext == "re"@ {
        Some(Regex)
    } else {
        None
    }
}

fn grammar_of(ext: &str) -> (r: Option<Grammar>)
    ensures
        r == grammar_for(ext@),
{
    if same(ext, "rs") {
        Some(Rust)
    } else if same(ext, "js") || same(ext, "mjs") || same(ext, "cjs") {
        Some(JavaScript)
    } else if same(ext, "jsx") {
        Some(Jsx)
    } else if same(ext, "ts") {
        Some(TypeScript)
    } else if same(ext, "tsx") {
        Some(Tsx)
    } else if same(ext, "go") {
        Some(Go)
    } else if same(ext, "py") {
        Some(Python)
    } else if same(ext, "json") || same(ext, "jsonc") {
        Some(Json)
    } else if same(ext, "yaml") || same(ext, "yml") {
        Some(Yaml)
    } else if same(ext, "sh") || same(ext, "bash") || same(ext, "zsh") {
        Some(Bash)
    } else if same(ext, "c") || same(ext, "h") {
        Some(C)
    } else if same(ext, "cc") || same(ext, "cpp") || same(ext, "cxx") || same(ext, "hpp") || same(
        ext,
        "hh",
    ) || same(ext, "hxx") {
        Some(Cpp)
    } else if same(ext, "css") {
        Some(Css)
    } else if same(ext, "html") || same(ext, "htm") {
        Some(Html)
    } else if same(ext, "md") || same(ext, "markdown") {
        Some(Markdown)
    } else if same(ext, "regex") || same(ext, "re") {
        Some(Regex)
    } else {
        None
    }
}

/// The name under which the highlighter knows a grammar.
pub open spec fn grammar_name(grammar: Grammar) -> &'static str {
    match grammar {
        Rust => "rust",
        JavaScript | Jsx => "javascript",
        TypeScript => "typescript",
        Tsx => "tsx",
        Go => "go",
        Python => "python",
        Json => "json",
        Yaml => "yaml",
        Bash => "bash",
        C => "c",
        Cpp => "cpp",
        Css => "css",
        Html => "html",
        Markdown => "markdown",
        Regex => "regex",
    }
}

fn name_of(grammar: Grammar) -> (r: &'static str)
    ensures
        r == grammar_name(grammar),
{
    match grammar {
        Rust => "rust",
        JavaScript | Jsx => "javascript",
        TypeScript => "typescript",
        Tsx => "tsx",
        Go => "go",
        Python => "python",
        Json => "json",
        Yaml => "yaml",
        Bash => "bash",
        C => "c",
        Cpp => "cpp",
        Css => "css",
        Html => "html",
        Markdown => "markdown",
        Regex => "regex",
    }
}

/// The highlight query of a grammar.
pub open spec fn highlights_file(grammar: Grammar) -> QueryFile {
    match grammar {
        Rust => RustHighlights,
        JavaScript => JsHighlights,
        Jsx => JsxHighlights,
        TypeScript | Tsx => TsHighlights,
        Go => GoHighlights,
        Python => PythonHighlights,
        Json => JsonHighlights,
        Yaml => YamlHighlights,
        Bash => BashHighlights,
        C => CHighlights,
        Cpp => CppHighlights,
        Css => CssHighlights,
        Html => HtmlHighlights,
        Markdown => MdHighlights,
        Regex => RegexHighlights,
    }
}

/// The injection query of a grammar, if it has one.
pub open spec fn injections_file(grammar: Grammar) -> Option<QueryFile> {
    match grammar {
        Rust => Some(RustInjections),
        JavaScript | Jsx => Some(JsInjections),
        Html => Some(HtmlInjections),
        Markdown => Some(MdInjections),
        _ => None,
    }
}

/// The query for local names of a grammar, if it has one.
pub open spec fn locals_file(grammar: Grammar) -> Option<QueryFile> {
    match grammar {
        JavaScript | Jsx => Some(JsLocals),
        TypeScript | Tsx => Some(TsLocals),
        _ => None,
    }
}

/// The text of a query.
pub uninterp spec fn query_source(file: QueryFile) -> Seq<char>;

/// Hands out the text of a query, a constant of the `tree_sitter_*` crate it comes with:
/// `HIGHLIGHTS_QUERY` or `HIGHLIGHT_QUERY` (`JSX_HIGHLIGHT_QUERY`, `HIGHLIGHT_QUERY_BLOCK`),
/// `INJECTIONS_QUERY` (`INJECTION_QUERY_BLOCK`) or `LOCALS_QUERY`.
#[verifier::external_body]
fn query_text(file: QueryFile) -> (r: &'static str)
    ensures
        r@ == query_source(file),
{
    match file {
        RustHighlights => RS_H, RustInjections => RS_I,
        JsHighlights => JS_H, JsxHighlights => JSX_H,
        JsInjections => JS_I, JsLocals => JS_L,
        TsHighlights => TS_H, TsLocals => TS_L,
        GoHighlights => GO_H, PythonHighlights => PY_H,
        JsonHighlights => JSON_H, YamlHighlights => YAML_H,
        BashHighlights => BASH_H, CHighlights => C_H,
        CppHighlights => CPP_H, CssHighlights => CSS_H,
        HtmlHighlights => HTML_H, HtmlInjections => HTML_I,
        MdHighlights => MD_H, MdInjections => MD_I,
        RegexHighlights => RE_H,
    }
}

pub open spec fn optional_source(file: Option<QueryFile>) -> Seq<char> {
    match file {
        Some(file) => query_source(file),
        None => ""@,
    }
}

/// All that the highlighter needs for a grammar.
#[derive(Debug, Clone, Copy)]
pub struct TreeSitterLanguageSpec {
    pub grammar: Grammar,
    pub name: &'static str,
    pub highlights_query: &'static str,
    pub injections_query: &'static str,
    pub locals_query: &'static str,
}

impl TreeSitterLanguageSpec {
    /// The name and the queries are those of the grammar.
    pub open spec fn wf(self) -> bool {
        &&& self.name == grammar_name(self.grammar)
        &&& self.highlights_query@ == query_source(highlights_file(self.grammar))
        &&& self.injections_query@ == optional_source(injections_file(self.grammar))
        &&& self.locals_query@ == optional_source(locals_file(self.grammar))
    }
}

fn spec_of(grammar: Grammar) -> (r: TreeSitterLanguageSpec)
    ensures
        r.grammar == grammar,
        r.wf(),
{
    let highlights = match grammar {
        Rust => RustHighlights,
        JavaScript => JsHighlights,
        Jsx => JsxHighlights,
        TypeScript | Tsx => TsHighlights,
        Go => GoHighlights,
        Python => PythonHighlights,
        Json => JsonHighlights,
        Yaml => YamlHighlights,
        Bash => BashHighlights,
        C => CHighlights,
        Cpp => CppHighlights,
        Css => CssHighlights,
        Html => HtmlHighlights,
        Markdown => MdHighlights,
        Regex => RegexHighlights,
    };
    let injections_query = match grammar {
        Rust => query_text(RustInjections),
        JavaScript | Jsx => query_text(JsInjections),
        Html => query_text(HtmlInjections),
        Markdown => query_text(MdInjections),
        _ => "",
    };
    let locals_query = match grammar {
        JavaScript | Jsx => query_text(JsLocals),
        TypeScript | Tsx => query_text(TsLocals),
        _ => "",
    };
    TreeSitterLanguageSpec {
        grammar,
        name: name_of(grammar),
        highlights_query: query_text(highlights),
        injections_query,
        locals_query,
    }
}

/// The grammar for a path, by its extension in upper or lower case.
pub open spec fn path_grammar(path: Seq<char>) -> Option<Grammar> {
    match extension(path) {
        Some(ext) => grammar_for(text::ascii_lowercase(ext)),
        None => None,
    }
}

/// What the highlighter needs for the file at a path, if there is a grammar for it.
pub fn syntax_set_for_path(path: &str) -> (r: Option<TreeSitterLanguageSpec>)
    ensures
        r is Some <==> path_grammar(path@) is Some,
        r matches Some(spec) ==> spec.wf() && path_grammar(path@) == Some(spec.grammar),
{
    let ext = match extension_of(path) {
        Some(ext) => ascii_lowercase_of(ext.as_str()),
        None => return None,
    };
    match grammar_of(ext.as_str()) {
        Some(grammar) => Some(spec_of(grammar)),
        None => None,
    }
}

/// A step of the highlighter over a text.
#[derive(Debug, Clone, Copy, PartialEq, Eq, Structural)]
pub enum TraceEvent {
    /// The bytes from `start` to `end` come next.
    Piece { start: usize, end: usize },
    /// The capture with this index begins.
    Start(usize),
    /// The capture that began last ends.
    End,
}

/// The names of the captures in a grammar's queries, if the queries can be compiled.
pub uninterp spec fn query_captures(grammar: Grammar) -> Option<Seq<Seq<char>>>;

/// The steps of the highlighter over a text, if it gets through, when it recognizes the given
/// capture names.
pub uninterp spec fn highlight_trace(
    grammar: Grammar,
    captures: Seq<Seq<char>>,
    source: Seq<char>,
) -> Option<Seq<TraceEvent>>;

pub open spec fn names_view(o: Option<Vec<String>>) -> Option<Seq<Seq<char>>> {
    match o {
        Some(v) => Some(text::texts(v@)),
        None => None,
    }
}

pub open spec fn events_view(o: Option<Vec<TraceEvent>>) -> Option<Seq<TraceEvent>> {
    match o {
        Some(v) => Some(v@),
        None => None,
    }
}

/// Compiles a grammar's queries with `HighlightConfiguration::new` and hands out what
/// `Query::capture_names` gives. The result is a function of the grammar, which fixes the queries.
#[verifier::external_body]
pub(crate) fn captures_of(spec: &TreeSitterLanguageSpec) -> (r: Option<Vec<String>>)
    requires
        spec.wf(),
    ensures
        names_view(r) == query_captures(spec.grammar),
{
    let language = match spec.grammar {
        Rust => RS, JavaScript | Jsx => JS, TypeScript => TS, Tsx => TSX, Go => GO, Python => PY,
        Json => JSON, Yaml => YAML, Bash => BASH, C => LANG_C, Cpp => CPP, Css => CSS,
        Html => HTML, Markdown => MD, Regex => RE,
    };
    let (name, highlights) = (spec.name, spec.highlights_query);
    let (injections, locals) = (spec.injections_query, spec.locals_query);
    HighlightConfiguration::new(language.into(), name, highlights, injections, locals)
        .ok()
        .map(|config| config.query.capture_names().iter().map(|n| n.to_string()).collect())
}

/// The bytes of the text come in order: each piece begins where the one before ended, the first
/// one at the start, and the last one reaches the end.
pub open spec fn covers(events: Seq<TraceEvent>, upto: int) -> bool {
    &&& pieces_end(events) >= upto
    &&& forall|i: int|
        0 <= i < events.len() ==> match #[trigger] events[i] {
            TraceEvent::Piece { start, end } => start == pieces_end(events.take(i)) && start < end,
            _ => true,
        }
}

/// Where the last piece ends.
pub open spec fn pieces_end(events: Seq<TraceEvent>) -> int
    decreases events.len(),
{
    if events.len() == 0 {
        0
    } else {
        match events.last() {
            TraceEvent::Piece { end, .. } => end as int,
            _ => pieces_end(events.drop_last()),
        }
    }
}

/// Runs `Highlighter::highlight` over a text, without injections, after
/// `HighlightConfiguration::configure` with the given names, and hands out the events of its
/// iterator, or nothing where one of them is an error. The result is a function of the grammar,
/// which fixes the queries, of the names and of the text. The iterator keeps the offset up to
/// which it has handed out the text: each piece begins there and moves it on, and the iterator
/// ends only once it has reached the end of the text.
#[verifier::external_body]
fn trace_of(
    grammar: Grammar,
    name: &str,
    highlights: &str,
    injections: &str,
    locals: &str,
    captures: &Vec<String>,
    source: &str,
) -> (r: Option<Vec<TraceEvent>>)
    requires
        name@ == grammar_name(grammar)@,
        highlights@ == query_source(highlights_file(grammar)),
        injections@ == optional_source(injections_file(grammar)),
        locals@ == optional_source(locals_file(grammar)),
    ensures
        events_view(r) == highlight_trace(grammar, text::texts(captures@), source@),
        r matches Some(events) ==> covers(events@, text::utf8_len(source@) as int),
{
    let language = match grammar {
        Rust => RS, JavaScript | Jsx => JS, TypeScript => TS, Tsx => TSX, Go => GO, Python => PY,
        Json => JSON, Yaml => YAML, Bash => BASH, C => LANG_C, Cpp => CPP, Css => CSS,
        Html => HTML, Markdown => MD, Regex => RE
    };
    let mut config = HighlightConfiguration::new(
        language.into(), name, highlights, injections, locals).ok()?;
    config.configure(captures);
    let mut highlighter = Highlighter::new();
    let events = highlighter.highlight(&config, source.as_bytes(), None, |_| None).ok()?;
    events.map(|event| event.ok().map(|event| match event {
        Source { start, end } => Piece { start, end }, HighlightStart(h) => Start(h.0),
        HighlightEnd => End })).collect()
}

/// The steps of the highlighter over a text, when it recognizes the given capture names.
pub fn trace_text(
    spec: &TreeSitterLanguageSpec,
    captures: &Vec<String>,
    source: &str,
) -> (r: Option<Vec<TraceEvent>>)
    requires
        spec.wf(),
    ensures
        events_view(r) == highlight_trace(spec.grammar, text::texts(captures@), source@),
        r matches Some(events) ==> covers(events@, text::utf8_len(source@) as int),
{
    trace_of(
        spec.grammar,
        spec.name,
        spec.highlights_query,
        spec.injections_query,
        spec.locals_query,
        captures,
        source,
    )
}

proof fn lemma_last_index(before: Seq<char>, after: Seq<char>, c: char)
    requires
        forall|k: int| 0 <= k < after.len() ==> #[trigger] after[k] != c,
    ensures
        last_index(before.push(c) + after, c) == before.len(),
    decreases after.len(),
{
    let whole = before.push(c) + after;
    if after.len() == 0 {
        assert(whole =~= before.push(c));
    } else {
        assert(after[after.len() - 1] != c);
        assert(whole.drop_last() =~= before.push(c) + after.drop_last());
        lemma_last_index(before, after.drop_last(), c);
    }
}

proof fn lemma_no_index(s: Seq<char>, c: char)
    requires
        forall|k: int| 0 <= k < s.len() ==> #[trigger] s[k] != c,
    ensures
        last_index(s, c) == -1,
    decreases s.len(),
{
    if s.len() > 0 {
        assert(s[s.len() - 1] != c);
        lemma_no_index(s.drop_last(), c);
    }
}

/// The name of a file is what follows the last slash of its path.
pub proof fn law_file_name(dir: Seq<char>, name: Seq<char>)
    requires
        dir.len() == 0 || dir.last() == '/',
        name.len() > 0,
        text::unbroken(name, '/', '/'),
        name != "."@,
        name != ".."@,
    ensures
        file_name(dir + name) == Some(name),
{
    let parts = text::split(dir + name, '/', '/');
    text::lemma_first_of_is(name, '/', '/', name.len() as int);
    assert(text::split(name, '/', '/') =~= seq![name]);
    if dir.len() == 0 {
        assert(dir + name =~= name);
    } else {
        crate::components::lemma_ends_blank(dir);
        text::lemma_split_glued(dir, name, '/', '/');
        assert(parts.last() =~= name);
    }
}

/// The extension of a file is what follows the last dot of its name. A name without a dot, and one
/// with no dot but at its start, has none.
pub proof fn law_extension(dir: Seq<char>, stem: Seq<char>, ext: Seq<char>)
    requires
        dir.len() == 0 || dir.last() == '/',
        stem.len() > 0,
        text::unbroken(stem, '/', '/'),
        text::unbroken(ext, '/', '.'),
        ext.len() > 0 || stem != "."@,
    ensures
        extension(dir + (stem + "."@ + ext)) == Some(ext),
        text::unbroken(stem, '.', '.') ==> extension(dir + stem) is None && extension(
            dir + ("."@ + stem),
        ) is None,
{
    reveal_strlit(".");
    reveal_strlit("..");
    let name = stem + "."@ + ext;
    assert(name =~= stem.push('.') + ext);
    assert forall|k: int| 0 <= k < name.len() implies #[trigger] name[k] != '/' by {
        if k > stem.len() {
            assert(name[k] == ext[k - stem.len() - 1]);
        } else if k < stem.len() {
            assert(name[k] == stem[k]);
        }
    }
    assert(name != ".."@) by {
        if name == ".."@ {
            assert(stem.len() + ext.len() == 1);
            assert(name[0] == '.');
            assert(stem =~= "."@);
        }
    }
    law_file_name(dir, name);
    lemma_last_index(stem, ext, '.');
    assert(name.skip(1int + stem.len()) =~= ext);
    if text::unbroken(stem, '.', '.') {
        assert(stem[0] != '.');
        law_file_name(dir, stem);
        lemma_no_index(stem, '.');
        let hidden = "."@ + stem;
        assert forall|k: int| 0 <= k < hidden.len() implies #[trigger] hidden[k] != '/' by {
            if k > 0 {
                assert(hidden[k] == stem[k - 1]);
            }
        }
        assert(hidden[1] == stem[0]);
        law_file_name(dir, hidden);
        let none = Seq::<char>::empty();
        assert(hidden =~= none.push('.') + stem);
        lemma_last_index(none, stem, '.');
    }
}

/// Which grammar a file has goes by its extension, in upper or lower case.
#[verifier::rlimit(60)]
pub proof fn law_grammar_by_extension(path: Seq<char>, ext: Seq<char>)
    requires
        extension(path) == Some(ext),
    ensures
        ({
            let e = text::ascii_lowercase(ext);
            &&& (path_grammar(path) == Some(Rust) <==> e == "rs"@)
            &&& (path_grammar(path) == Some(JavaScript) <==> e == "js"@ || e == "mjs"@ || e == "cjs"@)
            &&& (path_grammar(path) == Some(Jsx) <==> e == "jsx"@)
            &&& (path_grammar(path) == Some(TypeScript) <==> e == "ts"@)
            &&& (path_grammar(path) == Some(Tsx) <==> e == "tsx"@)
            &&& (path_grammar(path) == Some(Go) <==> e == "go"@)
            &&& (path_grammar(path) == Some(Python) <==> e == "py"@)
            &&& (path_grammar(path) == Some(Json) <==> e == "json"@ || e == "jsonc"@)
            &&& (path_grammar(path) == Some(Yaml) <==> e == "yaml"@ || e == "yml"@)
            &&& (path_grammar(path) == Some(Bash) <==> e == "sh"@ || e == "bash"@ || e == "zsh"@)
            &&& (path_grammar(path) == Some(C) <==> e == "c"@ || e == "h"@)
            &&& (path_grammar(path) == Some(Cpp) <==> e == "cc"@ || e == "cpp"@ || e == "cxx"@ || e == "hpp"@ || e == "hh"@ || e == "hxx"@)
            &&& (path_grammar(path) == Some(Css) <==> e == "css"@)
            &&& (path_grammar(path) == Some(Html) <==> e == "html"@ || e == "htm"@)
            &&& (path_grammar(path) == Some(Markdown) <==> e == "md"@ || e == "markdown"@)
            &&& (path_grammar(path) == Some(Regex) <==> e == "regex"@ || e == "re"@)
        }),
{
    reveal_strlit("rs");
    reveal_strlit("js");
    reveal_strlit("mjs");
    reveal_strlit("cjs");
    reveal_strlit("jsx");
    reveal_strlit("ts");
    reveal_strlit("tsx");
    reveal_strlit("go");
    reveal_strlit("py");
    reveal_strlit("json");
    reveal_strlit("jsonc");
    reveal_strlit("yaml");
    reveal_strlit("yml");
    reveal_strlit("sh");
    reveal_strlit("bash");
    reveal_strlit("zsh");
    reveal_strlit("c");
    reveal_strlit("h");
    reveal_strlit("cc");
    reveal_strlit("cpp");
    reveal_strlit("cxx");
    reveal_strlit("hpp");
    reveal_strlit("hh");
    reveal_strlit("hxx");
    reveal_strlit("css");
    reveal_strlit("html");
    reveal_strlit("htm");
    reveal_strlit("md");
    reveal_strlit("markdown");
    reveal_strlit("regex");
    reveal_strlit("re");
    assert("rs"@ =~= seq!['r', 's']);
    assert("js"@ =~= seq!['j', 's']);
    assert("mjs"@ =~= seq!['m', 'j', 's']);
    assert("cjs"@ =~= seq!['c', 'j', 's']);
    assert("jsx"@ =~= seq!['j', 's', 'x']);
    assert("ts"@ =~= seq!['t', 's']);
    assert("tsx"@ =~= seq!['t', 's', 'x']);
    assert("go"@ =~= seq!['g', 'o']);
    assert("py"@ =~= seq!['p', 'y']);
    assert("json"@ =~= seq!['j', 's', 'o', 'n']);
    assert("jsonc"@ =~= seq!['j', 's', 'o', 'n', 'c']);
    assert("yaml"@ =~= seq!['y', 'a', 'm', 'l']);
    assert("yml"@ =~= seq!['y', 'm', 'l']);
    assert("sh"@ =~= seq!['s', 'h']);
    assert("bash"@ =~= seq!['b', 'a', 's', 'h']);
    assert("zsh"@ =~= seq!['z', 's', 'h']);
    assert("c"@ =~= seq!['c']);
    assert("h"@ =~= seq!['h']);
    assert("cc"@ =~= seq!['c', 'c']);
    assert("cpp"@ =~= seq!['c', 'p', 'p']);
    assert("cxx"@ =~= seq!['c', 'x', 'x']);
    assert("hpp"@ =~= seq!['h', 'p', 'p']);
    assert("hh"@ =~= seq!['h', 'h']);
    assert("hxx"@ =~= seq!['h', 'x', 'x']);
    assert("css"@ =~= seq!['c', 's', 's']);
    assert("html"@ =~= seq!['h', 't', 'm', 'l']);
    assert("htm"@ =~= seq!['h', 't', 'm']);
    assert("md"@ =~= seq!['m', 'd']);
    assert("markdown"@ =~= seq!['m', 'a', 'r', 'k', 'd', 'o', 'w', 'n']);
    assert("regex"@ =~= seq!['r', 'e', 'g', 'e', 'x']);
    assert("re"@ =~= seq!['r', 'e']);
}

/// Each grammar has a name and a highlight query of its own, but for JSX, which has the name of
/// JavaScript, and TSX, which has the query of TypeScript. Few have injections or local names.
pub proof fn law_queries_of_grammars(grammar: Grammar)
    ensures
        grammar_name(Rust) == "rust" && highlights_file(Rust) == RustHighlights,
        grammar_name(JavaScript) == "javascript" && highlights_file(JavaScript) == JsHighlights,
        grammar_name(Jsx) == "javascript" && highlights_file(Jsx) == JsxHighlights,
        grammar_name(TypeScript) == "typescript" && highlights_file(TypeScript) == TsHighlights,
        grammar_name(Tsx) == "tsx" && highlights_file(Tsx) == TsHighlights,
        grammar_name(Go) == "go" && highlights_file(Go) == GoHighlights,
        grammar_name(Python) == "python" && highlights_file(Python) == PythonHighlights,
        grammar_name(Json) == "json" && highlights_file(Json) == JsonHighlights,
        grammar_name(Yaml) == "yaml" && highlights_file(Yaml) == YamlHighlights,
        grammar_name(Bash) == "bash" && highlights_file(Bash) == BashHighlights,
        grammar_name(C) == "c" && highlights_file(C) == CHighlights,
        grammar_name(Cpp) == "cpp" && highlights_file(Cpp) == CppHighlights,
        grammar_name(Css) == "css" && highlights_file(Css) == CssHighlights,
        grammar_name(Html) == "html" && highlights_file(Html) == HtmlHighlights,
        grammar_name(Markdown) == "markdown" && highlights_file(Markdown) == MdHighlights,
        grammar_name(Regex) == "regex" && highlights_file(Regex) == RegexHighlights,
        injections_file(grammar) == Some(RustInjections) <==> grammar is Rust,
        injections_file(grammar) == Some(JsInjections) <==> grammar is JavaScript || grammar is Jsx,
        injections_file(grammar) == Some(HtmlInjections) <==> grammar is Html,
        injections_file(grammar) == Some(MdInjections) <==> grammar is Markdown,
        injections_file(grammar) is Some <==> grammar is Rust || grammar is JavaScript || grammar is
            Jsx || grammar is Html || grammar is Markdown,
        locals_file(grammar) == Some(JsLocals) <==> grammar is JavaScript || grammar is Jsx,
        locals_file(grammar) == Some(TsLocals) <==> grammar is TypeScript || grammar is Tsx,
        locals_file(grammar) is Some <==> grammar is JavaScript || grammar is Jsx || grammar is
            TypeScript || grammar is Tsx,
{
}

/// A path that ends in `..` names no file, and so has no extension. A slash at the end, with or
/// without a dot behind it, makes no difference to the name.
pub proof fn law_ends_of_paths(dir: Seq<char>, path: Seq<char>)
    requires
        dir.len() == 0 || dir.last() == '/',
    ensures
        file_name(dir + ".."@) is None,
        extension(dir + ".."@) is None,
        file_name(path + "/"@) == file_name(path),
        file_name(path + "/."@) == file_name(path),
{
    reveal_strlit(".");
    reveal_strlit("..");
    reveal_strlit("/");
    reveal_strlit("/.");
    let up = ".."@;
    text::lemma_first_of_is(up, '/', '/', 2);
    assert(text::split(up, '/', '/') =~= seq![up]);
    if dir.len() == 0 {
        assert(dir + up =~= up);
    } else {
        crate::components::lemma_ends_blank(dir);
        text::lemma_split_glued(dir, up, '/', '/');
        assert(text::split(dir + up, '/', '/').last() =~= up);
    }
    let none = Seq::<char>::empty();
    let dot = seq!['.'];
    assert("."@ =~= dot);
    assert("/"@ =~= seq!['/'] + none);
    assert("/."@ =~= seq!['/'] + dot);
    assert(text::split(none, '/', '/') =~= seq![none]);
    text::lemma_first_of_is(dot, '/', '/', 1);
    assert(text::split(dot, '/', '/') =~= seq![dot]);
    lemma_part_behind(path, none);
    lemma_part_behind(path, dot);
}

/// A part behind a slash is one more part.
proof fn lemma_part_behind(path: Seq<char>, part: Seq<char>)
    requires
        text::split(part, '/', '/') == seq![part],
    ensures
        text::split(path + (seq!['/'] + part), '/', '/') == text::split(path, '/', '/').push(part),
        text::split(path + (seq!['/'] + part), '/', '/').drop_last() == text::split(
            path,
            '/',
            '/',
        ),
{
    let tail = seq!['/'] + part;
    text::lemma_first_of_is(tail, '/', '/', 0);
    assert(tail.take(0) =~= Seq::empty());
    assert(tail.skip(1) =~= part);
    assert(text::split(tail, '/', '/') =~= seq![Seq::empty(), part]);
    text::lemma_split_nonempty(path, '/', '/');
    text::lemma_split_glued(path, tail, '/', '/');
    let parts = text::split(path, '/', '/');
    assert(parts.last() + Seq::<char>::empty() =~= parts.last());
    assert(text::split(path + tail, '/', '/') =~= parts.push(part));
    assert(parts.push(part).drop_last() =~= parts);
}

} // verus!
