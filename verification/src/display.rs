//! What the window shows of the picker: its rows, its texts and its hints.

use vstd::prelude::*;

use crate::components;
use crate::components::strip_base;
use crate::matching;
use crate::matching::{render_highlighted, Segment};
use crate::order;
use crate::order::holds_text;
use crate::picker;
use crate::picker::{FffPicker, SearchView};
use crate::query::GrepMode;
use crate::search;
use crate::search::{content_match, git_status_bar_color, shorten_dir_for_row};
use crate::text;
use crate::text::{chars_of, decimal_of, trim_bounds};

verus! {

/// A text with a number in it.
pub open spec fn counted(before: Seq<char>, n: usize, after: Seq<char>) -> Seq<char> {
    before + text::decimal(n as nat) + after
}

fn counted_text(before: &str, n: usize, after: &str) -> (r: String)
    ensures
        r@ == counted(before@, n, after@),
{
    let mut r = before.to_owned();
    r.append(decimal_of(n as u64).as_str());
    r.append(after);
    r
}

/// The query is of white space alone.
pub open spec fn is_blank(query: Seq<char>) -> bool {
    text::trim(query).len() == 0
}

fn is_blank_text(query: &str) -> (r: bool)
    ensures
        r == is_blank(query@),
{
    let (from, to) = trim_bounds(&chars_of(query));
    from == to
}

/// What stands in place of a preview.
pub open spec fn placeholder(p: picker::PickerModel) -> Seq<char> {
    if !p.search.scan_done {
        ""@
    } else if p.preview.loading_visible {
        "Loading\u{2026}"@
    } else if p.results.selected < p.results.items.len() && p.preview.lines.len() == 0 {
        "No preview"@
    } else if p.search.view is Grep && is_blank(p.search.query) {
        "Type to grep"@
    } else {
        "No preview"@
    }
}

/// The name of a grep mode in the status bar.
pub open spec fn mode_name(mode: GrepMode) -> Seq<char> {
    match mode {
        GrepMode::PlainText => "plain"@,
        GrepMode::Regex => "regex"@,
        GrepMode::Fuzzy => "fuzzy"@,
    }
}

/// The status: a message if there is one, the progress of the scan, or the counts.
pub open spec fn status(p: picker::PickerModel) -> Seq<char> {
    match p.shell.status_message {
        Some(message) => message,
        None => if !p.search.scan_done {
            if p.shell.indexed_count > 0 {
                counted("indexing. "@, p.shell.indexed_count, " files"@)
            } else {
                Seq::empty()
            }
        } else {
            let indexed = if p.results.total_files > 0 {
                p.results.total_files
            } else {
                p.shell.indexed_count
            };
            counted(""@, p.results.items.len() as usize, " shown"@) + counted(
                "  "@,
                p.results.marked.len() as usize,
                " selected"@,
            ) + counted("  "@, p.results.total_matched, " matches"@) + counted(
                "  "@,
                indexed,
                " indexed"@,
            )
        },
    }
}

/// The status bar: the status, and in a content search its mode.
pub open spec fn status_line(p: picker::PickerModel) -> Seq<char> {
    let first = status(p);
    if p.search.view is Grep {
        let separator = if first.len() > 0 {
            "  \u{2022}  "@
        } else {
            Seq::empty()
        };
        first + separator + ("mode: "@ + mode_name(p.search.grep_mode) + "  \u{21E7}tab mode"@)
    } else {
        first
    }
}

/// The keys, for the other end of the status bar.
pub open spec fn key_hints(view: SearchView) -> Seq<char> {
    match view {
        SearchView::Files => "\u{2191}\u{2193} nav  tab toggle  cmd-g grep  \u{23CE} open  esc quit"@,
        SearchView::Grep => "\u{2191}\u{2193} nav  tab toggle  cmd-f files  \u{23CE} open  esc quit"@,
    }
}

/// What stands in place of the list of results.
pub open spec fn list_notice(p: picker::PickerModel) -> Option<Seq<char>> {
    if !p.search.scan_done {
        if p.shell.indexed_count > 0 {
            Some(counted("Indexing "@, p.shell.indexed_count, " files"@))
        } else {
            Some("Indexing"@)
        }
    } else if p.results.items.len() > 0 {
        None
    } else if p.search.view is Grep && is_blank(p.search.query) {
        Some("Start typing to search file contents..."@)
    } else {
        Some("No files matched"@)
    }
}

impl FffPicker {
    /// What stands in place of a preview.
    pub fn preview_placeholder(&self) -> (r: &'static str)
        ensures
            r@ == placeholder(self@),
    {
        let grep = match self.view {
            SearchView::Grep => true,
            SearchView::Files => false,
        };
        if !self.scan_done {
            ""
        } else if self.preview_loading_visible {
            "Loading\u{2026}"
        } else if self.selected < self.results.len() && self.preview_lines.len() == 0 {
            "No preview"
        } else if grep && is_blank_text(self.query.as_str()) {
            "Type to grep"
        } else {
            "No preview"
        }
    }

    fn status(&self) -> (r: String)
        ensures
            r@ == status(self@),
    {
        if let Some(message) = &self.status_message {
            return message.clone();
        }
        if !self.scan_done {
            if self.indexed_count > 0 {
                return counted_text("indexing. ", self.indexed_count, " files");
            }
            let r = String::new();
            assert(r@ =~= Seq::empty());
            return r;
        }
        let indexed = if self.total_files > 0 {
            self.total_files
        } else {
            self.indexed_count
        };
        let mut r = counted_text("", self.results.len(), " shown");
        r.append(counted_text("  ", self.selected_paths.len(), " selected").as_str());
        r.append(counted_text("  ", self.total_matched, " matches").as_str());
        r.append(counted_text("  ", indexed, " indexed").as_str());
        r
    }

    /// The status bar.
    pub fn status_text(&self) -> (r: String)
        ensures
            r@ == status_line(self@),
    {
        let mut r = self.status();
        match self.view {
            SearchView::Files => r,
            SearchView::Grep => {
                let ghost first = r@;
                if chars_of(r.as_str()).len() > 0 {
                    r.append("  \u{2022}  ");
                } else {
                    assert(r@ =~= first + Seq::empty());
                }
                let ghost separated = r@;
                let mut mode = "mode: ".to_owned();
                mode.append(
                    match self.grep_mode {
                        GrepMode::PlainText => "plain",
                        GrepMode::Regex => "regex",
                        GrepMode::Fuzzy => "fuzzy",
                    },
                );
                mode.append("  \u{21E7}tab mode");
                r.append(mode.as_str());
                r
            },
        }
    }

    /// The keys, for the other end of the status bar.
    pub fn key_hints(&self) -> (r: &'static str)
        ensures
            r@ == key_hints(self@.search.view),
    {
        match self.view {
            SearchView::Files => "\u{2191}\u{2193} nav  tab toggle  cmd-g grep  \u{23CE} open  esc quit",
            SearchView::Grep => "\u{2191}\u{2193} nav  tab toggle  cmd-f files  \u{23CE} open  esc quit",
        }
    }

    /// What stands in place of the list of results, if anything does.
    pub fn list_notice(&self) -> (r: Option<String>)
        ensures
            text::opt_text(r) == list_notice(self@),
    {
        let grep = match self.view {
            SearchView::Grep => true,
            SearchView::Files => false,
        };
        if !self.scan_done {
            if self.indexed_count > 0 {
                Some(counted_text("Indexing ", self.indexed_count, " files"))
            } else {
                Some("Indexing".to_owned())
            }
        } else if self.results.len() > 0 {
            None
        } else if grep && is_blank_text(self.query.as_str()) {
            Some("Start typing to search file contents...".to_owned())
        } else {
            Some("No files matched".to_owned())
        }
    }
}

/// What a row shows of a line of its file.
#[derive(Debug)]
pub struct RowContent {
    /// The number of the line, behind a colon.
    pub label: String,
    pub segments: Vec<Segment>,
}

/// What a row shows.
#[derive(Debug)]
pub struct RowView {
    /// The result that the row is for.
    pub index: usize,
    pub is_selected: bool,
    pub is_marked: bool,
    /// The colour of the bar at its edge.
    pub bar_color: Option<u32>,
    pub file_name: String,
    /// A line of the file, where the query is not in its name.
    pub content: Option<RowContent>,
    /// The name in pieces and the directory, where no line is shown.
    pub name: Vec<Segment>,
    pub dir: String,
    /// The number of found lines, if there are any.
    pub match_count: Option<String>,
    /// How often and how lately the file was opened, if it counts.
    pub frecency: Option<String>,
}

pub struct RowModel {
    pub index: usize,
    pub is_selected: bool,
    pub is_marked: bool,
    pub bar_color: Option<u32>,
    pub file_name: Seq<char>,
    pub content: Option<(Seq<char>, Seq<(Seq<char>, bool)>)>,
    pub name: Seq<(Seq<char>, bool)>,
    pub dir: Seq<char>,
    pub match_count: Option<Seq<char>>,
    pub frecency: Option<Seq<char>>,
}

impl View for RowView {
    type V = RowModel;

    open spec fn view(&self) -> RowModel {
        RowModel {
            index: self.index,
            is_selected: self.is_selected,
            is_marked: self.is_marked,
            bar_color: self.bar_color,
            file_name: self.file_name@,
            content: match self.content {
                Some(c) => Some((c.label@, matching::segments_view(c.segments@))),
                None => None,
            },
            name: matching::segments_view(self.name@),
            dir: self.dir@,
            match_count: text::opt_text(self.match_count),
            frecency: text::opt_text(self.frecency),
        }
    }
}

/// Byte ranges as machine integers.
pub open spec fn to_usize(ranges: Seq<(int, int)>) -> Seq<(usize, usize)> {
    ranges.map_values(|r: (int, int)| (r.0 as usize, r.1 as usize))
}

/// The row for a result. `budget` limits the characters of its directory.
pub open spec fn row(p: picker::PickerModel, index: usize, budget: int) -> RowModel {
    let item = p.results.items[index as int];
    RowModel {
        index,
        is_selected: index == p.results.selected,
        is_marked: order::holds(p.results.marked, item.absolute_path, true),
        bar_color: search::status_color(item.git_status),
        file_name: item.file_name,
        content: match search::row_content(item) {
            Some((t, ranges)) => Some(
                (
                    counted(":"@, item.grep_matches[0].line_number, ""@),
                    matching::segments(t, to_usize(ranges)),
                ),
            ),
            None => None,
        },
        name: matching::segments(item.file_name, to_usize(item.match_ranges)),
        dir: search::row_dir(item.dir, budget),
        match_count: if item.grep_matches.len() > 0 {
            Some(text::decimal(item.grep_matches.len()))
        } else {
            None
        },
        frecency: if item.frecency_score > 0 {
            Some("\u{2728} "@ + text::decimal(item.frecency_score as nat))
        } else {
            None
        },
    }
}

proof fn lemma_to_usize(v: Seq<(usize, usize)>)
    ensures
        to_usize(matching::ranges_view(v)) == v,
{
    assert(to_usize(matching::ranges_view(v)) =~= v);
}

impl FffPicker {
    /// The selected file's path as it stands above the preview: seen from the base path.
    pub fn preview_header_path(&self) -> (r: Option<String>)
        ensures
            text::opt_text(r) == (if self@.results.selected < self@.results.items.len() {
                Some(
                    components::relative_path(
                        self@.results.items[self@.results.selected as int].absolute_path,
                        self@.shell.base_path,
                    ),
                )
            } else {
                None
            }),
    {
        if self.selected >= self.results.len() {
            return None;
        }
        let item = &self.results[self.selected];
        assert(self@.results.items[self.selected as int] == item@);
        Some(strip_base(item.absolute_path.as_str(), self.base_path.as_str()))
    }

    /// The row of the list at a position, counted from the top.
    pub fn row_view(&self, visual_row: usize, budget: usize) -> (r: RowView)
        requires
            visual_row < self@.results.items.len(),
        ensures
            r@ == row(
                self@,
                (self@.results.items.len() - 1 - visual_row) as usize,
                budget as int,
            ),
    {
        let index = self.results.len() - 1 - visual_row;
        let item = &self.results[index];
        assert(self@.results.items[index as int] == item@);
        let status = match &item.git_status {
            Some(s) => Some(s.as_str()),
            None => None,
        };
        let content = match content_match(item) {
            Some((t, ranges)) => {
                assert(item@.grep_matches[0] == item.grep_matches@[0]@);
                proof {
                    lemma_to_usize(ranges@);
                }
                Some(
                    RowContent {
                        label: counted_text(":", item.grep_matches[0].line_number, ""),
                        segments: render_highlighted(t.as_str(), &ranges),
                    },
                )
            },
            None => None,
        };
        proof {
            lemma_to_usize(item.match_ranges@);
        }
        let match_count = if item.grep_matches.len() > 0 {
            Some(decimal_of(item.grep_matches.len() as u64))
        } else {
            None
        };
        let frecency = if item.frecency_score > 0 {
            let mut badge = "\u{2728} ".to_owned();
            badge.append(decimal_of(item.frecency_score as u64).as_str());
            Some(badge)
        } else {
            None
        };
        RowView {
            index,
            is_selected: index == self.selected,
            is_marked: holds_text(&self.selected_paths, item.absolute_path.as_str(), true),
            bar_color: git_status_bar_color(status),
            file_name: item.file_name.clone(),
            content,
            name: render_highlighted(item.file_name.as_str(), &item.match_ranges),
            dir: shorten_dir_for_row(item.dir.as_str(), budget),
            match_count,
            frecency,
        }
    }
}

/// A row shows its item: the file's name and directory, the mark if its path is marked, the cursor
/// where it is, and the number of found lines and the score where there are any.
pub proof fn law_row_shows_its_item(p: picker::PickerModel, index: usize, budget: int)
    requires
        index < p.results.items.len(),
        budget >= 0,
    ensures
        ({
            let item = p.results.items[index as int];
            let shown = row(p, index, budget);
            &&& shown.index == index
            &&& shown.file_name == item.file_name
            &&& matching::segments_text(shown.name) == item.file_name
            &&& shown.dir == search::row_dir(item.dir, budget)
            &&& shown.is_selected <==> index == p.results.selected
            &&& shown.is_marked <==> exists|i: int|
                0 <= i < p.results.marked.len() && components::same_path(
                    #[trigger] p.results.marked[i],
                    item.absolute_path,
                )
            &&& shown.bar_color == search::status_color(item.git_status)
            &&& shown.match_count is Some <==> item.grep_matches.len() > 0
            &&& shown.match_count matches Some(t) ==> text::number_of(t)
                == item.grep_matches.len()
            &&& shown.frecency is Some <==> item.frecency_score > 0
            &&& shown.frecency matches Some(t) ==> text::number_of(t.skip(2))
                == item.frecency_score
            &&& shown.content is Some <==> search::row_content(item) is Some
            &&& shown.content matches Some((label, pieces)) ==> {
                &&& label.len() > 0 && label[0] == ':'
                &&& text::number_of(label.skip(1)) == item.grep_matches[0].line_number
                &&& matching::segments_text(pieces) == (search::row_content(item)->0).0
            }
        }),
{
    let item = p.results.items[index as int];
    matching::law_segments_keep_text(item.file_name, to_usize(item.match_ranges));
    text::law_decimal_reads_back(item.grep_matches.len());
    assert(order::holds(p.results.marked, item.absolute_path, true) <==> exists|i: int|
        0 <= i < p.results.marked.len() && components::same_path(
            #[trigger] p.results.marked[i],
            item.absolute_path,
        )) by {
        reveal(order::alike);
        if order::holds(p.results.marked, item.absolute_path, true) {
            let i = choose|i: int|
                0 <= i < p.results.marked.len() && order::alike(
                    #[trigger] p.results.marked[i],
                    item.absolute_path,
                    true,
                );
            assert(components::same_path(p.results.marked[i], item.absolute_path));
        }
        if exists|i: int|
            0 <= i < p.results.marked.len() && components::same_path(
                #[trigger] p.results.marked[i],
                item.absolute_path,
            ) {
            let i = choose|i: int|
                0 <= i < p.results.marked.len() && components::same_path(
                    #[trigger] p.results.marked[i],
                    item.absolute_path,
                );
            assert(order::alike(p.results.marked[i], item.absolute_path, true));
        }
    }
    reveal_strlit("\u{2728} ");
    reveal_strlit(":");
    reveal_strlit("");
    if item.frecency_score > 0 {
        let digits = text::decimal(item.frecency_score as nat);
        text::law_decimal_reads_back(item.frecency_score as nat);
        assert(("\u{2728} "@ + digits).skip(2) =~= digits);
    }
    if let Some((t, ranges)) = search::row_content(item) {
        let number = item.grep_matches[0].line_number;
        let digits = text::decimal(number as nat);
        text::law_decimal_reads_back(number as nat);
        let label = counted(":"@, number, ""@);
        assert(label.skip(1) =~= digits);
        matching::law_segments_keep_text(t, to_usize(ranges));
    }
}

/// While the files are being indexed the list says so, with their number once there is one; a list
/// with results has no notice, and an empty one says what to do or that nothing matched.
pub proof fn law_list_notice(p: picker::PickerModel)
    ensures
        list_notice(p) is None <==> p.search.scan_done && p.results.items.len() > 0,
        !p.search.scan_done && p.shell.indexed_count > 0 ==> (list_notice(p) matches Some(t)
            && "Indexing "@.is_prefix_of(t) && exists|k: int|
            0 <= k <= t.len() && text::number_of(#[trigger] t.subrange(9, k))
                == p.shell.indexed_count),
        !p.search.scan_done && p.shell.indexed_count == 0 ==> list_notice(p) == Some("Indexing"@),
        p.search.scan_done && p.results.items.len() == 0 && p.search.view is Files ==> list_notice(
            p,
        ) == Some("No files matched"@),
        p.search.scan_done && p.results.items.len() == 0 && p.search.view is Grep && text::all_white(
            p.search.query,
        ) ==> list_notice(p) == Some("Start typing to search file contents..."@),
        p.search.scan_done && p.results.items.len() == 0 && p.search.view is Grep
            && !text::all_white(p.search.query) ==> list_notice(p) == Some("No files matched"@),
{
    lemma_blank(p.search.query);
    reveal_strlit("Indexing ");
    reveal_strlit(" files");
    if !p.search.scan_done && p.shell.indexed_count > 0 {
        let digits = text::decimal(p.shell.indexed_count as nat);
        text::law_decimal_reads_back(p.shell.indexed_count as nat);
        let t = counted("Indexing "@, p.shell.indexed_count, " files"@);
        assert(t.subrange(0, 9) =~= "Indexing "@);
        assert(t.subrange(9, 9int + digits.len()) =~= digits);
    }
}

proof fn lemma_blank(query: Seq<char>)
    ensures
        is_blank(query) <==> text::all_white(query),
{
    let (a, b) = text::lemma_trim_range(query);
    if text::all_white(query) && !is_blank(query) {
        assert(text::trim(query)[0] == query[a]);
    }
    if is_blank(query) && !text::all_white(query) {
        let i = choose|i: int| 0 <= i < query.len() && !text::is_white(#[trigger] query[i]);
        text::lemma_trim_keeps(query, i);
    }
}

/// A message goes before all else in the status. After the scan the status gives, in this order,
/// how many results are shown, how many are marked, how many matched and how many files there are.
pub proof fn law_status(p: picker::PickerModel)
    ensures
        p.shell.status_message matches Some(m) ==> status(p) == m,
        p.shell.status_message is None && p.search.scan_done && p.results.items.len() <= usize::MAX
            && p.results.marked.len() <= usize::MAX ==> {
            let words = text::words(status(p));
            &&& words.len() == 8
            &&& text::number_of(words[0]) == p.results.items.len() && words[1] == "shown"@
            &&& text::number_of(words[2]) == p.results.marked.len() && words[3] == "selected"@
            &&& text::number_of(words[4]) == p.results.total_matched && words[5] == "matches"@
            &&& text::number_of(words[6]) == (if p.results.total_files > 0 {
                p.results.total_files
            } else {
                p.shell.indexed_count
            }) && words[7] == "indexed"@
        },
        p.shell.status_message is None && !p.search.scan_done && p.shell.indexed_count == 0
            ==> status(p).len() == 0,
        p.shell.status_message is None && !p.search.scan_done && p.shell.indexed_count > 0
            ==> "indexing. "@.is_prefix_of(status(p)) && " files"@.is_suffix_of(status(p))
            && status(p).len() > 16 && text::number_of(status(p).subrange(10, status(p).len() - 6))
            == p.shell.indexed_count,
        p.search.view is Files ==> status_line(p) == status(p),
        p.search.view is Grep ==> status(p).is_prefix_of(status_line(p)) && mode_name(
            p.search.grep_mode,
        ).is_prefix_of(
            status_line(p).skip(
                status(p).len() + (if status(p).len() > 0 {
                    5int
                } else {
                    0
                }) + 6,
            ),
        ),
{
    lemma_status_line(p);
    if p.shell.status_message is None && !p.search.scan_done && p.shell.indexed_count > 0 {
        lemma_progress(p.shell.indexed_count);
    }
    if p.shell.status_message is None && p.search.scan_done && p.results.items.len()
        <= usize::MAX && p.results.marked.len() <= usize::MAX {
        let indexed = if p.results.total_files > 0 {
            p.results.total_files
        } else {
            p.shell.indexed_count
        };
        lemma_status_words(
            p.results.items.len() as usize,
            p.results.marked.len() as usize,
            p.results.total_matched,
            indexed,
        );
    }
}

proof fn lemma_progress(n: usize)
    ensures
        ({
            let t = counted("indexing. "@, n, " files"@);
            &&& "indexing. "@.is_prefix_of(t)
            &&& " files"@.is_suffix_of(t)
            &&& t.len() > 16
            &&& text::number_of(t.subrange(10, t.len() - 6)) == n
        }),
{
    reveal_strlit("indexing. ");
    reveal_strlit(" files");
    lemma_digits_are_a_word(n as nat);
    let digits = text::decimal(n as nat);
    let t = counted("indexing. "@, n, " files"@);
    assert(t.subrange(0, 10) =~= "indexing. "@);
    assert(t.subrange(t.len() - 6, t.len() as int) =~= " files"@);
    assert(t.subrange(10, t.len() - 6) =~= digits);
}

proof fn lemma_status_line(p: picker::PickerModel)
    ensures
        p.search.view is Grep ==> status(p).is_prefix_of(status_line(p)) && mode_name(
            p.search.grep_mode,
        ).is_prefix_of(
            status_line(p).skip(
                status(p).len() + (if status(p).len() > 0 {
                    5int
                } else {
                    0
                }) + 6,
            ),
        ),
{
    reveal_strlit("  \u{2022}  ");
    reveal_strlit("mode: ");
    if p.search.view is Grep {
        let first = status(p);
        let name = mode_name(p.search.grep_mode);
        let all = status_line(p);
        let from = first.len() + (if first.len() > 0 {
            5int
        } else {
            0
        }) + 6;
        assert(all.subrange(0, first.len() as int) =~= first);
        assert(all.skip(from).subrange(0, name.len() as int) =~= name);
    }
}

/// A count with what it counts adds two words in front.
proof fn lemma_counted_words(gap: Seq<char>, n: usize, label: Seq<char>, rest: Seq<char>)
    requires
        text::all_white(gap),
        label.len() > 0,
        forall|i: int| 0 <= i < label.len() ==> !text::is_white(#[trigger] label[i]),
        rest.len() > 0 ==> text::is_white(rest[0]),
    ensures
        text::words(counted(gap, n, seq![' '] + label) + rest) == seq![
            text::decimal(n as nat),
            label,
        ] + text::words(rest),
{
    let digits = text::decimal(n as nat);
    let space = seq![' '];
    lemma_digits_are_a_word(n as nat);
    let behind = space + label + rest;
    text::lemma_words_front(space, label, rest);
    text::lemma_words_front(gap, digits, behind);
    assert(counted(gap, n, space + label) + rest =~= gap + digits + behind);
    assert(seq![digits] + (seq![label] + text::words(rest)) =~= seq![digits, label] + text::words(
        rest,
    ));
}

/// The words that the status counts with.
proof fn lemma_labels()
    ensures
        ""@ == Seq::<char>::empty(),
        "  "@ == seq![' ', ' '],
        " shown"@ == seq![' '] + "shown"@,
        " selected"@ == seq![' '] + "selected"@,
        " matches"@ == seq![' '] + "matches"@,
        " indexed"@ == seq![' '] + "indexed"@,
        text::all_white(""@),
        text::all_white("  "@),
        is_label("shown"@),
        is_label("selected"@),
        is_label("matches"@),
        is_label("indexed"@),
{
    reveal_strlit("");
    reveal_strlit("  ");
    reveal_strlit(" shown");
    reveal_strlit(" selected");
    reveal_strlit(" matches");
    reveal_strlit(" indexed");
    reveal_strlit("shown");
    reveal_strlit("selected");
    reveal_strlit("matches");
    reveal_strlit("indexed");
    assert(""@ =~= Seq::empty());
    assert("  "@ =~= seq![' ', ' ']);
    assert(" shown"@ =~= seq![' '] + "shown"@);
    assert(" selected"@ =~= seq![' '] + "selected"@);
    assert(" matches"@ =~= seq![' '] + "matches"@);
    assert(" indexed"@ =~= seq![' '] + "indexed"@);
}

spec fn is_label(label: Seq<char>) -> bool {
    &&& label.len() > 0
    &&& forall|i: int| 0 <= i < label.len() ==> !text::is_white(#[trigger] label[i])
}

proof fn lemma_status_words(shown: usize, marked: usize, matched: usize, indexed: usize)
    ensures
        ({
            let s = counted(""@, shown, " shown"@) + counted("  "@, marked, " selected"@) + counted(
                "  "@,
                matched,
                " matches"@,
            ) + counted("  "@, indexed, " indexed"@);
            let words = text::words(s);
            &&& words.len() == 8
            &&& text::number_of(words[0]) == shown && words[1] == "shown"@
            &&& text::number_of(words[2]) == marked && words[3] == "selected"@
            &&& text::number_of(words[4]) == matched && words[5] == "matches"@
            &&& text::number_of(words[6]) == indexed && words[7] == "indexed"@
        }),
{
    lemma_labels();
    lemma_digits_are_a_word(shown as nat);
    lemma_digits_are_a_word(marked as nat);
    lemma_digits_are_a_word(matched as nat);
    lemma_digits_are_a_word(indexed as nat);
    let none = Seq::<char>::empty();
    let (a, b, c, d) = (
        counted(""@, shown, " shown"@),
        counted("  "@, marked, " selected"@),
        counted("  "@, matched, " matches"@),
        counted("  "@, indexed, " indexed"@),
    );
    lemma_counted_words("  "@, indexed, "indexed"@, none);
    lemma_counted_words("  "@, matched, "matches"@, d + none);
    lemma_counted_words("  "@, marked, "selected"@, c + (d + none));
    lemma_counted_words(""@, shown, "shown"@, b + (c + (d + none)));
    assert(text::words(none) =~= Seq::empty());
    assert(a + b + c + d =~= a + (b + (c + (d + none))));
}

proof fn lemma_digits_are_a_word(n: nat)
    ensures
        text::decimal(n).len() > 0,
        forall|i: int|
            0 <= i < text::decimal(n).len() ==> !text::is_white(#[trigger] text::decimal(n)[i]),
        text::number_of(text::decimal(n)) == n,
{
    text::law_decimal_reads_back(n);
    assert forall|i: int| 0 <= i < text::decimal(n).len() implies !text::is_white(
        #[trigger] text::decimal(n)[i],
    ) by {
        assert('0' <= text::decimal(n)[i] <= '9');
    }
}

/// The hints name the key for the other view.
pub proof fn law_hints_name_the_other_view()
    ensures
        exists|before: Seq<char>, after: Seq<char>|
            key_hints(SearchView::Files) == #[trigger] (before + "cmd-g grep"@ + after) && key_hints(
                SearchView::Grep,
            ) == before + "cmd-f files"@ + after,
{
    reveal_strlit("\u{2191}\u{2193} nav  tab toggle  cmd-g grep  \u{23CE} open  esc quit");
    reveal_strlit("\u{2191}\u{2193} nav  tab toggle  cmd-f files  \u{23CE} open  esc quit");
    reveal_strlit("cmd-g grep");
    reveal_strlit("cmd-f files");
    let files = key_hints(SearchView::Files);
    let grep = key_hints(SearchView::Grep);
    let before = files.take(20);
    let after = files.skip(30);
    assert(files =~= before + "cmd-g grep"@ + after);
    assert(grep =~= before + "cmd-f files"@ + after);
}

/// What stands in place of a preview: nothing before the scan is done, then that one is loading,
/// a hint to type where a search of contents has nothing to go by, and else that there is none.
pub proof fn law_placeholder(p: picker::PickerModel)
    ensures
        !p.search.scan_done ==> placeholder(p) == ""@,
        p.search.scan_done && p.preview.loading_visible ==> placeholder(p) == "Loading\u{2026}"@,
        p.search.scan_done && !p.preview.loading_visible && p.search.view is Files ==> placeholder(p)
            == "No preview"@,
        p.search.scan_done && !p.preview.loading_visible && !text::all_white(p.search.query)
            ==> placeholder(p) == "No preview"@,
        p.search.scan_done && !p.preview.loading_visible && p.search.view is Grep && text::all_white(
            p.search.query,
        ) && p.results.items.len() == 0 ==> placeholder(p) == "Type to grep"@,
        p.search.scan_done && !p.preview.loading_visible && p.results.selected
            < p.results.items.len() && p.preview.lines.len() == 0 ==> placeholder(p)
            == "No preview"@,
{
    lemma_blank(p.search.query);
}

} // verus!
