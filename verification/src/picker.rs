//! The picker: the state behind its window, and what each event makes of it.
//!
//! Searches and previews are computed in the background. Each has a number, its epoch, and what
//! comes back under an old number is dropped.

use vstd::prelude::*;

use crate::components;
use crate::components::is_same_path;
use crate::order;
use crate::order::{holds_text, insert_text, remove_text};
use crate::overlay;
use crate::overlay::overlay_match_ranges;
use crate::preview;
use crate::preview::{highlight_file_window, HighlightedLine};
use crate::query;
use crate::query::{build_file_query, build_grep_query, is_file_filter, GrepMode, SearchQuery};
use crate::search;
use crate::search::{FileItemSnapshot, GrepMatchLine, SearchOutcome};
use crate::text;
use crate::text::{chars_of, same, trim_bounds};
use crate::theme::ResolvedTheme;

verus! {

/// The rows that a key press scrolls the preview by.
pub const PREVIEW_SCROLL_STEP: usize = 6;

#[derive(Debug, Clone, Copy, PartialEq, Eq, Structural)]
pub enum SearchView {
    Files,
    Grep,
}

/// A search to run in the background. `abort_previous` asks to stop the one before it.
#[derive(Debug)]
pub struct SearchRequest {
    pub epoch: u64,
    pub query: String,
    pub view: SearchView,
    pub grep_mode: GrepMode,
    pub abort_previous: bool,
}

/// A preview to make in the background.
#[derive(Debug)]
pub struct PreviewRequest {
    pub epoch: u64,
    pub path: String,
    pub grep_matches: Vec<GrepMatchLine>,
    pub first_match_line: Option<usize>,
}

#[derive(Debug)]
pub struct FffPicker {
    pub base_path: String,
    pub view: SearchView,
    pub grep_mode: GrepMode,
    pub query: String,
    pub results: Vec<FileItemSnapshot>,
    pub total_files: usize,
    pub total_matched: usize,
    pub indexed_count: usize,
    /// The row that the cursor is on.
    pub selected: usize,
    /// The paths that are marked, in the order of paths.
    pub selected_paths: Vec<String>,
    pub scan_done: bool,
    pub search_epoch: u64,
    pub search_in_flight: bool,
    pub preview_epoch: u64,
    pub preview_loading: bool,
    pub preview_loading_visible: bool,
    pub preview_scroll_row: usize,
    pub preview_start_line: usize,
    pub theme_version: u64,
    pub preview_lines: Vec<HighlightedLine>,
    pub status_message: Option<String>,
    /// A client waits for an answer.
    pub awaits_answer: bool,
}

/// What is searched for and what is shown of it.
pub struct ResultModel {
    pub items: Seq<search::ItemModel>,
    pub total_files: usize,
    pub total_matched: usize,
    pub selected: usize,
    pub marked: Seq<Seq<char>>,
}

/// The state of the preview.
pub struct PreviewModel {
    pub epoch: u64,
    pub loading: bool,
    pub loading_visible: bool,
    pub scroll_row: usize,
    pub start_line: usize,
    pub lines: Seq<Seq<preview::SpanModel>>,
}

/// The state of the search.
pub struct SearchModel {
    pub view: SearchView,
    pub grep_mode: GrepMode,
    pub query: Seq<char>,
    pub scan_done: bool,
    pub epoch: u64,
    pub in_flight: bool,
}

/// The rest of the state.
pub struct ShellModel {
    pub base_path: Seq<char>,
    pub indexed_count: usize,
    pub theme_version: u64,
    pub status_message: Option<Seq<char>>,
    pub awaits_answer: bool,
}

pub struct PickerModel {
    pub results: ResultModel,
    pub preview: PreviewModel,
    pub search: SearchModel,
    pub shell: ShellModel,
}

impl View for FffPicker {
    type V = PickerModel;

    open spec fn view(&self) -> PickerModel {
        PickerModel {
            results: ResultModel {
                items: search::items_view(self.results@),
                total_files: self.total_files,
                total_matched: self.total_matched,
                selected: self.selected,
                marked: text::texts(self.selected_paths@),
            },
            preview: PreviewModel {
                epoch: self.preview_epoch,
                loading: self.preview_loading,
                loading_visible: self.preview_loading_visible,
                scroll_row: self.preview_scroll_row,
                start_line: self.preview_start_line,
                lines: preview::lines_view(self.preview_lines@),
            },
            search: SearchModel {
                view: self.view,
                grep_mode: self.grep_mode,
                query: self.query@,
                scan_done: self.scan_done,
                epoch: self.search_epoch,
                in_flight: self.search_in_flight,
            },
            shell: ShellModel {
                base_path: self.base_path@,
                indexed_count: self.indexed_count,
                theme_version: self.theme_version,
                status_message: text::opt_text(self.status_message),
                awaits_answer: self.awaits_answer,
            },
        }
    }
}

impl PickerModel {
    /// The cursor is on a row, or on the first where there is none, and the marked paths are in
    /// order, each once.
    pub open spec fn wf(self) -> bool {
        &&& self.results.selected == 0 || self.results.selected < self.results.items.len()
        &&& order::is_ordered(self.results.marked, true)
    }
}

pub struct SearchRequestModel {
    pub epoch: u64,
    pub query: Seq<char>,
    pub view: SearchView,
    pub grep_mode: GrepMode,
    pub abort_previous: bool,
}

impl View for SearchRequest {
    type V = SearchRequestModel;

    open spec fn view(&self) -> SearchRequestModel {
        SearchRequestModel {
            epoch: self.epoch,
            query: self.query@,
            view: self.view,
            grep_mode: self.grep_mode,
            abort_previous: self.abort_previous,
        }
    }
}

pub open spec fn opt_search(o: Option<SearchRequest>) -> Option<SearchRequestModel> {
    match o {
        Some(r) => Some(r@),
        None => None,
    }
}

pub struct PreviewRequestModel {
    pub epoch: u64,
    pub path: Seq<char>,
    pub grep_matches: Seq<search::MatchModel>,
    pub first_match_line: Option<usize>,
}

impl View for PreviewRequest {
    type V = PreviewRequestModel;

    open spec fn view(&self) -> PreviewRequestModel {
        PreviewRequestModel {
            epoch: self.epoch,
            path: self.path@,
            grep_matches: search::matches_view(self.grep_matches@),
            first_match_line: self.first_match_line,
        }
    }
}

pub open spec fn opt_preview(o: Option<PreviewRequest>) -> Option<PreviewRequestModel> {
    match o {
        Some(r) => Some(r@),
        None => None,
    }
}

/// The state of a search once one is asked for, and the request. Nothing is searched before the
/// files are known.
pub open spec fn searching(s: SearchModel) -> (SearchModel, Option<SearchRequestModel>) {
    if !s.scan_done {
        (s, None)
    } else {
        let epoch = s.epoch.wrapping_add(1);
        (
            SearchModel { epoch, in_flight: true, ..s },
            Some(
                SearchRequestModel {
                    epoch,
                    query: s.query,
                    view: s.view,
                    grep_mode: s.grep_mode,
                    abort_previous: s.in_flight,
                },
            ),
        )
    }
}

/// The smallest line number of some found lines.
pub open spec fn first_line(lines: Seq<search::MatchModel>) -> Option<usize>
    decreases lines.len(),
{
    if lines.len() == 0 {
        None
    } else {
        let earlier = first_line(lines.drop_last());
        let line = lines.last().line_number;
        match earlier {
            Some(n) => if n <= line {
                Some(n)
            } else {
                Some(line)
            },
            None => Some(line),
        }
    }
}

/// The preview once that of the selected row is asked for, and the request. Without a row it is
/// empty.
pub open spec fn loading(
    p: PreviewModel,
    results: ResultModel,
) -> (PreviewModel, Option<PreviewRequestModel>) {
    let epoch = p.epoch.wrapping_add(1);
    if results.selected < results.items.len() {
        let item = results.items[results.selected as int];
        (
            PreviewModel { epoch, loading: true, loading_visible: false, ..p },
            Some(
                PreviewRequestModel {
                    epoch,
                    path: item.absolute_path,
                    grep_matches: item.grep_matches,
                    first_match_line: first_line(item.grep_matches),
                },
            ),
        )
    } else {
        (
            PreviewModel {
                epoch,
                loading: false,
                loading_visible: false,
                scroll_row: 0,
                start_line: 1,
                lines: Seq::empty(),
            },
            None,
        )
    }
}

/// The row of the list that shows a result: the best one is at the bottom.
pub open spec fn visual(n: int, i: int) -> int {
    if i < n {
        n - 1 - i
    } else {
        0
    }
}

/// What the window does after the cursor moved: scroll the list to a row and load a preview.
#[derive(Debug)]
pub struct CursorMove {
    pub scroll_to: usize,
    pub preview: Option<PreviewRequest>,
}

fn copy_matches(v: &Vec<GrepMatchLine>) -> (r: Vec<GrepMatchLine>)
    ensures
        search::matches_view(r@) == search::matches_view(v@),
{
    let mut r: Vec<GrepMatchLine> = Vec::new();
    let mut i: usize = 0;
    while i < v.len()
        invariant
            i <= v.len(),
            search::matches_view(r@) =~= search::matches_view(v@).take(i as int),
        decreases v.len() - i,
    {
        let ghost before = search::matches_view(r@);
        let line = v[i].clone();
        r.push(line);
        assert(search::matches_view(r@) =~= before.push(line@));
        i += 1;
    }
    assert(search::matches_view(v@).take(i as int) =~= search::matches_view(v@));
    r
}

fn first_line_of(v: &Vec<GrepMatchLine>) -> (r: Option<usize>)
    ensures
        r == first_line(search::matches_view(v@)),
{
    let ghost all = search::matches_view(v@);
    let mut r: Option<usize> = None;
    let mut i: usize = 0;
    assert(all.take(0) =~= Seq::empty());
    while i < v.len()
        invariant
            i <= v.len(),
            all == search::matches_view(v@),
            r == first_line(all.take(i as int)),
        decreases v.len() - i,
    {
        assert(all.take(i + 1).drop_last() =~= all.take(i as int));
        assert(all.take(i + 1).last() == v@[i as int]@);
        let line = v[i].line_number;
        r = match r {
            Some(n) => if n <= line {
                Some(n)
            } else {
                Some(line)
            },
            None => Some(line),
        };
        i += 1;
    }
    assert(all.take(i as int) =~= all);
    r
}

impl FffPicker {
    /// A picker at a base path, before anything is known of the files there.
    pub fn new(
        base_path: String,
        start_in_grep: bool,
        theme_version: u64,
        awaits_answer: bool,
    ) -> (r: Self)
        ensures
            r@.wf(),
            r@ == (PickerModel {
                results: ResultModel {
                    items: Seq::empty(),
                    total_files: 0,
                    total_matched: 0,
                    selected: 0,
                    marked: Seq::empty(),
                },
                preview: PreviewModel {
                    epoch: 0,
                    loading: false,
                    loading_visible: false,
                    scroll_row: 0,
                    start_line: 1,
                    lines: Seq::empty(),
                },
                search: SearchModel {
                    view: if start_in_grep {
                        SearchView::Grep
                    } else {
                        SearchView::Files
                    },
                    grep_mode: GrepMode::PlainText,
                    query: Seq::empty(),
                    scan_done: false,
                    epoch: 0,
                    in_flight: false,
                },
                shell: ShellModel {
                    base_path: base_path@,
                    indexed_count: 0,
                    theme_version,
                    status_message: None,
                    awaits_answer,
                },
            }),
    {
        let r = FffPicker {
            base_path,
            view: if start_in_grep {
                SearchView::Grep
            } else {
                SearchView::Files
            },
            grep_mode: GrepMode::PlainText,
            query: String::new(),
            results: Vec::new(),
            total_files: 0,
            total_matched: 0,
            indexed_count: 0,
            selected: 0,
            selected_paths: Vec::new(),
            scan_done: false,
            search_epoch: 0,
            search_in_flight: false,
            preview_epoch: 0,
            preview_loading: false,
            preview_loading_visible: false,
            preview_scroll_row: 0,
            preview_start_line: 1,
            theme_version,
            preview_lines: Vec::new(),
            status_message: None,
            awaits_answer,
        };
        assert(search::items_view(r.results@) =~= Seq::empty());
        assert(text::texts(r.selected_paths@) =~= Seq::empty());
        assert(preview::lines_view(r.preview_lines@) =~= Seq::empty());
        assert(r.query@ =~= Seq::empty());
        r
    }

    /// Asks for a search with the current query.
    pub fn run_search(&mut self) -> (r: Option<SearchRequest>)
        ensures
            (final(self)@.search, opt_search(r)) == searching(old(self)@.search),
            final(self)@ == (PickerModel { search: final(self)@.search, ..old(self)@ }),
    {
        if !self.scan_done {
            return None;
        }
        let abort_previous = self.search_in_flight;
        self.search_epoch = self.search_epoch.wrapping_add(1);
        self.search_in_flight = true;
        Some(
            SearchRequest {
                epoch: self.search_epoch,
                query: self.query.clone(),
                view: self.view,
                grep_mode: self.grep_mode,
                abort_previous,
            },
        )
    }

    /// Asks for the preview of the selected row.
    pub fn load_preview(&mut self) -> (r: Option<PreviewRequest>)
        ensures
            (final(self)@.preview, opt_preview(r)) == loading(
                old(self)@.preview,
                old(self)@.results,
            ),
            final(self)@ == (PickerModel { preview: final(self)@.preview, ..old(self)@ }),
    {
        self.preview_epoch = self.preview_epoch.wrapping_add(1);
        if self.selected >= self.results.len() {
            self.preview_lines = Vec::new();
            self.preview_loading = false;
            self.preview_loading_visible = false;
            self.preview_scroll_row = 0;
            self.preview_start_line = 1;
            assert(preview::lines_view(self.preview_lines@) =~= Seq::empty());
            return None;
        }
        self.preview_loading = true;
        self.preview_loading_visible = false;
        let item = &self.results[self.selected];
        assert(self@.results.items[self.selected as int] == item@);
        Some(
            PreviewRequest {
                epoch: self.preview_epoch,
                path: item.absolute_path.clone(),
                grep_matches: copy_matches(&item.grep_matches),
                first_match_line: first_line_of(&item.grep_matches),
            },
        )
    }

    /// The row of the list that shows a result.
    pub fn visual_index(&self, data_index: usize) -> (r: usize)
        ensures
            r == visual(self@.results.items.len() as int, data_index as int),
    {
        self.results.len().saturating_sub(1).saturating_sub(data_index)
    }
}

/// The state after the query in the text field changed, and the search to run.
pub open spec fn edited(
    p: PickerModel,
    new_query: Seq<char>,
) -> (PickerModel, Option<SearchRequestModel>) {
    if new_query == p.search.query {
        (p, None)
    } else {
        let (search, request) = searching(SearchModel { query: new_query, ..p.search });
        (
            PickerModel {
                results: ResultModel { marked: Seq::empty(), ..p.results },
                preview: PreviewModel { scroll_row: 0, ..p.preview },
                search,
                shell: ShellModel { status_message: None, ..p.shell },
            },
            request,
        )
    }
}

/// A path belongs to one of the items.
pub open spec fn has_path(items: Seq<search::ItemModel>, path: Seq<char>) -> bool {
    search::path_index(items, path) < items.len()
}

pub open spec fn paths_in(items: Seq<search::ItemModel>) -> spec_fn(Seq<char>) -> bool {
    |path: Seq<char>| has_path(items, path)
}

/// The state after the results of a search came in. Those of a search that is not the last one
/// are dropped. Marks stay on paths that are still there.
pub open spec fn applied(
    p: PickerModel,
    epoch: u64,
    items: Seq<search::ItemModel>,
    total_files: usize,
    total_matched: usize,
) -> (PickerModel, Option<PreviewRequestModel>) {
    if epoch != p.search.epoch {
        (p, None)
    } else {
        let results = ResultModel {
            items,
            total_files,
            total_matched,
            selected: 0,
            marked: p.results.marked.filter(paths_in(items)),
        };
        let (preview, request) = loading(PreviewModel { scroll_row: 0, ..p.preview }, results);
        (
            PickerModel {
                results,
                preview,
                search: SearchModel { in_flight: false, ..p.search },
                ..p
            },
            request,
        )
    }
}

/// The state after a switch to another way of searching: everything that was found is gone.
pub open spec fn switched(p: PickerModel, view: SearchView, grep_mode: GrepMode) -> PickerModel {
    PickerModel {
        results: ResultModel {
            items: Seq::empty(),
            total_files: 0,
            total_matched: 0,
            selected: 0,
            marked: Seq::empty(),
        },
        preview: PreviewModel {
            lines: Seq::empty(),
            loading: false,
            loading_visible: false,
            ..p.preview
        },
        search: SearchModel { view, grep_mode, ..p.search },
        shell: ShellModel { status_message: None, ..p.shell },
    }
}

pub open spec fn next_mode(mode: GrepMode) -> GrepMode {
    match mode {
        GrepMode::PlainText => GrepMode::Regex,
        GrepMode::Regex => GrepMode::Fuzzy,
        GrepMode::Fuzzy => GrepMode::PlainText,
    }
}

/// The state after the cursor moved to a row, and the preview to load.
pub open spec fn moved(p: PickerModel, row: usize) -> (PickerModel, Option<PreviewRequestModel>) {
    let results = ResultModel { selected: row, ..p.results };
    let (preview, request) = loading(p.preview, results);
    (PickerModel { results, preview, ..p }, request)
}

/// What a move of the cursor came to.
pub open spec fn move_view(o: Option<CursorMove>) -> Option<(int, Option<PreviewRequestModel>)> {
    match o {
        Some(m) => Some((m.scroll_to as int, opt_preview(m.preview))),
        None => None,
    }
}

/// The move to a row, with where the list scrolls to.
pub open spec fn move_to(
    p: PickerModel,
    row: usize,
) -> (PickerModel, Option<(int, Option<PreviewRequestModel>)>) {
    let (after, request) = moved(p, row);
    (after, Some((visual(p.results.items.len() as int, row as int), request)))
}

/// The marks after that of a path was changed.
pub open spec fn toggled(marked: Seq<Seq<char>>, path: Seq<char>) -> Seq<Seq<char>> {
    if order::holds(marked, path, true) {
        order::without_text(marked, path, true)
    } else {
        order::with_text(marked, path, true)
    }
}

/// Marks on all items.
pub open spec fn all_marked(items: Seq<search::ItemModel>) -> Seq<Seq<char>>
    decreases items.len(),
{
    if items.len() == 0 {
        Seq::empty()
    } else {
        order::with_text(all_marked(items.drop_last()), items.last().absolute_path, true)
    }
}

/// What a click on a row came to.
#[derive(Debug)]
pub enum RowClick {
    /// There is no such row.
    Ignored,
    /// The row was selected already: open it.
    Open,
    /// The cursor moved to the row.
    Moved(CursorMove),
}

/// What the window does after the results of a search came in.
#[derive(Debug)]
pub struct AppliedResults {
    /// The row that the list scrolls to, if there is one.
    pub scroll_to: Option<usize>,
    pub preview: Option<PreviewRequest>,
}

/// What shift-tab came to.
#[derive(Debug)]
pub enum ShiftTabOutcome {
    /// The grep mode changed. Search again, after stopping the running search if there is one.
    ModeChanged { abort: bool },
    Moved(Option<CursorMove>),
}

impl FffPicker {
    /// Takes over the text of the text field.
    pub fn set_query(&mut self, new_query: String) -> (r: Option<SearchRequest>)
        requires
            old(self)@.wf(),
        ensures
            (final(self)@, opt_search(r)) == edited(old(self)@, new_query@),
            final(self)@.wf(),
    {
        if same(new_query.as_str(), self.query.as_str()) {
            return None;
        }
        self.query = new_query;
        self.status_message = None;
        self.selected_paths = Vec::new();
        self.preview_scroll_row = 0;
        assert(text::texts(self.selected_paths@) =~= Seq::empty());
        self.run_search()
    }

    /// Keeps the marks on paths that belong to a result.
    fn retain_marks(&mut self)
        ensures
            final(self)@ == (PickerModel {
                results: ResultModel {
                    marked: old(self)@.results.marked.filter(paths_in(old(self)@.results.items)),
                    ..old(self)@.results
                },
                ..old(self)@
            }),
    {
        let ghost all = text::texts(self.selected_paths@);
        let ghost keep = paths_in(self@.results.items);
        let mut kept: Vec<String> = Vec::new();
        let mut i: usize = 0;
        proof {
            reveal(Seq::filter);
        }
        assert(all.take(0).filter(keep) =~= Seq::empty());
        assert(text::texts(kept@) =~= Seq::empty());
        while i < self.selected_paths.len()
            invariant
                i <= self.selected_paths.len(),
                *self == *old(self),
                all == text::texts(self.selected_paths@),
                keep == paths_in(search::items_view(self.results@)),
                text::texts(kept@) == all.take(i as int).filter(keep),
            decreases self.selected_paths.len() - i,
        {
            let ghost before = text::texts(kept@);
            assert(all.take(i + 1).drop_last() =~= all.take(i as int));
            assert(all.take(i + 1).last() == self.selected_paths@[i as int]@);
            proof {
                reveal(Seq::filter);
            }
            if search::find_path(&self.results, self.selected_paths[i].as_str()).is_some() {
                let path = self.selected_paths[i].clone();
                kept.push(path);
                assert(text::texts(kept@) =~= before.push(path@));
            }
            i += 1;
        }
        assert(all.take(i as int) =~= all);
        self.selected_paths = kept;
    }

    /// Takes over the results of a search, unless another one was asked for since.
    pub fn apply_search(&mut self, epoch: u64, outcome: SearchOutcome) -> (r: Option<
        AppliedResults,
    >)
        requires
            old(self)@.wf(),
        ensures
            final(self)@ == applied(
                old(self)@,
                epoch,
                search::items_view(outcome.items@),
                outcome.total_files,
                outcome.total_matched,
            ).0,
            final(self)@.wf(),
            r is Some <==> epoch == old(self)@.search.epoch,
            r matches Some(done) ==> {
                &&& opt_preview(done.preview) == applied(
                    old(self)@,
                    epoch,
                    search::items_view(outcome.items@),
                    outcome.total_files,
                    outcome.total_matched,
                ).1
                &&& done.scroll_to == (if outcome.items@.len() == 0 {
                    None
                } else {
                    Some((outcome.items@.len() - 1) as usize)
                })
            },
    {
        if self.search_epoch != epoch {
            return None;
        }
        self.results = outcome.items;
        self.total_files = outcome.total_files;
        self.total_matched = outcome.total_matched;
        self.selected = 0;
        self.preview_scroll_row = 0;
        proof {
            order::lemma_filter_ordered(
                self@.results.marked,
                paths_in(self@.results.items),
                true,
            );
        }
        self.retain_marks();
        let scroll_to = if self.results.len() > 0 {
            Some(self.visual_index(self.selected))
        } else {
            None
        };
        let preview = self.load_preview();
        self.finish_search(epoch);
        Some(AppliedResults { scroll_to, preview })
    }

    /// Notes that a search is over, unless another one was asked for since.
    pub fn finish_search(&mut self, epoch: u64)
        ensures
            final(self)@ == (if epoch == old(self)@.search.epoch {
                PickerModel {
                    search: SearchModel { in_flight: false, ..old(self)@.search },
                    ..old(self)@
                }
            } else {
                old(self)@
            }),
    {
        if self.search_epoch != epoch {
            return;
        }
        self.search_in_flight = false;
    }

    /// Clears what was found. The result tells whether a search is to be stopped.
    fn switch_mode(&mut self) -> (r: bool)
        ensures
            final(self)@ == switched(
                old(self)@,
                old(self)@.search.view,
                old(self)@.search.grep_mode,
            ),
            final(self)@.wf(),
            r == old(self)@.search.in_flight,
    {
        self.results = Vec::new();
        self.total_files = 0;
        self.total_matched = 0;
        self.selected = 0;
        self.selected_paths = Vec::new();
        self.preview_lines = Vec::new();
        self.preview_loading = false;
        self.preview_loading_visible = false;
        self.status_message = None;
        assert(search::items_view(self.results@) =~= Seq::empty());
        assert(text::texts(self.selected_paths@) =~= Seq::empty());
        assert(preview::lines_view(self.preview_lines@) =~= Seq::empty());
        self.search_in_flight
    }

    fn move_cursor(&mut self, row: usize) -> (r: CursorMove)
        requires
            old(self)@.wf(),
            row < old(self)@.results.items.len(),
        ensures
            (final(self)@, move_view(Some(r))) == move_to(old(self)@, row),
            final(self)@.wf(),
    {
        self.selected = row;
        let scroll_to = self.visual_index(row);
        let preview = self.load_preview();
        CursorMove { scroll_to, preview }
    }

    /// Moves the cursor down, to a better result.
    pub fn on_select_next(&mut self) -> (r: Option<CursorMove>)
        requires
            old(self)@.wf(),
        ensures
            (final(self)@, move_view(r)) == (if old(self)@.results.selected > 0 {
                move_to(old(self)@, (old(self)@.results.selected - 1) as usize)
            } else {
                (old(self)@, None)
            }),
            final(self)@.wf(),
    {
        if self.results.len() > 0 && self.selected > 0 {
            Some(self.move_cursor(self.selected - 1))
        } else {
            None
        }
    }

    /// Moves the cursor up, to a worse result.
    pub fn on_select_prev(&mut self) -> (r: Option<CursorMove>)
        requires
            old(self)@.wf(),
        ensures
            (final(self)@, move_view(r)) == (if old(self)@.results.selected + 1
                < old(self)@.results.items.len() {
                move_to(old(self)@, (old(self)@.results.selected + 1) as usize)
            } else {
                (old(self)@, None)
            }),
            final(self)@.wf(),
    {
        if self.results.len() > 0 && self.selected < self.results.len() - 1 {
            Some(self.move_cursor(self.selected + 1))
        } else {
            None
        }
    }

    /// Takes a click on a row.
    pub fn on_select_row(&mut self, index: usize) -> (r: RowClick)
        requires
            old(self)@.wf(),
        ensures
            final(self)@.wf(),
            r is Ignored <==> index >= old(self)@.results.items.len(),
            r is Open <==> index < old(self)@.results.items.len() && index
                == old(self)@.results.selected,
            !(r is Moved) ==> final(self)@ == old(self)@,
            r matches RowClick::Moved(m) ==> (final(self)@, move_view(Some(m))) == move_to(
                old(self)@,
                index,
            ),
    {
        if index >= self.results.len() {
            return RowClick::Ignored;
        }
        if self.selected == index {
            return RowClick::Open;
        }
        RowClick::Moved(self.move_cursor(index))
    }

    /// Marks the selected row, or takes its mark away.
    pub fn on_toggle_selected(&mut self)
        requires
            old(self)@.wf(),
        ensures
            final(self)@ == (if old(self)@.results.selected < old(self)@.results.items.len() {
                PickerModel {
                    results: ResultModel {
                        marked: toggled(
                            old(self)@.results.marked,
                            old(self)@.results.items[old(self)@.results.selected
                                as int].absolute_path,
                        ),
                        ..old(self)@.results
                    },
                    ..old(self)@
                }
            } else {
                old(self)@
            }),
            final(self)@.wf(),
    {
        if self.selected >= self.results.len() {
            return;
        }
        let path = self.results[self.selected].absolute_path.clone();
        assert(path@ == self@.results.items[self.selected as int].absolute_path);
        proof {
            order::lemma_with_text(self@.results.marked, path@, true);
            order::lemma_filter_ordered(
                self@.results.marked,
                order::other_than(path@, true),
                true,
            );
        }
        if holds_text(&self.selected_paths, path.as_str(), true) {
            remove_text(&mut self.selected_paths, path.as_str(), true);
        } else {
            insert_text(&mut self.selected_paths, path, true);
        }
    }

    /// Takes all marks away, or, where there are none, marks every result.
    pub fn on_toggle_select_all(&mut self)
        requires
            old(self)@.wf(),
        ensures
            final(self)@ == (PickerModel {
                results: ResultModel {
                    marked: if old(self)@.results.marked.len() == 0 {
                        all_marked(old(self)@.results.items)
                    } else {
                        Seq::empty()
                    },
                    ..old(self)@.results
                },
                ..old(self)@
            }),
            final(self)@.wf(),
    {
        let mut marks: Vec<String> = Vec::new();
        assert(text::texts(marks@) =~= Seq::empty());
        if self.selected_paths.len() == 0 {
            let ghost all = self@.results.items;
            let mut i: usize = 0;
            assert(all.take(0) =~= Seq::empty());
            while i < self.results.len()
                invariant
                    i <= self.results.len(),
                    *self == *old(self),
                    all == search::items_view(self.results@),
                    text::texts(marks@) == all_marked(all.take(i as int)),
                    order::is_ordered(text::texts(marks@), true),
                decreases self.results.len() - i,
            {
                assert(all.take(i + 1).drop_last() =~= all.take(i as int));
                assert(all.take(i + 1).last() == self.results@[i as int]@);
                let path = self.results[i].absolute_path.clone();
                proof {
                    order::lemma_with_text(text::texts(marks@), path@, true);
                }
                insert_text(&mut marks, path, true);
                i += 1;
            }
            assert(all.take(i as int) =~= all);
        }
        self.selected_paths = marks;
    }

    /// Takes shift-tab: in a content search the mode changes, else the cursor moves up.
    pub fn on_shift_tab(&mut self) -> (r: ShiftTabOutcome)
        requires
            old(self)@.wf(),
        ensures
            final(self)@.wf(),
            old(self)@.search.view is Grep ==> (r matches ShiftTabOutcome::ModeChanged { abort }
                && abort == old(self)@.search.in_flight) && final(self)@ == switched(
                old(self)@,
                SearchView::Grep,
                next_mode(old(self)@.search.grep_mode),
            ),
            old(self)@.search.view is Files ==> (r matches ShiftTabOutcome::Moved(m) && (
                final(self)@,
                move_view(m),
            ) == (if old(self)@.results.selected + 1 < old(self)@.results.items.len() {
                move_to(old(self)@, (old(self)@.results.selected + 1) as usize)
            } else {
                (old(self)@, None)
            })),
    {
        match self.view {
            SearchView::Grep => ShiftTabOutcome::ModeChanged { abort: self.on_cycle_grep_mode() },
            SearchView::Files => ShiftTabOutcome::Moved(self.on_select_prev()),
        }
    }

    /// Goes on to the next grep mode. The result tells whether a search is to be stopped before
    /// the next one.
    pub fn on_cycle_grep_mode(&mut self) -> (r: bool)
        ensures
            final(self)@ == switched(
                old(self)@,
                old(self)@.search.view,
                next_mode(old(self)@.search.grep_mode),
            ),
            final(self)@.wf(),
            r == old(self)@.search.in_flight,
    {
        self.grep_mode = match self.grep_mode {
            GrepMode::PlainText => GrepMode::Regex,
            GrepMode::Regex => GrepMode::Fuzzy,
            GrepMode::Fuzzy => GrepMode::PlainText,
        };
        self.switch_mode()
    }

    /// Switches to searching files. Where that is a change, the result tells whether a search is
    /// to be stopped before the next one.
    pub fn on_switch_files(&mut self) -> (r: Option<bool>)
        requires
            old(self)@.wf(),
        ensures
            final(self)@.wf(),
            old(self)@.search.view is Files ==> r is None && final(self)@ == old(self)@,
            old(self)@.search.view is Grep ==> r == Some(old(self)@.search.in_flight)
                && final(self)@ == switched(
                old(self)@,
                SearchView::Files,
                old(self)@.search.grep_mode,
            ),
    {
        match self.view {
            SearchView::Files => None,
            SearchView::Grep => {
                self.view = SearchView::Files;
                Some(self.switch_mode())
            },
        }
    }

    /// Switches to searching contents, for plain text. Where that is a change, the result tells
    /// whether a search is to be stopped before the next one.
    pub fn on_switch_grep(&mut self) -> (r: Option<bool>)
        requires
            old(self)@.wf(),
        ensures
            final(self)@.wf(),
            old(self)@.search.view is Grep ==> r is None && final(self)@ == old(self)@,
            old(self)@.search.view is Files ==> r == Some(old(self)@.search.in_flight)
                && final(self)@ == switched(old(self)@, SearchView::Grep, GrepMode::PlainText),
    {
        match self.view {
            SearchView::Grep => None,
            SearchView::Files => {
                self.view = SearchView::Grep;
                self.grep_mode = GrepMode::PlainText;
                Some(self.switch_mode())
            },
        }
    }

    /// Takes the last query from the history: the text for the text field, or a message where
    /// there is none.
    pub fn on_cycle_previous_query(&mut self, history: Option<String>) -> (r: Option<String>)
        ensures
            text::opt_text(r) == text::opt_text(history),
            final(self)@ == (if history is Some {
                old(self)@
            } else {
                PickerModel {
                    shell: ShellModel {
                        status_message: Some("No query history"@),
                        ..old(self)@.shell
                    },
                    ..old(self)@
                }
            }),
    {
        if history.is_none() {
            self.status_message = Some("No query history".to_owned());
        }
        history
    }

    /// Scrolls the preview up. The result is the row at its top.
    pub fn on_preview_scroll_up(&mut self) -> (r: usize)
        ensures
            r == (if old(self)@.preview.scroll_row >= PREVIEW_SCROLL_STEP {
                old(self)@.preview.scroll_row - PREVIEW_SCROLL_STEP
            } else {
                0
            }),
            final(self)@ == (PickerModel {
                preview: PreviewModel { scroll_row: r, ..old(self)@.preview },
                ..old(self)@
            }),
    {
        self.preview_scroll_row = self.preview_scroll_row.saturating_sub(PREVIEW_SCROLL_STEP);
        self.preview_scroll_row
    }

    /// Scrolls the preview down, no further than to its last line. The result is the row at its
    /// top; an empty preview does not scroll.
    pub fn on_preview_scroll_down(&mut self) -> (r: Option<usize>)
        ensures
            r is None <==> old(self)@.preview.lines.len() == 0,
            r is None ==> final(self)@ == old(self)@,
            r matches Some(row) ==> {
                &&& row == (if old(self)@.preview.scroll_row + PREVIEW_SCROLL_STEP
                    < old(self)@.preview.lines.len() {
                    old(self)@.preview.scroll_row + PREVIEW_SCROLL_STEP
                } else {
                    old(self)@.preview.lines.len() - 1
                })
                &&& final(self)@ == (PickerModel {
                    preview: PreviewModel { scroll_row: row, ..old(self)@.preview },
                    ..old(self)@
                })
            },
    {
        let n = self.preview_lines.len();
        if n == 0 {
            return None;
        }
        let row = self.preview_scroll_row.saturating_add(PREVIEW_SCROLL_STEP);
        self.preview_scroll_row = if row < n {
            row
        } else {
            n - 1
        };
        Some(self.preview_scroll_row)
    }

    /// Takes note of the theme's version. A change asks for the preview of the selected row again.
    pub fn sync_theme(&mut self, version: u64) -> (r: Option<PreviewRequest>)
        requires
            old(self)@.wf(),
        ensures
            final(self)@.wf(),
            ({
                let noted = PickerModel {
                    shell: ShellModel { theme_version: version, ..old(self)@.shell },
                    ..old(self)@
                };
                let again = version != old(self)@.shell.theme_version
                    && old(self)@.results.selected < old(self)@.results.items.len();
                (final(self)@, opt_preview(r)) == (if again {
                    (
                        PickerModel { preview: loading(noted.preview, noted.results).0, ..noted },
                        loading(noted.preview, noted.results).1,
                    )
                } else {
                    (noted, None)
                })
            }),
    {
        if self.theme_version == version {
            return None;
        }
        self.theme_version = version;
        if self.selected < self.results.len() {
            self.load_preview()
        } else {
            None
        }
    }
}

/// How the picker comes by the files under its base path.
#[derive(Debug)]
pub enum ScanPlan {
    /// An index of them is there and complete: run this search.
    Reuse(Option<SearchRequest>),
    /// An index of them is being made: wait for it.
    Wait,
    /// Make an index of them.
    Start,
}

/// What an observer of the scan does: tell the window, and look again.
#[derive(Debug, PartialEq, Eq, Structural)]
pub struct ProgressStep {
    pub notify: bool,
    pub again: bool,
}

impl FffPicker {
    /// Finds out how to come by the files. `existing` is the base path of the index that is there,
    /// and whether it is still being made.
    pub fn start_scan(&mut self, existing: Option<(&str, bool)>) -> (r: ScanPlan)
        requires
            old(self)@.wf(),
        ensures
            final(self)@.wf(),
            ({
                let same_base = existing is Some && components::same_path(
                    (existing->0).0@,
                    old(self)@.shell.base_path,
                );
                let scanning = existing is Some && (existing->0).1;
                let ready = SearchModel { scan_done: true, ..old(self)@.search };
                &&& r is Start <==> !same_base
                &&& r is Wait <==> same_base && scanning
                &&& r matches ScanPlan::Reuse(request) ==> opt_search(request) == searching(
                    ready,
                ).1
                &&& final(self)@ == (if same_base && !scanning {
                    PickerModel { search: searching(ready).0, ..old(self)@ }
                } else {
                    old(self)@
                })
            }),
    {
        match existing {
            Some((base, scanning)) => if !is_same_path(base, self.base_path.as_str()) {
                ScanPlan::Start
            } else if scanning {
                ScanPlan::Wait
            } else {
                ScanPlan::Reuse(self.finish_scan())
            },
            None => ScanPlan::Start,
        }
    }

    /// Notes that the files are known, and asks for a search.
    pub fn finish_scan(&mut self) -> (r: Option<SearchRequest>)
        ensures
            ({
                let ready = SearchModel { scan_done: true, ..old(self)@.search };
                &&& final(self)@ == (PickerModel { search: searching(ready).0, ..old(self)@ })
                &&& opt_search(r) == searching(ready).1
                &&& r is Some
            }),
    {
        self.scan_done = true;
        self.run_search()
    }

    /// Takes the progress of the scan, the number of files so far and whether it goes on, if it is
    /// known.
    pub fn index_progress(&mut self, progress: Option<(usize, bool)>) -> (r: ProgressStep)
        ensures
            progress is None ==> r == (ProgressStep { notify: false, again: true })
                && final(self)@ == old(self)@,
            progress matches Some((count, scanning)) ==> {
                &&& r.notify == (count != old(self)@.shell.indexed_count)
                &&& r.again == scanning
                &&& final(self)@ == (PickerModel {
                    shell: ShellModel { indexed_count: count, ..old(self)@.shell },
                    ..old(self)@
                })
            },
    {
        match progress {
            None => ProgressStep { notify: false, again: true },
            Some((count, scanning)) => {
                let notify = self.indexed_count != count;
                self.indexed_count = count;
                ProgressStep { notify, again: scanning }
            },
        }
    }

    /// Shows that a preview is loading, if it still is and there is nothing else to show.
    pub fn show_loading(&mut self, epoch: u64) -> (r: bool)
        ensures
            r == (epoch == old(self)@.preview.epoch && old(self)@.preview.loading
                && old(self)@.preview.lines.len() == 0),
            final(self)@ == (if r {
                PickerModel {
                    preview: PreviewModel { loading_visible: true, ..old(self)@.preview },
                    ..old(self)@
                }
            } else {
                old(self)@
            }),
    {
        if self.preview_epoch == epoch && self.preview_loading && self.preview_lines.len() == 0 {
            self.preview_loading_visible = true;
            true
        } else {
            false
        }
    }

    /// Takes over a preview, unless another one was asked for since. The result is the row to
    /// scroll to.
    pub fn apply_preview(
        &mut self,
        epoch: u64,
        start_line: usize,
        lines: Vec<HighlightedLine>,
        first_match_line: Option<usize>,
    ) -> (r: Option<usize>)
        ensures
            r is Some <==> epoch == old(self)@.preview.epoch,
            r is None ==> final(self)@ == old(self)@,
            r matches Some(row) ==> {
                &&& final(self)@ == (PickerModel {
                    preview: PreviewModel {
                        lines: preview::lines_view(lines@),
                        loading: false,
                        loading_visible: false,
                        start_line,
                        scroll_row: match_row(start_line, first_match_line) as usize,
                        ..old(self)@.preview
                    },
                    ..old(self)@
                })
                &&& row == (if match_row(start_line, first_match_line)
                    >= preview::MATCH_CONTEXT_BEFORE {
                    match_row(start_line, first_match_line) - preview::MATCH_CONTEXT_BEFORE
                } else {
                    0
                })
            },
    {
        if self.preview_epoch != epoch {
            return None;
        }
        self.preview_lines = lines;
        self.preview_loading = false;
        self.preview_loading_visible = false;
        self.preview_start_line = start_line;
        self.preview_scroll_row = match first_match_line {
            Some(line) => line.saturating_sub(start_line),
            None => 0,
        };
        Some(self.preview_scroll_row.saturating_sub(preview::MATCH_CONTEXT_BEFORE))
    }
}

/// The row of a preview that shows its first match.
pub open spec fn match_row(start_line: usize, first_match_line: Option<usize>) -> int {
    match first_match_line {
        Some(line) => if line >= start_line {
            line - start_line
        } else {
            0
        },
        None => 0,
    }
}

/// The spans of a line with matches laid over them. A line of more bytes than a range can count is
/// left as it is.
pub open spec fn marked_spans(
    spans: Seq<preview::SpanModel>,
    ranges: Seq<(u32, u32)>,
    color: u32,
    bg: u32,
) -> Seq<preview::SpanModel> {
    if overlay::spans_len(spans) <= u32::MAX {
        overlay::overlaid(spans, ranges, color, Some(bg))
    } else {
        spans
    }
}

/// Lines with the matches of some found lines laid over them, one after the other. The first line
/// has the number `start_line`.
pub open spec fn marked_lines(
    lines: Seq<Seq<preview::SpanModel>>,
    start_line: int,
    found: Seq<search::MatchModel>,
    color: u32,
    bg: u32,
) -> Seq<Seq<preview::SpanModel>>
    decreases found.len(),
{
    if found.len() == 0 {
        lines
    } else {
        let earlier = marked_lines(lines, start_line, found.drop_last(), color, bg);
        let number = found.last().line_number;
        let row = if number >= start_line {
            number - start_line
        } else {
            0
        };
        if row < earlier.len() {
            earlier.update(
                row,
                marked_spans(earlier[row], found.last().byte_ranges, color, bg),
            )
        } else {
            earlier
        }
    }
}

fn spans_fit(spans: &Vec<preview::HighlightedSpan>) -> (r: bool)
    ensures
        r == (overlay::spans_len(preview::spans_view(spans@)) <= u32::MAX),
{
    let ghost all = preview::spans_view(spans@);
    let mut sum: u32 = 0;
    let mut i: usize = 0;
    assert(all.take(0) =~= Seq::empty());
    while i < spans.len()
        invariant
            i <= spans.len(),
            all == preview::spans_view(spans@),
            sum == overlay::spans_len(all.take(i as int)),
        decreases spans.len() - i,
    {
        let n = text::byte_count(spans[i].text.as_str());
        assert(all.take(i + 1).drop_last() =~= all.take(i as int));
        assert(all.take(i + 1).last() == spans@[i as int]@);
        if n > (u32::MAX - sum) as usize {
            proof {
                overlay::lemma_spans_len(all, i + 1);
            }
            return false;
        }
        sum += n as u32;
        i += 1;
    }
    assert(all.take(i as int) =~= all);
    true
}

/// Makes the preview of a file: its window of lines around the first match, with the matches laid
/// over them. There is no content where the file could not be read as text.
pub fn build_preview(
    request: &PreviewRequest,
    content: Option<&str>,
    theme: &ResolvedTheme,
    match_highlight: u32,
    match_bg: u32,
) -> (r: (usize, Vec<HighlightedLine>))
    requires
        content matches Some(content) ==> preview::has_text(content@) ==> theme@.render_ok(
            "text"@,
        ),
    ensures
        content is None ==> r.0 == 1 && r.1@.len() == 0,
        content matches Some(content) ==> {
            let start = preview::window_start(request.first_match_line);
            &&& r.0 == start
            &&& preview::lines_view(r.1@) == marked_lines(
                preview::preview_window(
                    preview::path_lines(request.path@, content@, theme@),
                    start,
                ),
                start,
                request@.grep_matches,
                match_highlight,
                match_bg,
            )
        },
{
    let (start_line, mut lines) = highlight_file_window(
        request.path.as_str(),
        content,
        request.first_match_line,
        theme,
    );
    let ghost window = preview::lines_view(lines@);
    let ghost found = request@.grep_matches;
    let mut i: usize = 0;
    assert(found.take(0) =~= Seq::empty());
    while i < request.grep_matches.len()
        invariant
            i <= request.grep_matches.len(),
            found == search::matches_view(request.grep_matches@),
            lines@.len() == window.len(),
            preview::lines_view(lines@) == marked_lines(
                window,
                start_line as int,
                found.take(i as int),
                match_highlight,
                match_bg,
            ),
        decreases request.grep_matches.len() - i,
    {
        assert(found.take(i + 1).drop_last() =~= found.take(i as int));
        assert(found.take(i + 1).last() == request.grep_matches@[i as int]@);
        let ghost before = preview::lines_view(lines@);
        let hit = &request.grep_matches[i];
        let row = hit.line_number.saturating_sub(start_line);
        if row < lines.len() {
            let mut line = lines.remove(row);
            assert(before[row as int] == preview::spans_view(line.spans@));
            if spans_fit(&line.spans) {
                line.spans = overlay_match_ranges(
                    &line.spans,
                    &hit.byte_ranges,
                    match_highlight,
                    Some(match_bg),
                );
            }
            lines.insert(row, line);
            assert(preview::lines_view(lines@) =~= before.update(
                row as int,
                preview::spans_view(line.spans@),
            ));
        }
        i += 1;
    }
    assert(found.take(i as int) =~= found);
    (start_line, lines)
}

/// What a search is to do.
#[derive(Debug)]
pub enum SearchPlan {
    /// Nothing is looked for in the contents: there are no results.
    Blank,
    /// Look for files. `parsed` tells whether a parser took the query apart.
    Files { query: SearchQuery, parsed: bool },
    /// Look into files.
    Grep { query: SearchQuery, parsed: bool },
}

/// Takes the query of a request apart for the search that it asks for.
pub fn plan_search(request: &SearchRequest) -> (r: SearchPlan)
    requires
        request.view is Grep && !(request.grep_mode is Fuzzy) ==> query::grep_text_ok(
            text::trim(request.query@),
        ),
    ensures
        request.view is Files ==> (r matches SearchPlan::Files { query, parsed } && query@
            == query::file_query(request.query@) && parsed == query::is_filter(request.query@)),
        request.view is Grep ==> (r is Blank <==> text::trim(request.query@).len() == 0),
        request.view is Grep && text::trim(request.query@).len() > 0 ==> (
        r matches SearchPlan::Grep { query, parsed } && query@ == query::grep_query(
            request.query@,
            request.grep_mode,
        ) && parsed == !(request.grep_mode is Fuzzy)),
{
    match request.view {
        SearchView::Files => SearchPlan::Files {
            query: build_file_query(request.query.as_str()),
            parsed: is_file_filter(request.query.as_str()),
        },
        SearchView::Grep => {
            let (from, to) = trim_bounds(&chars_of(request.query.as_str()));
            if from == to {
                SearchPlan::Blank
            } else {
                let parsed = match request.grep_mode {
                    GrepMode::Fuzzy => false,
                    _ => true,
                };
                SearchPlan::Grep {
                    query: build_grep_query(request.query.as_str(), request.grep_mode),
                    parsed,
                }
            }
        },
    }
}

/// Laying matches over lines adds no line and takes none away, and leaves lines alone in which
/// nothing was found.
pub proof fn law_marking_keeps_lines(
    lines: Seq<Seq<preview::SpanModel>>,
    start_line: int,
    found: Seq<search::MatchModel>,
    color: u32,
    bg: u32,
    row: int,
)
    requires
        0 <= row < lines.len(),
        forall|i: int|
            0 <= i < found.len() ==> start_line <= (#[trigger] found[i]).line_number
                && found[i].line_number != start_line + row,
    ensures
        marked_lines(lines, start_line, found, color, bg).len() == lines.len(),
        marked_lines(lines, start_line, found, color, bg)[row] == lines[row],
    decreases found.len(),
{
    if found.len() > 0 {
        let front = found.drop_last();
        assert forall|i: int| 0 <= i < front.len() implies start_line <= (
        #[trigger] front[i]).line_number && front[i].line_number != start_line + row by {
            assert(front[i] == found[i]);
        }
        law_marking_keeps_lines(lines, start_line, front, color, bg, row);
        assert(found[found.len() - 1].line_number != start_line + row);
    }
}

/// A found line whose number no other found line is laid over shows its matches: its row is the one
/// before with the ranges laid over it. Lines above the window count for its first row.
pub proof fn law_every_match_is_shown(
    lines: Seq<Seq<preview::SpanModel>>,
    start_line: int,
    found: Seq<search::MatchModel>,
    color: u32,
    bg: u32,
    i: int,
)
    requires
        0 <= i < found.len(),
        start_line <= found[i].line_number < start_line + lines.len(),
        forall|j: int|
            0 <= j < found.len() && j != i ==> (#[trigger] found[j]).line_number
                != found[i].line_number && (found[j].line_number < start_line
                ==> found[i].line_number != start_line),
        overlay::spans_len(lines[found[i].line_number - start_line]) <= u32::MAX,
    ensures
        marked_lines(lines, start_line, found, color, bg).len() == lines.len(),
        marked_lines(lines, start_line, found, color, bg)[found[i].line_number - start_line]
            == overlay::overlaid(
            lines[found[i].line_number - start_line],
            found[i].byte_ranges,
            color,
            Some(bg),
        ),
    decreases found.len(),
{
    let front = found.drop_last();
    let row = found[i].line_number - start_line;
    if i == found.len() - 1 {
        lemma_other_rows_stay(lines, start_line, front, color, bg, row);
    } else {
        assert(front[i] == found[i]);
        assert forall|j: int| 0 <= j < front.len() && j != i implies (
        #[trigger] front[j]).line_number != front[i].line_number && (front[j].line_number
            < start_line ==> front[i].line_number != start_line) by {
            assert(front[j] == found[j]);
        }
        law_every_match_is_shown(lines, start_line, front, color, bg, i);
        assert(found[found.len() - 1].line_number != found[i].line_number);
    }
}

/// Rows that no found line is laid over stay as they were.
proof fn lemma_other_rows_stay(
    lines: Seq<Seq<preview::SpanModel>>,
    start_line: int,
    found: Seq<search::MatchModel>,
    color: u32,
    bg: u32,
    row: int,
)
    requires
        0 <= row < lines.len(),
        forall|j: int|
            0 <= j < found.len() ==> (#[trigger] found[j]).line_number != start_line + row && (
            found[j].line_number < start_line ==> row != 0),
    ensures
        marked_lines(lines, start_line, found, color, bg).len() == lines.len(),
        marked_lines(lines, start_line, found, color, bg)[row] == lines[row],
    decreases found.len(),
{
    if found.len() > 0 {
        let front = found.drop_last();
        assert forall|j: int| 0 <= j < front.len() implies (#[trigger] front[j]).line_number
            != start_line + row && (front[j].line_number < start_line ==> row != 0) by {
            assert(front[j] == found[j]);
        }
        lemma_other_rows_stay(lines, start_line, front, color, bg, row);
        assert(found[found.len() - 1].line_number != start_line + row);
    }
}

/// Once a second search was asked for, the results of the first are dropped, whatever they are,
/// and those of the second are shown.
pub proof fn law_old_results_are_dropped(
    p: PickerModel,
    old_items: Seq<search::ItemModel>,
    new_items: Seq<search::ItemModel>,
    total_files: usize,
    total_matched: usize,
)
    requires
        p.search.scan_done,
    ensures
        ({
            let (search1, request1) = searching(p.search);
            let (search2, request2) = searching(search1);
            let now = PickerModel { search: search2, ..p };
            let (after, preview) = applied(
                now,
                (request1->0).epoch,
                old_items,
                total_files,
                total_matched,
            );
            let shown = applied(
                now,
                (request2->0).epoch,
                new_items,
                total_files,
                total_matched,
            ).0;
            &&& request1 is Some && request2 is Some
            &&& (request2->0).abort_previous
            &&& after == now && preview is None
            &&& shown.results.items == new_items
            &&& !shown.search.in_flight
        }),
{
}

/// Once a second preview was asked for, the first is not the one that is waited for any more.
pub proof fn law_old_previews_are_dropped(p: PreviewModel, results: ResultModel, later: ResultModel)
    ensures
        ({
            let (preview1, request1) = loading(p, results);
            let (preview2, request2) = loading(preview1, later);
            &&& request1 matches Some(r) ==> r.epoch == preview1.epoch && r.epoch
                != preview2.epoch
            &&& request2 matches Some(r) ==> r.epoch == preview2.epoch
            &&& request2 is Some <==> preview2.loading
        }),
{
}

/// After results came in, only paths among them are marked, and marks on these stay.
pub proof fn law_marks_stay_on_results(
    p: PickerModel,
    items: Seq<search::ItemModel>,
    total_files: usize,
    total_matched: usize,
    path: Seq<char>,
)
    requires
        p.wf(),
    ensures
        ({
            let after = applied(p, p.search.epoch, items, total_files, total_matched).0;
            &&& after.wf()
            &&& after.results.marked.contains(path) <==> p.results.marked.contains(path)
                && has_path(items, path)
        }),
{
    order::lemma_filter_ordered(p.results.marked, paths_in(items), true);
}

/// Marking a row and marking it again changes nothing but how the path of a mark is written.
pub proof fn law_mark_twice(marked: Seq<Seq<char>>, path: Seq<char>)
    requires
        order::is_ordered(marked, true),
    ensures
        marked.contains(path) || !order::holds(marked, path, true) ==> toggled(
            toggled(marked, path),
            path,
        ) == marked,
        order::holds(marked, path, true) ==> toggled(toggled(marked, path), path) == marked.update(
            order::place_of(marked, path, true),
            path,
        ),
        order::holds(toggled(marked, path), path, true) <==> !order::holds(marked, path, true),
{
    order::law_toggle_twice(marked, path, true);
    order::lemma_with_text(marked, path, true);
    assert(order::alike(path, path, true)) by {
        reveal(order::alike);
    }
    if marked.contains(path) {
        let k = choose|k: int| 0 <= k < marked.len() && marked[k] == path;
        assert(order::alike(marked[k], path, true));
    }
}

/// Marking all marks the paths of all results, and nothing else.
pub proof fn law_mark_all(items: Seq<search::ItemModel>)
    ensures
        order::is_ordered(all_marked(items), true),
        forall|path: Seq<char>| #[trigger]
            order::holds(all_marked(items), path, true) <==> has_path(items, path),
    decreases items.len(),
{
    if items.len() > 0 {
        let front = items.drop_last();
        let last = items.last().absolute_path;
        law_mark_all(front);
        order::lemma_with_text(all_marked(front), last, true);
        assert forall|path: Seq<char>| #[trigger]
            order::holds(all_marked(items), path, true) <==> has_path(items, path) by {
            reveal(order::alike);
            search::lemma_path_index(items, path);
            search::lemma_path_index(front, path);
            let k = search::path_index(items, path);
            let j = search::path_index(front, path);
            assert(order::holds(all_marked(items), path, true) <==> has_path(front, path)
                || components::same_path(last, path));
            if j < front.len() {
                assert(items[j] == front[j]);
            } else if k < front.len() {
                assert(items[k] == front[k]);
            }
        }
    }
}

/// The grep modes come round after three steps.
pub proof fn law_modes_come_round(mode: GrepMode)
    ensures
        next_mode(next_mode(next_mode(mode))) == mode,
        next_mode(mode) != mode,
        next_mode(next_mode(mode)) != mode,
{
}

/// The list is shown upside down: turning a row twice gives it back, and the best result is at the
/// bottom. A row that is not there counts as the first.
pub proof fn law_list_is_upside_down(n: int, i: int)
    requires
        0 <= i,
    ensures
        i < n ==> 0 <= visual(n, i) < n,
        i < n ==> visual(n, visual(n, i)) == i,
        n > 0 ==> visual(n, 0) == n - 1,
        i >= n ==> visual(n, i) == 0,
{
}

/// Moving the cursor up and down again leaves it where it was, on the same results.
pub proof fn law_up_and_down(p: PickerModel)
    requires
        p.wf(),
        p.results.selected + 1 < p.results.items.len() <= usize::MAX,
    ensures
        ({
            let up = move_to(p, (p.results.selected + 1) as usize).0;
            let down = move_to(up, (up.results.selected - 1) as usize).0;
            down.results == p.results && down.search == p.search && down.shell == p.shell
        }),
{
}

/// The first line is the smallest of the line numbers.
pub proof fn law_first_line(lines: Seq<search::MatchModel>)
    ensures
        first_line(lines) is None <==> lines.len() == 0,
        first_line(lines) matches Some(n) ==> {
            &&& forall|i: int| 0 <= i < lines.len() ==> n <= (#[trigger] lines[i]).line_number
            &&& exists|i: int| 0 <= i < lines.len() && (#[trigger] lines[i]).line_number == n
        },
    decreases lines.len(),
{
    if lines.len() > 0 {
        let front = lines.drop_last();
        law_first_line(front);
        let n = first_line(lines)->0;
        assert forall|i: int| 0 <= i < lines.len() implies n <= (
        #[trigger] lines[i]).line_number by {
            if i < front.len() {
                assert(front[i] == lines[i]);
            }
        }
        if n == lines.last().line_number {
            assert(lines[lines.len() - 1].line_number == n);
        } else {
            let i = choose|i: int|
                0 <= i < front.len() && (#[trigger] front[i]).line_number == n;
            assert(lines[i].line_number == n);
        }
    }
}

/// A changed query is searched for in the view and the mode that are on, under a number of its own,
/// once the files are known. It takes the marks away and scrolls the preview back; the results stay
/// until new ones come. The same query again changes nothing.
pub proof fn law_typing_searches(p: PickerModel, query: Seq<char>)
    ensures
        ({
            let (after, request) = edited(p, query);
            &&& query == p.search.query ==> after == p && request is None
            &&& query != p.search.query ==> {
                &&& after.search.query == query
                &&& after.search.view == p.search.view
                &&& after.search.grep_mode == p.search.grep_mode
                &&& after.results.marked.len() == 0
                &&& after.results.items == p.results.items
                &&& after.results.selected == p.results.selected
                &&& after.preview.scroll_row == 0
                &&& after.preview.lines == p.preview.lines
                &&& after.shell.status_message is None
                &&& after.results.total_files == p.results.total_files
                &&& after.results.total_matched == p.results.total_matched
                &&& after.preview.epoch == p.preview.epoch
                &&& after.preview.loading == p.preview.loading
                &&& after.preview.start_line == p.preview.start_line
                &&& after.search.scan_done == p.search.scan_done
                &&& after.shell.base_path == p.shell.base_path
                &&& after.shell.awaits_answer == p.shell.awaits_answer
                &&& after.shell.indexed_count == p.shell.indexed_count
                &&& after.shell.theme_version == p.shell.theme_version
                &&& !p.search.scan_done ==> after.search.epoch == p.search.epoch
                    && after.search.in_flight == p.search.in_flight
                &&& request is Some <==> p.search.scan_done
                &&& request matches Some(r) ==> {
                    &&& r.query == query
                    &&& r.view == p.search.view
                    &&& r.grep_mode == p.search.grep_mode
                    &&& r.epoch == after.search.epoch
                    &&& r.epoch != p.search.epoch
                    &&& r.abort_previous == p.search.in_flight
                    &&& after.search.in_flight
                }
            }
        }),
{
}

/// The results of the last search are shown as they came, with the cursor on the first of them,
/// which is previewed. Nothing else changes but the marks and where the preview is scrolled to.
pub proof fn law_results_are_shown(
    p: PickerModel,
    items: Seq<search::ItemModel>,
    total_files: usize,
    total_matched: usize,
)
    ensures
        ({
            let (after, request) = applied(p, p.search.epoch, items, total_files, total_matched);
            &&& after.results.items == items
            &&& after.results.total_files == total_files
            &&& after.results.total_matched == total_matched
            &&& after.results.selected == 0
            &&& !after.search.in_flight
            &&& after.search.query == p.search.query
            &&& after.search.view == p.search.view
            &&& after.search.grep_mode == p.search.grep_mode
            &&& after.search.epoch == p.search.epoch
            &&& after.search.scan_done == p.search.scan_done
            &&& after.shell == p.shell
            &&& after.preview.scroll_row == 0
            &&& after.preview.epoch != p.preview.epoch
            &&& !after.preview.loading_visible
            &&& items.len() == 0 ==> request is None && after.preview.lines.len() == 0
            &&& items.len() > 0 ==> after.preview.loading && (request matches Some(r) && r.path
                == items[0].absolute_path && r.grep_matches == items[0].grep_matches && r.epoch
                == after.preview.epoch)
        }),
{
}

/// Another view or mode starts with an empty list and an empty preview; the query stays.
pub proof fn law_switching_clears(p: PickerModel, view: SearchView, grep_mode: GrepMode)
    ensures
        ({
            let after = switched(p, view, grep_mode);
            &&& after.search.view == view
            &&& after.search.grep_mode == grep_mode
            &&& after.search.query == p.search.query
            &&& after.search.scan_done == p.search.scan_done
            &&& after.search.epoch == p.search.epoch
            &&& after.search.in_flight == p.search.in_flight
            &&& after.results.items.len() == 0
            &&& after.results.marked.len() == 0
            &&& after.results.selected == 0
            &&& after.results.total_files == 0
            &&& after.results.total_matched == 0
            &&& after.preview.lines.len() == 0
            &&& !after.preview.loading
            &&& !after.preview.loading_visible
            &&& after.preview.epoch == p.preview.epoch
            &&& after.preview.scroll_row == p.preview.scroll_row
            &&& after.preview.start_line == p.preview.start_line
            &&& after.shell.status_message is None
            &&& after.shell.indexed_count == p.shell.indexed_count
            &&& after.shell.theme_version == p.shell.theme_version
            &&& after.shell.base_path == p.shell.base_path
            &&& after.shell.awaits_answer == p.shell.awaits_answer
        }),
{
}

/// The cursor goes to the row that was asked for, that row comes into sight, and its file is
/// previewed with its own found lines from the first of them on. The results and the marks stay.
pub proof fn law_cursor_shows_its_file(p: PickerModel, row: usize)
    requires
        row < p.results.items.len(),
    ensures
        ({
            let (after, moved) = move_to(p, row);
            let item = p.results.items[row as int];
            &&& after.results.selected == row
            &&& after.results.items == p.results.items
            &&& after.results.marked == p.results.marked
            &&& after.search == p.search
            &&& after.shell == p.shell
            &&& moved matches Some((scroll_to, request)) && scroll_to + row
                == p.results.items.len() - 1 && (request matches Some(r) && r.path
                == item.absolute_path && r.grep_matches == item.grep_matches && r.epoch
                == after.preview.epoch && (r.first_match_line is Some <==> item.grep_matches.len()
                > 0) && (r.first_match_line matches Some(line) ==> forall|i: int|
                0 <= i < item.grep_matches.len() ==> line <= (
                #[trigger] item.grep_matches[i]).line_number))
        }),
{
    law_first_line(p.results.items[row as int].grep_matches);
}

/// Shift and tab go from plain text over regular expressions to fuzzy searches.
pub proof fn law_order_of_modes()
    ensures
        next_mode(GrepMode::PlainText) == GrepMode::Regex,
        next_mode(GrepMode::Regex) == GrepMode::Fuzzy,
        next_mode(GrepMode::Fuzzy) == GrepMode::PlainText,
{
}

/// The row of the first match, counted from the first line that is shown, is the match's line.
pub proof fn law_preview_scrolls_to_match(start_line: usize, line: usize)
    ensures
        line >= start_line ==> match_row(start_line, Some(line)) + start_line == line,
        line < start_line ==> match_row(start_line, Some(line)) == 0,
        match_row(start_line, None) == 0,
{
}

/// Laying found lines over a preview changes no character of it: each row keeps its text where the
/// ranges of the found lines for it begin and end between characters.
pub proof fn law_marking_keeps_text(
    lines: Seq<Seq<preview::SpanModel>>,
    start_line: int,
    found: Seq<search::MatchModel>,
    color: u32,
    bg: u32,
)
    requires
        forall|i: int, row: int|
            0 <= i < found.len() && 0 <= row < lines.len() ==> overlay::aligned(
                preview::line_text(#[trigger] lines[row]),
                0,
                (#[trigger] found[i]).byte_ranges,
            ),
    ensures
        marked_lines(lines, start_line, found, color, bg).len() == lines.len(),
        forall|row: int|
            0 <= row < lines.len() ==> preview::line_text(
                #[trigger] marked_lines(lines, start_line, found, color, bg)[row],
            ) == preview::line_text(lines[row]),
    decreases found.len(),
{
    if found.len() > 0 {
        let front = found.drop_last();
        let n = found.len() - 1;
        assert forall|i: int, row: int|
            0 <= i < front.len() && 0 <= row < lines.len() implies overlay::aligned(
            preview::line_text(#[trigger] lines[row]),
            0,
            (#[trigger] front[i]).byte_ranges,
        ) by {
            assert(front[i] == found[i]);
        }
        law_marking_keeps_text(lines, start_line, front, color, bg);
        let earlier = marked_lines(lines, start_line, front, color, bg);
        let after = marked_lines(lines, start_line, found, color, bg);
        assert forall|row: int| 0 <= row < lines.len() implies preview::line_text(
            #[trigger] after[row],
        ) == preview::line_text(lines[row]) by {
            assert(preview::line_text(earlier[row]) == preview::line_text(lines[row]));
            assert(overlay::aligned(preview::line_text(lines[row]), 0, found[n].byte_ranges));
            overlay::lemma_overlay_text(earlier[row], found[n].byte_ranges, color, Some(bg));
        }
    }
}

/// A path is among the results where one of them leads to the same place.
pub proof fn law_paths_among_results(items: Seq<search::ItemModel>, path: Seq<char>)
    ensures
        has_path(items, path) <==> exists|i: int|
            0 <= i < items.len() && components::same_path(
                (#[trigger] items[i]).absolute_path,
                path,
            ),
    decreases items.len(),
{
    if items.len() > 0 {
        let rest = items.drop_first();
        law_paths_among_results(rest, path);
        if components::same_path(items[0].absolute_path, path) {
            assert(has_path(items, path));
        } else {
            if has_path(rest, path) {
                let i = choose|i: int|
                    0 <= i < rest.len() && components::same_path(
                        (#[trigger] rest[i]).absolute_path,
                        path,
                    );
                assert(items[i + 1] == rest[i]);
            }
            if exists|i: int|
                0 <= i < items.len() && components::same_path(
                    (#[trigger] items[i]).absolute_path,
                    path,
                ) {
                let i = choose|i: int|
                    0 <= i < items.len() && components::same_path(
                        (#[trigger] items[i]).absolute_path,
                        path,
                    );
                assert(rest[i - 1] == items[i]);
            }
        }
    }
}

/// Where the cursor is on no result the preview is empty and starts again at the first line. Where
/// it is on one, what was shown before stays until the preview of that one is there.
pub proof fn law_preview_follows_the_cursor(p: PreviewModel, results: ResultModel)
    ensures
        ({
            let (after, request) = loading(p, results);
            &&& !after.loading_visible
            &&& results.selected >= results.items.len() ==> {
                &&& request is None
                &&& !after.loading
                &&& after.lines.len() == 0
                &&& after.scroll_row == 0
                &&& after.start_line == 1
            }
            &&& results.selected < results.items.len() ==> {
                &&& request is Some
                &&& after.loading
                &&& after.lines == p.lines
                &&& after.scroll_row == p.scroll_row
                &&& after.start_line == p.start_line
            }
        }),
{
}

} // verus!
