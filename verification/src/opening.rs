//! Opening what was picked: which files, where in them, and what is recorded of it.

use vstd::prelude::*;

use crate::components;
use crate::order;
use crate::picker::{FffPicker, PickerModel, ResultModel, SearchView, ShellModel};
use crate::search;
use crate::service::PickEntry;
use crate::text;
use crate::text::decimal_of;

verus! {

/// The paths to open: the marked ones, or else that of the selected row.
pub open spec fn open_paths(results: ResultModel) -> Seq<Seq<char>> {
    if results.marked.len() > 0 {
        results.marked
    } else if results.selected < results.items.len() {
        seq![results.items[results.selected as int].absolute_path]
    } else {
        Seq::empty()
    }
}

/// A file to open, and where to go in it.
pub struct EntryModel {
    pub path: Seq<char>,
    pub line: Option<int>,
    pub column: Option<int>,
}

/// The entry for a path: the line and the column of its first match, or neither.
pub open spec fn entry_model(items: Seq<search::ItemModel>, path: Seq<char>) -> EntryModel {
    match search::goto(items, path) {
        Some((line, column)) => EntryModel { path, line: Some(line), column: Some(column) },
        None => EntryModel { path, line: None, column: None },
    }
}

pub open spec fn number_view(o: Option<usize>) -> Option<int> {
    match o {
        Some(n) => Some(n as int),
        None => None,
    }
}

pub open spec fn entries_view(v: Seq<PickEntry>) -> Seq<EntryModel> {
    v.map_values(
        |e: PickEntry|
            EntryModel {
                path: e.path@,
                line: number_view(e.line),
                column: number_view(e.column),
            },
    )
}

/// What is to be recorded when files are opened.
#[derive(Debug, PartialEq, Eq)]
pub enum TrackStep {
    /// The query of a content search was of use.
    GrepQuery,
    /// The query led to this path.
    QueryCompletion(String),
    /// This path was opened.
    Access(String),
}

pub enum TrackModel {
    GrepQuery,
    QueryCompletion(Seq<char>),
    Access(Seq<char>),
}

pub open spec fn track_view(v: Seq<TrackStep>) -> Seq<TrackModel> {
    v.map_values(
        |s: TrackStep|
            match s {
                TrackStep::GrepQuery => TrackModel::GrepQuery,
                TrackStep::QueryCompletion(p) => TrackModel::QueryCompletion(p@),
                TrackStep::Access(p) => TrackModel::Access(p@),
            },
    )
}

/// What is to be recorded: the query of a content search once, that of a file search for each
/// path, and each path.
pub open spec fn track_steps(view: SearchView, paths: Seq<Seq<char>>) -> Seq<TrackModel>
    decreases paths.len(),
{
    if paths.len() == 0 {
        if view is Grep {
            seq![TrackModel::GrepQuery]
        } else {
            Seq::empty()
        }
    } else {
        let earlier = track_steps(view, paths.drop_last());
        let path = paths.last();
        if view is Files {
            earlier.push(TrackModel::QueryCompletion(path)).push(TrackModel::Access(path))
        } else {
            earlier.push(TrackModel::Access(path))
        }
    }
}

/// The state once a client that waited has its answer.
pub open spec fn answered(p: PickerModel) -> PickerModel {
    PickerModel { shell: ShellModel { awaits_answer: false, ..p.shell }, ..p }
}

/// What opening comes to.
#[derive(Debug)]
pub enum OpenPlan {
    /// There is nothing to open.
    Nothing,
    /// Send these to the client that waits, and close the window.
    Answer(Vec<PickEntry>),
    /// Open these in the editor.
    Edit(Vec<PickEntry>),
}

impl FffPicker {
    fn paths_to_open(&self) -> (r: Vec<String>)
        ensures
            text::texts(r@) == open_paths(self@.results),
    {
        let mut r: Vec<String> = Vec::new();
        let ghost marked = text::texts(self.selected_paths@);
        let mut i: usize = 0;
        assert(text::texts(r@) =~= marked.take(0));
        while i < self.selected_paths.len()
            invariant
                i <= self.selected_paths.len(),
                marked == text::texts(self.selected_paths@),
                text::texts(r@) =~= marked.take(i as int),
            decreases self.selected_paths.len() - i,
        {
            let ghost before = text::texts(r@);
            let path = self.selected_paths[i].clone();
            r.push(path);
            assert(text::texts(r@) =~= before.push(path@));
            i += 1;
        }
        assert(marked.take(i as int) =~= marked);
        if r.len() == 0 && self.selected < self.results.len() {
            let path = self.results[self.selected].absolute_path.clone();
            assert(path@ == self@.results.items[self.selected as int].absolute_path);
            r.push(path);
            assert(text::texts(r@) =~= seq![path@]);
        }
        assert(marked.len() == 0 && self.selected >= self.results.len() ==> text::texts(r@)
            =~= Seq::empty());
        r
    }

    /// What is to be recorded when the files to open are opened.
    pub fn track_open(&self) -> (r: Vec<TrackStep>)
        ensures
            track_view(r@) == (if open_paths(self@.results).len() == 0 {
                Seq::empty()
            } else {
                track_steps(self@.search.view, open_paths(self@.results))
            }),
    {
        let paths = self.paths_to_open();
        let ghost all = text::texts(paths@);
        let mut r: Vec<TrackStep> = Vec::new();
        assert(track_view(r@) =~= Seq::empty());
        if paths.len() == 0 {
            return r;
        }
        let files = match self.view {
            SearchView::Files => true,
            SearchView::Grep => false,
        };
        if !files {
            r.push(TrackStep::GrepQuery);
            assert(track_view(r@) =~= seq![TrackModel::GrepQuery]);
        }
        let mut i: usize = 0;
        assert(all.take(0) =~= Seq::empty());
        while i < paths.len()
            invariant
                i <= paths.len(),
                all == text::texts(paths@),
                files == (self.view is Files),
                track_view(r@) == track_steps(self.view, all.take(i as int)),
            decreases paths.len() - i,
        {
            let ghost before = track_view(r@);
            assert(all.take(i + 1).drop_last() =~= all.take(i as int));
            assert(all.take(i + 1).last() == paths@[i as int]@);
            let path = paths[i].clone();
            if files {
                let copy = paths[i].clone();
                r.push(TrackStep::QueryCompletion(copy));
                assert(track_view(r@) =~= before.push(TrackModel::QueryCompletion(path@)));
            }
            let ghost middle = track_view(r@);
            r.push(TrackStep::Access(path));
            assert(track_view(r@) =~= middle.push(TrackModel::Access(path@)));
            i += 1;
        }
        assert(all.take(i as int) =~= all);
        r
    }

    /// Opens the marked files, or else the selected one. A client that waits gets its answer here,
    /// and waits no longer.
    pub fn on_open_selected(&mut self) -> (r: OpenPlan)
        ensures
            ({
                let paths = open_paths(old(self)@.results);
                let entries = paths.map_values(
                    |path: Seq<char>| entry_model(old(self)@.results.items, path),
                );
                &&& r is Nothing <==> paths.len() == 0
                &&& r is Answer <==> paths.len() > 0 && old(self)@.shell.awaits_answer
                &&& r matches OpenPlan::Answer(v) ==> entries_view(v@) == entries
                &&& r matches OpenPlan::Edit(v) ==> entries_view(v@) == entries
                &&& final(self)@ == (if paths.len() == 0 {
                    old(self)@
                } else {
                    answered(old(self)@)
                })
            }),
    {
        let paths = self.paths_to_open();
        let ghost all = text::texts(paths@);
        let ghost items = self@.results.items;
        let ghost entry = |path: Seq<char>| entry_model(items, path);
        if paths.len() == 0 {
            assert(all.len() == 0);
            return OpenPlan::Nothing;
        }
        let mut entries: Vec<PickEntry> = Vec::new();
        let mut i: usize = 0;
        while i < paths.len()
            invariant
                i <= paths.len(),
                *self == *old(self),
                all == text::texts(paths@),
                items == search::items_view(self.results@),
                entry == (|path: Seq<char>| entry_model(items, path)),
                entries_view(entries@) =~= all.take(i as int).map_values(entry),
            decreases paths.len() - i,
        {
            let ghost before = entries_view(entries@);
            let goto = search::goto_for_path(&self.results, paths[i].as_str());
            let (line, column) = match goto {
                Some((line, column)) => (Some(line), Some(column)),
                None => (None, None),
            };
            entries.push(PickEntry { path: paths[i].clone(), line, column });
            assert(entries_view(entries@) =~= before.push(entry(all[i as int])));
            i += 1;
        }
        assert(all.take(i as int) =~= all);
        if self.awaits_answer {
            self.awaits_answer = false;
            OpenPlan::Answer(entries)
        } else {
            OpenPlan::Edit(entries)
        }
    }

    /// Closes the picker without a choice. The result tells whether a client is to be sent an
    /// empty answer.
    pub fn dismiss(&mut self) -> (r: bool)
        ensures
            r == old(self)@.shell.awaits_answer,
            final(self)@ == answered(old(self)@),
    {
        let waiting = self.awaits_answer;
        self.awaits_answer = false;
        waiting
    }

    /// Notes what became of opening files in the editor: how many were opened, and the last error.
    /// The result tells whether the window closes.
    pub fn finish_open(
        &mut self,
        entries: &Vec<PickEntry>,
        opened: usize,
        last_error: Option<&str>,
        log_path: &str,
    ) -> (r: bool)
        ensures
            r == (opened > 0),
            final(self)@ == (PickerModel {
                shell: ShellModel {
                    status_message: open_message(
                        entries_view(entries@),
                        opened,
                        last_error,
                        log_path@,
                        old(self)@.shell.status_message,
                    ),
                    ..old(self)@.shell
                },
                ..old(self)@
            }),
    {
        if opened > 0 {
            let mut message = "Opened ".to_owned();
            if entries.len() == 1 {
                assert(entries_view(entries@)[0].path == entries@[0].path@);
                message.append(entries[0].path.as_str());
            } else {
                message.append(decimal_of(opened as u64).as_str());
                message.append(" files");
            }
            self.status_message = Some(message);
            true
        } else {
            if let Some(err) = last_error {
                let mut message = "Open failed: ".to_owned();
                message.append(err);
                message.append("  (log: ");
                message.append(log_path);
                message.append(")");
                self.status_message = Some(message);
            }
            false
        }
    }
}

/// The message after files were opened: the path of a single one, the number of several, or the
/// last error where none was.
pub open spec fn open_message(
    entries: Seq<EntryModel>,
    opened: usize,
    last_error: Option<&str>,
    log_path: Seq<char>,
    before: Option<Seq<char>>,
) -> Option<Seq<char>> {
    if opened > 0 {
        if entries.len() == 1 {
            Some("Opened "@ + entries[0].path)
        } else {
            Some("Opened "@ + text::decimal(opened as nat) + " files"@)
        }
    } else {
        match last_error {
            Some(err) => Some("Open failed: "@ + err@ + "  (log: "@ + log_path + ")"@),
            None => before,
        }
    }
}

/// A file in which something was found is opened at the line of the first match.
pub proof fn law_matches_open_at_their_line(
    items: Seq<search::ItemModel>,
    i: int,
)
    requires
        0 <= i < items.len(),
        items[i].grep_matches.len() > 0,
        forall|j: int|
            0 <= j < items.len() && components::same_path(
                (#[trigger] items[j]).absolute_path,
                items[i].absolute_path,
            ) ==> i == j,
    ensures
        entry_model(items, items[i].absolute_path) == (EntryModel {
            path: items[i].absolute_path,
            line: Some(items[i].grep_matches[0].line_number as int),
            column: Some(search::match_column(items[i].grep_matches[0])),
        }),
{
    search::lemma_path_index(items, items[i].absolute_path);
    let k = search::path_index(items, items[i].absolute_path);
    assert(components::same_path(items[i].absolute_path, items[i].absolute_path));
    if k < items.len() {
        assert(components::same_path(items[k].absolute_path, items[i].absolute_path));
    } else {
        assert(!components::same_path(items[i].absolute_path, items[i].absolute_path));
    }
}

/// A client is answered once: after an answer there is nothing left to send when the picker goes.
pub proof fn law_client_is_answered_once(p: PickerModel)
    ensures
        !answered(p).shell.awaits_answer,
        answered(answered(p)) == answered(p),
        answered(p).results == p.results,
        answered(p).preview == p.preview,
        answered(p).search == p.search,
        answered(p).shell.base_path == p.shell.base_path,
        answered(p).shell.status_message == p.shell.status_message,
        answered(p).shell.indexed_count == p.shell.indexed_count,
        answered(p).shell.theme_version == p.shell.theme_version,
{
}

/// The files to open are the marked ones if any is marked, each once and in the order of paths.
pub proof fn law_opened_files(p: PickerModel)
    requires
        p.wf(),
    ensures
        order::is_ordered(open_paths(p.results), true),
        p.results.marked.len() > 0 ==> open_paths(p.results) == p.results.marked,
        p.results.marked.len() == 0 && p.results.items.len() > 0 ==> open_paths(p.results)
            == seq![p.results.items[p.results.selected as int].absolute_path],
        p.results.marked.len() == 0 && p.results.items.len() == 0 ==> open_paths(p.results).len()
            == 0,
{
}

/// Each file that is opened is tracked, once and in its turn. From a search for files its name is
/// recorded for the query first; from a search of contents the query is recorded once, before all.
pub proof fn law_opened_files_are_tracked(paths: Seq<Seq<char>>, i: int)
    requires
        0 <= i < paths.len(),
    ensures
        ({
            let steps = track_steps(SearchView::Files, paths);
            &&& steps.len() == 2 * paths.len()
            &&& steps[2 * i] == TrackModel::QueryCompletion(paths[i])
            &&& steps[2 * i + 1] == TrackModel::Access(paths[i])
        }),
        ({
            let steps = track_steps(SearchView::Grep, paths);
            &&& steps.len() == paths.len() + 1
            &&& steps[0] == TrackModel::GrepQuery
            &&& steps[i + 1] == TrackModel::Access(paths[i])
        }),
    decreases paths.len(),
{
    let front = paths.drop_last();
    if i < front.len() {
        law_opened_files_are_tracked(front, i);
        assert(front[i] == paths[i]);
    } else if front.len() > 0 {
        law_opened_files_are_tracked(front, 0);
    } else {
        assert(track_steps(SearchView::Files, front) =~= Seq::empty());
        assert(track_steps(SearchView::Grep, front) =~= seq![TrackModel::GrepQuery]);
    }
    assert(paths.last() == paths[paths.len() - 1]);
}

/// The message after opening: the one file that was opened, or how many there were, or why it
/// failed and where the log is. Where nothing was tried the message stays.
pub proof fn law_open_message(
    entries: Seq<EntryModel>,
    opened: usize,
    err: &str,
    log_path: Seq<char>,
    before: Option<Seq<char>>,
)
    ensures
        opened > 0 && entries.len() == 1 ==> (open_message(
            entries,
            opened,
            Some(err),
            log_path,
            before,
        ) matches Some(m) && m.len() == 7 + entries[0].path.len() && entries[0].path.is_suffix_of(
            m,
        ) && "Opened "@.is_prefix_of(m)),
        opened > 0 && entries.len() != 1 ==> (open_message(
            entries,
            opened,
            Some(err),
            log_path,
            before,
        ) matches Some(m) && m.len() > 13 && text::number_of(m.subrange(7, m.len() - 6))
            == opened && "Opened "@.is_prefix_of(m) && " files"@.is_suffix_of(m)),
        opened > 0 ==> open_message(entries, opened, None, log_path, before) == open_message(
            entries,
            opened,
            Some(err),
            log_path,
            before,
        ),
        opened == 0 ==> (open_message(entries, opened, Some(err), log_path, before) matches Some(m)
            && m.len() == 22 + err@.len() + log_path.len() && m.subrange(13, 13 + err@.len() as int)
            == err@ && m.subrange(m.len() - 1 - log_path.len(), m.len() - 1) == log_path),
        opened == 0 ==> open_message(entries, opened, None, log_path, before) == before,
{
    reveal_strlit("Opened ");
    reveal_strlit(" files");
    reveal_strlit("Open failed: ");
    reveal_strlit("  (log: ");
    reveal_strlit(")");
    let opening = "Opened "@;
    if opened > 0 && entries.len() == 1 {
        let m = opening + entries[0].path;
        assert(m.subrange(0, 7) =~= opening);
        assert(m.subrange(m.len() - entries[0].path.len(), m.len() as int) =~= entries[0].path);
    } else if opened > 0 {
        let n = text::decimal(opened as nat);
        let m = opening + n + " files"@;
        text::law_decimal_reads_back(opened as nat);
        assert(m.subrange(7, m.len() - 6) =~= n);
        assert(m.subrange(0, 7) =~= opening);
        assert(m.subrange(m.len() - 6, m.len() as int) =~= " files"@);
    } else {
        let (x, y) = ("Open failed: "@, "  (log: "@);
        let m = x + err@ + y + log_path + ")"@;
        assert(m.subrange(13, 13 + err@.len() as int) =~= err@);
        assert(m.subrange(m.len() - 1 - log_path.len(), m.len() - 1) =~= log_path);
    }
}

/// A file that was not found by its contents is opened without a line.
pub proof fn law_other_files_open_at_their_start(items: Seq<search::ItemModel>, path: Seq<char>)
    requires
        forall|j: int|
            0 <= j < items.len() && components::same_path(
                (#[trigger] items[j]).absolute_path,
                path,
            ) ==> items[j].grep_matches.len() == 0,
    ensures
        entry_model(items, path) == (EntryModel { path, line: None, column: None }),
{
    search::lemma_path_index(items, path);
}

/// What the models hold of entries and steps is theirs, one for one and in their order.
pub proof fn law_entries_are_faithful(entries: Seq<PickEntry>, steps: Seq<TrackStep>, i: int)
    ensures
        entries_view(entries).len() == entries.len(),
        0 <= i < entries.len() ==> {
            let entry = entries_view(entries)[i];
            &&& entry.path == entries[i].path@
            &&& entry.line is Some <==> entries[i].line is Some
            &&& entries[i].line matches Some(n) ==> entry.line == Some(n as int)
            &&& entry.column is Some <==> entries[i].column is Some
            &&& entries[i].column matches Some(n) ==> entry.column == Some(n as int)
        },
        track_view(steps).len() == steps.len(),
        0 <= i < steps.len() ==> match steps[i] {
            TrackStep::GrepQuery => track_view(steps)[i] is GrepQuery,
            TrackStep::QueryCompletion(p) => track_view(steps)[i] == TrackModel::QueryCompletion(
                p@,
            ),
            TrackStep::Access(p) => track_view(steps)[i] == TrackModel::Access(p@),
        },
{
}

} // verus!
