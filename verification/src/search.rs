//! The results of a search: files by name, or files with the lines in which something was found.

use vstd::prelude::*;

use crate::components;
use crate::components::is_same_path;
use crate::matching;
use crate::matching::find_match_ranges;
use crate::path_shortening;
use crate::path_shortening::PathShortenStrategy;
use crate::query::GrepMode;
use crate::text;
use crate::text::{byte_count, chars_of, floor_index_of, same, slice_text, trim_bounds};

verus! {

/// The most results that a search hands out.
pub const PAGE_LIMIT: usize = 200;

/// The most lines that a content search finds in one file.
pub const MAX_MATCHES_PER_FILE: usize = 5;

/// The time that a content search may take, in milliseconds.
pub const GREP_TIME_BUDGET_MS: u64 = 150;

/// A line of a file in which something was found, with the byte ranges of the matches in it.
#[derive(Debug)]
pub struct GrepMatchLine {
    pub line_number: usize,
    pub line_content: String,
    pub byte_ranges: Vec<(u32, u32)>,
}

pub struct MatchModel {
    pub line_number: usize,
    pub line_content: Seq<char>,
    pub byte_ranges: Seq<(u32, u32)>,
}

impl View for GrepMatchLine {
    type V = MatchModel;

    open spec fn view(&self) -> MatchModel {
        MatchModel {
            line_number: self.line_number,
            line_content: self.line_content@,
            byte_ranges: self.byte_ranges@,
        }
    }
}

pub open spec fn matches_view(v: Seq<GrepMatchLine>) -> Seq<MatchModel> {
    v.map_values(|m: GrepMatchLine| m@)
}

fn copy_ranges(v: &Vec<(u32, u32)>) -> (r: Vec<(u32, u32)>)
    ensures
        r@ == v@,
{
    let mut r: Vec<(u32, u32)> = Vec::new();
    let mut i: usize = 0;
    while i < v.len()
        invariant
            i <= v.len(),
            r@ =~= v@.take(i as int),
        decreases v.len() - i,
    {
        r.push(v[i]);
        i += 1;
    }
    assert(v@.take(i as int) =~= v@);
    r
}

impl Clone for GrepMatchLine {
    fn clone(&self) -> (r: Self)
        ensures
            r@ == self@,
    {
        GrepMatchLine {
            line_number: self.line_number,
            line_content: self.line_content.clone(),
            byte_ranges: copy_ranges(&self.byte_ranges),
        }
    }
}

/// A file in the results, with what is shown of it.
#[derive(Debug)]
pub struct FileItemSnapshot {
    pub file_name: String,
    pub dir: String,
    pub absolute_path: String,
    pub git_status: Option<String>,
    pub frecency_score: i16,
    pub match_ranges: Vec<(usize, usize)>,
    pub grep_matches: Vec<GrepMatchLine>,
}

pub struct ItemModel {
    pub file_name: Seq<char>,
    pub dir: Seq<char>,
    pub absolute_path: Seq<char>,
    pub git_status: Option<Seq<char>>,
    pub frecency_score: i16,
    pub match_ranges: Seq<(int, int)>,
    pub grep_matches: Seq<MatchModel>,
}

impl View for FileItemSnapshot {
    type V = ItemModel;

    open spec fn view(&self) -> ItemModel {
        ItemModel {
            file_name: self.file_name@,
            dir: self.dir@,
            absolute_path: self.absolute_path@,
            git_status: text::opt_text(self.git_status),
            frecency_score: self.frecency_score,
            match_ranges: matching::ranges_view(self.match_ranges@),
            grep_matches: matches_view(self.grep_matches@),
        }
    }
}

pub open spec fn items_view(v: Seq<FileItemSnapshot>) -> Seq<ItemModel> {
    v.map_values(|item: FileItemSnapshot| item@)
}

/// A file that the index found. The status is that of Git, as the bits of `git2::Status`.
#[derive(Debug)]
pub struct FoundFile {
    pub file_name: String,
    pub dir: String,
    pub absolute_path: String,
    pub git_status: Option<u32>,
    pub frecency_score: i16,
    pub binary: bool,
}

pub struct FoundModel {
    pub file_name: Seq<char>,
    pub dir: Seq<char>,
    pub absolute_path: Seq<char>,
    pub git_status: Option<u32>,
    pub frecency_score: i16,
    pub binary: bool,
}

impl View for FoundFile {
    type V = FoundModel;

    open spec fn view(&self) -> FoundModel {
        FoundModel {
            file_name: self.file_name@,
            dir: self.dir@,
            absolute_path: self.absolute_path@,
            git_status: self.git_status,
            frecency_score: self.frecency_score,
            binary: self.binary,
        }
    }
}

pub open spec fn found_view(v: Seq<FoundFile>) -> Seq<FoundModel> {
    v.map_values(|f: FoundFile| f@)
}

/// The status of a file by Git's bits: the first of these that is set names it. A file without a
/// status, or with none of these, is clean.
pub open spec fn status_name(bits: Option<u32>) -> Seq<char> {
    match bits {
        None => "clean"@,
        Some(b) => if b & 0x80 != 0 {
            "untracked"@
        } else if b & 0x100 != 0 {
            "modified"@
        } else if b & 0x200 != 0 {
            "deleted"@
        } else if b & 0x800 != 0 {
            "renamed"@
        } else if b & 0x1 != 0 {
            "staged_new"@
        } else if b & 0x2 != 0 {
            "staged_modified"@
        } else if b & 0x4 != 0 {
            "staged_deleted"@
        } else if b & 0x4000 != 0 {
            "ignored"@
        } else {
            "clean"@
        },
    }
}

pub fn git_status_name(bits: Option<u32>) -> (r: &'static str)
    ensures
        r@ == status_name(bits),
{
    let b = match bits {
        None => return "clean",
        Some(b) => b,
    };
    if b & 0x80 != 0 {
        "untracked"
    } else if b & 0x100 != 0 {
        "modified"
    } else if b & 0x200 != 0 {
        "deleted"
    } else if b & 0x800 != 0 {
        "renamed"
    } else if b & 0x1 != 0 {
        "staged_new"
    } else if b & 0x2 != 0 {
        "staged_modified"
    } else if b & 0x4 != 0 {
        "staged_deleted"
    } else if b & 0x4000 != 0 {
        "ignored"
    } else {
        "clean"
    }
}

/// The colour of the bar at the edge of a row, by the status of its file.
pub open spec fn status_color(status: Option<Seq<char>>) -> Option<u32> {
    match status {
        None => None,
        Some(s) => if s == "modified"@ {
            Some(0xF5A524u32)
        } else if s == "staged_new"@ || s == "staged_modified"@ {
            Some(0x32D583u32)
        } else if s == "staged_deleted"@ || s == "deleted"@ {
            Some(0xF97066u32)
        } else if s == "renamed"@ {
            Some(0x8E8E93u32)
        } else if s == "untracked"@ {
            Some(0xA48EFFu32)
        } else if s == "clean"@ {
            None
        } else {
            Some(0x6C6C70u32)
        },
    }
}

pub fn git_status_bar_color(status: Option<&str>) -> (r: Option<u32>)
    ensures
        r == status_color(text::view_of(status)),
{
    let s = match status {
        None => return None,
        Some(s) => s,
    };
    if same(s, "modified") {
        Some(0xF5A524)
    } else if same(s, "staged_new") || same(s, "staged_modified") {
        Some(0x32D583)
    } else if same(s, "staged_deleted") || same(s, "deleted") {
        Some(0xF97066)
    } else if same(s, "renamed") {
        Some(0x8E8E93)
    } else if same(s, "untracked") {
        Some(0xA48EFF)
    } else if same(s, "clean") {
        None
    } else {
        Some(0x6C6C70)
    }
}

/// A found file as it is shown, with the matches of the query in its name.
pub open spec fn item_of(
    query: Seq<char>,
    file: FoundModel,
    grep_matches: Seq<MatchModel>,
) -> ItemModel {
    ItemModel {
        file_name: file.file_name,
        dir: file.dir,
        absolute_path: file.absolute_path,
        git_status: Some(status_name(file.git_status)),
        frecency_score: file.frecency_score,
        match_ranges: matching::name_ranges(query, file.file_name),
        grep_matches,
    }
}

fn make_item(query: &str, file: &FoundFile, grep_matches: Vec<GrepMatchLine>) -> (r:
    FileItemSnapshot)
    ensures
        r@ == item_of(query@, file@, matches_view(grep_matches@)),
{
    FileItemSnapshot {
        file_name: file.file_name.clone(),
        dir: file.dir.clone(),
        absolute_path: file.absolute_path.clone(),
        git_status: Some(git_status_name(file.git_status).to_owned()),
        frecency_score: file.frecency_score,
        match_ranges: find_match_ranges(query, file.file_name.as_str()),
        grep_matches,
    }
}

/// The items for files that were found by name: all but the binary ones, in their order.
pub open spec fn file_items(query: Seq<char>, found: Seq<FoundModel>) -> Seq<ItemModel>
    decreases found.len(),
{
    if found.len() == 0 {
        Seq::empty()
    } else {
        let earlier = file_items(query, found.drop_last());
        if found.last().binary {
            earlier
        } else {
            earlier.push(item_of(query, found.last(), Seq::empty()))
        }
    }
}

pub fn file_results(query: &str, found: &Vec<FoundFile>) -> (r: Vec<FileItemSnapshot>)
    ensures
        items_view(r@) == file_items(query@, found_view(found@)),
{
    let ghost all = found_view(found@);
    let mut r: Vec<FileItemSnapshot> = Vec::new();
    let mut i: usize = 0;
    assert(all.take(0) =~= Seq::empty());
    assert(items_view(r@) =~= Seq::empty());
    while i < found.len()
        invariant
            i <= found.len(),
            all == found_view(found@),
            items_view(r@) == file_items(query@, all.take(i as int)),
        decreases found.len() - i,
    {
        let ghost before = items_view(r@);
        assert(all.take(i + 1).drop_last() =~= all.take(i as int));
        assert(all.take(i + 1).last() == found@[i as int]@);
        if !found[i].binary {
            let none: Vec<GrepMatchLine> = Vec::new();
            assert(matches_view(none@) =~= Seq::empty());
            let item = make_item(query, &found[i], none);
            r.push(item);
            assert(items_view(r@) =~= before.push(item@));
        }
        i += 1;
    }
    assert(all.take(i as int) =~= all);
    r
}

/// The number of files that are not binary among the first `n`.
pub open spec fn shown_before(found: Seq<FoundModel>, n: int) -> int
    decreases n,
{
    if n <= 0 {
        0
    } else {
        shown_before(found, n - 1) + if found[n - 1].binary {
            0int
        } else {
            1
        }
    }
}

proof fn lemma_file_items(query: Seq<char>, found: Seq<FoundModel>, n: int)
    requires
        0 <= n <= found.len(),
    ensures
        file_items(query, found.take(n)).len() == shown_before(found, n),
        forall|i: int|
            0 <= i < n && !(#[trigger] found[i]).binary ==> 0 <= shown_before(found, i)
                < shown_before(found, n) && file_items(query, found.take(n))[shown_before(found, i)]
                == item_of(query, found[i], Seq::empty()),
    decreases n,
{
    if n > 0 {
        lemma_file_items(query, found, n - 1);
        assert(found.take(n).drop_last() =~= found.take(n - 1));
        assert(found.take(n).last() == found[n - 1]);
        let earlier = file_items(query, found.take(n - 1));
        assert(shown_before(found, n - 1) >= 0);
        assert forall|i: int| 0 <= i < n && !(#[trigger] found[i]).binary implies 0
            <= shown_before(found, i) < shown_before(found, n) && file_items(
            query,
            found.take(n),
        )[shown_before(found, i)] == item_of(query, found[i], Seq::empty()) by {
            if i < n - 1 {
                assert(earlier[shown_before(found, i)] == item_of(query, found[i], Seq::empty()));
            }
        }
    } else {
        assert(found.take(0) =~= Seq::empty());
    }
}

/// A search for files shows those that are not binary, in the order in which they were found: each
/// at the place that the number of such files before it gives, as what was found of it.
pub proof fn law_files_keep_their_rank(query: Seq<char>, found: Seq<FoundModel>, i: int)
    requires
        0 <= i < found.len(),
        !found[i].binary,
    ensures
        ({
            let items = file_items(query, found);
            let rank = shown_before(found, i);
            &&& items.len() == shown_before(found, found.len() as int)
            &&& 0 <= rank < items.len()
            &&& items[rank].file_name == found[i].file_name
            &&& items[rank].dir == found[i].dir
            &&& items[rank].absolute_path == found[i].absolute_path
            &&& items[rank].frecency_score == found[i].frecency_score
            &&& items[rank].git_status == Some(status_name(found[i].git_status))
            &&& items[rank].match_ranges == matching::name_ranges(query, found[i].file_name)
            &&& items[rank].grep_matches.len() == 0
        }),
{
    lemma_file_items(query, found, found.len() as int);
    assert(found.take(found.len() as int) =~= found);
}

/// Of two files that are shown, the one that was found first stands first.
pub proof fn law_ranks_are_in_order(found: Seq<FoundModel>, i: int, j: int)
    requires
        0 <= i < j <= found.len(),
        !found[i].binary,
    ensures
        shown_before(found, i) < shown_before(found, j),
    decreases j,
{
    if i < j - 1 {
        law_ranks_are_in_order(found, i, j - 1);
    }
}

/// A line that a content search found, in the file with an index.
#[derive(Debug)]
pub struct FoundLine {
    pub file_index: usize,
    pub line: GrepMatchLine,
}

pub open spec fn found_lines_view(v: Seq<FoundLine>) -> Seq<(usize, MatchModel)> {
    v.map_values(|l: FoundLine| (l.file_index, l.line@))
}

/// The index of the first item with a path, or the number of items.
pub open spec fn path_index(items: Seq<ItemModel>, path: Seq<char>) -> int
    decreases items.len(),
{
    if items.len() == 0 || components::same_path(items[0].absolute_path, path) {
        0
    } else {
        1 + path_index(items.drop_first(), path)
    }
}

proof fn lemma_path_index_is(items: Seq<ItemModel>, path: Seq<char>, k: int)
    requires
        0 <= k <= items.len(),
        forall|i: int| 0 <= i < k ==> !components::same_path(
            (#[trigger] items[i]).absolute_path,
            path,
        ),
        k < items.len() ==> components::same_path(items[k].absolute_path, path),
    ensures
        path_index(items, path) == k,
    decreases items.len(),
{
    if k > 0 {
        let rest = items.drop_first();
        assert forall|i: int| 0 <= i < k - 1 implies !components::same_path(
            (#[trigger] rest[i]).absolute_path,
            path,
        ) by {
            assert(rest[i] == items[i + 1]);
        }
        lemma_path_index_is(rest, path, k - 1);
    }
}

pub proof fn lemma_path_index(items: Seq<ItemModel>, path: Seq<char>)
    ensures
        0 <= path_index(items, path) <= items.len(),
        path_index(items, path) < items.len() ==> components::same_path(
            items[path_index(items, path)].absolute_path,
            path,
        ),
        forall|i: int|
            0 <= i < path_index(items, path) ==> !components::same_path(
            (#[trigger] items[i]).absolute_path,
            path,
        ),
    decreases items.len(),
{
    if items.len() > 0 && !components::same_path(items[0].absolute_path, path) {
        let rest = items.drop_first();
        lemma_path_index(rest, path);
        assert forall|i: int| 0 <= i < path_index(items, path) implies !components::same_path(
            (#[trigger] items[i]).absolute_path,
            path,
        ) by {
            if i > 0 {
                assert(rest[i - 1] == items[i]);
            }
        }
    }
}

/// The index of the first item with a path.
pub fn find_path(items: &Vec<FileItemSnapshot>, path: &str) -> (r: Option<usize>)
    ensures
        r matches Some(i) ==> i == path_index(items_view(items@), path@) && i < items.len(),
        r is None ==> path_index(items_view(items@), path@) == items.len(),
{
    let ghost all = items_view(items@);
    let mut i: usize = 0;
    while i < items.len()
        invariant
            i <= items.len(),
            all == items_view(items@),
            forall|k: int| 0 <= k < i ==> !components::same_path(
                (#[trigger] all[k]).absolute_path,
                path@,
            ),
        decreases items.len() - i,
    {
        assert(all[i as int] == items@[i as int]@);
        if is_same_path(items[i].absolute_path.as_str(), path) {
            proof {
                lemma_path_index_is(all, path@, i as int);
            }
            return Some(i);
        }
        i += 1;
    }
    proof {
        lemma_path_index_is(all, path@, all.len() as int);
    }
    None
}

/// An item with one more line.
pub open spec fn with_line(item: ItemModel, line: MatchModel) -> ItemModel {
    ItemModel { grep_matches: item.grep_matches.push(line), ..item }
}

/// A found line counts if its file is known and not binary.
pub open spec fn line_counts(files: Seq<FoundModel>, file_index: usize) -> bool {
    file_index < files.len() && !files[file_index as int].binary
}

/// The items for lines that were found: one for each path, in the order in which the paths come
/// up, with its lines in their order.
pub open spec fn grouped(
    query: Seq<char>,
    lines: Seq<(usize, MatchModel)>,
    files: Seq<FoundModel>,
) -> Seq<ItemModel>
    decreases lines.len(),
{
    if lines.len() == 0 {
        Seq::empty()
    } else {
        let earlier = grouped(query, lines.drop_last(), files);
        let (file_index, line) = lines.last();
        if !line_counts(files, file_index) {
            earlier
        } else {
            let file = files[file_index as int];
            let i = path_index(earlier, file.absolute_path);
            if i < earlier.len() {
                earlier.update(i, with_line(earlier[i], line))
            } else {
                earlier.push(item_of(query, file, seq![line]))
            }
        }
    }
}

/// Groups the lines that a content search found by the paths of their files.
pub fn group_matches(query: &str, lines: &Vec<FoundLine>, files: &Vec<FoundFile>) -> (r: Vec<
    FileItemSnapshot,
>)
    ensures
        items_view(r@) == grouped(query@, found_lines_view(lines@), found_view(files@)),
{
    let ghost all = found_lines_view(lines@);
    let ghost known = found_view(files@);
    let mut items: Vec<FileItemSnapshot> = Vec::new();
    let mut i: usize = 0;
    assert(all.take(0) =~= Seq::empty());
    assert(items_view(items@) =~= Seq::empty());
    while i < lines.len()
        invariant
            i <= lines.len(),
            all == found_lines_view(lines@),
            known == found_view(files@),
            items_view(items@) == grouped(query@, all.take(i as int), known),
        decreases lines.len() - i,
    {
        let ghost before = items_view(items@);
        assert(all.take(i + 1).drop_last() =~= all.take(i as int));
        assert(all.take(i + 1).last() == (lines@[i as int].file_index, lines@[i as int].line@));
        let found = &lines[i];
        if found.file_index < files.len() {
            let file = &files[found.file_index];
            assert(known[found.file_index as int] == file@);
            if !file.binary {
                let line = found.line.clone();
                match find_path(&items, file.absolute_path.as_str()) {
                    Some(at) => {
                        proof {
                            lemma_path_index(before, file.absolute_path@);
                        }
                        let mut item = items.remove(at);
                        let ghost old_lines = matches_view(item.grep_matches@);
                        let ghost old_item = item@;
                        assert(old_item == before[at as int]);
                        item.grep_matches.push(line);
                        assert(matches_view(item.grep_matches@) =~= old_lines.push(line@));
                        assert(item@ == with_line(old_item, line@));
                        items.insert(at, item);
                        assert(items_view(items@) =~= before.update(at as int, item@));
                    },
                    None => {
                        let mut first: Vec<GrepMatchLine> = Vec::new();
                        first.push(line);
                        assert(matches_view(first@) =~= seq![line@]);
                        let item = make_item(query, file, first);
                        items.push(item);
                        assert(items_view(items@) =~= before.push(item@));
                    },
                }
            }
        }
        i += 1;
    }
    assert(all.take(i as int) =~= all);
    items
}

/// The lines that were found in the file with a path, in their order.
pub open spec fn lines_of_path(
    lines: Seq<(usize, MatchModel)>,
    files: Seq<FoundModel>,
    path: Seq<char>,
) -> Seq<MatchModel>
    decreases lines.len(),
{
    if lines.len() == 0 {
        Seq::empty()
    } else {
        let earlier = lines_of_path(lines.drop_last(), files, path);
        let (file_index, line) = lines.last();
        if file_index < files.len() && !files[file_index as int].binary && components::same_path(
            files[file_index as int].absolute_path,
            path,
        ) {
            earlier.push(line)
        } else {
            earlier
        }
    }
}

/// Grouping loses no line and adds none: each path has one item, which holds the lines of that
/// path in their order, and the paths with items are those with lines.
pub proof fn law_grouping(
    query: Seq<char>,
    lines: Seq<(usize, MatchModel)>,
    files: Seq<FoundModel>,
)
    ensures
        ({
            let items = grouped(query, lines, files);
            &&& forall|i: int, j: int|
                0 <= i < items.len() && 0 <= j < items.len() && components::same_path(
                    (#[trigger] items[i]).absolute_path,
                    (#[trigger] items[j]).absolute_path,
                ) ==> i == j
            &&& forall|i: int|
                0 <= i < items.len() ==> (#[trigger] items[i]).grep_matches == lines_of_path(
                    lines,
                    files,
                    items[i].absolute_path,
                ) && items[i].grep_matches.len() > 0
            &&& forall|path: Seq<char>|
                #![trigger lines_of_path(lines, files, path)]
                lines_of_path(lines, files, path).len() > 0 <==> path_index(items, path)
                    < items.len()
        }),
    decreases lines.len(),
{
    let items = grouped(query, lines, files);
    if lines.len() > 0 {
        let front = lines.drop_last();
        let earlier = grouped(query, front, files);
        law_grouping(query, front, files);
        let (file_index, line) = lines.last();
        if line_counts(files, file_index) {
            let file = files[file_index as int];
            let at = path_index(earlier, file.absolute_path);
            lemma_path_index(earlier, file.absolute_path);
            if at < earlier.len() {
                assert forall|i: int| 0 <= i < items.len() implies (
                #[trigger] items[i]).absolute_path == earlier[i].absolute_path by {}
                assert forall|path: Seq<char>| path_index(items, path) == #[trigger] path_index(
                    earlier,
                    path,
                ) by {
                    let k = path_index(earlier, path);
                    lemma_path_index(earlier, path);
                    assert forall|i: int| 0 <= i < k implies !components::same_path(
                        (#[trigger] items[i]).absolute_path,
                        path,
                    ) by {
                        assert(!components::same_path(earlier[i].absolute_path, path));
                    }
                    lemma_path_index_is(items, path, k);
                }
                assert forall|i: int| 0 <= i < items.len() implies (
                #[trigger] items[i]).grep_matches == lines_of_path(
                    lines,
                    files,
                    items[i].absolute_path,
                ) && items[i].grep_matches.len() > 0 by {
                    assert(earlier[i].grep_matches == lines_of_path(
                        front,
                        files,
                        earlier[i].absolute_path,
                    ));
                    if i != at && components::same_path(
                        earlier[i].absolute_path,
                        earlier[at].absolute_path,
                    ) {
                        assert(i == at);
                    }
                }
                assert forall|path: Seq<char>|
                    #![trigger lines_of_path(lines, files, path)]
                    lines_of_path(lines, files, path).len() > 0 <==> path_index(items, path)
                        < items.len() by {
                    assert(lines_of_path(front, files, path).len() > 0 <==> path_index(
                        earlier,
                        path,
                    ) < earlier.len());
                    assert(path_index(items, path) == path_index(earlier, path));
                    lemma_path_index(earlier, path);
                    if components::same_path(file.absolute_path, path) {
                        let k = path_index(earlier, path);
                        if k >= earlier.len() {
                            assert(!components::same_path(earlier[at].absolute_path, path));
                        }
                    }
                }
            } else {
                let n = earlier.len() as int;
                assert forall|i: int| 0 <= i < n implies #[trigger] items[i] == earlier[i] by {}
                assert(items[n].absolute_path == file.absolute_path);
                assert(lines_of_path(front, files, file.absolute_path).len() == 0);
                assert(items[n].grep_matches =~= lines_of_path(lines, files, file.absolute_path));
                assert forall|i: int, j: int|
                    0 <= i < items.len() && 0 <= j < items.len() && components::same_path(
                        (#[trigger] items[i]).absolute_path,
                        (#[trigger] items[j]).absolute_path,
                    ) implies i == j by {
                    if i < n && j < n {
                        assert(components::same_path(
                            earlier[i].absolute_path,
                            earlier[j].absolute_path,
                        ));
                    } else if i < n {
                        assert(!components::same_path(earlier[i].absolute_path, file.absolute_path));
                    } else if j < n {
                        assert(!components::same_path(earlier[j].absolute_path, file.absolute_path));
                    }
                }
                assert forall|i: int| 0 <= i < items.len() implies (
                #[trigger] items[i]).grep_matches == lines_of_path(
                    lines,
                    files,
                    items[i].absolute_path,
                ) && items[i].grep_matches.len() > 0 by {
                    if i < n {
                        assert(earlier[i].grep_matches == lines_of_path(
                            front,
                            files,
                            earlier[i].absolute_path,
                        ));
                        assert(!components::same_path(earlier[i].absolute_path, file.absolute_path));
                    }
                }
                assert forall|path: Seq<char>|
                    #![trigger lines_of_path(lines, files, path)]
                    lines_of_path(lines, files, path).len() > 0 <==> path_index(items, path)
                        < items.len() by {
                    assert(lines_of_path(front, files, path).len() > 0 <==> path_index(
                        earlier,
                        path,
                    ) < earlier.len());
                    let k = path_index(earlier, path);
                    lemma_path_index(earlier, path);
                    assert forall|i: int| 0 <= i < k implies !components::same_path(
                        (#[trigger] items[i]).absolute_path,
                        path,
                    ) by {
                        assert(!components::same_path(earlier[i].absolute_path, path));
                    }
                    if k < n {
                        lemma_path_index_is(items, path, k);
                    } else if components::same_path(file.absolute_path, path) {
                        lemma_path_index_is(items, path, n);
                    } else {
                        lemma_path_index_is(items, path, n + 1);
                    }
                }
            }
        } else {
            assert(items == earlier);
            assert forall|path: Seq<char>| #[trigger]
                lines_of_path(lines, files, path) == lines_of_path(front, files, path) by {}
        }
    }
}

/// The index of the first line that was found in the file with a path, or the number of lines.
pub open spec fn first_line_of(
    lines: Seq<(usize, MatchModel)>,
    files: Seq<FoundModel>,
    path: Seq<char>,
) -> int
    decreases lines.len(),
{
    if lines.len() == 0 {
        0
    } else {
        let earlier = first_line_of(lines.drop_last(), files, path);
        let (file_index, line) = lines.last();
        if earlier < lines.len() - 1 || (file_index < files.len()
            && !files[file_index as int].binary && components::same_path(
            files[file_index as int].absolute_path,
            path,
        )) {
            earlier
        } else {
            lines.len() as int
        }
    }
}

/// The items come in the order in which their paths were found first. Each shows the file in which
/// that first line was found, which is known and not binary, and holds the lines of its path.
pub proof fn law_groups_in_order(
    query: Seq<char>,
    lines: Seq<(usize, MatchModel)>,
    files: Seq<FoundModel>,
)
    ensures
        ({
            let items = grouped(query, lines, files);
            &&& forall|i: int|
                0 <= i < items.len() ==> {
                    let path = (#[trigger] items[i]).absolute_path;
                    let k = first_line_of(lines, files, path);
                    let file = files[lines[k].0 as int];
                    &&& 0 <= k < lines.len()
                    &&& lines[k].0 < files.len()
                    &&& !file.binary
                    &&& items[i].file_name == file.file_name
                    &&& items[i].dir == file.dir
                    &&& path == file.absolute_path
                    &&& items[i].frecency_score == file.frecency_score
                    &&& items[i].git_status == Some(status_name(file.git_status))
                    &&& items[i].match_ranges == matching::name_ranges(query, file.file_name)
                    &&& items[i].grep_matches == lines_of_path(lines, files, path)
                }
            &&& forall|i: int, j: int|
                0 <= i < j < items.len() ==> first_line_of(
                    lines,
                    files,
                    (#[trigger] items[i]).absolute_path,
                ) < first_line_of(lines, files, (#[trigger] items[j]).absolute_path)
        }),
    decreases lines.len(),
{
    let items = grouped(query, lines, files);
    law_grouping(query, lines, files);
    if lines.len() > 0 {
        let front = lines.drop_last();
        let n = front.len() as int;
        let earlier = grouped(query, front, files);
        law_groups_in_order(query, front, files);
        let (file_index, line) = lines.last();
        if line_counts(files, file_index) {
            lemma_path_index(earlier, files[file_index as int].absolute_path);
        }
        assert forall|i: int| 0 <= i < earlier.len() implies {
            let path = (#[trigger] earlier[i]).absolute_path;
            first_line_of(lines, files, path) == first_line_of(front, files, path)
        } by {
            let k = first_line_of(front, files, earlier[i].absolute_path);
            assert(0 <= k < n);
        }
        assert forall|i: int| 0 <= i < earlier.len() implies (#[trigger] items[i]).absolute_path
            == earlier[i].absolute_path by {}
        let known = earlier.len() as int;
        if items.len() > known {
            let file = files[file_index as int];
            let path = file.absolute_path;
            assert(items.len() == known + 1);
            assert(items[known].absolute_path == path);
            assert(lines_of_path(front, files, path).len() == 0) by {
                law_grouping(query, front, files);
                lemma_path_index(earlier, path);
            }
            lemma_no_lines(front, files, path);
            assert(first_line_of(lines, files, path) == n);
            assert(lines[n] == (file_index, line));
        }
        assert forall|i: int| 0 <= i < items.len() implies {
            let path = (#[trigger] items[i]).absolute_path;
            let k = first_line_of(lines, files, path);
            let file = files[lines[k].0 as int];
            &&& 0 <= k < lines.len()
            &&& lines[k].0 < files.len()
            &&& !file.binary
            &&& items[i].file_name == file.file_name
            &&& items[i].dir == file.dir
            &&& path == file.absolute_path
            &&& items[i].frecency_score == file.frecency_score
            &&& items[i].git_status == Some(status_name(file.git_status))
            &&& items[i].match_ranges == matching::name_ranges(query, file.file_name)
            &&& items[i].grep_matches == lines_of_path(lines, files, path)
        } by {
            let path = items[i].absolute_path;
            assert(items[i].grep_matches == lines_of_path(lines, files, path));
            if i < known {
                let k = first_line_of(front, files, path);
                assert(earlier[i].absolute_path == path);
                assert(lines[k] == front[k]);
            }
        }
        assert forall|i: int, j: int| 0 <= i < j < items.len() implies first_line_of(
            lines,
            files,
            (#[trigger] items[i]).absolute_path,
        ) < first_line_of(lines, files, (#[trigger] items[j]).absolute_path) by {
            assert(earlier[i].absolute_path == items[i].absolute_path);
            let k = first_line_of(front, files, earlier[i].absolute_path);
            assert(0 <= k < n);
            if j < known {
                assert(earlier[j].absolute_path == items[j].absolute_path);
            }
        }
    }
}

proof fn lemma_no_lines(
    lines: Seq<(usize, MatchModel)>,
    files: Seq<FoundModel>,
    path: Seq<char>,
)
    requires
        lines_of_path(lines, files, path).len() == 0,
    ensures
        first_line_of(lines, files, path) == lines.len(),
    decreases lines.len(),
{
    if lines.len() > 0 {
        lemma_no_lines(lines.drop_last(), files, path);
    }
}

/// The mode to search in once more when a search found nothing: plain text is then looked for
/// fuzzily.
pub fn fallback_mode(mode: GrepMode, found: usize) -> (r: Option<GrepMode>)
    ensures
        r == (if found == 0 && mode is PlainText {
            Some(GrepMode::Fuzzy)
        } else {
            None::<GrepMode>
        }),
{
    match mode {
        GrepMode::PlainText => if found == 0 {
            Some(GrepMode::Fuzzy)
        } else {
            None
        },
        _ => None,
    }
}

/// What a search comes to: the items, the number of files that were looked at, and the number of
/// those that match.
#[derive(Debug)]
pub struct SearchOutcome {
    pub items: Vec<FileItemSnapshot>,
    pub total_files: usize,
    pub total_matched: usize,
}

/// The outcome of a content search, from the lines it found and its two counts of files.
pub fn execute_grep_search(
    query: &str,
    lines: &Vec<FoundLine>,
    files: &Vec<FoundFile>,
    total_files: usize,
    filtered_file_count: usize,
) -> (r: SearchOutcome)
    ensures
        items_view(r.items@) == grouped(query@, found_lines_view(lines@), found_view(files@)),
        r.total_files == (if total_files >= filtered_file_count {
            total_files
        } else {
            filtered_file_count
        }),
        r.total_matched == r.items.len(),
{
    let items = group_matches(query, lines, files);
    let total_matched = items.len();
    let total_files = if total_files >= filtered_file_count {
        total_files
    } else {
        filtered_file_count
    };
    SearchOutcome { items, total_files, total_matched }
}

/// The outcome of a search for files.
pub fn execute_file_search(
    query: &str,
    found: &Vec<FoundFile>,
    total_files: usize,
    total_matched: usize,
) -> (r: SearchOutcome)
    ensures
        items_view(r.items@) == file_items(query@, found_view(found@)),
        r.total_files == total_files,
        r.total_matched == total_matched,
{
    SearchOutcome { items: file_results(query, found), total_files, total_matched }
}

/// The column of the first match in a line, counted from one: that of the character which begins
/// where the first range does, else the first.
pub open spec fn match_column(line: MatchModel) -> int {
    if line.byte_ranges.len() > 0 && text::is_boundary(
        line.line_content,
        line.byte_ranges[0].0 as int,
    ) {
        let k = text::floor_index(line.line_content, line.byte_ranges[0].0 as int) + 1;
        if k <= usize::MAX {
            k
        } else {
            usize::MAX as int
        }
    } else {
        1
    }
}

fn column_of(line: &GrepMatchLine) -> (r: usize)
    ensures
        r == match_column(line@),
{
    if line.byte_ranges.len() == 0 {
        return 1;
    }
    let start = line.byte_ranges[0].0 as usize;
    let (k, at) = floor_index_of(&chars_of(line.line_content.as_str()), start);
    if at == start {
        k.saturating_add(1)
    } else {
        1
    }
}

/// Where to go in the file at a path: the line and column of its first found line.
pub open spec fn goto(items: Seq<ItemModel>, path: Seq<char>) -> Option<(int, int)> {
    let i = path_index(items, path);
    if i < items.len() && items[i].grep_matches.len() > 0 {
        Some((items[i].grep_matches[0].line_number as int, match_column(items[i].grep_matches[0])))
    } else {
        None
    }
}

pub open spec fn goto_view(o: Option<(usize, usize)>) -> Option<(int, int)> {
    match o {
        Some((line, column)) => Some((line as int, column as int)),
        None => None,
    }
}

pub fn goto_for_path(items: &Vec<FileItemSnapshot>, path: &str) -> (r: Option<(usize, usize)>)
    ensures
        goto_view(r) == goto(items_view(items@), path@),
{
    match find_path(items, path) {
        Some(i) => {
            let ghost item = items_view(items@)[i as int];
            assert(item == items@[i as int]@);
            if items[i].grep_matches.len() == 0 {
                return None;
            }
            assert(item.grep_matches[0] == items@[i as int].grep_matches@[0]@);
            let line = &items[i].grep_matches[0];
            Some((line.line_number, column_of(line)))
        },
        None => None,
    }
}

/// The part of a text between slashes at its ends.
pub open spec fn trim_slashes(s: Seq<char>) -> Seq<char>
    decreases s.len(),
{
    if s.len() > 0 && s[0] == '/' {
        trim_slashes(s.drop_first())
    } else if s.len() > 0 && s.last() == '/' {
        trim_slashes(s.drop_last())
    } else {
        s
    }
}

/// The directory as a row shows it: without slashes at its ends, and shortened to a budget.
pub open spec fn row_dir(dir: Seq<char>, max: int) -> Seq<char> {
    let trim = trim_slashes(dir);
    if trim.len() == 0 {
        Seq::empty()
    } else {
        path_shortening::shortened(trim, max)
    }
}

pub fn shorten_dir_for_row(dir: &str, max_chars: usize) -> (r: String)
    ensures
        r@ == row_dir(dir@, max_chars as int),
{
    let chars = chars_of(dir);
    let mut from: usize = 0;
    let mut to: usize = chars.len();
    assert(chars@.subrange(0, chars@.len() as int) =~= dir@);
    while from < to && chars[from] == '/'
        invariant
            from <= to == chars.len(),
            trim_slashes(dir@) == trim_slashes(chars@.subrange(from as int, to as int)),
        decreases to - from,
    {
        assert(chars@.subrange(from as int, to as int).drop_first() =~= chars@.subrange(
            from + 1,
            to as int,
        ));
        from += 1;
    }
    while from < to && chars[to - 1] == '/'
        invariant
            from <= to <= chars.len(),
            from < to ==> chars@[from as int] != '/',
            trim_slashes(dir@) == trim_slashes(chars@.subrange(from as int, to as int)),
        decreases to - from,
    {
        assert(chars@.subrange(from as int, to as int).drop_last() =~= chars@.subrange(
            from as int,
            to - 1,
        ));
        to -= 1;
    }
    if from == to {
        return String::new();
    }
    PathShortenStrategy::MiddleNumber.shorten_path(
        slice_text(&chars, from, to).as_str(),
        max_chars,
    )
}

/// The ranges of a line's matches in its text without white space around it, which is `strip`
/// bytes shorter at its start and `size` bytes long. Ranges of which nothing is left are dropped.
pub open spec fn shifted_ranges(
    ranges: Seq<(u32, u32)>,
    strip: int,
    size: int,
) -> Seq<(int, int)>
    decreases ranges.len(),
{
    if ranges.len() == 0 {
        Seq::empty()
    } else {
        let earlier = shifted_ranges(ranges.drop_last(), strip, size);
        let (s, e) = ranges.last();
        let from = if s >= strip {
            s - strip
        } else {
            0
        };
        let back = if e >= strip {
            e - strip
        } else {
            0
        };
        let to = if back <= size {
            back
        } else {
            size
        };
        if from < to {
            earlier.push((from, to))
        } else {
            earlier
        }
    }
}

/// What a row shows of the contents: where the query is not in the name, the first found line
/// without white space around it, with its matches.
pub open spec fn row_content(item: ItemModel) -> Option<(Seq<char>, Seq<(int, int)>)> {
    if item.match_ranges.len() == 0 && item.grep_matches.len() > 0 {
        let line = item.grep_matches[0];
        let strip = text::utf8_len(line.line_content) - text::utf8_len(
            text::trim_start(line.line_content),
        );
        let trim = text::trim(line.line_content);
        Some((trim, shifted_ranges(line.byte_ranges, strip, text::utf8_len(trim) as int)))
    } else {
        None
    }
}

pub open spec fn content_view(o: Option<(String, Vec<(usize, usize)>)>) -> Option<
    (Seq<char>, Seq<(int, int)>),
> {
    match o {
        Some((t, ranges)) => Some((t@, matching::ranges_view(ranges@))),
        None => None,
    }
}

/// What a row shows of the contents of its file.
pub fn content_match(item: &FileItemSnapshot) -> (r: Option<(String, Vec<(usize, usize)>)>)
    ensures
        content_view(r) == row_content(item@),
{
    if item.match_ranges.len() > 0 || item.grep_matches.len() == 0 {
        return None;
    }
    let line = &item.grep_matches[0];
    assert(item@.grep_matches[0] == line@);
    let chars = chars_of(line.line_content.as_str());
    let (from, to) = trim_bounds(&chars);
    let t = slice_text(&chars, from, to);
    let size = byte_count(t.as_str());
    let strip = byte_count(slice_text(&chars, 0, from).as_str());
    proof {
        let s = line.line_content@;
        assert(s.subrange(0, from as int) + s.skip(from as int) =~= s);
        text::lemma_utf8_len_concat(s.subrange(0, from as int), s.skip(from as int));
    }
    let mut ranges: Vec<(usize, usize)> = Vec::new();
    let ghost all = line.byte_ranges@;
    let mut i: usize = 0;
    assert(all.take(0) =~= Seq::empty());
    assert(matching::ranges_view(ranges@) =~= Seq::empty());
    while i < line.byte_ranges.len()
        invariant
            i <= line.byte_ranges.len(),
            all == line.byte_ranges@,
            matching::ranges_view(ranges@) == shifted_ranges(
                all.take(i as int),
                strip as int,
                size as int,
            ),
        decreases line.byte_ranges.len() - i,
    {
        let ghost before = matching::ranges_view(ranges@);
        assert(all.take(i + 1).drop_last() =~= all.take(i as int));
        assert(all.take(i + 1).last() == all[i as int]);
        let s = (line.byte_ranges[i].0 as usize).saturating_sub(strip);
        let back = (line.byte_ranges[i].1 as usize).saturating_sub(strip);
        let e = if back <= size {
            back
        } else {
            size
        };
        if s < e {
            ranges.push((s, e));
            assert(matching::ranges_view(ranges@) =~= before.push((s as int, e as int)));
        }
        i += 1;
    }
    assert(all.take(i as int) =~= all);
    Some((t, ranges))
}

/// The column of a line's first match is the number of characters before it, and one more; a line
/// without matches, or with a match that begins inside a character, is entered at its first column.
pub proof fn law_match_column(line: MatchModel, k: int)
    requires
        0 <= k <= line.line_content.len(),
        k < usize::MAX,
    ensures
        line.byte_ranges.len() > 0 && line.byte_ranges[0].0 == text::utf8_len(
            line.line_content.take(k),
        ) ==> match_column(line) == k + 1,
        line.byte_ranges.len() == 0 ==> match_column(line) == 1,
        (forall|j: int|
            0 <= j <= line.line_content.len() ==> text::utf8_len(
                #[trigger] line.line_content.take(j),
            ) != line.byte_ranges[0].0) ==> match_column(line) == 1,
{
    text::lemma_boundary_at(line.line_content, k);
    text::lemma_floor_index(line.line_content, line.byte_ranges[0].0 as int);
}

proof fn lemma_shifted(ranges: Seq<(u32, u32)>, strip: int, size: int, b: int)
    requires
        0 <= strip,
        0 <= b < size,
    ensures
        matching::covers(shifted_ranges(ranges, strip, size), b) <==> exists|j: int|
            0 <= j < ranges.len() && (#[trigger] ranges[j]).0 <= b + strip < ranges[j].1,
    decreases ranges.len(),
{
    let after = shifted_ranges(ranges, strip, size);
    if ranges.len() > 0 {
        let front = ranges.drop_last();
        let n = ranges.len() - 1;
        lemma_shifted(front, strip, size, b);
        let earlier = shifted_ranges(front, strip, size);
        if after.len() > earlier.len() {
            matching::lemma_covers_push(earlier, after.last(), b);
            assert(after =~= earlier.push(after.last()));
        }
        if exists|j: int| 0 <= j < front.len() && (#[trigger] front[j]).0 <= b + strip < front[j].1 {
            let j = choose|j: int|
                0 <= j < front.len() && (#[trigger] front[j]).0 <= b + strip < front[j].1;
            assert(ranges[j] == front[j]);
        }
        if exists|j: int|
            0 <= j < ranges.len() && (#[trigger] ranges[j]).0 <= b + strip < ranges[j].1 {
            let j = choose|j: int|
                0 <= j < ranges.len() && (#[trigger] ranges[j]).0 <= b + strip < ranges[j].1;
            if j < n {
                assert(front[j] == ranges[j]);
            }
        }
        if ranges[n].0 <= b + strip < ranges[n].1 {
            assert(after.last().0 <= b < after.last().1);
        }
    }
}

/// A row for a content match whose name did not match shows the first found line without the white
/// space around it, and its matches on the same bytes as in the whole line.
pub proof fn law_row_shows_the_first_line(
    item: ItemModel,
    before: Seq<char>,
    body: Seq<char>,
    after: Seq<char>,
    b: int,
)
    requires
        item.match_ranges.len() == 0,
        item.grep_matches.len() > 0,
        item.grep_matches[0].line_content == before + body + after,
        text::all_white(before),
        text::all_white(after),
        body.len() > 0,
        !text::is_white(body[0]),
        !text::is_white(body.last()),
        0 <= b < text::utf8_len(body),
    ensures
        row_content(item) matches Some((t, ranges)) && t == body && (matching::covers(ranges, b)
            <==> exists|j: int|
            0 <= j < item.grep_matches[0].byte_ranges.len() && (
            #[trigger] item.grep_matches[0].byte_ranges[j]).0 <= b + text::utf8_len(before)
                < item.grep_matches[0].byte_ranges[j].1),
{
    let line = item.grep_matches[0].line_content;
    let rest = body + after;
    assert(line =~= before + rest);
    text::lemma_trim_around(before, body, after);
    text::lemma_trim_start_past(before, rest);
    assert(rest[0] == body[0]);
    assert(text::trim_start(rest) == rest);
    text::lemma_utf8_len_concat(before, rest);
    lemma_shifted(
        item.grep_matches[0].byte_ranges,
        text::utf8_len(before) as int,
        text::utf8_len(body) as int,
        b,
    );
}

/// Rows with matches in their name, or without found lines, show no line.
pub proof fn law_row_without_line(item: ItemModel)
    requires
        item.match_ranges.len() > 0 || item.grep_matches.len() == 0,
    ensures
        row_content(item) is None,
{
}

/// What is wrong in the work tree goes before what is staged, and the first that holds is named.
pub proof fn law_status_names(b: u32)
    ensures
        b & 0x80 != 0 ==> status_name(Some(b)) == "untracked"@,
        b & 0x80 == 0 && b & 0x100 != 0 ==> status_name(Some(b)) == "modified"@,
        b & 0x80 == 0 && b & 0x100 == 0 && b & 0x200 != 0 ==> status_name(Some(b)) == "deleted"@,
        b & 0x80 == 0 && b & 0x100 == 0 && b & 0x200 == 0 && b & 0x800 != 0 ==> status_name(Some(b))
            == "renamed"@,
        b & 0x80 == 0 && b & 0x100 == 0 && b & 0x200 == 0 && b & 0x800 == 0 ==> {
            &&& b & 0x1 != 0 ==> status_name(Some(b)) == "staged_new"@
            &&& b & 0x1 == 0 && b & 0x2 != 0 ==> status_name(Some(b)) == "staged_modified"@
            &&& b & 0x1 == 0 && b & 0x2 == 0 && b & 0x4 != 0 ==> status_name(Some(b))
                == "staged_deleted"@
            &&& b & 0x1 == 0 && b & 0x2 == 0 && b & 0x4 == 0 && b & 0x4000 != 0 ==> status_name(
                Some(b),
            ) == "ignored"@
            &&& b & 0x1 == 0 && b & 0x2 == 0 && b & 0x4 == 0 && b & 0x4000 == 0 ==> status_name(
                Some(b),
            ) == "clean"@
        },
        status_name(None) == "clean"@,
{
}

/// What is known and clean has no bar. Deletions look alike whether staged or not, and so do the
/// two other staged changes; untracked, modified, renamed and deleted files look different.
pub proof fn law_status_colors()
    ensures
        status_color(None) is None,
        status_color(Some("clean"@)) is None,
        status_color(Some("deleted"@)) == status_color(Some("staged_deleted"@)),
        status_color(Some("staged_new"@)) == status_color(Some("staged_modified"@)),
        forall|s: Seq<char>|
            s != "clean"@ ==> #[trigger] status_color(Some(s)) is Some,
        status_color(Some("modified"@)) == Some(0xF5A524u32),
        status_color(Some("staged_new"@)) == Some(0x32D583u32),
        status_color(Some("deleted"@)) == Some(0xF97066u32),
        status_color(Some("renamed"@)) == Some(0x8E8E93u32),
        status_color(Some("untracked"@)) == Some(0xA48EFFu32),
        status_color(Some("ignored"@)) == Some(0x6C6C70u32),
{
    reveal_strlit("clean");
    reveal_strlit("modified");
    reveal_strlit("staged_new");
    reveal_strlit("staged_modified");
    reveal_strlit("staged_deleted");
    reveal_strlit("deleted");
    reveal_strlit("renamed");
    reveal_strlit("untracked");
    reveal_strlit("ignored");
    assert("clean"@[0] == 'c' && "modified"@[0] == 'm' && "deleted"@[0] == 'd');
    assert("renamed"@[0] == 'r' && "untracked"@[0] == 'u' && "ignored"@[0] == 'i');
    assert("staged_new"@[0] == 's' && "staged_modified"@[0] == 's' && "staged_deleted"@[0] == 's');
    assert("staged_new"@[7] == 'n' && "staged_modified"@[7] == 'm' && "staged_deleted"@[7] == 'd');
}

proof fn lemma_trim_slashes(s: Seq<char>) -> (r: (int, int))
    ensures
        0 <= r.0 <= r.1 <= s.len(),
        trim_slashes(s) == s.subrange(r.0, r.1),
        forall|i: int| 0 <= i < r.0 ==> #[trigger] s[i] == '/',
        forall|i: int| r.1 <= i < s.len() ==> #[trigger] s[i] == '/',
        r.0 < r.1 ==> s[r.0] != '/' && s[r.1 - 1] != '/',
    decreases s.len(),
{
    if s.len() > 0 && s[0] == '/' {
        let rest = s.drop_first();
        let (a, b) = lemma_trim_slashes(rest);
        assert(rest.subrange(a, b) =~= s.subrange(a + 1, b + 1));
        assert forall|i: int| 0 <= i < a + 1 implies #[trigger] s[i] == '/' by {
            if i > 0 {
                assert(rest[i - 1] == s[i]);
            }
        }
        assert forall|i: int| b + 1 <= i < s.len() implies #[trigger] s[i] == '/' by {
            assert(rest[i - 1] == s[i]);
        }
        (a + 1, b + 1)
    } else if s.len() > 0 && s.last() == '/' {
        let rest = s.drop_last();
        let (a, b) = lemma_trim_slashes(rest);
        assert(rest.subrange(a, b) =~= s.subrange(a, b));
        assert forall|i: int| 0 <= i < a implies #[trigger] s[i] == '/' by {
            assert(rest[i] == s[i]);
        }
        assert forall|i: int| b <= i < s.len() implies #[trigger] s[i] == '/' by {
            if i < rest.len() {
                assert(rest[i] == s[i]);
            }
        }
        (a, b)
    } else {
        assert(s.subrange(0, s.len() as int) =~= s);
        (0, s.len() as int)
    }
}

/// A directory that has room is shown as it is, without slashes at its ends; one that has not is
/// cut to the room that there is.
pub proof fn law_row_dir(before: Seq<char>, dir: Seq<char>, after: Seq<char>, max: int)
    requires
        dir.len() > 0,
        dir[0] != '/',
        dir.last() != '/',
        forall|i: int| 0 <= i < before.len() ==> #[trigger] before[i] == '/',
        forall|i: int| 0 <= i < after.len() ==> #[trigger] after[i] == '/',
        max >= 0,
    ensures
        text::utf8_len(dir) <= max ==> row_dir(before + dir + after, max) == dir,
        row_dir(before + dir + after, max).len() <= max,
        row_dir(before + after, max).len() == 0,
{
    let s = before + dir + after;
    let (a, b) = lemma_trim_slashes(s);
    let n = before.len() as int;
    let m = n + dir.len();
    assert(s[n] == dir[0] && s[m - 1] == dir.last());
    if a < n {
        assert(s[a] == before[a]);
    }
    if b > m {
        assert(s[b - 1] == after[b - 1 - m]);
    }
    assert(s.subrange(n, m) =~= dir);
    let blank = before + after;
    let (c, d) = lemma_trim_slashes(blank);
    if c < d {
        if c < n {
            assert(blank[c] == before[c]);
        } else {
            assert(blank[c] == after[c - n]);
        }
    }
    path_shortening::law_shortened_path_fits(dir, max);
    if text::utf8_len(dir) <= max {
        path_shortening::law_fitting_path_is_unchanged(dir, max);
    }
}

/// What the models hold of files, lines and results is theirs, one for one and in their order.
pub proof fn law_models_are_faithful(
    items: Seq<FileItemSnapshot>,
    files: Seq<FoundFile>,
    lines: Seq<FoundLine>,
    i: int,
)
    ensures
        items_view(items).len() == items.len(),
        0 <= i < items.len() ==> {
            let item = items_view(items)[i];
            &&& item.file_name == items[i].file_name@
            &&& item.dir == items[i].dir@
            &&& item.absolute_path == items[i].absolute_path@
            &&& item.frecency_score == items[i].frecency_score
            &&& item.git_status is Some <==> items[i].git_status is Some
            &&& items[i].git_status matches Some(s) ==> item.git_status == Some(s@)
            &&& item.grep_matches.len() == items[i].grep_matches@.len()
            &&& forall|k: int|
                0 <= k < items[i].grep_matches@.len() ==> (#[trigger] item.grep_matches[k])
                    == items[i].grep_matches@[k]@
            &&& item.match_ranges.len() == items[i].match_ranges@.len()
            &&& forall|k: int|
                0 <= k < items[i].match_ranges@.len() ==> (#[trigger] item.match_ranges[k]).0
                    == items[i].match_ranges@[k].0 && item.match_ranges[k].1
                    == items[i].match_ranges@[k].1
        },
        found_view(files).len() == files.len(),
        0 <= i < files.len() ==> {
            let file = found_view(files)[i];
            &&& file.file_name == files[i].file_name@
            &&& file.dir == files[i].dir@
            &&& file.absolute_path == files[i].absolute_path@
            &&& file.git_status == files[i].git_status
            &&& file.frecency_score == files[i].frecency_score
            &&& file.binary == files[i].binary
        },
        found_lines_view(lines).len() == lines.len(),
        0 <= i < lines.len() ==> {
            let (file_index, line) = found_lines_view(lines)[i];
            &&& file_index == lines[i].file_index
            &&& line.line_number == lines[i].line.line_number
            &&& line.line_content == lines[i].line.line_content@
            &&& line.byte_ranges == lines[i].line.byte_ranges@
        },
{
}

} // verus!
