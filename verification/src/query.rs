//! From the text that was typed to what is searched for.

use fff_query_parser::{FFFQuery, FileSearchConfig, FuzzyQuery, QueryParser};
use fff_search::grep::parse_grep_query as parse_grep;
use vstd::prelude::*;

use crate::text;
use crate::text::{chars_of, holds_char, join_all, trimmed, words_of};

verus! {

/// How file contents are searched.
#[derive(Debug, Clone, Copy, PartialEq, Eq, Structural)]
pub enum GrepMode {
    PlainText,
    Regex,
    Fuzzy,
}

/// The text that names or lines are matched with.
#[derive(Debug, PartialEq, Eq)]
pub enum FuzzyText {
    Empty,
    Text(String),
    Parts(Vec<String>),
}

/// A query that was taken apart. Constraints and the location are in the notation that `Debug`
/// gives them.
#[derive(Debug, PartialEq, Eq)]
pub struct SearchQuery {
    pub raw: String,
    pub constraints: Vec<String>,
    pub fuzzy: FuzzyText,
    pub location: Option<String>,
}

pub enum FuzzyModel {
    Empty,
    Text(Seq<char>),
    Parts(Seq<Seq<char>>),
}

pub struct QueryModel {
    pub raw: Seq<char>,
    pub constraints: Seq<Seq<char>>,
    pub fuzzy: FuzzyModel,
    pub location: Option<Seq<char>>,
}

impl View for FuzzyText {
    type V = FuzzyModel;

    open spec fn view(&self) -> FuzzyModel {
        match self {
            FuzzyText::Empty => FuzzyModel::Empty,
            FuzzyText::Text(t) => FuzzyModel::Text(t@),
            FuzzyText::Parts(p) => FuzzyModel::Parts(text::texts(p@)),
        }
    }
}

impl View for SearchQuery {
    type V = QueryModel;

    open spec fn view(&self) -> QueryModel {
        QueryModel {
            raw: self.raw@,
            constraints: text::texts(self.constraints@),
            fuzzy: self.fuzzy@,
            location: text::opt_text(self.location),
        }
    }
}

/// A query without constraints.
pub open spec fn unconstrained(raw: Seq<char>, fuzzy: FuzzyModel) -> QueryModel {
    QueryModel { raw, constraints: Seq::empty(), fuzzy, location: None }
}

fn plain_query(raw: String, fuzzy: FuzzyText) -> (r: SearchQuery)
    ensures
        r@ == unconstrained(raw@, fuzzy@),
{
    let r = SearchQuery { raw, constraints: Vec::new(), fuzzy, location: None };
    assert(text::texts(r.constraints@) =~= Seq::empty());
    r
}

/// A word that may name a file or a path, or hold a filter.
pub open spec fn is_path_like(word: Seq<char>) -> bool {
    word.contains('/') || word.contains(':') || word.contains('.')
}

/// A query with a word that may name a file or a path, or hold a filter.
pub open spec fn looks_like_filter(query: Seq<char>) -> bool {
    exists|i: int|
        0 <= i < text::words(query).len() && is_path_like(#[trigger] text::words(query)[i])
}

pub fn should_parse_file_constraints(query: &str) -> (r: bool)
    ensures
        r == looks_like_filter(query@),
{
    let words = words_of(query);
    let ghost all = text::words(query@);
    let mut i: usize = 0;
    while i < words.len()
        invariant
            i <= words.len(),
            all == text::words(query@),
            text::texts(words@) == all,
            forall|k: int| 0 <= k < i ==> !is_path_like(#[trigger] all[k]),
        decreases words.len() - i,
    {
        let word = words[i].as_str();
        assert(all[i as int] == word@);
        if holds_char(word, '/') || holds_char(word, ':') || holds_char(word, '.') {
            return true;
        }
        i += 1;
    }
    false
}

pub open spec fn is_ascii_alphanumeric(c: char) -> bool {
    ('0' <= c && c <= '9') || ('A' <= c && c <= 'Z') || ('a' <= c && c <= 'z')
}

/// A word with a letter or a digit. Others do not help to match names.
pub open spec fn is_useful(word: Seq<char>) -> bool {
    exists|i: int| 0 <= i < word.len() && is_ascii_alphanumeric(#[trigger] word[i])
}

pub fn is_useful_fuzzy_token(token: &str) -> (r: bool)
    ensures
        r == is_useful(token@),
{
    let chars = chars_of(token);
    let mut i: usize = 0;
    while i < chars.len()
        invariant
            i <= chars.len(),
            chars@ == token@,
            forall|k: int| 0 <= k < i ==> !is_ascii_alphanumeric(#[trigger] chars@[k]),
        decreases chars.len() - i,
    {
        let c = chars[i];
        if ('0' <= c && c <= '9') || ('A' <= c && c <= 'Z') || ('a' <= c && c <= 'z') {
            assert(is_ascii_alphanumeric(token@[i as int]));
            return true;
        }
        i += 1;
    }
    false
}

/// The words of a query with a letter or a digit, in order.
pub open spec fn useful_words(query: Seq<char>) -> Seq<Seq<char>> {
    text::words(query).filter(|word: Seq<char>| is_useful(word))
}

fn useful_words_of(query: &str) -> (r: Vec<String>)
    ensures
        text::texts(r@) == useful_words(query@),
{
    let words = words_of(query);
    let ghost all = text::words(query@);
    let ghost keep = |word: Seq<char>| is_useful(word);
    let mut r: Vec<String> = Vec::new();
    let mut i: usize = 0;
    assert(all.take(0).filter(keep) =~= Seq::empty()) by {
        reveal(Seq::filter);
    }
    assert(text::texts(r@) =~= Seq::empty());
    while i < words.len()
        invariant
            i <= words.len(),
            text::texts(words@) == all,
            keep == (|word: Seq<char>| is_useful(word)),
            text::texts(r@) == all.take(i as int).filter(keep),
        decreases words.len() - i,
    {
        let ghost before = text::texts(r@);
        assert(all.take(i + 1).drop_last() =~= all.take(i as int));
        assert(all.take(i + 1).last() == words@[i as int]@);
        proof {
            reveal(Seq::filter);
        }
        if is_useful_fuzzy_token(words[i].as_str()) {
            let word = words[i].clone();
            r.push(word);
            assert(text::texts(r@) =~= before.push(word@));
        }
        i += 1;
    }
    assert(all.take(i as int) =~= all);
    r
}

/// What `fff_query_parser` makes of a query for files.
pub uninterp spec fn parsed_file_query(query: Seq<char>) -> QueryModel;

/// Calls `QueryParser::parse` with `FileSearchConfig`. The result is a function of the query
/// alone, and it keeps the query as it was.
#[verifier::external_body]
fn parse_file_query(query: &str) -> (r: SearchQuery)
    ensures
        r@ == parsed_file_query(query@),
        r@.raw == query@,
{
    let FFFQuery { raw_query, constraints, fuzzy_query, location } =
        QueryParser::new(FileSearchConfig).parse(query);
    let fuzzy = match fuzzy_query {
        FuzzyQuery::Empty => FuzzyText::Empty,
        FuzzyQuery::Text(t) => FuzzyText::Text(t.to_string()),
        FuzzyQuery::Parts(p) => FuzzyText::Parts(p.iter().map(|t| t.to_string()).collect()),
    };
    let constraints = constraints.iter().map(|c| format!("{c:?}")).collect();
    let location = location.map(|l| format!("{l:?}"));
    SearchQuery { raw: raw_query.to_string(), constraints, fuzzy, location }
}

/// The text for the useful words: one, several, or none.
pub open spec fn fuzzy_of(words: Seq<Seq<char>>) -> FuzzyModel {
    if words.len() == 0 {
        FuzzyModel::Empty
    } else if words.len() == 1 {
        FuzzyModel::Text(words[0])
    } else {
        FuzzyModel::Parts(words)
    }
}

/// A query for files that its parser takes apart.
pub open spec fn is_filter(query: Seq<char>) -> bool {
    text::trim(query).len() > 0 && looks_like_filter(text::trim(query))
}

pub fn is_file_filter(query: &str) -> (r: bool)
    ensures
        r == is_filter(query@),
{
    let trim = trimmed(query);
    chars_of(trim.as_str()).len() > 0 && should_parse_file_constraints(trim.as_str())
}

/// A search for files: the parser takes the query apart if it looks like a filter, else its useful
/// words are searched for.
pub open spec fn file_query(query: Seq<char>) -> QueryModel {
    let trim = text::trim(query);
    if is_filter(query) {
        parsed_file_query(trim)
    } else {
        unconstrained(trim, fuzzy_of(useful_words(trim)))
    }
}

pub fn build_file_query(query: &str) -> (r: SearchQuery)
    ensures
        r@ == file_query(query@),
        r@.raw == text::trim(query@),
{
    let trim = trimmed(query);
    if is_file_filter(query) {
        return parse_file_query(trim.as_str());
    }
    let mut words = useful_words_of(trim.as_str());
    let ghost all = text::texts(words@);
    if words.len() == 0 {
        plain_query(trim, FuzzyText::Empty)
    } else if words.len() == 1 {
        let word = words.pop().unwrap();
        assert(word@ == all[0]);
        plain_query(trim, FuzzyText::Text(word))
    } else {
        plain_query(trim, FuzzyText::Parts(words))
    }
}

/// Searching in a text of nothing but white space is searching for everything.
pub proof fn law_blank_query_is_empty(query: Seq<char>)
    requires
        text::trim(query).len() == 0,
    ensures
        file_query(query) == unconstrained(Seq::empty(), FuzzyModel::Empty),
{
    let trim = text::trim(query);
    assert(trim =~= Seq::empty());
    assert(text::words(trim) =~= Seq::empty());
    assert(useful_words(trim) =~= Seq::empty()) by {
        reveal(Seq::filter);
    }
}

/// A query without slashes, colons and dots has no constraints, and only words with a letter or a
/// digit are searched for.
pub proof fn law_code_is_no_filter(query: Seq<char>)
    requires
        forall|i: int|
            0 <= i < text::words(text::trim(query)).len() ==> !is_path_like(
                #[trigger] text::words(text::trim(query))[i],
            ),
    ensures
        file_query(query).constraints.len() == 0,
        file_query(query).location is None,
        file_query(query).fuzzy matches FuzzyModel::Text(t) ==> is_useful(t),
        file_query(query).fuzzy matches FuzzyModel::Parts(p) ==> forall|i: int|
            0 <= i < p.len() ==> is_useful(#[trigger] p[i]),
{
    let trim = text::trim(query);
    let words = useful_words(trim);
    assert forall|i: int| 0 <= i < words.len() implies is_useful(#[trigger] words[i]) by {
        text::words(trim).lemma_filter_pred(|word: Seq<char>| is_useful(word), i);
    }
}

/// The texts that are searched for.
pub open spec fn searched(fuzzy: FuzzyModel) -> Seq<Seq<char>> {
    match fuzzy {
        FuzzyModel::Empty => Seq::empty(),
        FuzzyModel::Text(t) => seq![t],
        FuzzyModel::Parts(parts) => parts,
    }
}

/// The number of words with a letter or a digit among the first `n`.
pub open spec fn useful_before(words: Seq<Seq<char>>, n: int) -> int
    decreases n,
{
    if n <= 0 {
        0
    } else {
        useful_before(words, n - 1) + if is_useful(words[n - 1]) {
            1int
        } else {
            0
        }
    }
}

proof fn lemma_useful_words(words: Seq<Seq<char>>, n: int)
    requires
        0 <= n <= words.len(),
    ensures
        ({
            let kept = words.take(n).filter(|word: Seq<char>| is_useful(word));
            &&& kept.len() == useful_before(words, n)
            &&& forall|i: int|
                0 <= i < n && is_useful(#[trigger] words[i]) ==> 0 <= useful_before(words, i)
                    < useful_before(words, n) && kept[useful_before(words, i)] == words[i]
        }),
    decreases n,
{
    reveal(Seq::filter);
    let keep = |word: Seq<char>| is_useful(word);
    if n > 0 {
        lemma_useful_words(words, n - 1);
        assert(words.take(n).drop_last() =~= words.take(n - 1));
        assert(words.take(n).last() == words[n - 1]);
        let earlier = words.take(n - 1).filter(keep);
        let kept = words.take(n).filter(keep);
        assert forall|i: int| 0 <= i < n && is_useful(#[trigger] words[i]) implies 0
            <= useful_before(words, i) < useful_before(words, n) && kept[useful_before(words, i)]
            == words[i] by {
            if i < n - 1 {
                assert(earlier[useful_before(words, i)] == words[i]);
            }
        }
    } else {
        assert(words.take(0).filter(keep) =~= Seq::empty());
    }
}

/// A query for files that is no filter searches for each of its words that has a letter or a digit,
/// and for nothing else, in the order in which they were typed.
pub proof fn law_all_words_are_searched(query: Seq<char>, i: int)
    requires
        !is_filter(query),
        0 <= i < text::words(text::trim(query)).len(),
        is_useful(text::words(text::trim(query))[i]),
    ensures
        ({
            let words = text::words(text::trim(query));
            let parts = searched(file_query(query).fuzzy);
            let at = useful_before(words, i);
            &&& parts.len() == useful_before(words, words.len() as int)
            &&& 0 <= at < parts.len()
            &&& parts[at] == words[i]
        }),
{
    let words = text::words(text::trim(query));
    lemma_useful_words(words, words.len() as int);
    assert(words.take(words.len() as int) =~= words);
}

/// A word of a content search that its parser cannot take: it has braces but no slash, and all the
/// closing ones come before the opening ones.
pub open spec fn has_crossed_braces(word: Seq<char>) -> bool {
    &&& !word.contains('/')
    &&& word.contains('{')
    &&& word.contains('}')
    &&& forall|i: int, j: int|
        0 <= i < word.len() && 0 <= j < word.len() && #[trigger] word[i] == '}'
            && #[trigger] word[j] == '{' ==> i < j
}

/// A word that the parser takes. It looks behind one exclamation mark, and not behind a backslash.
pub open spec fn grep_word_ok(word: Seq<char>) -> bool {
    let inner = if word.len() > 1 && word[0] == '!' {
        word.skip(1)
    } else {
        word
    };
    (word.len() > 0 && word[0] == '\\') || (inner.len() > 0 && inner[0] == '\\')
        || !has_crossed_braces(inner)
}

pub open spec fn grep_text_ok(query: Seq<char>) -> bool {
    forall|i: int|
        0 <= i < text::words(query).len() ==> grep_word_ok(#[trigger] text::words(query)[i])
}

fn crossed_braces(word: &Vec<char>) -> (r: bool)
    ensures
        r == has_crossed_braces(word@),
{
    let n = word.len();
    let mut i: usize = 0;
    let mut open: Option<usize> = None;
    let mut close: Option<usize> = None;
    let mut slash = false;
    while i < n
        invariant
            i <= n == word.len(),
            slash <==> exists|k: int| 0 <= k < i && #[trigger] word@[k] == '/',
            open matches Some(o) ==> o < i && word@[o as int] == '{' && forall|k: int|
                0 <= k < o ==> #[trigger] word@[k] != '{',
            open is None ==> forall|k: int| 0 <= k < i ==> #[trigger] word@[k] != '{',
            close matches Some(c) ==> c < i && word@[c as int] == '}' && forall|k: int|
                c < k < i ==> #[trigger] word@[k] != '}',
            close is None ==> forall|k: int| 0 <= k < i ==> #[trigger] word@[k] != '}',
        decreases n - i,
    {
        if word[i] == '/' {
            slash = true;
        } else if word[i] == '{' {
            if open.is_none() {
                open = Some(i);
            }
        } else if word[i] == '}' {
            close = Some(i);
        }
        i += 1;
    }
    match (open, close) {
        (Some(o), Some(c)) => {
            assert(word@.contains(word@[o as int]));
            assert(word@.contains(word@[c as int]));
            if !slash && c < o {
                assert forall|i: int, j: int|
                    0 <= i < word@.len() && 0 <= j < word@.len() && #[trigger] word@[i] == '}'
                        && #[trigger] word@[j] == '{' implies i < j by {
                    assert(i <= c);
                    assert(o <= j);
                }
                true
            } else {
                if !slash {
                    assert(word@[c as int] == '}' && word@[o as int] == '{');
                }
                false
            }
        },
        _ => false,
    }
}

fn grep_word_is_ok(word: &str) -> (r: bool)
    ensures
        r == grep_word_ok(word@),
{
    let chars = chars_of(word);
    if chars.len() > 0 && chars[0] == '\\' {
        return true;
    }
    if chars.len() > 1 && chars[0] == '!' {
        let inner = text::slice_of(&chars, 1, chars.len());
        assert(inner@ =~= word@.skip(1));
        return inner[0] == '\\' || !crossed_braces(&inner);
    }
    !crossed_braces(&chars)
}

/// Whether the parser for content searches takes a query.
pub fn grep_text_is_ok(query: &str) -> (r: bool)
    ensures
        r == grep_text_ok(query@),
{
    let words = words_of(query);
    let ghost all = text::words(query@);
    let mut i: usize = 0;
    while i < words.len()
        invariant
            i <= words.len(),
            all == text::words(query@),
            text::texts(words@) == all,
            forall|k: int| 0 <= k < i ==> grep_word_ok(#[trigger] all[k]),
        decreases words.len() - i,
    {
        assert(all[i as int] == words@[i as int]@);
        if !grep_word_is_ok(words[i].as_str()) {
            return false;
        }
        i += 1;
    }
    true
}

/// What `fff_search` makes of a query for contents.
pub uninterp spec fn parsed_grep_query(query: Seq<char>) -> QueryModel;

/// Calls `fff_search::grep::parse_grep_query`. The result is a function of the query alone, and it
/// keeps the query as it was. The parser panics on words with crossed braces.
#[verifier::external_body]
fn parse_grep_text(query: &str) -> (r: SearchQuery)
    requires
        grep_text_ok(query@),
    ensures
        r@ == parsed_grep_query(query@),
        r@.raw == query@,
{
    let FFFQuery { raw_query, constraints, fuzzy_query, location } = parse_grep(query);
    let fuzzy = match fuzzy_query {
        FuzzyQuery::Empty => FuzzyText::Empty,
        FuzzyQuery::Text(t) => FuzzyText::Text(t.to_string()),
        FuzzyQuery::Parts(p) => FuzzyText::Parts(p.iter().map(|t| t.to_string()).collect()),
    };
    let constraints = constraints.iter().map(|c| format!("{c:?}")).collect();
    let location = location.map(|l| format!("{l:?}"));
    SearchQuery { raw: raw_query.to_string(), constraints, fuzzy, location }
}

/// A search for contents: fuzzy ones look for the useful words, with one space between each two,
/// for others the parser takes the query apart.
pub open spec fn grep_query(query: Seq<char>, mode: GrepMode) -> QueryModel {
    let trim = text::trim(query);
    let joined = text::join(useful_words(trim), " "@);
    if mode is Fuzzy {
        unconstrained(
            trim,
            if joined.len() == 0 {
                FuzzyModel::Empty
            } else {
                FuzzyModel::Text(joined)
            },
        )
    } else {
        parsed_grep_query(trim)
    }
}

pub fn build_grep_query(query: &str, mode: GrepMode) -> (r: SearchQuery)
    requires
        mode is Fuzzy || grep_text_ok(text::trim(query@)),
    ensures
        r@ == grep_query(query@, mode),
        r@.raw == text::trim(query@),
{
    let trim = trimmed(query);
    match mode {
        GrepMode::Fuzzy => {
            let joined = join_all(&useful_words_of(trim.as_str()), " ");
            if chars_of(joined.as_str()).len() == 0 {
                plain_query(trim, FuzzyText::Empty)
            } else {
                plain_query(trim, FuzzyText::Text(joined))
            }
        },
        _ => parse_grep_text(trim.as_str()),
    }
}

/// White space around a query makes no difference.
pub proof fn law_white_space_around_is_ignored(query: Seq<char>, mode: GrepMode)
    ensures
        file_query(text::trim(query)) == file_query(query),
        grep_query(text::trim(query), mode) == grep_query(query, mode),
{
    let _ = text::lemma_trim_range(query);
    text::lemma_trim_fixed(text::trim(query));
}

/// A query for files goes to its parser just where it holds a slash, a colon or a dot.
pub proof fn law_filters_hold_a_mark(query: Seq<char>)
    ensures
        is_filter(query) <==> query.contains('/') || query.contains(':') || query.contains('.'),
{
    let trim = text::trim(query);
    let (a, b) = text::lemma_trim_range(query);
    if is_filter(query) {
        let k = choose|k: int|
            0 <= k < text::words(trim).len() && is_path_like(#[trigger] text::words(trim)[k]);
        let word = text::words(trim)[k];
        let c = if word.contains('/') {
            '/'
        } else if word.contains(':') {
            ':'
        } else {
            '.'
        };
        text::lemma_word_from_text(trim, k, c);
        let j = choose|j: int| 0 <= j < trim.len() && trim[j] == c;
        assert(query[a + j] == c);
    }
    if query.contains('/') || query.contains(':') || query.contains('.') {
        let c = if query.contains('/') {
            '/'
        } else if query.contains(':') {
            ':'
        } else {
            '.'
        };
        let j = choose|j: int| 0 <= j < query.len() && query[j] == c;
        text::lemma_trim_keeps(query, j);
        let m = choose|m: int| 0 <= m < trim.len() && trim[m] == query[j];
        text::lemma_char_in_words(trim, m);
        let k = choose|k: int|
            0 <= k < text::words(trim).len() && (#[trigger] text::words(trim)[k]).contains(trim[m]);
        assert(is_path_like(text::words(trim)[k]));
    }
}

/// A fuzzy search of contents looks for each word of the query that has a letter or a digit, and
/// for nothing else, in their order with one space between each two.
pub proof fn law_fuzzy_grep_looks_for_all_words(query: Seq<char>, i: int)
    requires
        0 <= i < text::words(text::trim(query)).len(),
        is_useful(text::words(text::trim(query))[i]),
    ensures
        ({
            let words = text::words(text::trim(query));
            let q = grep_query(query, GrepMode::Fuzzy);
            let at = useful_before(words, i);
            &&& q.raw == text::trim(query)
            &&& q.constraints.len() == 0
            &&& q.location is None
            &&& q.fuzzy matches FuzzyModel::Text(t) && {
                let parts = text::split(t, ' ', ' ');
                &&& parts.len() == useful_before(words, words.len() as int)
                &&& 0 <= at < parts.len()
                &&& parts[at] == words[i]
            }
        }),
{
    let trim = text::trim(query);
    let words = text::words(trim);
    let n = words.len() as int;
    lemma_useful_words(words, n);
    assert(words.take(n) =~= words);
    let useful = useful_words(trim);
    reveal_strlit(" ");
    assert(" "@ =~= seq![' ']);
    assert(useful.len() > 0);
    assert forall|k: int| 0 <= k < useful.len() implies text::unbroken(
        #[trigger] useful[k],
        ' ',
        ' ',
    ) by {
        words.lemma_filter_contains_rev(|word: Seq<char>| is_useful(word), useful[k]);
        let m = choose|m: int| 0 <= m < words.len() && words[m] == useful[k];
        assert forall|x: int| 0 <= x < useful[k].len() implies #[trigger] useful[k][x] != ' ' by {
            assert(words[m].contains(useful[k][x]));
            text::lemma_word_from_text(trim, m, useful[k][x]);
        }
    }
    text::lemma_split_join(useful, ' ', ' ');
    let joined = text::join(useful, " "@);
    if joined.len() == 0 {
        assert(text::split(joined, ' ', ' ') =~= seq![joined]);
        assert(useful[useful_before(words, i)] == words[i]);
        assert(words[i].len() > 0);
    }
}

/// A word is searched for just where it has a letter or a digit of ASCII.
pub proof fn law_useful_words(word: Seq<char>)
    ensures
        is_useful(word) <==> exists|i: int|
            0 <= i < word.len() && (('0' <= #[trigger] word[i] <= '9') || ('A' <= word[i] <= 'Z') || (
            'a' <= word[i] <= 'z')),
{
    if is_useful(word) {
        let i = choose|i: int| 0 <= i < word.len() && is_ascii_alphanumeric(#[trigger] word[i]);
        assert(('0' <= word[i] <= '9') || ('A' <= word[i] <= 'Z') || ('a' <= word[i] <= 'z'));
    }
    if exists|i: int|
        0 <= i < word.len() && (('0' <= #[trigger] word[i] <= '9') || ('A' <= word[i] <= 'Z') || (
        'a' <= word[i] <= 'z')) {
        let i = choose|i: int|
            0 <= i < word.len() && (('0' <= #[trigger] word[i] <= '9') || ('A' <= word[i] <= 'Z')
                || ('a' <= word[i] <= 'z'));
        assert(is_ascii_alphanumeric(word[i]));
    }
}

/// A query without slashes, colons and dots is kept without the white space around it, and has no
/// constraints. One useful word is searched for as a text, several as parts.
pub proof fn law_plain_queries(query: Seq<char>)
    requires
        !query.contains('/'),
        !query.contains(':'),
        !query.contains('.'),
    ensures
        ({
            let words = text::words(text::trim(query));
            let n = useful_before(words, words.len() as int);
            let q = file_query(query);
            &&& q.raw == text::trim(query)
            &&& q.constraints.len() == 0
            &&& q.location is None
            &&& q.fuzzy is Empty <==> n == 0
            &&& q.fuzzy is Text <==> n == 1
        }),
{
    law_filters_hold_a_mark(query);
    let words = text::words(text::trim(query));
    lemma_useful_words(words, words.len() as int);
    assert(words.take(words.len() as int) =~= words);
}

/// A query for files with a slash, a colon or a dot is taken apart by its parser, and so is a query
/// for contents as plain text or as a regular expression; both without the white space around
/// them. A fuzzy query without a useful word searches for nothing.
pub proof fn law_parsed_queries(query: Seq<char>)
    ensures
        query.contains('/') || query.contains(':') || query.contains('.') ==> file_query(query)
            == parsed_file_query(text::trim(query)),
        grep_query(query, GrepMode::PlainText) == parsed_grep_query(text::trim(query)),
        grep_query(query, GrepMode::Regex) == parsed_grep_query(text::trim(query)),
        ({
            let words = text::words(text::trim(query));
            let q = grep_query(query, GrepMode::Fuzzy);
            &&& q.raw == text::trim(query)
            &&& q.constraints.len() == 0
            &&& q.location is None
            &&& useful_before(words, words.len() as int) == 0 ==> q.fuzzy is Empty
        }),
{
    law_filters_hold_a_mark(query);
    let words = text::words(text::trim(query));
    lemma_useful_words(words, words.len() as int);
    assert(words.take(words.len() as int) =~= words);
    assert(useful_words(text::trim(query)).len() == useful_before(words, words.len() as int));
}

} // verus!
