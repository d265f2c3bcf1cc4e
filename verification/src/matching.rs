//! Where a query matches a name, and how a text with matches is cut up for display.

use vstd::prelude::*;
use vstd::utf8::*;

use crate::text;
use crate::text::{
    ceil_index_of, char_width, chars_of, floor_index_of, lower_form_of, lowered_of, slice_text,
    trimmed,
};

verus! {

/// How far a walk along a text has got: the number of query characters that were found, the byte
/// ranges that are complete, and the one that is still growing.
pub struct Walk {
    pub found: nat,
    pub ranges: Seq<(int, int)>,
    pub run: Option<(int, int)>,
}

/// The byte offset of a character.
pub open spec fn offset(t: Seq<char>, i: int) -> int {
    text::utf8_len(t.take(i)) as int
}

/// The walk along the first `n` characters of a text. `lowered` holds the lower case forms of its
/// characters. Each character that is the next one of the query is taken; neighbours make a range.
pub open spec fn walk(query: Seq<char>, lowered: Seq<char>, t: Seq<char>, n: int) -> Walk
    decreases n,
{
    if n <= 0 {
        Walk { found: 0, ranges: Seq::empty(), run: None }
    } else {
        let before = walk(query, lowered, t, n - 1);
        if before.found >= query.len() {
            before
        } else if lowered[n - 1] == query[before.found as int] {
            Walk {
                found: before.found + 1,
                ranges: before.ranges,
                run: match before.run {
                    Some((start, _)) => Some((start, offset(t, n))),
                    None => Some((offset(t, n - 1), offset(t, n))),
                },
            }
        } else {
            match before.run {
                Some(range) => Walk {
                    found: before.found,
                    ranges: before.ranges.push(range),
                    run: None,
                },
                None => before,
            }
        }
    }
}

/// All ranges of a walk.
pub open spec fn walked(w: Walk) -> Seq<(int, int)> {
    match w.run {
        Some(range) => w.ranges.push(range),
        None => w.ranges,
    }
}

/// The byte ranges where the characters of a query appear in order in a text; none where one is
/// missing.
pub open spec fn found_ranges(
    query: Seq<char>,
    lowered: Seq<char>,
    t: Seq<char>,
) -> Seq<(int, int)> {
    let w = walk(query, lowered, t, t.len() as int);
    if w.found >= query.len() {
        walked(w)
    } else {
        Seq::empty()
    }
}

pub open spec fn ranges_view(v: Seq<(usize, usize)>) -> Seq<(int, int)> {
    v.map_values(|r: (usize, usize)| (r.0 as int, r.1 as int))
}

pub open spec fn range_view(o: Option<(usize, usize)>) -> Option<(int, int)> {
    match o {
        Some((a, b)) => Some((a as int, b as int)),
        None => None,
    }
}

proof fn lemma_walk_done(query: Seq<char>, lowered: Seq<char>, t: Seq<char>, m: int, n: int)
    requires
        0 <= m <= n,
        walk(query, lowered, t, m).found >= query.len(),
    ensures
        walk(query, lowered, t, n) == walk(query, lowered, t, m),
    decreases n - m,
{
    if m < n {
        lemma_walk_done(query, lowered, t, m, n - 1);
    }
}

/// The byte ranges where the characters of a query, in lower case, appear in order in a text whose
/// characters have the given lower case forms.
pub fn match_ranges(query: &Vec<char>, lowered: &Vec<char>, t: &str) -> (r: Vec<(usize, usize)>)
    requires
        lowered@.len() == t@.len(),
    ensures
        ranges_view(r@) == found_ranges(query@, lowered@, t@),
{
    let chars = chars_of(t);
    let size = text::byte_count(t);
    let mut ranges: Vec<(usize, usize)> = Vec::new();
    let mut run: Option<(usize, usize)> = None;
    let mut found: usize = 0;
    let mut at: usize = 0;
    let mut i: usize = 0;
    assert(t@.take(0) =~= Seq::empty());
    assert(ranges_view(ranges@) =~= Seq::empty());
    while i < chars.len() && found < query.len()
        invariant
            i <= chars.len(),
            chars@ == t@,
            lowered@.len() == t@.len(),
            size == text::utf8_len(t@),
            at == offset(t@, i as int),
            found <= query.len(),
            walk(query@, lowered@, t@, i as int) == (Walk {
                found: found as nat,
                ranges: ranges_view(ranges@),
                run: range_view(run),
            }),
        decreases chars.len() - i,
    {
        let w = char_width(chars[i]);
        proof {
            assert(t@.take(i + 1).drop_last() =~= t@.take(i as int));
            text::lemma_utf8_len_take(t@, i + 1, t@.len() as int);
            assert(t@.take(t@.len() as int) =~= t@);
        }
        let next = at + w;
        if lowered[i] == query[found] {
            run = match run {
                Some((start, _)) => Some((start, next)),
                None => Some((at, next)),
            };
            found += 1;
        } else if let Some(range) = run {
            let ghost before = ranges_view(ranges@);
            ranges.push(range);
            assert(ranges_view(ranges@) =~= before.push((range.0 as int, range.1 as int)));
            run = None;
        }
        at = next;
        i += 1;
    }
    proof {
        if found >= query.len() {
            lemma_walk_done(query@, lowered@, t@, i as int, t@.len() as int);
        }
    }
    if found >= query.len() {
        if let Some(range) = run {
            let ghost before = ranges_view(ranges@);
            ranges.push(range);
            assert(ranges_view(ranges@) =~= before.push((range.0 as int, range.1 as int)));
        }
        ranges
    } else {
        let none: Vec<(usize, usize)> = Vec::new();
        assert(ranges_view(none@) =~= Seq::empty());
        none
    }
}

/// The lower case forms of the characters of a text, one for each.
pub open spec fn lowered_chars(t: Seq<char>) -> Seq<char> {
    t.map_values(|c: char| text::lower_form(c))
}

/// Where a query matches a name: it is compared in lower case and without white space around it.
pub open spec fn name_ranges(query: Seq<char>, t: Seq<char>) -> Seq<(int, int)> {
    let trim = text::trim(query);
    if trim.len() == 0 {
        Seq::empty()
    } else {
        found_ranges(text::lowered(trim), lowered_chars(t), t)
    }
}

fn lowered_chars_of(t: &str) -> (r: Vec<char>)
    ensures
        r@ == lowered_chars(t@),
{
    let chars = chars_of(t);
    let mut r: Vec<char> = Vec::new();
    let mut i: usize = 0;
    while i < chars.len()
        invariant
            i <= chars.len(),
            chars@ == t@,
            r@ =~= lowered_chars(t@.take(i as int)),
        decreases chars.len() - i,
    {
        let c = lower_form_of(chars[i]);
        r.push(c);
        i += 1;
    }
    assert(t@.take(i as int) =~= t@);
    r
}

/// The lower case forms of ASCII characters.
proof fn lemma_lowered_ascii(t: Seq<char>)
    requires
        is_ascii_chars(t),
    ensures
        lowered_chars(t) == text::ascii_lowercase(t),
{
    assert(lowered_chars(t) =~= text::ascii_lowercase(t));
}

/// The byte ranges of a name where the characters of a query appear in order.
pub fn find_match_ranges(query: &str, t: &str) -> (r: Vec<(usize, usize)>)
    ensures
        ranges_view(r@) == name_ranges(query@, t@),
        text::trim(query@).len() > 0 && is_ascii_chars(text::trim(query@)) && is_ascii_chars(t@)
            ==> ranges_view(r@) == found_ranges(
            text::ascii_lowercase(text::trim(query@)),
            text::ascii_lowercase(t@),
            t@,
        ),
{
    proof {
        if is_ascii_chars(t@) {
            lemma_lowered_ascii(t@);
        }
    }
    let trim = trimmed(query);
    if chars_of(trim.as_str()).len() == 0 {
        let none: Vec<(usize, usize)> = Vec::new();
        assert(ranges_view(none@) =~= Seq::empty());
        return none;
    }
    let fuzzy = chars_of(lowered_of(trim.as_str()).as_str());
    match_ranges(&fuzzy, &lowered_chars_of(t), t)
}

/// The characters of `a` appear in `b`, in their order.
pub open spec fn is_subsequence(a: Seq<char>, b: Seq<char>) -> bool
    decreases b.len(),
{
    if a.len() == 0 {
        true
    } else if b.len() == 0 {
        false
    } else if a.last() == b.last() {
        is_subsequence(a.drop_last(), b.drop_last())
    } else {
        is_subsequence(a, b.drop_last())
    }
}

/// A walk takes the longest start of the query that appears in the text.
proof fn lemma_walk_is_longest(
    query: Seq<char>,
    lowered: Seq<char>,
    t: Seq<char>,
    n: int,
    k: int,
)
    requires
        lowered.len() == t.len(),
        0 <= n <= t.len(),
        0 <= k <= query.len(),
    ensures
        walk(query, lowered, t, n).found <= query.len(),
        is_subsequence(query.take(k), lowered.take(n)) <==> k <= walk(query, lowered, t, n).found,
    decreases n,
{
    if n > 0 {
        let before = walk(query, lowered, t, n - 1).found;
        lemma_walk_is_longest(query, lowered, t, n - 1, k);
        assert(lowered.take(n).drop_last() =~= lowered.take(n - 1));
        if k > 0 {
            lemma_walk_is_longest(query, lowered, t, n - 1, k - 1);
            assert(query.take(k).drop_last() =~= query.take(k - 1));
        }
    }
}

/// Ranges are found just where the characters of the query, which has some, appear in the text in
/// their order.
pub proof fn law_found_iff_in_order(query: Seq<char>, lowered: Seq<char>, t: Seq<char>)
    requires
        lowered.len() == t.len(),
        query.len() > 0,
    ensures
        found_ranges(query, lowered, t).len() > 0 <==> is_subsequence(query, lowered),
{
    let n = t.len() as int;
    lemma_walk_is_longest(query, lowered, t, n, query.len() as int);
    assert(query.take(query.len() as int) =~= query);
    assert(lowered.take(n) =~= lowered);
    lemma_walk_has_ranges(query, lowered, t, n);
}

proof fn lemma_walk_has_ranges(query: Seq<char>, lowered: Seq<char>, t: Seq<char>, n: int)
    requires
        0 <= n,
    ensures
        walk(query, lowered, t, n).found > 0 ==> walked(walk(query, lowered, t, n)).len() > 0,
    decreases n,
{
    if n > 0 {
        lemma_walk_has_ranges(query, lowered, t, n - 1);
    }
}

/// The characters under some byte ranges, one range after the other.
pub open spec fn chars_under(s: Seq<char>, t: Seq<char>, ranges: Seq<(int, int)>) -> Seq<char>
    decreases ranges.len(),
{
    if ranges.len() == 0 {
        Seq::empty()
    } else {
        let (a, b) = ranges.last();
        chars_under(s, t, ranges.drop_last()) + s.subrange(
            text::floor_index(t, a),
            text::floor_index(t, b),
        )
    }
}

proof fn lemma_walk_spells(query: Seq<char>, lowered: Seq<char>, t: Seq<char>, n: int)
    requires
        lowered.len() == t.len(),
        0 <= n <= t.len(),
    ensures
        ({
            let w = walk(query, lowered, t, n);
            &&& w.found <= query.len()
            &&& chars_under(lowered, t, walked(w)) == query.take(w.found as int)
            &&& w.run matches Some((a, b)) ==> a < b && text::is_boundary(t, a) && (w.found
                < query.len() ==> b == offset(t, n)) && (exists|k: int|
                0 <= k <= n && #[trigger] offset(t, k) == b)
        }),
    decreases n,
{
    let w = walk(query, lowered, t, n);
    if n == 0 {
        assert(query.take(0) =~= Seq::empty());
    } else {
        lemma_walk_spells(query, lowered, t, n - 1);
        let before = walk(query, lowered, t, n - 1);
        if before.found >= query.len() {
            assert(w == before);
            if let Some((a, b)) = w.run {
                let k = choose|k: int| 0 <= k <= n - 1 && #[trigger] offset(t, k) == b;
                assert(0 <= k <= n && offset(t, k) == b);
            }
        } else if lowered[n - 1] == query[before.found as int] {
            text::lemma_boundary_at(t, n);
            text::lemma_boundary_at(t, n - 1);
            text::lemma_utf8_len_take(t, n - 1, n);
            assert(walked(w).drop_last() =~= w.ranges);
            assert(query.take(before.found as int).push(lowered[n - 1]) =~= query.take(
                (before.found + 1) as int,
            ));
            assert(offset(t, n) == (w.run->0).1);
            if let Some((a, b)) = before.run {
                let from = text::floor_index(t, a);
                text::lemma_floor_index(t, a);
                assert(offset(t, from) == a);
                assert(from < n) by {
                    if from >= n {
                        text::lemma_utf8_len_take(t, n - 1, from);
                    }
                }
                assert(walked(before).drop_last() =~= before.ranges);
                assert(lowered.subrange(from, n) =~= lowered.subrange(from, n - 1).push(
                    lowered[n - 1],
                ));
                assert(chars_under(lowered, t, walked(w)) =~= chars_under(
                    lowered,
                    t,
                    walked(before),
                ).push(lowered[n - 1]));
            } else {
                assert(lowered.subrange(n - 1, n) =~= seq![lowered[n - 1]]);
                assert(chars_under(lowered, t, walked(w)) =~= chars_under(
                    lowered,
                    t,
                    walked(before),
                ).push(lowered[n - 1]));
            }
        } else {
            assert(walked(w) =~= walked(before));
        }
    }
}

/// The characters under the ranges that were found spell the query.
pub proof fn law_ranges_spell_query(query: Seq<char>, lowered: Seq<char>, t: Seq<char>)
    requires
        lowered.len() == t.len(),
        is_subsequence(query, lowered),
    ensures
        chars_under(lowered, t, found_ranges(query, lowered, t)) == query,
{
    let n = t.len() as int;
    lemma_walk_is_longest(query, lowered, t, n, query.len() as int);
    assert(query.take(query.len() as int) =~= query);
    assert(lowered.take(n) =~= lowered);
    lemma_walk_spells(query, lowered, t, n);
}

proof fn lemma_walk_apart(query: Seq<char>, lowered: Seq<char>, t: Seq<char>, n: int)
    requires
        0 <= n <= t.len(),
    ensures
        ({
            let w = walk(query, lowered, t, n);
            let all = walked(w);
            &&& forall|i: int|
                0 <= i < all.len() ==> 0 <= (#[trigger] all[i]).0 < all[i].1 <= offset(t, n)
                    && text::is_boundary(t, all[i].0) && text::is_boundary(t, all[i].1)
            &&& forall|i: int, j: int|
                0 <= i < j < all.len() ==> (#[trigger] all[i]).1 < (#[trigger] all[j]).0
            &&& w.run is None && w.found < query.len() ==> forall|i: int|
                0 <= i < all.len() ==> (#[trigger] all[i]).1 < offset(t, n)
            &&& w.run matches Some((a, b)) ==> w.found < query.len() ==> b == offset(t, n)
        }),
    decreases n,
{
    let w = walk(query, lowered, t, n);
    let all = walked(w);
    if n > 0 {
        lemma_walk_apart(query, lowered, t, n - 1);
        let before = walk(query, lowered, t, n - 1);
        let earlier = walked(before);
        text::lemma_boundary_at(t, n);
        text::lemma_boundary_at(t, n - 1);
        text::lemma_utf8_len_take(t, n - 1, n);
        assert(offset(t, n - 1) < offset(t, n));
        if before.found < query.len() {
            if lowered[n - 1] == query[before.found as int] {
                let k = w.ranges.len() as int;
                assert forall|i: int| 0 <= i < k implies #[trigger] all[i] == earlier[i] by {}
                if let Some((a, b)) = before.run {
                    assert(earlier[k] == (a, b));
                }
            } else {
                assert(all =~= earlier);
            }
        } else {
            assert(all == earlier);
        }
    }
}

/// The ranges that were found lie inside the text, hold whole characters, and come in order with a
/// gap between neighbours.
pub proof fn law_ranges_lie_apart(query: Seq<char>, lowered: Seq<char>, t: Seq<char>)
    ensures
        ({
            let ranges = found_ranges(query, lowered, t);
            &&& forall|i: int|
                0 <= i < ranges.len() ==> 0 <= (#[trigger] ranges[i]).0 < ranges[i].1
                    <= text::utf8_len(t) && text::is_boundary(t, ranges[i].0)
                    && text::is_boundary(t, ranges[i].1)
            &&& forall|i: int, j: int|
                0 <= i < j < ranges.len() ==> (#[trigger] ranges[i]).1 < (#[trigger] ranges[j]).0
        }),
{
    lemma_walk_apart(query, lowered, t, t.len() as int);
    assert(t.take(t.len() as int) =~= t);
}

/// A piece of a text for display.
#[derive(Debug)]
pub struct Segment {
    pub text: String,
    pub matched: bool,
}

pub open spec fn segments_view(v: Seq<Segment>) -> Seq<(Seq<char>, bool)> {
    v.map_values(|s: Segment| (s.text@, s.matched))
}

/// The characters that byte ranges touch, as index ranges, in the order of the ranges. Ranges that
/// touch none are dropped.
pub open spec fn index_ranges(t: Seq<char>, ranges: Seq<(usize, usize)>) -> Seq<(int, int)>
    decreases ranges.len(),
{
    if ranges.len() == 0 {
        Seq::empty()
    } else {
        let from = text::floor_index(t, ranges.last().0 as int);
        let to = text::ceil_index(t, ranges.last().1 as int);
        let earlier = index_ranges(t, ranges.drop_last());
        if from < to {
            earlier.push((from, to))
        } else {
            earlier
        }
    }
}

pub open spec fn comes_after(a: (int, int), b: (int, int)) -> bool {
    a.0 > b.0 || (a.0 == b.0 && a.1 > b.1)
}

/// A range put into a list in order, behind those that do not come after it.
pub open spec fn placed(sorted: Seq<(int, int)>, range: (int, int)) -> Seq<(int, int)>
    decreases sorted.len(),
{
    if sorted.len() > 0 && comes_after(sorted.last(), range) {
        placed(sorted.drop_last(), range).push(sorted.last())
    } else {
        sorted.push(range)
    }
}

/// The ranges in order of their starts, and then of their ends.
pub open spec fn ordered(ranges: Seq<(int, int)>) -> Seq<(int, int)>
    decreases ranges.len(),
{
    if ranges.len() == 0 {
        Seq::empty()
    } else {
        placed(ordered(ranges.drop_last()), ranges.last())
    }
}

/// A text from index `last` on, cut up by ranges in order: a range is a match unless it begins
/// before the end of the match before it.
pub open spec fn segments_from(
    t: Seq<char>,
    ranges: Seq<(int, int)>,
    last: int,
) -> Seq<(Seq<char>, bool)>
    decreases ranges.len(),
{
    if ranges.len() == 0 {
        if last < t.len() {
            seq![(t.skip(last), false)]
        } else {
            Seq::empty()
        }
    } else {
        let (from, to) = ranges[0];
        let rest = ranges.drop_first();
        if from < last {
            segments_from(t, rest, last)
        } else if from > last {
            seq![(t.subrange(last, from), false), (t.subrange(from, to), true)] + segments_from(
                t,
                rest,
                to,
            )
        } else {
            seq![(t.subrange(from, to), true)] + segments_from(t, rest, to)
        }
    }
}

/// The pieces in which a text with matches is shown. A text without matches is one piece.
pub open spec fn segments(t: Seq<char>, ranges: Seq<(usize, usize)>) -> Seq<(Seq<char>, bool)> {
    let sorted = ordered(index_ranges(t, ranges));
    if sorted.len() == 0 {
        seq![(t, false)]
    } else {
        segments_from(t, sorted, 0)
    }
}

proof fn lemma_placed_at(sorted: Seq<(int, int)>, range: (int, int), p: int)
    requires
        0 <= p <= sorted.len(),
        p > 0 ==> !comes_after(sorted[p - 1], range),
        forall|k: int| p <= k < sorted.len() ==> comes_after(#[trigger] sorted[k], range),
    ensures
        placed(sorted, range) == sorted.insert(p, range),
    decreases sorted.len(),
{
    if p < sorted.len() {
        let front = sorted.drop_last();
        assert forall|k: int| p <= k < front.len() implies comes_after(
            #[trigger] front[k],
            range,
        ) by {
            assert(front[k] == sorted[k]);
        }
        assert(p > 0 ==> front[p - 1] == sorted[p - 1]);
        lemma_placed_at(front, range, p);
        assert(comes_after(sorted[sorted.len() - 1], range));
        assert(front.insert(p, range).push(sorted.last()) =~= sorted.insert(p, range));
    } else {
        assert(sorted.push(range) =~= sorted.insert(p, range));
    }
}

fn place_range(sorted: &mut Vec<(usize, usize)>, range: (usize, usize))
    ensures
        ranges_view(final(sorted)@) == placed(
            ranges_view(old(sorted)@),
            (range.0 as int, range.1 as int),
        ),
{
    let ghost before = ranges_view(sorted@);
    let ghost added = (range.0 as int, range.1 as int);
    let mut p: usize = sorted.len();
    while p > 0 && (sorted[p - 1].0 > range.0 || (sorted[p - 1].0 == range.0 && sorted[p - 1].1
        > range.1))
        invariant
            p <= sorted.len(),
            before == ranges_view(sorted@),
            added == (range.0 as int, range.1 as int),
            forall|k: int| p <= k < before.len() ==> comes_after(#[trigger] before[k], added),
        decreases p,
    {
        p -= 1;
        assert(before[p as int] == (sorted@[p as int].0 as int, sorted@[p as int].1 as int));
    }
    proof {
        if p > 0 {
            assert(before[p - 1] == (sorted@[p - 1].0 as int, sorted@[p - 1].1 as int));
        }
        lemma_placed_at(before, added, p as int);
    }
    sorted.insert(p, range);
    assert(ranges_view(sorted@) =~= before.insert(p as int, added));
}

/// The index ranges that byte ranges touch, in order.
fn ordered_ranges(chars: &Vec<char>, ranges: &Vec<(usize, usize)>) -> (r: Vec<(usize, usize)>)
    ensures
        ranges_view(r@) == ordered(index_ranges(chars@, ranges@)),
        forall|i: int| 0 <= i < r.len() ==> (#[trigger] r@[i]).0 < r@[i].1 <= chars.len(),
{
    let mut r: Vec<(usize, usize)> = Vec::new();
    let mut i: usize = 0;
    assert(ranges@.take(0) =~= Seq::empty());
    assert(ranges_view(r@) =~= Seq::empty());
    while i < ranges.len()
        invariant
            i <= ranges.len(),
            ranges_view(r@) == ordered(index_ranges(chars@, ranges@.take(i as int))),
        decreases ranges.len() - i,
    {
        assert(ranges@.take(i + 1).drop_last() =~= ranges@.take(i as int));
        assert(ranges@.take(i + 1).last() == ranges@[i as int]);
        let (from, _) = floor_index_of(chars, ranges[i].0);
        let to = ceil_index_of(chars, ranges[i].1);
        if from < to {
            let ghost earlier = index_ranges(chars@, ranges@.take(i as int));
            assert(earlier.push((from as int, to as int)).drop_last() =~= earlier);
            place_range(&mut r, (from, to));
        }
        i += 1;
    }
    assert(ranges@.take(i as int) =~= ranges@);
    proof {
        lemma_index_ranges_ok(chars@, ranges@);
        lemma_ordered_ok(index_ranges(chars@, ranges@), chars@.len() as int);
        assert forall|k: int| 0 <= k < r.len() implies (#[trigger] r@[k]).0 < r@[k].1
            <= chars.len() by {
            let view = ranges_view(r@);
            assert(view[k].0 < view[k].1 <= chars@.len());
        }
    }
    r
}

/// The ranges are not empty and lie in a text of length `n`.
pub open spec fn ranges_in(ranges: Seq<(int, int)>, n: int) -> bool {
    forall|i: int| 0 <= i < ranges.len() ==> 0 <= (#[trigger] ranges[i]).0 < ranges[i].1 <= n
}

proof fn lemma_index_ranges_ok(t: Seq<char>, ranges: Seq<(usize, usize)>)
    ensures
        ranges_in(index_ranges(t, ranges), t.len() as int),
    decreases ranges.len(),
{
    if ranges.len() > 0 {
        lemma_index_ranges_ok(t, ranges.drop_last());
        text::lemma_floor_index(t, ranges.last().0 as int);
        text::lemma_floor_index(t, ranges.last().1 as int);
    }
}

proof fn lemma_placed_ok(sorted: Seq<(int, int)>, range: (int, int), n: int)
    requires
        ranges_in(sorted, n),
        0 <= range.0 < range.1 <= n,
    ensures
        ranges_in(placed(sorted, range), n),
    decreases sorted.len(),
{
    if sorted.len() > 0 && comes_after(sorted.last(), range) {
        let front = sorted.drop_last();
        assert forall|i: int| 0 <= i < front.len() implies 0 <= (#[trigger] front[i]).0
            < front[i].1 <= n by {
            assert(front[i] == sorted[i]);
        }
        lemma_placed_ok(front, range, n);
        assert(0 <= sorted[sorted.len() - 1].0 < sorted[sorted.len() - 1].1 <= n);
    }
}

proof fn lemma_ordered_ok(ranges: Seq<(int, int)>, n: int)
    requires
        ranges_in(ranges, n),
    ensures
        ranges_in(ordered(ranges), n),
    decreases ranges.len(),
{
    if ranges.len() > 0 {
        let front = ranges.drop_last();
        assert forall|i: int| 0 <= i < front.len() implies 0 <= (#[trigger] front[i]).0
            < front[i].1 <= n by {
            assert(front[i] == ranges[i]);
        }
        lemma_ordered_ok(front, n);
        assert(0 <= ranges[ranges.len() - 1].0 < ranges[ranges.len() - 1].1 <= n);
        lemma_placed_ok(ordered(front), ranges.last(), n);
    }
}

fn push_segment(out: &mut Vec<Segment>, chars: &Vec<char>, from: usize, to: usize, matched: bool)
    requires
        from <= to <= chars.len(),
    ensures
        segments_view(final(out)@) == segments_view(old(out)@).push(
            (chars@.subrange(from as int, to as int), matched),
        ),
{
    let ghost before = segments_view(out@);
    let segment = Segment { text: slice_text(chars, from, to), matched };
    out.push(segment);
    assert(segments_view(out@) =~= before.push((segment.text@, matched)));
}

/// Cuts a text up into the pieces that match and those that do not.
pub fn render_highlighted(t: &str, ranges: &Vec<(usize, usize)>) -> (r: Vec<Segment>)
    ensures
        segments_view(r@) == segments(t@, ranges@),
{
    let chars = chars_of(t);
    let n = chars.len();
    let sorted = ordered_ranges(&chars, ranges);
    let mut out: Vec<Segment> = Vec::new();
    assert(segments_view(out@) =~= Seq::empty());
    if sorted.len() == 0 {
        push_segment(&mut out, &chars, 0, n, false);
        assert(chars@.subrange(0, n as int) =~= t@);
        return out;
    }
    let ghost target = segments(t@, ranges@);
    let ghost all = ranges_view(sorted@);
    let mut last: usize = 0;
    let mut i: usize = 0;
    assert(all.skip(0) =~= all);
    assert(segments_view(out@) + target =~= target);
    while i < sorted.len()
        invariant
            i <= sorted.len(),
            last <= n == chars.len(),
            chars@ == t@,
            all == ranges_view(sorted@),
            forall|k: int|
                0 <= k < sorted.len() ==> (#[trigger] sorted@[k]).0 < sorted@[k].1 <= n,
            target == segments_view(out@) + segments_from(t@, all.skip(i as int), last as int),
        decreases sorted.len() - i,
    {
        let (from, to) = sorted[i];
        let ghost before = segments_view(out@);
        let ghost rest = all.skip(i as int);
        assert(rest[0] == (from as int, to as int));
        assert(rest.drop_first() =~= all.skip(i + 1));
        assert(sorted@[i as int].0 < sorted@[i as int].1 <= n);
        if from >= last {
            if from > last {
                push_segment(&mut out, &chars, last, from, false);
            }
            push_segment(&mut out, &chars, from, to, true);
            assert(target =~= segments_view(out@) + segments_from(
                t@,
                rest.drop_first(),
                to as int,
            ));
            last = to;
        }
        i += 1;
    }
    assert(all.skip(i as int) =~= Seq::empty());
    if last < n {
        assert(chars@.subrange(last as int, n as int) =~= t@.skip(last as int));
        push_segment(&mut out, &chars, last, n, false);
    }
    assert(segments_view(out@) =~= target);
    out
}

/// The text of some pieces.
pub open spec fn segments_text(pieces: Seq<(Seq<char>, bool)>) -> Seq<char>
    decreases pieces.len(),
{
    if pieces.len() == 0 {
        Seq::empty()
    } else {
        pieces[0].0 + segments_text(pieces.drop_first())
    }
}

proof fn lemma_segments_from_text(t: Seq<char>, ranges: Seq<(int, int)>, last: int)
    requires
        0 <= last <= t.len(),
        ranges_in(ranges, t.len() as int),
    ensures
        segments_text(segments_from(t, ranges, last)) == t.skip(last),
    decreases ranges.len(),
{
    let pieces = segments_from(t, ranges, last);
    if ranges.len() == 0 {
        if last < t.len() {
            assert(pieces.drop_first() =~= Seq::empty());
            assert(segments_text(pieces.drop_first()) =~= Seq::empty());
            assert(segments_text(pieces) =~= t.skip(last));
        } else {
            assert(t.skip(last) =~= Seq::empty());
        }
    } else {
        let (from, to) = ranges[0];
        let rest = ranges.drop_first();
        assert forall|i: int| 0 <= i < rest.len() implies 0 <= (#[trigger] rest[i]).0 < rest[i].1
            <= t.len() by {
            assert(rest[i] == ranges[i + 1]);
        }
        if from < last {
            lemma_segments_from_text(t, rest, last);
        } else {
            lemma_segments_from_text(t, rest, to);
            let after = segments_from(t, rest, to);
            let hit = seq![(t.subrange(from, to), true)] + after;
            assert(hit.drop_first() =~= after);
            assert(segments_text(hit) =~= t.skip(from));
            if from > last {
                assert(pieces.drop_first() =~= hit);
                assert(segments_text(pieces) =~= t.skip(last));
            } else {
                assert(pieces =~= hit);
            }
        }
    }
}

/// The pieces of a text make up the text.
pub proof fn law_segments_keep_text(t: Seq<char>, ranges: Seq<(usize, usize)>)
    ensures
        segments_text(segments(t, ranges)) == t,
{
    let sorted = ordered(index_ranges(t, ranges));
    lemma_index_ranges_ok(t, ranges);
    lemma_ordered_ok(index_ranges(t, ranges), t.len() as int);
    if sorted.len() == 0 {
        let pieces = seq![(t, false)];
        assert(pieces.drop_first() =~= Seq::empty());
        assert(segments_text(pieces.drop_first()) =~= Seq::empty());
        assert(segments_text(pieces) =~= t);
    } else {
        lemma_segments_from_text(t, sorted, 0);
        assert(t.skip(0) =~= t);
    }
}

/// A byte lies in one of the ranges.
pub open spec fn covers(ranges: Seq<(int, int)>, b: int) -> bool {
    exists|j: int| 0 <= j < ranges.len() && (#[trigger] ranges[j]).0 <= b < ranges[j].1
}

/// The number of characters under some ranges among the first `n`.
pub open spec fn taken_before(ranges: Seq<(int, int)>, t: Seq<char>, n: int) -> int
    decreases n,
{
    if n <= 0 {
        0
    } else {
        taken_before(ranges, t, n - 1) + if covers(ranges, offset(t, n - 1)) {
            1int
        } else {
            0
        }
    }
}

/// One more range covers what it holds.
pub proof fn lemma_covers_push(ranges: Seq<(int, int)>, range: (int, int), b: int)
    ensures
        covers(ranges.push(range), b) <==> covers(ranges, b) || range.0 <= b < range.1,
{
    let more = ranges.push(range);
    if covers(ranges, b) {
        let j = choose|j: int|
            0 <= j < ranges.len() && (#[trigger] ranges[j]).0 <= b < ranges[j].1;
        assert(more[j] == ranges[j]);
    }
    if range.0 <= b < range.1 {
        assert(more[ranges.len() as int] == range);
    }
    if covers(more, b) {
        let j = choose|j: int| 0 <= j < more.len() && (#[trigger] more[j]).0 <= b < more[j].1;
        if j < ranges.len() {
            assert(ranges[j] == more[j]);
        }
    }
}

/// A walk has under its ranges just the characters that it took.
proof fn lemma_walk_covers(query: Seq<char>, lowered: Seq<char>, t: Seq<char>, m: int, i: int)
    requires
        0 <= m <= t.len(),
        0 <= i < t.len(),
    ensures
        covers(walked(walk(query, lowered, t, m)), offset(t, i)) <==> i < m && walk(
            query,
            lowered,
            t,
            i + 1,
        ).found > walk(query, lowered, t, i).found,
    decreases m,
{
    let w = walk(query, lowered, t, m);
    let at = offset(t, i);
    if m > 0 {
        let n = m - 1;
        lemma_walk_covers(query, lowered, t, n, i);
        lemma_walk_apart(query, lowered, t, n);
        let before = walk(query, lowered, t, n);
        text::lemma_utf8_len_take(t, n, m);
        if i < n {
            text::lemma_utf8_len_take(t, i, n);
        } else if i > n {
            text::lemma_utf8_len_take(t, m, i);
        }
        if before.found < query.len() {
            if lowered[n] == query[before.found as int] {
                let now = w.run->0;
                lemma_covers_push(before.ranges, now, at);
                if let Some(range) = before.run {
                    lemma_covers_push(before.ranges, range, at);
                    assert(walked(before)[before.ranges.len() as int] == range);
                }
            } else {
                assert(walked(w) =~= walked(before));
            }
        }
    }
}

proof fn lemma_taken_is_found(query: Seq<char>, lowered: Seq<char>, t: Seq<char>, n: int)
    requires
        0 <= n <= t.len(),
    ensures
        taken_before(walked(walk(query, lowered, t, t.len() as int)), t, n) == walk(
            query,
            lowered,
            t,
            n,
        ).found,
    decreases n,
{
    if n > 0 {
        lemma_taken_is_found(query, lowered, t, n - 1);
        lemma_walk_covers(query, lowered, t, t.len() as int, n - 1);
    }
}

/// The characters of a query are found as early as can be: under the ranges lie, among the first
/// `n` characters of the text, as many as the longest start of the query has that appears there in
/// its order.
pub proof fn law_matches_are_earliest(
    query: Seq<char>,
    lowered: Seq<char>,
    t: Seq<char>,
    n: int,
)
    requires
        lowered.len() == t.len(),
        is_subsequence(query, lowered),
        0 <= n <= t.len(),
    ensures
        ({
            let k = taken_before(found_ranges(query, lowered, t), t, n);
            &&& 0 <= k <= query.len()
            &&& is_subsequence(query.take(k), lowered.take(n))
            &&& k < query.len() ==> !is_subsequence(query.take(k + 1), lowered.take(n))
        }),
{
    let all = t.len() as int;
    lemma_walk_is_longest(query, lowered, t, all, query.len() as int);
    assert(query.take(query.len() as int) =~= query);
    assert(lowered.take(all) =~= lowered);
    lemma_taken_is_found(query, lowered, t, n);
    let k = walk(query, lowered, t, n).found as int;
    lemma_walk_is_longest(query, lowered, t, n, 0);
    lemma_walk_is_longest(query, lowered, t, n, k);
    if k < query.len() {
        lemma_walk_is_longest(query, lowered, t, n, k + 1);
    }
}

/// White space around a query makes no difference to where it matches, nor does the case of ASCII
/// letters in the query or the name.
pub proof fn law_case_makes_no_difference(query: Seq<char>, t: Seq<char>, q: Seq<char>, u: Seq<char>)
    requires
        is_ascii_chars(text::trim(query)),
        is_ascii_chars(text::trim(q)),
        is_ascii_chars(t),
        is_ascii_chars(u),
        text::ascii_lowercase(text::trim(query)) == text::ascii_lowercase(text::trim(q)),
        text::ascii_lowercase(t) == text::ascii_lowercase(u),
    ensures
        name_ranges(query, t) == name_ranges(q, u),
{
    lemma_lowered_ascii(t);
    lemma_lowered_ascii(u);
    assert(text::ascii_lowercase(text::trim(query)).len() == text::trim(query).len());
    assert(text::ascii_lowercase(text::trim(q)).len() == text::trim(q).len());
    assert(text::ascii_lowercase(t).len() == t.len());
    assert(text::ascii_lowercase(u).len() == u.len());
    let (a, b) = (text::ascii_lowercase(text::trim(query)), text::ascii_lowercase(t));
    lemma_walk_of_ascii(a, b, t, u, t.len() as int);
}

proof fn lemma_walk_of_ascii(
    query: Seq<char>,
    lowered: Seq<char>,
    t: Seq<char>,
    u: Seq<char>,
    n: int,
)
    requires
        is_ascii_chars(t),
        is_ascii_chars(u),
        t.len() == u.len(),
        0 <= n <= t.len(),
    ensures
        walk(query, lowered, t, n) == walk(query, lowered, u, n),
    decreases n,
{
    if n > 0 {
        lemma_walk_of_ascii(query, lowered, t, u, n - 1);
        text::lemma_ascii_size(t.take(n));
        text::lemma_ascii_size(u.take(n));
        text::lemma_ascii_size(t.take(n - 1));
        text::lemma_ascii_size(u.take(n - 1));
    }
}

/// The characters of some pieces, each with whether it is in a match.
pub open spec fn flagged(pieces: Seq<(Seq<char>, bool)>) -> Seq<(char, bool)>
    decreases pieces.len(),
{
    if pieces.len() == 0 {
        Seq::empty()
    } else {
        pieces[0].0.map_values(|c: char| (c, pieces[0].1)) + flagged(pieces.drop_first())
    }
}

/// A byte range touches a character: it has a byte of it.
pub open spec fn touches(t: Seq<char>, range: (usize, usize), k: int) -> bool {
    range.0 < range.1 && offset(t, k) < range.1 && range.0 < offset(t, k + 1)
}

spec fn ascending(ranges: Seq<(int, int)>) -> bool {
    forall|i: int, j: int|
        0 <= i < j < ranges.len() ==> (#[trigger] ranges[i]).1 <= (#[trigger] ranges[j]).0
}

spec fn clear_of(a: (int, int), b: (int, int)) -> bool {
    a.1 <= b.0 || b.1 <= a.0
}

proof fn lemma_placed_members(sorted: Seq<(int, int)>, range: (int, int))
    ensures
        placed(sorted, range).len() == sorted.len() + 1,
        forall|i: int|
            0 <= i < placed(sorted, range).len() ==> sorted.contains(
                #[trigger] placed(sorted, range)[i],
            ) || placed(sorted, range)[i] == range,
        forall|b: int| covers(placed(sorted, range), b) <==> covers(sorted, b) || range.0 <= b
            < range.1,
    decreases sorted.len(),
{
    let after = placed(sorted, range);
    if sorted.len() > 0 && comes_after(sorted.last(), range) {
        let front = sorted.drop_last();
        let inner = placed(front, range);
        lemma_placed_members(front, range);
        assert forall|i: int| 0 <= i < after.len() implies sorted.contains(#[trigger] after[i])
            || after[i] == range by {
            if i < inner.len() {
                assert(after[i] == inner[i]);
                if front.contains(inner[i]) {
                    let k = choose|k: int| 0 <= k < front.len() && front[k] == inner[i];
                    assert(sorted[k] == inner[i]);
                }
            } else {
                assert(sorted[sorted.len() - 1] == after[i]);
            }
        }
        assert forall|b: int| covers(after, b) <==> covers(sorted, b) || range.0 <= b
            < range.1 by {
            lemma_covers_push(inner, sorted.last(), b);
            lemma_covers_push(front, sorted.last(), b);
            assert(front.push(sorted.last()) =~= sorted);
        }
    } else {
        assert forall|i: int| 0 <= i < after.len() implies sorted.contains(#[trigger] after[i])
            || after[i] == range by {
            if i < sorted.len() {
                assert(sorted[i] == after[i]);
            }
        }
        assert forall|b: int| covers(after, b) <==> covers(sorted, b) || range.0 <= b
            < range.1 by {
            lemma_covers_push(sorted, range, b);
        }
    }
}

proof fn lemma_placed_ascending(sorted: Seq<(int, int)>, range: (int, int))
    requires
        ascending(sorted),
        range.0 < range.1,
        forall|i: int|
            0 <= i < sorted.len() ==> (#[trigger] sorted[i]).0 < sorted[i].1 && clear_of(
                sorted[i],
                range,
            ),
    ensures
        ascending(placed(sorted, range)),
    decreases sorted.len(),
{
    let after = placed(sorted, range);
    if sorted.len() > 0 && comes_after(sorted.last(), range) {
        let front = sorted.drop_last();
        let inner = placed(front, range);
        let last = sorted.last();
        assert(clear_of(sorted[sorted.len() - 1], range));
        assert forall|i: int| 0 <= i < front.len() implies (#[trigger] front[i]).0 < front[i].1
            && clear_of(front[i], range) by {
            assert(front[i] == sorted[i]);
        }
        assert(ascending(front)) by {
            assert forall|i: int, j: int| 0 <= i < j < front.len() implies (#[trigger] front[i]).1
                <= (#[trigger] front[j]).0 by {
                assert(front[i] == sorted[i] && front[j] == sorted[j]);
            }
        }
        lemma_placed_ascending(front, range);
        lemma_placed_members(front, range);
        assert forall|i: int, j: int| 0 <= i < j < after.len() implies (#[trigger] after[i]).1 <= (
        #[trigger] after[j]).0 by {
            if j < inner.len() {
                assert(after[i] == inner[i] && after[j] == inner[j]);
            } else {
                assert(after[i] == inner[i] && after[j] == last);
                if inner[i] != range {
                    let k = choose|k: int| 0 <= k < front.len() && front[k] == inner[i];
                    assert(sorted[k].1 <= sorted[sorted.len() - 1].0);
                }
            }
        }
    } else {
        assert forall|i: int, j: int| 0 <= i < j < after.len() implies (#[trigger] after[i]).1 <= (
        #[trigger] after[j]).0 by {
            if j < sorted.len() {
                assert(after[i] == sorted[i] && after[j] == sorted[j]);
            } else {
                let n = sorted.len() - 1;
                assert(clear_of(sorted[n], range));
                assert(clear_of(sorted[i], range));
                if i < n {
                    assert(sorted[i].1 <= sorted[n].0);
                }
            }
        }
    }
}

proof fn lemma_ordered_members(ranges: Seq<(int, int)>)
    ensures
        forall|i: int|
            0 <= i < ordered(ranges).len() ==> ranges.contains(#[trigger] ordered(ranges)[i]),
        forall|b: int| covers(ordered(ranges), b) <==> covers(ranges, b),
        ordered(ranges).len() == ranges.len(),
    decreases ranges.len(),
{
    if ranges.len() > 0 {
        let front = ranges.drop_last();
        lemma_ordered_members(front);
        lemma_placed_members(ordered(front), ranges.last());
        let after = ordered(ranges);
        assert forall|i: int| 0 <= i < after.len() implies ranges.contains(#[trigger] after[i]) by {
            if ordered(front).contains(after[i]) {
                let k = choose|k: int| 0 <= k < ordered(front).len() && ordered(front)[k]
                    == after[i];
                assert(front.contains(ordered(front)[k]));
                let m = choose|m: int| 0 <= m < front.len() && front[m] == after[i];
                assert(ranges[m] == after[i]);
            } else {
                assert(ranges[ranges.len() - 1] == after[i]);
            }
        }
        assert forall|b: int| covers(after, b) <==> covers(ranges, b) by {
            lemma_covers_push(front, ranges.last(), b);
            assert(front.push(ranges.last()) =~= ranges);
        }
    }
}

proof fn lemma_ordered_ascending(ranges: Seq<(int, int)>)
    requires
        forall|i: int| 0 <= i < ranges.len() ==> (#[trigger] ranges[i]).0 < ranges[i].1,
        forall|i: int, j: int|
            0 <= i < j < ranges.len() ==> clear_of(#[trigger] ranges[i], #[trigger] ranges[j]),
    ensures
        ascending(ordered(ranges)),
    decreases ranges.len(),
{
    if ranges.len() > 0 {
        let front = ranges.drop_last();
        let n = ranges.len() - 1;
        assert forall|i: int| 0 <= i < front.len() implies (#[trigger] front[i]).0 < front[i].1 by {
            assert(front[i] == ranges[i]);
        }
        assert forall|i: int, j: int| 0 <= i < j < front.len() implies clear_of(
            #[trigger] front[i],
            #[trigger] front[j],
        ) by {
            assert(front[i] == ranges[i] && front[j] == ranges[j]);
        }
        lemma_ordered_ascending(front);
        lemma_ordered_members(front);
        let sorted = ordered(front);
        assert forall|i: int| 0 <= i < sorted.len() implies (#[trigger] sorted[i]).0 < sorted[i].1
            && clear_of(sorted[i], ranges.last()) by {
            assert(front.contains(sorted[i]));
            let k = choose|k: int| 0 <= k < front.len() && front[k] == sorted[i];
            assert(clear_of(ranges[k], ranges[n]));
            assert(ranges[k].0 < ranges[k].1);
        }
        assert(ranges[n].0 < ranges[n].1);
        lemma_placed_ascending(sorted, ranges.last());
    }
}

proof fn lemma_flagged_push(first: (Seq<char>, bool), rest: Seq<(Seq<char>, bool)>)
    ensures
        flagged(seq![first] + rest) == first.0.map_values(|c: char| (c, first.1)) + flagged(rest),
{
    let all = seq![first] + rest;
    assert(all.drop_first() =~= rest);
    assert(all[0] == first);
}

proof fn lemma_segments_flag(t: Seq<char>, ranges: Seq<(int, int)>, last: int, k: int)
    requires
        0 <= last <= k < t.len(),
        ranges_in(ranges, t.len() as int),
        ascending(ranges),
        ranges.len() > 0 ==> last <= ranges[0].0,
    ensures
        flagged(segments_from(t, ranges, last)).len() == t.len() - last,
        flagged(segments_from(t, ranges, last))[k - last] == (t[k], covers(ranges, k)),
    decreases ranges.len(),
{
    let pieces = segments_from(t, ranges, last);
    if ranges.len() == 0 {
        assert(pieces.drop_first() =~= Seq::empty());
        assert(flagged(pieces.drop_first()) =~= Seq::empty());
        assert(flagged(pieces) =~= t.skip(last).map_values(|c: char| (c, false)));
    } else {
        let (from, to) = ranges[0];
        let rest = ranges.drop_first();
        let tail = segments_from(t, rest, to);
        assert forall|i: int| 0 <= i < rest.len() implies 0 <= (#[trigger] rest[i]).0 < rest[i].1
            <= t.len() by {
            assert(rest[i] == ranges[i + 1]);
        }
        assert forall|i: int, j: int| 0 <= i < j < rest.len() implies (#[trigger] rest[i]).1 <= (
        #[trigger] rest[j]).0 by {
            assert(rest[i] == ranges[i + 1] && rest[j] == ranges[j + 1]);
        }
        if rest.len() > 0 {
            assert(ranges[0].1 <= ranges[1].0);
        }
        let hit = t.subrange(from, to);
        let gap = t.subrange(last, from);
        lemma_flagged_push((hit, true), tail);
        if to < t.len() {
            lemma_segments_flag(t, rest, to, if k >= to {
                k
            } else {
                to
            });
        } else {
            lemma_segments_end(t, rest, to);
        }
        if from > last {
            lemma_flagged_push((gap, false), seq![(hit, true)] + tail);
            assert(pieces =~= seq![(gap, false)] + (seq![(hit, true)] + tail));
        } else {
            assert(pieces =~= seq![(hit, true)] + tail);
            assert(gap =~= Seq::empty());
        }
        assert(ranges =~= seq![(from, to)] + rest);
        assert(covers(ranges, k) <==> from <= k < to || covers(rest, k)) by {
            if covers(rest, k) {
                let j = choose|j: int|
                    0 <= j < rest.len() && (#[trigger] rest[j]).0 <= k < rest[j].1;
                assert(ranges[j + 1] == rest[j]);
            }
            if from <= k < to {
                assert(ranges[0].0 <= k < ranges[0].1);
            }
            if covers(ranges, k) {
                let j = choose|j: int|
                    0 <= j < ranges.len() && (#[trigger] ranges[j]).0 <= k < ranges[j].1;
                if j > 0 {
                    assert(rest[j - 1] == ranges[j]);
                }
            }
        }
        if k < to && covers(rest, k) {
            let j = choose|j: int| 0 <= j < rest.len() && (#[trigger] rest[j]).0 <= k < rest[j].1;
            assert(ranges[0].1 <= ranges[j + 1].0);
        }
    }
}

proof fn lemma_segments_end(t: Seq<char>, ranges: Seq<(int, int)>, last: int)
    requires
        last == t.len(),
        ranges_in(ranges, t.len() as int),
        ranges.len() > 0 ==> last <= ranges[0].0,
    ensures
        flagged(segments_from(t, ranges, last)).len() == 0,
{
    if ranges.len() > 0 {
        assert(ranges[0].0 < ranges[0].1);
    }
}

proof fn lemma_touched_index(t: Seq<char>, range: (usize, usize), k: int)
    requires
        0 <= k < t.len(),
    ensures
        ({
            let from = text::floor_index(t, range.0 as int);
            let to = text::ceil_index(t, range.1 as int);
            touches(t, range, k) <==> range.0 < range.1 && from <= k < to
        }),
{
    let from = text::floor_index(t, range.0 as int);
    let low = text::floor_index(t, range.1 as int);
    text::lemma_floor_index(t, range.0 as int);
    text::lemma_floor_index(t, range.1 as int);
    if k < from {
        text::lemma_utf8_len_take(t, k + 1, from);
    } else if from < t.len() {
        text::lemma_utf8_len_take(t, from + 1, k + 1);
    }
    if k < low {
        text::lemma_utf8_len_take(t, k, low);
    } else if low < k {
        text::lemma_utf8_len_take(t, low + 1, k);
    }
    text::lemma_utf8_len_take(t, k, k + 1);
}

proof fn lemma_index_ranges(t: Seq<char>, ranges: Seq<(usize, usize)>)
    requires
        forall|i: int| 0 <= i < ranges.len() ==> (#[trigger] ranges[i]).0 < ranges[i].1,
    ensures
        forall|k: int|
            0 <= k < t.len() ==> (#[trigger] covers(index_ranges(t, ranges), k) <==> exists|j: int|
                0 <= j < ranges.len() && touches(t, #[trigger] ranges[j], k)),
        forall|i: int|
            0 <= i < index_ranges(t, ranges).len() ==> exists|j: int|
                0 <= j < ranges.len() && (#[trigger] index_ranges(t, ranges)[i]) == (
                text::floor_index(t, (#[trigger] ranges[j]).0 as int),
                text::ceil_index(t, ranges[j].1 as int),
                ),
    decreases ranges.len(),
{
    let all = index_ranges(t, ranges);
    if ranges.len() > 0 {
        let front = ranges.drop_last();
        let n = ranges.len() - 1;
        assert forall|i: int| 0 <= i < front.len() implies (#[trigger] front[i]).0 < front[i].1 by {
            assert(front[i] == ranges[i]);
        }
        lemma_index_ranges(t, front);
        let earlier = index_ranges(t, front);
        let last = ranges[n];
        let one = (text::floor_index(t, last.0 as int), text::ceil_index(t, last.1 as int));
        assert forall|k: int| 0 <= k < t.len() implies (#[trigger] covers(all, k) <==> exists|j: int|
            0 <= j < ranges.len() && touches(t, #[trigger] ranges[j], k)) by {
            lemma_touched_index(t, last, k);
            lemma_covers_push(earlier, one, k);
            if covers(earlier, k) {
                let j = choose|j: int| 0 <= j < front.len() && touches(t, #[trigger] front[j], k);
                assert(touches(t, ranges[j], k));
            }
            if touches(t, last, k) {
                assert(touches(t, ranges[n], k));
            }
            if exists|j: int| 0 <= j < ranges.len() && touches(t, #[trigger] ranges[j], k) {
                let j = choose|j: int|
                    0 <= j < ranges.len() && touches(t, #[trigger] ranges[j], k);
                if j < n {
                    assert(touches(t, front[j], k));
                }
            }
        }
        assert forall|i: int| 0 <= i < all.len() implies exists|j: int|
            0 <= j < ranges.len() && (#[trigger] all[i]) == (
            text::floor_index(t, (#[trigger] ranges[j]).0 as int),
            text::ceil_index(t, ranges[j].1 as int),
            ) by {
            if i < earlier.len() {
                assert(all[i] == earlier[i]);
                let j = choose|j: int|
                    0 <= j < front.len() && earlier[i] == (
                    text::floor_index(t, (#[trigger] front[j]).0 as int),
                    text::ceil_index(t, front[j].1 as int),
                    );
                assert(ranges[j] == front[j]);
            } else {
                assert(all[i] == one);
                assert(ranges[n] == last);
            }
        }
    }
}

proof fn lemma_index_ranges_clear(t: Seq<char>, ranges: Seq<(usize, usize)>)
    requires
        forall|i: int| 0 <= i < ranges.len() ==> (#[trigger] ranges[i]).0 < ranges[i].1,
        forall|k: int, i: int, j: int|
            0 <= k < t.len() && 0 <= i < j < ranges.len() ==> !(#[trigger] touches(t, ranges[i], k)
                && #[trigger] touches(t, ranges[j], k)),
    ensures
        forall|i: int, j: int|
            0 <= i < j < index_ranges(t, ranges).len() ==> clear_of(
                #[trigger] index_ranges(t, ranges)[i],
                #[trigger] index_ranges(t, ranges)[j],
            ),
    decreases ranges.len(),
{
    let all = index_ranges(t, ranges);
    if ranges.len() > 0 {
        let front = ranges.drop_last();
        let n = ranges.len() - 1;
        assert forall|i: int| 0 <= i < front.len() implies (#[trigger] front[i]).0 < front[i].1 by {
            assert(front[i] == ranges[i]);
        }
        assert forall|k: int, i: int, j: int|
            0 <= k < t.len() && 0 <= i < j < front.len() implies !(#[trigger] touches(
            t,
            front[i],
            k,
        ) && #[trigger] touches(t, front[j], k)) by {
            assert(front[i] == ranges[i] && front[j] == ranges[j]);
            assert(!(touches(t, ranges[i], k) && touches(t, ranges[j], k)));
        }
        lemma_index_ranges_clear(t, front);
        lemma_index_ranges(t, front);
        lemma_index_ranges_ok(t, ranges);
        lemma_index_ranges_ok(t, front);
        let earlier = index_ranges(t, front);
        assert forall|i: int, j: int| 0 <= i < j < all.len() implies clear_of(
            #[trigger] all[i],
            #[trigger] all[j],
        ) by {
            assert(all[i] == earlier[i]);
            if j < earlier.len() {
                assert(all[j] == earlier[j]);
            } else {
                let m = choose|m: int|
                    0 <= m < front.len() && earlier[i] == (
                    text::floor_index(t, (#[trigger] front[m]).0 as int),
                    text::ceil_index(t, front[m].1 as int),
                    );
                let (a, b) = (all[i], all[j]);
                if !clear_of(a, b) {
                    let k = if a.0 >= b.0 {
                        a.0
                    } else {
                        b.0
                    };
                    lemma_touched_index(t, front[m], k);
                    lemma_touched_index(t, ranges[n], k);
                    assert(front[m] == ranges[m]);
                    assert(front[m].0 < front[m].1 && ranges[n].0 < ranges[n].1);
                    assert(touches(t, ranges[m], k) && touches(t, ranges[n], k));
                }
            }
        }
    }
}

/// Where no character is touched by two of the ranges, the pieces of a text are marked as matches
/// just where a range touches them.
pub proof fn law_segments_mark_the_ranges(t: Seq<char>, ranges: Seq<(usize, usize)>, k: int)
    requires
        0 <= k < t.len(),
        forall|i: int| 0 <= i < ranges.len() ==> (#[trigger] ranges[i]).0 < ranges[i].1,
        forall|k: int, i: int, j: int|
            0 <= k < t.len() && 0 <= i < j < ranges.len() ==> !(#[trigger] touches(t, ranges[i], k)
                && #[trigger] touches(t, ranges[j], k)),
    ensures
        flagged(segments(t, ranges)).len() == t.len(),
        flagged(segments(t, ranges))[k] == (
            t[k],
            exists|j: int| 0 <= j < ranges.len() && touches(t, #[trigger] ranges[j], k),
        ),
{
    let found = index_ranges(t, ranges);
    let sorted = ordered(found);
    lemma_index_ranges(t, ranges);
    lemma_index_ranges_ok(t, ranges);
    lemma_index_ranges_clear(t, ranges);
    lemma_ordered_ok(found, t.len() as int);
    lemma_ordered_members(found);
    assert(covers(sorted, k) <==> covers(found, k));
    if sorted.len() == 0 {
        let pieces = seq![(t, false)];
        assert(pieces.drop_first() =~= Seq::empty());
        assert(flagged(pieces.drop_first()) =~= Seq::empty());
        assert(flagged(pieces) =~= t.map_values(|c: char| (c, false)));
    } else {
        assert forall|i: int| 0 <= i < found.len() implies (#[trigger] found[i]).0 < found[i].1 by {
            assert(0 <= found[i].0 < found[i].1 <= t.len());
        }
        lemma_ordered_ascending(found);
        assert(0 <= sorted[0].0);
        lemma_segments_flag(t, sorted, 0, k);
    }
}

/// A query matches a name, both of ASCII, just where its characters are in the name in their order,
/// whatever their case and without the white space around it; the ranges then spell it, and lie as
/// early in the name as can be. A blank query matches nothing.
pub proof fn law_names_match_queries(query: Seq<char>, t: Seq<char>, n: int)
    requires
        is_ascii_chars(query),
        is_ascii_chars(t),
        0 <= n <= t.len(),
    ensures
        ({
            let wanted = text::ascii_lowercase(text::trim(query));
            let name = text::ascii_lowercase(t);
            let ranges = name_ranges(query, t);
            let k = taken_before(ranges, t, n);
            &&& text::all_white(query) ==> ranges.len() == 0
            &&& !text::all_white(query) ==> (ranges.len() > 0 <==> is_subsequence(wanted, name))
            &&& !text::all_white(query) && is_subsequence(wanted, name) ==> chars_under(
                name,
                t,
                ranges,
            ) == wanted && is_subsequence(wanted.take(k), name.take(n)) && (k < wanted.len()
                ==> !is_subsequence(wanted.take(k + 1), name.take(n)))
        }),
{
    let trim = text::trim(query);
    let wanted = text::ascii_lowercase(trim);
    let name = text::ascii_lowercase(t);
    let (a, b) = text::lemma_trim_range(query);
    assert(is_ascii_chars(trim)) by {
        assert forall|i: int| 0 <= i < trim.len() implies '\0' <= #[trigger] trim[i] <= '\u{7f}' by {
            assert(trim[i] == query[a + i]);
        }
    }
    lemma_lowered_ascii(t);
    if text::all_white(query) {
        if trim.len() > 0 {
            assert(trim[0] == query[a]);
        }
    } else {
        let i = choose|i: int| 0 <= i < query.len() && !text::is_white(#[trigger] query[i]);
        text::lemma_trim_keeps(query, i);
        law_found_iff_in_order(wanted, name, t);
        if is_subsequence(wanted, name) {
            law_ranges_spell_query(wanted, name, t);
            law_matches_are_earliest(wanted, name, t, n);
        }
    }
}

/// A range that begins inside the one before it is not marked.
pub proof fn law_inner_ranges_are_passed_over(
    t: Seq<char>,
    outer: (usize, usize),
    inner: (usize, usize),
)
    requires
        text::floor_index(t, outer.0 as int) < text::floor_index(t, inner.0 as int)
            < text::ceil_index(t, outer.1 as int),
    ensures
        segments(t, seq![outer, inner]) == segments(t, seq![outer]),
        segments(t, seq![inner, outer]) == segments(t, seq![outer]),
{
    reveal_with_fuel(index_ranges, 3);
    reveal_with_fuel(ordered, 3);
    reveal_with_fuel(placed, 3);
    reveal_with_fuel(segments_from, 4);
    let (x, y) = (seq![outer, inner], seq![inner, outer]);
    assert(x.drop_last() =~= seq![outer]);
    assert(y.drop_last() =~= seq![inner]);
    assert(seq![outer].drop_last() =~= Seq::empty());
    assert(seq![inner].drop_last() =~= Seq::empty());
    let a = (text::floor_index(t, outer.0 as int), text::ceil_index(t, outer.1 as int));
    let b = (text::floor_index(t, inner.0 as int), text::ceil_index(t, inner.1 as int));
    text::lemma_floor_index(t, outer.0 as int);
    let none = Seq::<(int, int)>::empty();
    assert(index_ranges(t, seq![outer]) =~= seq![a]);
    assert(seq![a].drop_last() =~= none);
    assert(ordered(seq![a]) =~= seq![a]);
    assert(seq![a].drop_first() =~= none);
    if b.0 < b.1 {
        assert(index_ranges(t, seq![inner]) =~= seq![b]);
        assert(index_ranges(t, x) =~= seq![a, b]);
        assert(index_ranges(t, y) =~= seq![b, a]);
        assert(seq![b].drop_last() =~= none);
        assert(ordered(seq![b]) =~= seq![b]);
        assert(seq![a, b].drop_last() =~= seq![a]);
        assert(seq![b, a].drop_last() =~= seq![b]);
        assert(placed(seq![a], b) =~= seq![a, b]);
        assert(placed(none, a) =~= seq![a]);
        assert(placed(seq![b], a) =~= seq![a, b]);
        assert(seq![a, b].drop_first() =~= seq![b]);
        assert(seq![b].drop_first() =~= none);
        assert(ordered(seq![a, b]) =~= seq![a, b]);
        assert(ordered(seq![b, a]) =~= seq![a, b]);
        assert(segments_from(t, seq![b], a.1) == segments_from(t, none, a.1));
        assert(segments_from(t, seq![a, b], 0) == segments_from(t, seq![a], 0));
    } else {
        assert(index_ranges(t, seq![inner]) =~= none);
        assert(index_ranges(t, x) =~= seq![a]);
        assert(index_ranges(t, y) =~= seq![a]);
    }
}

/// What the models hold of pieces and ranges is theirs, one for one and in their order.
pub proof fn law_pieces_are_faithful(pieces: Seq<Segment>, ranges: Seq<(usize, usize)>, i: int)
    ensures
        segments_view(pieces).len() == pieces.len(),
        0 <= i < pieces.len() ==> segments_view(pieces)[i].0 == pieces[i].text@ && segments_view(
            pieces,
        )[i].1 == pieces[i].matched,
        ranges_view(ranges).len() == ranges.len(),
        0 <= i < ranges.len() ==> ranges_view(ranges)[i].0 == ranges[i].0 && ranges_view(ranges)[i].1
            == ranges[i].1,
{
}

} // verus!
