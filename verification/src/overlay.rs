//! Laying the matches of a search over the spans of a line.

use vstd::prelude::*;

use crate::preview;
use crate::preview::{HighlightedSpan, Look, SpanModel};
use crate::text;
use crate::text::{byte_count, ceil_index_of, chars_of, floor_index_of, slice_text};

verus! {

/// A range put into a list that is in order of starts, after those that start no later.
pub open spec fn insert_range(sorted: Seq<(u32, u32)>, range: (u32, u32)) -> Seq<(u32, u32)>
    decreases sorted.len(),
{
    if sorted.len() == 0 || sorted.last().0 <= range.0 {
        sorted.push(range)
    } else {
        insert_range(sorted.drop_last(), range).push(sorted.last())
    }
}

/// The ranges in order of their starts; those with the same start stay in their order.
pub open spec fn sorted_ranges(ranges: Seq<(u32, u32)>) -> Seq<(u32, u32)>
    decreases ranges.len(),
{
    if ranges.len() == 0 {
        Seq::empty()
    } else {
        insert_range(sorted_ranges(ranges.drop_last()), ranges.last())
    }
}

/// Where a new range goes.
proof fn lemma_insert_at(sorted: Seq<(u32, u32)>, range: (u32, u32), p: int)
    requires
        0 <= p <= sorted.len(),
        p > 0 ==> sorted[p - 1].0 <= range.0,
        forall|k: int| p <= k < sorted.len() ==> (#[trigger] sorted[k]).0 > range.0,
    ensures
        insert_range(sorted, range) == sorted.insert(p, range),
    decreases sorted.len(),
{
    if p < sorted.len() {
        let front = sorted.drop_last();
        assert forall|k: int| p <= k < front.len() implies (#[trigger] front[k]).0 > range.0 by {
            assert(front[k] == sorted[k]);
        }
        assert(p > 0 ==> front[p - 1] == sorted[p - 1]);
        lemma_insert_at(front, range, p);
        assert(sorted[sorted.len() - 1].0 > range.0);
        assert(front.insert(p, range).push(sorted.last()) =~= sorted.insert(p, range));
    } else {
        assert(sorted.push(range) =~= sorted.insert(p, range));
    }
}

fn sort_ranges(ranges: &Vec<(u32, u32)>) -> (r: Vec<(u32, u32)>)
    ensures
        r@ == sorted_ranges(ranges@),
{
    let mut r: Vec<(u32, u32)> = Vec::new();
    let mut i: usize = 0;
    assert(ranges@.take(0) =~= Seq::empty());
    while i < ranges.len()
        invariant
            i <= ranges.len(),
            r.len() == i,
            r@ == sorted_ranges(ranges@.take(i as int)),
        decreases ranges.len() - i,
    {
        let range = ranges[i];
        let mut p: usize = r.len();
        while p > 0 && r[p - 1].0 > range.0
            invariant
                p <= r.len(),
                forall|k: int| p <= k < r.len() ==> (#[trigger] r@[k]).0 > range.0,
            decreases p,
        {
            p -= 1;
        }
        proof {
            lemma_insert_at(r@, range, p as int);
            assert(ranges@.take(i + 1).drop_last() =~= ranges@.take(i as int));
        }
        r.insert(p, range);
        i += 1;
    }
    assert(ranges@.take(i as int) =~= ranges@);
    r
}

/// The largest start of some ranges comes last.
pub open spec fn in_order(ranges: Seq<(u32, u32)>) -> bool {
    forall|i: int, j: int|
        0 <= i <= j < ranges.len() ==> (#[trigger] ranges[i]).0 <= (#[trigger] ranges[j]).0
}

proof fn lemma_insert_range(sorted: Seq<(u32, u32)>, range: (u32, u32))
    requires
        in_order(sorted),
    ensures
        in_order(insert_range(sorted, range)),
        insert_range(sorted, range).len() == sorted.len() + 1,
        forall|x: (u32, u32)| #[trigger]
            insert_range(sorted, range).contains(x) <==> sorted.contains(x) || x == range,
    decreases sorted.len(),
{
    let after = insert_range(sorted, range);
    if sorted.len() == 0 || sorted.last().0 <= range.0 {
        assert forall|x: (u32, u32)| #[trigger] after.contains(x) <==> sorted.contains(x) || x
            == range by {
            if sorted.contains(x) {
                let k = choose|k: int| 0 <= k < sorted.len() && sorted[k] == x;
                assert(after[k] == x);
            }
            if x == range {
                assert(after[sorted.len() as int] == x);
            }
        }
    } else {
        let front = sorted.drop_last();
        let moved = insert_range(front, range);
        assert(in_order(front));
        lemma_insert_range(front, range);
        assert forall|x: (u32, u32)| #[trigger] after.contains(x) <==> sorted.contains(x) || x
            == range by {
            if after.contains(x) {
                let k = choose|k: int| 0 <= k < after.len() && after[k] == x;
                if k < moved.len() {
                    assert(moved[k] == x);
                    assert(moved.contains(x));
                    if front.contains(x) {
                        let m = choose|m: int| 0 <= m < front.len() && front[m] == x;
                        assert(sorted[m] == x);
                    }
                } else {
                    assert(sorted[sorted.len() - 1] == x);
                }
            }
            if sorted.contains(x) {
                let m = choose|m: int| 0 <= m < sorted.len() && sorted[m] == x;
                if m < front.len() {
                    assert(front[m] == x);
                    assert(front.contains(x));
                    assert(moved.contains(x));
                    let k = choose|k: int| 0 <= k < moved.len() && moved[k] == x;
                    assert(after[k] == x);
                } else {
                    assert(after[moved.len() as int] == x);
                }
            }
            if x == range {
                assert(moved.contains(x));
                let k = choose|k: int| 0 <= k < moved.len() && moved[k] == x;
                assert(after[k] == x);
            }
        }
        assert forall|i: int, j: int| 0 <= i <= j < after.len() implies (#[trigger] after[i]).0
            <= (#[trigger] after[j]).0 by {
            if j == moved.len() && i < moved.len() {
                assert(moved.contains(moved[i]));
                if front.contains(moved[i]) {
                    let m = choose|m: int| 0 <= m < front.len() && front[m] == moved[i];
                    assert(sorted[m].0 <= sorted[sorted.len() - 1].0);
                }
            } else if j < moved.len() {
                assert(moved[i].0 <= moved[j].0);
            }
        }
    }
}

/// Sorting puts the ranges in order of their starts, and neither adds nor loses one.
pub proof fn law_sorted_ranges(ranges: Seq<(u32, u32)>)
    ensures
        in_order(sorted_ranges(ranges)),
        sorted_ranges(ranges).len() == ranges.len(),
        forall|x: (u32, u32)| #[trigger]
            sorted_ranges(ranges).contains(x) <==> ranges.contains(x),
    decreases ranges.len(),
{
    if ranges.len() > 0 {
        let front = ranges.drop_last();
        law_sorted_ranges(front);
        lemma_insert_range(sorted_ranges(front), ranges.last());
        assert forall|x: (u32, u32)| #[trigger]
            sorted_ranges(ranges).contains(x) <==> ranges.contains(x) by {
            if ranges.contains(x) {
                let k = choose|k: int| 0 <= k < ranges.len() && ranges[k] == x;
                if k < front.len() {
                    assert(front[k] == x);
                    assert(front.contains(x));
                }
            }
            if front.contains(x) {
                let k = choose|k: int| 0 <= k < front.len() && front[k] == x;
                assert(ranges[k] == x);
            }
            if x == ranges.last() {
                assert(ranges[ranges.len() - 1] == x);
            }
        }
    }
}

/// A byte range of a text, widened to whole characters; nothing where it is empty. The result is
/// in bytes too.
pub open spec fn clamped(t: Seq<char>, start: int, end: int) -> Option<(int, int)> {
    let from = text::floor_index(t, start);
    let to = text::ceil_index(t, end);
    if from < to {
        Some((text::utf8_len(t.take(from)) as int, text::utf8_len(t.take(to)) as int))
    } else {
        None
    }
}

/// The characters that a byte range of a text touches.
pub open spec fn touched(t: Seq<char>, start: int, end: int) -> Seq<char> {
    let from = text::floor_index(t, start);
    let to = text::ceil_index(t, end);
    if from < to {
        t.subrange(from, to)
    } else {
        Seq::empty()
    }
}

/// A part of a span in a given look; nothing where no character is touched.
pub open spec fn part(span: SpanModel, start: int, end: int, look: Look) -> Seq<SpanModel> {
    let t = touched(span.text, start, end);
    if t.len() > 0 {
        seq![SpanModel { look, text: t }]
    } else {
        Seq::empty()
    }
}

/// The look of a match: the styles of the span in the colours of matches.
pub open spec fn match_look(look: Look, color: u32, bg: Option<u32>) -> Look {
    Look { style: crate::theme::SyntaxRenderStyle { color, ..look.style }, bg }
}

pub open spec fn max_of(a: int, b: int) -> int {
    if a >= b {
        a
    } else {
        b
    }
}

pub open spec fn min_of(a: int, b: int) -> int {
    if a <= b {
        a
    } else {
        b
    }
}

/// A span that begins at byte `start` of its line, cut up from byte `chunk` on: what lies in a
/// range is a match, the rest is left as it was.
pub open spec fn cut(
    span: SpanModel,
    start: int,
    ranges: Seq<(u32, u32)>,
    chunk: int,
    color: u32,
    bg: Option<u32>,
) -> Seq<SpanModel>
    decreases ranges.len(),
{
    let end = start + text::utf8_len(span.text);
    if ranges.len() == 0 {
        part(span, chunk - start, end - start, span.look)
    } else {
        let from = max_of(ranges[0].0 as int, chunk);
        let to = min_of(ranges[0].1 as int, end);
        if from >= to {
            cut(span, start, ranges.drop_first(), chunk, color, bg)
        } else {
            part(span, chunk - start, from - start, span.look) + part(
                span,
                from - start,
                to - start,
                match_look(span.look, color, bg),
            ) + cut(span, start, ranges.drop_first(), to, color, bg)
        }
    }
}

/// The number of bytes in some spans.
pub open spec fn spans_len(spans: Seq<SpanModel>) -> int
    decreases spans.len(),
{
    if spans.len() == 0 {
        0
    } else {
        spans_len(spans.drop_last()) + text::utf8_len(spans.last().text)
    }
}

/// The spans of a line with the ranges, in order, laid over them.
pub open spec fn cut_all(
    spans: Seq<SpanModel>,
    ranges: Seq<(u32, u32)>,
    color: u32,
    bg: Option<u32>,
) -> Seq<SpanModel>
    decreases spans.len(),
{
    if spans.len() == 0 {
        Seq::empty()
    } else {
        let start = spans_len(spans.drop_last());
        cut_all(spans.drop_last(), ranges, color, bg) + cut(
            spans.last(),
            start,
            ranges,
            start,
            color,
            bg,
        )
    }
}

/// The spans of a line with the matches laid over them.
pub open spec fn overlaid(
    spans: Seq<SpanModel>,
    ranges: Seq<(u32, u32)>,
    color: u32,
    bg: Option<u32>,
) -> Seq<SpanModel> {
    if ranges.len() == 0 {
        spans
    } else {
        cut_all(spans, sorted_ranges(ranges), color, bg)
    }
}

fn push_part(
    out: &mut Vec<HighlightedSpan>,
    chars: &Vec<char>,
    span: &HighlightedSpan,
    start: usize,
    end: usize,
    color: u32,
    bg: Option<u32>,
)
    requires
        chars@ == span.text@,
    ensures
        preview::spans_view(final(out)@) == preview::spans_view(old(out)@) + part(
            span@,
            start as int,
            end as int,
            match_look(span@.look, color, bg),
        ),
{
    let ghost before = preview::spans_view(out@);
    let (from, _) = floor_index_of(chars, start);
    let to = ceil_index_of(chars, end);
    if from < to {
        let piece = HighlightedSpan {
            color,
            bg,
            italic: span.italic,
            bold: span.bold,
            underline: span.underline,
            strikethrough: span.strikethrough,
            text: slice_text(chars, from, to),
        };
        out.push(piece);
        assert(preview::spans_view(out@) =~= before.push(piece@));
    }
    assert(preview::spans_view(out@) =~= before + part(
        span@,
        start as int,
        end as int,
        match_look(span@.look, color, bg),
    ));
}

/// Lays the ranges over one span. The result is added to `out`.
fn cut_span(
    out: &mut Vec<HighlightedSpan>,
    span: &HighlightedSpan,
    span_start: u32,
    span_end: u32,
    ranges: &Vec<(u32, u32)>,
    match_color: u32,
    match_bg: Option<u32>,
)
    requires
        span_end == span_start + text::utf8_len(span.text@),
    ensures
        preview::spans_view(final(out)@) == preview::spans_view(old(out)@) + cut(
            span@,
            span_start as int,
            ranges@,
            span_start as int,
            match_color,
            match_bg,
        ),
{
    let ghost target = preview::spans_view(out@) + cut(
        span@,
        span_start as int,
        ranges@,
        span_start as int,
        match_color,
        match_bg,
    );
    let chars = chars_of(span.text.as_str());
    let mut chunk_start = span_start;
    let mut i: usize = 0;
    assert(ranges@.skip(0) =~= ranges@);
    assert(match_look(span@.look, span.color, span.bg) == span@.look);
    while i < ranges.len()
        invariant
            i <= ranges.len(),
            chars@ == span.text@,
            span_start <= chunk_start <= span_end,
            span_end == span_start + text::utf8_len(span.text@),
            match_look(span@.look, span.color, span.bg) == span@.look,
            target == preview::spans_view(out@) + cut(
                span@,
                span_start as int,
                ranges@.skip(i as int),
                chunk_start as int,
                match_color,
                match_bg,
            ),
        decreases ranges.len() - i,
    {
        let (range_start, range_end) = ranges[i];
        let ghost rest = ranges@.skip(i as int);
        assert(rest[0] == (range_start, range_end));
        assert(rest.drop_first() =~= ranges@.skip(i + 1));
        let overlap_start = if range_start > chunk_start {
            range_start
        } else {
            chunk_start
        };
        let overlap_end = if range_end < span_end {
            range_end
        } else {
            span_end
        };
        if overlap_start < overlap_end {
            let ghost before = preview::spans_view(out@);
            let a = (chunk_start - span_start) as usize;
            let b = (overlap_start - span_start) as usize;
            let c = (overlap_end - span_start) as usize;
            push_part(out, &chars, span, a, b, span.color, span.bg);
            push_part(out, &chars, span, b, c, match_color, match_bg);
            assert(preview::spans_view(out@) =~= before + (part(
                span@,
                a as int,
                b as int,
                span@.look,
            ) + part(span@, b as int, c as int, match_look(span@.look, match_color, match_bg))));
            assert(target =~= preview::spans_view(out@) + cut(
                span@,
                span_start as int,
                rest.drop_first(),
                overlap_end as int,
                match_color,
                match_bg,
            ));
            chunk_start = overlap_end;
        }
        i += 1;
    }
    assert(ranges@.skip(i as int) =~= Seq::empty());
    push_part(
        out,
        &chars,
        span,
        (chunk_start - span_start) as usize,
        (span_end - span_start) as usize,
        span.color,
        span.bg,
    );
}

pub proof fn lemma_spans_len(spans: Seq<SpanModel>, n: int)
    requires
        0 <= n <= spans.len(),
    ensures
        0 <= spans_len(spans.take(n)) <= spans_len(spans),
    decreases spans.len(),
{
    if n == spans.len() {
        assert(spans.take(n) =~= spans);
        if n > 0 {
            lemma_spans_len(spans.drop_last(), n - 1);
            assert(spans.drop_last().take(n - 1) =~= spans.drop_last());
        }
    } else {
        lemma_spans_len(spans.drop_last(), n);
        assert(spans.drop_last().take(n) =~= spans.take(n));
    }
}

/// Lays the byte ranges of matches over the spans of a line.
pub fn overlay_match_ranges(
    spans: &Vec<HighlightedSpan>,
    byte_ranges: &Vec<(u32, u32)>,
    match_color: u32,
    match_bg: Option<u32>,
) -> (r: Vec<HighlightedSpan>)
    requires
        byte_ranges.len() > 0 ==> spans_len(preview::spans_view(spans@)) <= u32::MAX,
    ensures
        preview::spans_view(r@) == overlaid(
            preview::spans_view(spans@),
            byte_ranges@,
            match_color,
            match_bg,
        ),
{
    if byte_ranges.len() == 0 {
        return preview::copy_spans(spans);
    }
    let ranges = sort_ranges(byte_ranges);
    let ghost all = preview::spans_view(spans@);
    let mut result: Vec<HighlightedSpan> = Vec::new();
    let mut byte_pos: u32 = 0;
    let mut i: usize = 0;
    assert(all.take(0) =~= Seq::empty());
    assert(preview::spans_view(result@) =~= Seq::empty());
    while i < spans.len()
        invariant
            i <= spans.len(),
            all == preview::spans_view(spans@),
            spans_len(all) <= u32::MAX,
            byte_pos == spans_len(all.take(i as int)),
            preview::spans_view(result@) == cut_all(
                all.take(i as int),
                ranges@,
                match_color,
                match_bg,
            ),
        decreases spans.len() - i,
    {
        proof {
            lemma_spans_len(all, i + 1);
            assert(all.take(i + 1).drop_last() =~= all.take(i as int));
            assert(all.take(i + 1).last() == spans@[i as int]@);
        }
        let span = &spans[i];
        let span_end = byte_pos + byte_count(span.text.as_str()) as u32;
        cut_span(&mut result, span, byte_pos, span_end, &ranges, match_color, match_bg);
        byte_pos = span_end;
        i += 1;
    }
    assert(all.take(i as int) =~= all);
    result
}

/// A byte range of a text, widened to whole characters; nothing where it is empty.
pub fn clamp_range_to_char_boundaries(t: &str, start: usize, end: usize) -> (r: Option<
    (usize, usize),
>)
    ensures
        r matches Some((a, b)) ==> clamped(t@, start as int, end as int) == Some(
            (a as int, b as int),
        ),
        r is None ==> clamped(t@, start as int, end as int) is None,
{
    let chars = chars_of(t);
    let (from, a) = floor_index_of(&chars, start);
    let to = ceil_index_of(&chars, end);
    if from < to {
        let b = byte_count(slice_text(&chars, 0, to).as_str());
        assert(chars@.subrange(0, to as int) =~= chars@.take(to as int));
        Some((a, b))
    } else {
        None
    }
}

/// The characters of a span, each with its look.
pub open spec fn spread(span: SpanModel) -> Seq<(char, Look)> {
    span.text.map_values(|c: char| (c, span.look))
}

/// The characters of a line, each with its look.
pub open spec fn spread_all(spans: Seq<SpanModel>) -> Seq<(char, Look)>
    decreases spans.len(),
{
    if spans.len() == 0 {
        Seq::empty()
    } else {
        spread_all(spans.drop_last()) + spread(spans.last())
    }
}

/// A byte lies in one of the ranges.
pub open spec fn covered(ranges: Seq<(u32, u32)>, b: int) -> bool {
    exists|j: int| 0 <= j < ranges.len() && (#[trigger] ranges[j]).0 <= b < ranges[j].1
}

/// Inside a text that begins at byte `start`, ranges begin and end between characters.
pub open spec fn aligned(t: Seq<char>, start: int, ranges: Seq<(u32, u32)>) -> bool {
    forall|j: int|
        0 <= j < ranges.len() ==> {
            &&& offset_ok(t, (#[trigger] ranges[j]).0 - start)
            &&& offset_ok(t, ranges[j].1 - start)
        }
}

pub open spec fn offset_ok(t: Seq<char>, b: int) -> bool {
    0 <= b <= text::utf8_len(t) ==> text::is_boundary(t, b)
}

/// The characters of a span from index `from` on, with the look of a match where a range covers
/// them.
pub open spec fn marked(
    span: SpanModel,
    start: int,
    ranges: Seq<(u32, u32)>,
    from: int,
    color: u32,
    bg: Option<u32>,
) -> Seq<(char, Look)> {
    Seq::new(
        (span.text.len() - from) as nat,
        |k: int|
            (
                span.text[from + k],
                if covered(ranges, start + text::utf8_len(span.text.take(from + k))) {
                    match_look(span.look, color, bg)
                } else {
                    span.look
                },
            ),
    )
}

proof fn lemma_spread_concat(a: Seq<SpanModel>, b: Seq<SpanModel>)
    ensures
        spread_all(a + b) == spread_all(a) + spread_all(b),
    decreases b.len(),
{
    if b.len() == 0 {
        assert(a + b =~= a);
        assert(spread_all(a) + spread_all(b) =~= spread_all(a));
    } else {
        assert((a + b).drop_last() =~= a + b.drop_last());
        lemma_spread_concat(a, b.drop_last());
        assert(spread_all(a + b) =~= spread_all(a) + spread_all(b));
    }
}

/// The characters of a part between two boundaries.
proof fn lemma_part(span: SpanModel, from: int, to: int, look: Look)
    requires
        0 <= from <= to <= span.text.len(),
    ensures
        spread_all(
            part(
                span,
                text::utf8_len(span.text.take(from)) as int,
                text::utf8_len(span.text.take(to)) as int,
                look,
            ),
        ) == span.text.subrange(from, to).map_values(|c: char| (c, look)),
{
    let t = span.text;
    text::lemma_boundary_at(t, from);
    text::lemma_boundary_at(t, to);
    let parts = part(
        span,
        text::utf8_len(t.take(from)) as int,
        text::utf8_len(t.take(to)) as int,
        look,
    );
    if from < to {
        let piece = SpanModel { look, text: t.subrange(from, to) };
        assert(parts =~= seq![piece]);
        assert(parts.drop_last() =~= Seq::empty());
        assert(spread_all(parts.drop_last()) =~= Seq::empty());
        assert(parts.last() == piece);
        assert(spread_all(parts) =~= spread(piece));
        assert(spread(piece) =~= t.subrange(from, to).map_values(|c: char| (c, look)));
    } else {
        assert(parts =~= Seq::empty());
        assert(t.subrange(from, to).map_values(|c: char| (c, look)) =~= Seq::empty());
    }
}

proof fn lemma_offsets_grow(t: Seq<char>, i: int, j: int)
    requires
        0 <= i <= j <= t.len(),
    ensures
        text::utf8_len(t.take(i)) <= text::utf8_len(t.take(j)),
        i < j ==> text::utf8_len(t.take(i)) < text::utf8_len(t.take(j)),
        text::utf8_len(t.take(j)) <= text::utf8_len(t),
{
    text::lemma_utf8_len_take(t, i, j);
    text::lemma_utf8_len_take(t, j, t.len() as int);
    assert(t.take(t.len() as int) =~= t);
}

proof fn lemma_index_of_boundary(t: Seq<char>, b: int) -> (k: int)
    requires
        0 <= b <= text::utf8_len(t),
        text::is_boundary(t, b),
    ensures
        0 <= k <= t.len(),
        text::utf8_len(t.take(k)) == b,
{
    text::lemma_floor_index(t, b);
    text::floor_index(t, b)
}

/// Cutting up a span marks exactly the characters that the ranges cover.
proof fn lemma_cut(
    span: SpanModel,
    start: int,
    ranges: Seq<(u32, u32)>,
    from: int,
    color: u32,
    bg: Option<u32>,
)
    requires
        start >= 0,
        0 <= from <= span.text.len(),
        in_order(ranges),
        aligned(span.text, start, ranges),
    ensures
        spread_all(
            cut(
                span,
                start,
                ranges,
                start + text::utf8_len(span.text.take(from)),
                color,
                bg,
            ),
        ) == marked(span, start, ranges, from, color, bg),
    decreases ranges.len(),
{
    let t = span.text;
    let n = t.len() as int;
    let chunk = start + text::utf8_len(t.take(from));
    let end = start + text::utf8_len(t);
    let goal = marked(span, start, ranges, from, color, bg);
    assert(t.take(n) =~= t);
    lemma_offsets_grow(t, from, n);
    if ranges.len() == 0 {
        lemma_part(span, from, n, span.look);
        assert(t.subrange(from, n).map_values(|c: char| (c, span.look)) =~= goal);
    } else {
        let rest = ranges.drop_first();
        let (range_start, range_end) = ranges[0];
        let a = max_of(range_start as int, chunk);
        let b = min_of(range_end as int, end);
        assert forall|i: int| 0 <= i < rest.len() implies #[trigger] rest[i] == ranges[i + 1] by {}
        assert(in_order(rest));
        assert(aligned(t, start, rest));
        if a >= b {
            lemma_cut(span, start, rest, from, color, bg);
            assert forall|k: int| 0 <= k < n - from implies covered(
                ranges,
                start + text::utf8_len(t.take(#[trigger] (from + k))),
            ) == covered(rest, start + text::utf8_len(t.take(from + k))) by {
                let at = start + text::utf8_len(t.take(from + k));
                lemma_offsets_grow(t, from, from + k);
                lemma_offsets_grow(t, from + k, n);
                lemma_covered_first(ranges, at);
            }
            assert(marked(span, start, rest, from, color, bg) =~= goal);
        } else {
            assert(offset_ok(t, range_start - start) && offset_ok(t, range_end - start));
            let i = if range_start <= chunk {
                from
            } else {
                lemma_index_of_boundary(t, range_start - start)
            };
            let j = if range_end >= end {
                n
            } else {
                lemma_index_of_boundary(t, range_end - start)
            };
            assert(a == start + text::utf8_len(t.take(i)));
            assert(b == start + text::utf8_len(t.take(j)));
            if i < from {
                lemma_offsets_grow(t, i, from);
            }
            if j < i {
                lemma_offsets_grow(t, j, i);
            }
            let own = span.look;
            let hit = match_look(span.look, color, bg);
            lemma_part(span, from, i, own);
            lemma_part(span, i, j, hit);
            lemma_cut(span, start, rest, j, color, bg);
            let first = part(span, chunk - start, a - start, own);
            let second = part(span, a - start, b - start, hit);
            let third = cut(span, start, rest, b, color, bg);
            lemma_spread_concat(first, second);
            lemma_spread_concat(first + second, third);
            lemma_marked_hit(span, start, ranges, from, i, j, color, bg);
        }
    }
}

/// The marks of a span from index `from` on, when the first range covers just the characters from
/// `i` to `j` of these.
proof fn lemma_marked_hit(
    span: SpanModel,
    start: int,
    ranges: Seq<(u32, u32)>,
    from: int,
    i: int,
    j: int,
    color: u32,
    bg: Option<u32>,
)
    requires
        ranges.len() > 0,
        in_order(ranges),
        0 <= from <= i <= j <= span.text.len(),
        start + text::utf8_len(span.text.take(i)) >= ranges[0].0,
        i > from ==> start + text::utf8_len(span.text.take(i)) == ranges[0].0,
        start + text::utf8_len(span.text.take(j)) <= ranges[0].1,
        j < span.text.len() ==> start + text::utf8_len(span.text.take(j)) == ranges[0].1,
    ensures
        marked(span, start, ranges, from, color, bg) == span.text.subrange(from, i).map_values(
            |c: char| (c, span.look),
        ) + span.text.subrange(i, j).map_values(
            |c: char| (c, match_look(span.look, color, bg)),
        ) + marked(span, start, ranges.drop_first(), j, color, bg),
{
    let t = span.text;
    let rest = ranges.drop_first();
    let own = span.look;
    let hit = match_look(span.look, color, bg);
    let goal = marked(span, start, ranges, from, color, bg);
    let left = t.subrange(from, i).map_values(|c: char| (c, own));
    let mid = t.subrange(i, j).map_values(|c: char| (c, hit));
    let right = marked(span, start, rest, j, color, bg);
    let whole = left + mid + right;
    assert forall|k: int| 0 <= k < goal.len() implies #[trigger] whole[k] == goal[k] by {
        let at = start + text::utf8_len(t.take(from + k));
        lemma_covered_first(ranges, at);
        if from + k < i {
            lemma_offsets_grow(t, from + k, i);
            if covered(rest, at) {
                let m = choose|m: int|
                    0 <= m < rest.len() && (#[trigger] rest[m]).0 <= at < rest[m].1;
                assert(rest[m] == ranges[m + 1]);
                assert(ranges[0].0 <= ranges[m + 1].0);
            }
            assert(!covered(ranges, at));
            assert(whole[k] == left[k]);
        } else if from + k < j {
            lemma_offsets_grow(t, i, from + k);
            lemma_offsets_grow(t, from + k, j);
            assert(covered(ranges, at));
            assert(whole[k] == mid[from + k - i]);
        } else {
            lemma_offsets_grow(t, j, from + k);
            assert(covered(ranges, at) == covered(rest, at));
            assert(whole[k] == right[from + k - j]);
        }
    }
    assert(whole =~= goal);
}

/// The first range covers a byte, or one of the others does.
proof fn lemma_covered_first(ranges: Seq<(u32, u32)>, b: int)
    requires
        ranges.len() > 0,
    ensures
        covered(ranges, b) <==> ranges[0].0 <= b < ranges[0].1 || covered(
            ranges.drop_first(),
            b,
        ),
{
    let rest = ranges.drop_first();
    if covered(ranges, b) {
        let j = choose|j: int|
            0 <= j < ranges.len() && (#[trigger] ranges[j]).0 <= b < ranges[j].1;
        if j > 0 {
            assert(rest[j - 1] == ranges[j]);
        }
    }
    if covered(rest, b) {
        let j = choose|j: int| 0 <= j < rest.len() && (#[trigger] rest[j]).0 <= b < rest[j].1;
        assert(ranges[j + 1] == rest[j]);
    }
}

/// The bytes of a line are those of its text.
proof fn lemma_spans_len_is_text(spans: Seq<SpanModel>)
    ensures
        spans_len(spans) == text::utf8_len(preview::line_text(spans)),
        spread_all(spans).len() == preview::line_text(spans).len(),
    decreases spans.len(),
{
    if spans.len() > 0 {
        lemma_spans_len_is_text(spans.drop_last());
        text::lemma_utf8_len_concat(
            preview::line_text(spans.drop_last()),
            spans.last().text,
        );
    }
}

/// A boundary of two texts together is one of the first, or lies behind it, and of the second.
proof fn lemma_boundary_of_parts(a: Seq<char>, b: Seq<char>, at: int)
    requires
        0 <= at,
        offset_ok(a + b, at),
    ensures
        offset_ok(a, at),
        offset_ok(b, at - text::utf8_len(a)),
{
    text::lemma_utf8_len_concat(a, b);
    let whole = a + b;
    let n = a.len() as int;
    assert(whole.take(n) =~= a);
    if at <= text::utf8_len(whole) {
        let k = lemma_index_of_boundary(whole, at);
        if at <= text::utf8_len(a) {
            if k > n {
                lemma_offsets_grow(whole, n, k);
            }
            assert(whole.take(k) =~= a.take(k));
            text::lemma_boundary_at(a, k);
        }
        if at >= text::utf8_len(a) {
            if k < n {
                lemma_offsets_grow(whole, k, n);
            }
            assert(whole.take(k) =~= a + b.take(k - n));
            text::lemma_utf8_len_concat(a, b.take(k - n));
            text::lemma_boundary_at(b, k - n);
        }
    }
}

/// The characters of a line with those that the ranges cover in the look of a match.
pub open spec fn marked_line(
    spans: Seq<SpanModel>,
    ranges: Seq<(u32, u32)>,
    color: u32,
    bg: Option<u32>,
) -> Seq<(char, Look)> {
    spread_all(spans).map(
        |k: int, x: (char, Look)|
            (
                x.0,
                if covered(
                    ranges,
                    text::utf8_len(preview::line_text(spans).take(k)) as int,
                ) {
                    match_look(x.1, color, bg)
                } else {
                    x.1
                },
            ),
    )
}

proof fn lemma_cut_all(
    spans: Seq<SpanModel>,
    ranges: Seq<(u32, u32)>,
    color: u32,
    bg: Option<u32>,
)
    requires
        in_order(ranges),
        aligned(preview::line_text(spans), 0, ranges),
    ensures
        spread_all(cut_all(spans, ranges, color, bg)) == marked_line(spans, ranges, color, bg),
    decreases spans.len(),
{
    let goal = marked_line(spans, ranges, color, bg);
    if spans.len() == 0 {
        assert(goal =~= Seq::empty());
    } else {
        let front = spans.drop_last();
        let last = spans.last();
        let before = preview::line_text(front);
        let start = spans_len(front);
        lemma_spans_len_is_text(front);
        lemma_spans_len_is_text(spans);
        assert forall|j: int| 0 <= j < ranges.len() implies {
            &&& offset_ok(before, (#[trigger] ranges[j]).0 - 0)
            &&& offset_ok(before, ranges[j].1 - 0)
            &&& offset_ok(last.text, ranges[j].0 - start)
            &&& offset_ok(last.text, ranges[j].1 - start)
        } by {
            lemma_boundary_of_parts(before, last.text, ranges[j].0 as int);
            lemma_boundary_of_parts(before, last.text, ranges[j].1 as int);
        }
        assert(aligned(before, 0, ranges));
        assert(aligned(last.text, start, ranges));
        lemma_cut_all(front, ranges, color, bg);
        lemma_cut(last, start, ranges, 0, color, bg);
        assert(last.text.take(0) =~= Seq::empty());
        let left = cut_all(front, ranges, color, bg);
        let right = cut(last, start, ranges, start, color, bg);
        lemma_spread_concat(left, right);
        let marks = marked_line(front, ranges, color, bg) + marked(
            last,
            start,
            ranges,
            0,
            color,
            bg,
        );
        let n = before.len() as int;
        let all = preview::line_text(spans);
        assert forall|k: int| 0 <= k < goal.len() implies #[trigger] marks[k] == goal[k] by {
            if k < n {
                assert(all.take(k) =~= before.take(k));
            } else {
                assert(all.take(k) =~= before + last.text.take(k - n));
                text::lemma_utf8_len_concat(before, last.text.take(k - n));
            }
        }
        assert(marks =~= goal);
    }
}

/// Where every range begins and ends between two characters or behind the line, laying matches
/// over a line keeps its characters, gives exactly those in a range the colours of matches, and
/// leaves the looks of the others.
pub proof fn law_overlay_marks_exactly_the_ranges(
    spans: Seq<SpanModel>,
    ranges: Seq<(u32, u32)>,
    color: u32,
    bg: Option<u32>,
)
    requires
        aligned(preview::line_text(spans), 0, ranges),
    ensures
        spread_all(overlaid(spans, ranges, color, bg)) == marked_line(spans, ranges, color, bg),
{
    let goal = marked_line(spans, ranges, color, bg);
    if ranges.len() == 0 {
        assert(goal =~= spread_all(spans));
    } else {
        let sorted = sorted_ranges(ranges);
        law_sorted_ranges(ranges);
        assert forall|j: int| 0 <= j < sorted.len() implies {
            &&& offset_ok(preview::line_text(spans), (#[trigger] sorted[j]).0 - 0)
            &&& offset_ok(preview::line_text(spans), sorted[j].1 - 0)
        } by {
            assert(sorted.contains(sorted[j]));
            let m = choose|m: int| 0 <= m < ranges.len() && ranges[m] == sorted[j];
            assert(ranges[m] == sorted[j]);
        }
        lemma_cut_all(spans, sorted, color, bg);
        assert forall|b: int| covered(sorted, b) == #[trigger] covered(ranges, b) by {
            if covered(sorted, b) {
                let j = choose|j: int|
                    0 <= j < sorted.len() && (#[trigger] sorted[j]).0 <= b < sorted[j].1;
                assert(sorted.contains(sorted[j]));
                let m = choose|m: int| 0 <= m < ranges.len() && ranges[m] == sorted[j];
                assert(ranges[m].0 <= b < ranges[m].1);
            }
            if covered(ranges, b) {
                let j = choose|j: int|
                    0 <= j < ranges.len() && (#[trigger] ranges[j]).0 <= b < ranges[j].1;
                assert(ranges.contains(ranges[j]));
                assert(sorted.contains(ranges[j]));
                let m = choose|m: int| 0 <= m < sorted.len() && sorted[m] == ranges[j];
                assert(sorted[m].0 <= b < sorted[m].1);
            }
        }
        assert(marked_line(spans, sorted, color, bg) =~= goal);
    }
}

/// Where every range begins and ends between two characters or behind the line, the character at an
/// index has the colour and the background of matches if a range covers its first byte, and keeps
/// its look else. A match keeps the other features of the style.
pub proof fn law_matches_are_coloured(
    spans: Seq<SpanModel>,
    ranges: Seq<(u32, u32)>,
    color: u32,
    bg: Option<u32>,
    k: int,
)
    requires
        aligned(preview::line_text(spans), 0, ranges),
        0 <= k < spread_all(spans).len(),
    ensures
        ({
            let at = text::utf8_len(preview::line_text(spans).take(k)) as int;
            let (c, look) = spread_all(spans)[k];
            let after = spread_all(overlaid(spans, ranges, color, bg));
            let hit = exists|j: int|
                0 <= j < ranges.len() && (#[trigger] ranges[j]).0 <= at < ranges[j].1;
            &&& after.len() == spread_all(spans).len()
            &&& after[k].0 == c
            &&& !hit ==> after[k].1 == look
            &&& hit ==> {
                &&& after[k].1.bg == bg
                &&& after[k].1.style.color == color
                &&& after[k].1.style.italic == look.style.italic
                &&& after[k].1.style.bold == look.style.bold
                &&& after[k].1.style.underline == look.style.underline
                &&& after[k].1.style.strikethrough == look.style.strikethrough
            }
        }),
{
    law_overlay_marks_exactly_the_ranges(spans, ranges, color, bg);
}

/// The characters of a line are those of its text.
proof fn lemma_spread_text(spans: Seq<SpanModel>)
    ensures
        spread_all(spans).len() == preview::line_text(spans).len(),
        forall|k: int|
            0 <= k < spread_all(spans).len() ==> (#[trigger] spread_all(spans)[k]).0
                == preview::line_text(spans)[k],
    decreases spans.len(),
{
    if spans.len() > 0 {
        let front = spans.drop_last();
        lemma_spread_text(front);
        assert forall|k: int| 0 <= k < spread_all(spans).len() implies (
        #[trigger] spread_all(spans)[k]).0 == preview::line_text(spans)[k] by {
            if k < spread_all(front).len() {
                assert(spread_all(spans)[k] == spread_all(front)[k]);
            }
        }
    }
}

/// Laying matches over a line keeps its text.
pub proof fn lemma_overlay_text(
    spans: Seq<SpanModel>,
    ranges: Seq<(u32, u32)>,
    color: u32,
    bg: Option<u32>,
)
    requires
        aligned(preview::line_text(spans), 0, ranges),
    ensures
        preview::line_text(overlaid(spans, ranges, color, bg)) == preview::line_text(spans),
{
    law_overlay_marks_exactly_the_ranges(spans, ranges, color, bg);
    let after = overlaid(spans, ranges, color, bg);
    lemma_spread_text(spans);
    lemma_spread_text(after);
    assert forall|k: int| 0 <= k < preview::line_text(spans).len() implies preview::line_text(
        after,
    )[k] == preview::line_text(spans)[k] by {
        assert(spread_all(after)[k].0 == spread_all(spans)[k].0);
    }
    assert(preview::line_text(after) =~= preview::line_text(spans));
}

/// A byte range is widened to the characters that have a byte in it, and to no others.
pub proof fn law_ranges_are_widened(t: Seq<char>, start: int, end: int, i: int)
    requires
        0 <= start,
        0 <= end,
        0 <= i < t.len(),
    ensures
        ({
            let from = text::utf8_len(t.take(i));
            let to = text::utf8_len(t.take(i + 1));
            (start < to && from < end) <==> (clamped(t, start, end) matches Some((a, b)) && a <= from
                && to <= b)
        }),
        clamped(t, start, end) matches Some((a, b)) ==> a < b && text::is_boundary(t, a)
            && text::is_boundary(t, b),
{
    let from = text::floor_index(t, start);
    let to = text::ceil_index(t, end);
    text::lemma_floor_index(t, start);
    text::lemma_floor_index(t, end);
    text::lemma_utf8_len_take(t, i, i + 1);
    if from < i {
        text::lemma_utf8_len_take(t, from, i);
        text::lemma_utf8_len_take(t, from + 1, i + 1);
    } else if i < from {
        text::lemma_utf8_len_take(t, i, from);
        text::lemma_utf8_len_take(t, i + 1, from);
    }
    if to <= i {
        text::lemma_utf8_len_take(t, to, i);
        text::lemma_utf8_len_take(t, to, i + 1);
    } else {
        text::lemma_utf8_len_take(t, i + 1, to);
        text::lemma_utf8_len_take(t, i, to - 1);
        text::lemma_utf8_len_take(t, to - 1, to);
    }
    if from < to {
        text::lemma_boundary_at(t, from);
        text::lemma_boundary_at(t, to);
        text::lemma_utf8_len_take(t, from, to);
    }
}

/// A byte range of a text touches the characters that have a byte in it; between them no other
/// character is left out.
pub proof fn law_touched_characters(t: Seq<char>, start: int, end: int, i: int)
    requires
        0 <= start,
        0 <= end,
        0 <= i < t.len(),
    ensures
        ({
            let from = text::floor_index(t, start);
            let inside = start < text::utf8_len(t.take(i + 1)) && text::utf8_len(t.take(i)) < end;
            inside <==> from <= i < from + touched(t, start, end).len() && touched(t, start, end)[i
                - from] == t[i]
        }),
{
    let from = text::floor_index(t, start);
    let to = text::ceil_index(t, end);
    text::lemma_floor_index(t, start);
    text::lemma_floor_index(t, end);
    text::lemma_utf8_len_take(t, i, i + 1);
    if from <= i {
        text::lemma_utf8_len_take(t, from, i);
        text::lemma_utf8_len_take(t, from + 1, i + 1);
    } else {
        text::lemma_utf8_len_take(t, i + 1, from);
    }
    if to <= i {
        text::lemma_utf8_len_take(t, to, i);
    } else {
        text::lemma_utf8_len_take(t, i, to - 1);
        text::lemma_utf8_len_take(t, to - 1, to);
    }
}

} // verus!
