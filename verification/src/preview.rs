//! The preview: the lines of a file as coloured spans, and the matches of a search laid over them.

use vstd::prelude::*;

use crate::grammar;
use crate::grammar::{
    captures_of, syntax_set_for_path, trace_text, TraceEvent, TreeSitterLanguageSpec,
};
use crate::text;
use crate::text::{chars_of, slice_text};
use crate::theme;
use crate::theme::{ActiveTheme, Palette, ResolvedTheme, SyntaxRenderStyle};

verus! {

pub const MAX_PREVIEW_LINES: usize = 500;

pub const MATCH_CONTEXT_BEFORE: usize = 8;

/// A piece of a line that is drawn in one style.
#[derive(Debug)]
pub struct HighlightedSpan {
    pub color: u32,
    pub bg: Option<u32>,
    pub italic: bool,
    pub bold: bool,
    pub underline: bool,
    pub strikethrough: bool,
    pub text: String,
}

#[derive(Debug)]
pub struct HighlightedLine {
    pub spans: Vec<HighlightedSpan>,
}

/// The style of a span, and its background.
pub struct Look {
    pub style: SyntaxRenderStyle,
    pub bg: Option<u32>,
}

pub struct SpanModel {
    pub look: Look,
    pub text: Seq<char>,
}

impl View for HighlightedSpan {
    type V = SpanModel;

    open spec fn view(&self) -> SpanModel {
        SpanModel {
            look: Look {
                style: SyntaxRenderStyle {
                    color: self.color,
                    italic: self.italic,
                    bold: self.bold,
                    underline: self.underline,
                    strikethrough: self.strikethrough,
                },
                bg: self.bg,
            },
            text: self.text@,
        }
    }
}

pub open spec fn spans_view(v: Seq<HighlightedSpan>) -> Seq<SpanModel> {
    v.map_values(|s: HighlightedSpan| s@)
}

pub open spec fn lines_view(v: Seq<HighlightedLine>) -> Seq<Seq<SpanModel>> {
    v.map_values(|l: HighlightedLine| spans_view(l.spans@))
}

impl Clone for HighlightedSpan {
    fn clone(&self) -> (r: Self)
        ensures
            r@ == self@,
    {
        HighlightedSpan {
            color: self.color,
            bg: self.bg,
            italic: self.italic,
            bold: self.bold,
            underline: self.underline,
            strikethrough: self.strikethrough,
            text: self.text.clone(),
        }
    }
}

pub fn copy_spans(spans: &Vec<HighlightedSpan>) -> (r: Vec<HighlightedSpan>)
    ensures
        spans_view(r@) == spans_view(spans@),
{
    let mut r: Vec<HighlightedSpan> = Vec::new();
    let mut i: usize = 0;
    while i < spans.len()
        invariant
            i <= spans.len(),
            spans_view(r@) == spans_view(spans@).take(i as int),
        decreases spans.len() - i,
    {
        let ghost before = spans_view(r@);
        let span = spans[i].clone();
        r.push(span);
        i += 1;
        assert(spans_view(r@) =~= before.push(span@));
        assert(spans_view(r@) =~= spans_view(spans@).take(i as int));
    }
    assert(spans_view(spans@).take(i as int) =~= spans_view(spans@));
    r
}

impl Clone for HighlightedLine {
    fn clone(&self) -> (r: Self)
        ensures
            spans_view(r.spans@) == spans_view(self.spans@),
    {
        HighlightedLine { spans: copy_spans(&self.spans) }
    }
}

fn span_in(style: SyntaxRenderStyle, bg: Option<u32>, text: String) -> (r: HighlightedSpan)
    ensures
        r@ == (SpanModel { look: Look { style, bg }, text: text@ }),
{
    HighlightedSpan {
        color: style.color,
        bg,
        italic: style.italic,
        bold: style.bold,
        underline: style.underline,
        strikethrough: style.strikethrough,
        text,
    }
}

/// A line with text added at its end: to its last span if that has the same style, else in a span
/// of its own.
pub open spec fn appended(
    line: Seq<SpanModel>,
    style: SyntaxRenderStyle,
    added: Seq<char>,
) -> Seq<SpanModel> {
    if added.len() == 0 {
        line
    } else if line.len() > 0 && line.last().look.style == style {
        line.drop_last().push(SpanModel { look: line.last().look, text: line.last().text + added })
    } else {
        line.push(SpanModel { look: Look { style, bg: None }, text: added })
    }
}

/// Adds text at the end of a line: to the last span if it has the same style, else in a new one.
pub fn append_span(line: &mut HighlightedLine, style: SyntaxRenderStyle, added: String)
    ensures
        spans_view(final(line).spans@) == appended(spans_view(old(line).spans@), style, added@),
{
    let ghost before = spans_view(line.spans@);
    if chars_of(added.as_str()).len() == 0 {
        return;
    }
    let n = line.spans.len();
    if n > 0 && line.spans[n - 1].color == style.color && line.spans[n - 1].italic == style.italic
        && line.spans[n - 1].bold == style.bold && line.spans[n - 1].underline == style.underline
        && line.spans[n - 1].strikethrough == style.strikethrough {
        let mut last = line.spans.pop().unwrap();
        assert(last@ == before.last());
        last.text.append(added.as_str());
        line.spans.push(last);
        assert(spans_view(line.spans@) =~= before.drop_last().push(last@));
        return;
    }
    let span = span_in(style, None, added);
    line.spans.push(span);
    assert(spans_view(line.spans@) =~= before.push(span@));
}

/// The text without a carriage return at its end.
pub open spec fn strip_cr(s: Seq<char>) -> Seq<char> {
    if s.len() > 0 && s.last() == '\r' {
        s.drop_last()
    } else {
        s
    }
}

/// Lines with text added at the end, in one style. The text goes on a new line after each line
/// break, and a carriage return before a line break or at the end is dropped.
pub open spec fn pushed(
    lines: Seq<Seq<SpanModel>>,
    added: Seq<char>,
    style: SyntaxRenderStyle,
) -> Seq<Seq<SpanModel>>
    decreases added.len(),
    via pushed_decreases
{
    let i = text::first_of(added, '\n', '\n');
    if added.len() == 0 {
        lines
    } else if i < added.len() {
        pushed(
            lines.drop_last().push(appended(lines.last(), style, strip_cr(added.take(i)))).push(
                Seq::empty(),
            ),
            added.skip(i + 1),
            style,
        )
    } else {
        lines.drop_last().push(appended(lines.last(), style, strip_cr(added)))
    }
}

#[via_fn]
proof fn pushed_decreases(
    lines: Seq<Seq<SpanModel>>,
    added: Seq<char>,
    style: SyntaxRenderStyle,
) {
    text::lemma_first_of(added, '\n', '\n');
}

/// Puts the characters from `from` to `to` at the end of the last line, less a carriage return at
/// their end.
fn append_to_last(
    lines: &mut Vec<HighlightedLine>,
    chars: &Vec<char>,
    from: usize,
    to: usize,
    style: SyntaxRenderStyle,
)
    requires
        old(lines).len() > 0,
        from <= to <= chars.len(),
    ensures
        lines_view(final(lines)@) == lines_view(old(lines)@).drop_last().push(
            appended(
                lines_view(old(lines)@).last(),
                style,
                strip_cr(chars@.subrange(from as int, to as int)),
            ),
        ),
{
    let ghost before = lines_view(lines@);
    let ghost whole = chars@.subrange(from as int, to as int);
    let end = if from < to && chars[to - 1] == '\r' {
        to - 1
    } else {
        to
    };
    assert(chars@.subrange(from as int, end as int) =~= strip_cr(whole));
    let mut last = lines.pop().unwrap();
    assert(spans_view(last.spans@) == before.last());
    append_span(&mut last, style, slice_text(chars, from, end));
    lines.push(last);
    assert(lines_view(lines@) =~= before.drop_last().push(spans_view(last.spans@)));
}

/// Adds the characters from `from` to `to` at the end of the lines.
fn push_text(
    lines: &mut Vec<HighlightedLine>,
    chars: &Vec<char>,
    from: usize,
    to: usize,
    style: SyntaxRenderStyle,
)
    requires
        old(lines).len() > 0,
        from <= to <= chars.len(),
    ensures
        final(lines).len() > 0,
        lines_view(final(lines)@) == pushed(
            lines_view(old(lines)@),
            chars@.subrange(from as int, to as int),
            style,
        ),
{
    let ghost target = pushed(
        lines_view(lines@),
        chars@.subrange(from as int, to as int),
        style,
    );
    let mut pos = from;
    while pos < to
        invariant
            pos <= to <= chars.len(),
            lines.len() > 0,
            target == pushed(
                lines_view(lines@),
                chars@.subrange(pos as int, to as int),
                style,
            ),
        decreases to - pos,
    {
        let ghost rest = chars@.subrange(pos as int, to as int);
        let mut at = pos;
        while at < to && chars[at] != '\n'
            invariant
                pos <= at <= to <= chars.len(),
                forall|k: int| pos <= k < at ==> #[trigger] chars@[k] != '\n',
            decreases to - at,
        {
            at += 1;
        }
        proof {
            let i = at - pos;
            assert forall|k: int| 0 <= k < i implies #[trigger] rest[k] != '\n' by {
                assert(rest[k] == chars@[pos + k]);
            }
            text::lemma_first_of_is(rest, '\n', '\n', i);
            assert(rest.take(i) =~= chars@.subrange(pos as int, at as int));
        }
        append_to_last(lines, chars, pos, at, style);
        if at < to {
            let ghost before = lines_view(lines@);
            let blank = HighlightedLine { spans: Vec::new() };
            lines.push(blank);
            assert(spans_view(blank.spans@) =~= Seq::empty());
            assert(lines_view(lines@) =~= before.push(Seq::empty()));
            assert(rest.skip(at - pos + 1) =~= chars@.subrange(at + 1, to as int));
            pos = at + 1;
        } else {
            assert(chars@.subrange(to as int, to as int) =~= Seq::empty());
            assert(rest =~= chars@.subrange(pos as int, at as int));
            pos = to;
        }
    }
    assert(chars@.subrange(pos as int, to as int) =~= Seq::empty());
}

/// A line of plain text.
pub open spec fn plain_line(t: Seq<char>, style: SyntaxRenderStyle) -> Seq<SpanModel> {
    if t.len() == 0 {
        Seq::empty()
    } else {
        seq![SpanModel { look: Look { style, bg: None }, text: t }]
    }
}

/// The lines of a text in one style. A line break ends a line; it does not begin another.
pub open spec fn plain_lines(content: Seq<char>, style: SyntaxRenderStyle) -> Seq<Seq<SpanModel>>
    decreases content.len(),
    via plain_lines_decreases
{
    let i = text::first_of(content, '\n', '\n');
    if content.len() == 0 {
        Seq::empty()
    } else if i < content.len() {
        seq![plain_line(strip_cr(content.take(i)), style)] + plain_lines(content.skip(i + 1), style)
    } else {
        seq![plain_line(strip_cr(content), style)]
    }
}

#[via_fn]
proof fn plain_lines_decreases(content: Seq<char>, style: SyntaxRenderStyle) {
    text::lemma_first_of(content, '\n', '\n');
}

/// The character at a place is shown: it is no line break, and no carriage return at the end of a
/// line.
pub open spec fn shown_at(content: Seq<char>, i: int) -> bool {
    &&& 0 <= i < content.len()
    &&& content[i] != '\n'
    &&& content[i] == '\r' ==> i + 1 < content.len() && content[i + 1] != '\n'
}

/// A text has a line with something on it.
pub open spec fn has_text(content: Seq<char>) -> bool {
    exists|i: int| shown_at(content, i)
}

/// Whether a text has a line with something on it.
pub fn has_text_lines(content: &str) -> (r: bool)
    ensures
        r == has_text(content@),
{
    let chars = chars_of(content);
    let mut i: usize = 0;
    while i < chars.len()
        invariant
            i <= chars.len(),
            chars@ == content@,
            forall|k: int| 0 <= k < i ==> !#[trigger] shown_at(content@, k),
        decreases chars.len() - i,
    {
        let c = chars[i];
        if c != '\n' && (c != '\r' || (i + 1 < chars.len() && chars[i + 1] != '\n')) {
            assert(shown_at(content@, i as int));
            return true;
        }
        i += 1;
    }
    false
}

/// The lines of a text in the style of plain text, which is looked up where a line has something
/// on it.
pub fn plain_text_lines(content: &str, theme: &ResolvedTheme) -> (r: Vec<HighlightedLine>)
    requires
        has_text(content@) ==> theme@.render_ok("text"@),
    ensures
        lines_view(r@) == plain_lines(content@, theme@.render_style("text"@)),
{
    let ghost style = theme@.render_style("text"@);
    let chars = chars_of(content);
    let n = chars.len();
    let ghost target = plain_lines(content@, style);
    let mut lines: Vec<HighlightedLine> = Vec::new();
    let mut pos: usize = 0;
    assert(chars@.subrange(0, n as int) =~= content@);
    assert(lines_view(lines@) + target =~= target);
    while pos < n
        invariant
            pos <= n == chars.len(),
            chars@ == content@,
            has_text(content@) ==> theme@.render_ok("text"@),
            style == theme@.render_style("text"@),
            target == lines_view(lines@) + plain_lines(
                chars@.subrange(pos as int, n as int),
                style,
            ),
        decreases n - pos,
    {
        let ghost rest = chars@.subrange(pos as int, n as int);
        let mut at = pos;
        while at < n && chars[at] != '\n'
            invariant
                pos <= at <= n == chars.len(),
                forall|k: int| pos <= k < at ==> #[trigger] chars@[k] != '\n',
            decreases n - at,
        {
            at += 1;
        }
        let end = if pos < at && chars[at - 1] == '\r' {
            at - 1
        } else {
            at
        };
        proof {
            let i = at - pos;
            assert forall|k: int| 0 <= k < i implies #[trigger] rest[k] != '\n' by {
                assert(rest[k] == chars@[pos + k]);
            }
            text::lemma_first_of_is(rest, '\n', '\n', i);
            assert(rest.take(i) =~= chars@.subrange(pos as int, at as int));
            assert(at == n ==> rest.take(i) =~= rest);
            assert(strip_cr(rest.take(i)) =~= chars@.subrange(pos as int, end as int));
        }
        let mut spans: Vec<HighlightedSpan> = Vec::new();
        if pos < end {
            assert(shown_at(content@, pos as int));
            let look = theme.syntax_render_style("text");
            spans.push(span_in(look, None, slice_text(&chars, pos, end)));
        }
        let line = HighlightedLine { spans };
        let ghost before = lines_view(lines@);
        lines.push(line);
        assert(spans_view(line.spans@) =~= plain_line(strip_cr(rest.take(at - pos)), style));
        assert(lines_view(lines@) =~= before.push(spans_view(line.spans@)));
        if at < n {
            assert(rest.skip(at - pos + 1) =~= chars@.subrange(at + 1, n as int));
            pos = at + 1;
        } else {
            assert(chars@.subrange(n as int, n as int) =~= Seq::empty());
            pos = n;
        }
        assert(target =~= lines_view(lines@) + plain_lines(
            chars@.subrange(pos as int, n as int),
            style,
        ));
    }
    assert(chars@.subrange(pos as int, n as int) =~= Seq::empty());
    assert(lines_view(lines@) + Seq::empty() =~= lines_view(lines@));
    lines
}

/// The bytes from `start` to `end` are whole characters of the content.
pub open spec fn piece_ok(content: Seq<char>, start: int, end: int) -> bool {
    start <= end && text::is_boundary(content, start) && text::is_boundary(content, end)
}

/// The characters whose bytes are those from `start` to `end`.
pub open spec fn piece_text(content: Seq<char>, start: int, end: int) -> Seq<char> {
    content.subrange(text::floor_index(content, start), text::floor_index(content, end))
}

/// The name of a capture. Indices that are not known stand for plain text.
pub open spec fn capture_name(captures: Seq<Seq<char>>, index: int) -> Seq<char> {
    if index < captures.len() {
        captures[index]
    } else {
        "text"@
    }
}

/// A step can be drawn: a piece is made of whole characters, and the style of a capture can be
/// read.
pub open spec fn event_ok(
    content: Seq<char>,
    captures: Seq<Seq<char>>,
    theme: theme::ThemeModel,
    event: TraceEvent,
) -> bool {
    match event {
        TraceEvent::Piece { start, end } => piece_ok(content, start as int, end as int),
        TraceEvent::Start(index) => theme.render_ok(capture_name(captures, index as int)),
        TraceEvent::End => true,
    }
}

/// Steps can be drawn: each of them can be, and so can plain text.
pub open spec fn trace_ok(
    content: Seq<char>,
    captures: Seq<Seq<char>>,
    theme: theme::ThemeModel,
    events: Seq<TraceEvent>,
) -> bool {
    &&& theme.render_ok("text"@)
    &&& forall|i: int|
        0 <= i < events.len() ==> event_ok(content, captures, theme, #[trigger] events[i])
}

/// The lines after some steps of the highlighter, and the styles of the captures that are open,
/// the innermost last and that of plain text first.
pub open spec fn drawn(
    content: Seq<char>,
    captures: Seq<Seq<char>>,
    theme: theme::ThemeModel,
    events: Seq<TraceEvent>,
) -> (Seq<Seq<SpanModel>>, Seq<SyntaxRenderStyle>)
    decreases events.len(),
{
    if events.len() == 0 {
        (seq![Seq::empty()], seq![theme.render_style("text"@)])
    } else {
        let (lines, open) = drawn(content, captures, theme, events.drop_last());
        match events.last() {
            TraceEvent::Piece { start, end } => (
                pushed(lines, piece_text(content, start as int, end as int), open.last()),
                open,
            ),
            TraceEvent::Start(index) => (
                lines,
                open.push(theme.render_style(capture_name(captures, index as int))),
            ),
            TraceEvent::End => (
                lines,
                if open.len() > 1 {
                    open.drop_last()
                } else {
                    open
                },
            ),
        }
    }
}

/// The byte offset of each character, and of the end.
fn offsets_of(chars: &Vec<char>) -> (r: Option<Vec<usize>>)
    ensures
        r is Some <==> text::utf8_len(chars@) <= usize::MAX,
        r matches Some(v) ==> v.len() == chars.len() + 1 && forall|k: int|
            0 <= k <= chars.len() ==> #[trigger] v@[k] == text::utf8_len(chars@.take(k)),
{
    let mut r: Vec<usize> = Vec::new();
    let mut i: usize = 0;
    let mut sum: usize = 0;
    assert(chars@.take(0) =~= Seq::empty());
    r.push(0);
    while i < chars.len()
        invariant
            i <= chars.len(),
            r.len() == i + 1,
            sum == text::utf8_len(chars@.take(i as int)),
            forall|k: int| 0 <= k <= i ==> #[trigger] r@[k] == text::utf8_len(chars@.take(k)),
        decreases chars.len() - i,
    {
        let w = text::char_width(chars[i]);
        assert(chars@.take(i + 1).drop_last() =~= chars@.take(i as int));
        if sum > usize::MAX - w {
            proof {
                text::lemma_utf8_len_take(chars@, i + 1, chars@.len() as int);
                assert(chars@.take(chars@.len() as int) =~= chars@);
            }
            return None;
        }
        sum += w;
        r.push(sum);
        i += 1;
    }
    assert(chars@.take(i as int) =~= chars@);
    Some(r)
}

/// The character that begins at a byte offset, or the end.
fn index_at(chars: &Vec<char>, offsets: &Vec<usize>, b: usize) -> (r: Option<usize>)
    requires
        offsets.len() == chars.len() + 1,
        forall|k: int|
            0 <= k <= chars.len() ==> #[trigger] offsets@[k] == text::utf8_len(chars@.take(k)),
    ensures
        r is Some <==> text::is_boundary(chars@, b as int),
        r matches Some(k) ==> k == text::floor_index(chars@, b as int) && k <= chars.len(),
{
    let mut lo: usize = 0;
    let mut hi: usize = offsets.len() - 1;
    assert(chars@.take(0) =~= Seq::empty());
    while lo < hi
        invariant
            lo <= hi <= chars.len(),
            offsets.len() == chars.len() + 1,
            forall|k: int|
                0 <= k <= chars.len() ==> #[trigger] offsets@[k] == text::utf8_len(chars@.take(k)),
            offsets@[lo as int] <= b,
            hi < chars.len() ==> offsets@[hi + 1] > b,
        decreases hi - lo,
    {
        let mid = lo + (hi - lo + 1) / 2;
        if offsets[mid] <= b {
            lo = mid;
        } else {
            hi = mid - 1;
        }
    }
    proof {
        text::lemma_floor_index_is(chars@, b as int, lo as int);
    }
    if offsets[lo] == b {
        Some(lo)
    } else {
        None
    }
}

/// Whether the steps of a highlighter can be drawn.
fn trace_is_ok(
    chars: &Vec<char>,
    offsets: &Vec<usize>,
    captures: &Vec<String>,
    theme: &ResolvedTheme,
    events: &Vec<TraceEvent>,
) -> (r: bool)
    requires
        offsets.len() == chars.len() + 1,
        forall|k: int|
            0 <= k <= chars.len() ==> #[trigger] offsets@[k] == text::utf8_len(chars@.take(k)),
    ensures
        r == trace_ok(chars@, text::texts(captures@), theme@, events@),
{
    if !theme.can_render("text") {
        return false;
    }
    let ghost names = text::texts(captures@);
    let mut i: usize = 0;
    while i < events.len()
        invariant
            i <= events.len(),
            names == text::texts(captures@),
            theme@.render_ok("text"@),
            offsets.len() == chars.len() + 1,
            forall|k: int|
                0 <= k <= chars.len() ==> #[trigger] offsets@[k] == text::utf8_len(chars@.take(k)),
            forall|k: int|
                0 <= k < i ==> event_ok(chars@, names, theme@, #[trigger] events@[k]),
        decreases events.len() - i,
    {
        let ok = match events[i] {
            TraceEvent::Piece { start, end } => start <= end && index_at(
                chars,
                offsets,
                start,
            ).is_some() && index_at(chars, offsets, end).is_some(),
            TraceEvent::Start(index) => index >= captures.len() || theme.can_render(
                captures[index].as_str(),
            ),
            TraceEvent::End => true,
        };
        if !ok {
            assert(!event_ok(chars@, names, theme@, events@[i as int]));
            return false;
        }
        i += 1;
    }
    true
}

/// Draws the steps of a highlighter that can be drawn.
fn draw(
    chars: &Vec<char>,
    offsets: &Vec<usize>,
    captures: &Vec<String>,
    theme: &ResolvedTheme,
    events: &Vec<TraceEvent>,
) -> (r: Vec<HighlightedLine>)
    requires
        trace_ok(chars@, text::texts(captures@), theme@, events@),
        offsets.len() == chars.len() + 1,
        forall|k: int|
            0 <= k <= chars.len() ==> #[trigger] offsets@[k] == text::utf8_len(chars@.take(k)),
    ensures
        lines_view(r@) == drawn(chars@, text::texts(captures@), theme@, events@).0,
{
    let ghost names = text::texts(captures@);
    let blank = HighlightedLine { spans: Vec::new() };
    assert(spans_view(blank.spans@) =~= Seq::empty());
    let mut lines: Vec<HighlightedLine> = Vec::new();
    lines.push(blank);
    let mut open: Vec<SyntaxRenderStyle> = Vec::new();
    open.push(theme.syntax_render_style("text"));
    let mut i: usize = 0;
    assert(events@.take(0) =~= Seq::empty());
    assert(lines_view(lines@) =~= seq![Seq::empty()]);
    assert(open@ =~= seq![theme@.render_style("text"@)]);
    while i < events.len()
        invariant
            i <= events.len(),
            names == text::texts(captures@),
            trace_ok(chars@, names, theme@, events@),
            offsets.len() == chars.len() + 1,
            forall|k: int|
                0 <= k <= chars.len() ==> #[trigger] offsets@[k] == text::utf8_len(chars@.take(k)),
            lines.len() > 0,
            open.len() > 0,
            (lines_view(lines@), open@) == drawn(chars@, names, theme@, events@.take(i as int)),
        decreases events.len() - i,
    {
        assert(event_ok(chars@, names, theme@, events@[i as int]));
        assert(events@.take(i + 1).drop_last() =~= events@.take(i as int));
        assert(events@.take(i + 1).last() == events@[i as int]);
        match events[i] {
            TraceEvent::Piece { start, end } => {
                let from = index_at(chars, offsets, start).unwrap();
                let to = index_at(chars, offsets, end).unwrap();
                proof {
                    lemma_floor_ordered(chars@, start as int, end as int);
                }
                push_text(&mut lines, chars, from, to, open[open.len() - 1]);
            },
            TraceEvent::Start(index) => {
                let style = if index < captures.len() {
                    theme.syntax_render_style(captures[index].as_str())
                } else {
                    theme.syntax_render_style("text")
                };
                open.push(style);
            },
            TraceEvent::End => {
                if open.len() > 1 {
                    let ghost before = open@;
                    open.pop();
                    assert(open@ =~= before.drop_last());
                }
            },
        }
        i += 1;
    }
    assert(events@.take(i as int) =~= events@);
    lines
}

/// A larger byte offset lies no further to the left.
proof fn lemma_floor_ordered(s: Seq<char>, a: int, b: int)
    requires
        0 <= a <= b,
    ensures
        text::floor_index(s, a) <= text::floor_index(s, b),
{
    text::lemma_floor_index(s, a);
    text::lemma_floor_index(s, b);
    let i = text::floor_index(s, a);
    let j = text::floor_index(s, b);
    if j < i {
        if j + 1 < i {
            text::lemma_utf8_len_take(s, j + 1, i);
        }
    }
}

/// Draws the steps that a highlighter took over a text, or nothing where they cannot be drawn.
pub fn draw_trace(
    content: &str,
    captures: &Vec<String>,
    theme: &ResolvedTheme,
    events: &Vec<TraceEvent>,
) -> (r: Option<Vec<HighlightedLine>>)
    ensures
        r is Some <==> trace_ok(content@, text::texts(captures@), theme@, events@),
        r matches Some(lines) ==> lines_view(lines@) == drawn(
            content@,
            text::texts(captures@),
            theme@,
            events@,
        ).0,
{
    let chars = chars_of(content);
    let size = text::byte_count(content);
    assert(size == text::utf8_len(content@));
    let offsets = match offsets_of(&chars) {
        Some(offsets) => offsets,
        None => return None,
    };
    if trace_is_ok(&chars, &offsets, captures, theme, events) {
        Some(draw(&chars, &offsets, captures, theme, events))
    } else {
        None
    }
}

/// The lines of a text as a grammar's highlighter colours them, if it gets through and its steps
/// can be drawn.
pub open spec fn highlighted(
    grammar: grammar::Grammar,
    content: Seq<char>,
    theme: theme::ThemeModel,
) -> Option<Seq<Seq<SpanModel>>> {
    if content.len() == 0 {
        Some(Seq::empty())
    } else {
        match grammar::query_captures(grammar) {
            None => None,
            Some(captures) => match grammar::highlight_trace(grammar, captures, content) {
                None => None,
                Some(events) => if trace_ok(content, captures, theme, events) {
                    Some(drawn(content, captures, theme, events).0)
                } else {
                    None
                },
            },
        }
    }
}

pub open spec fn opt_lines(o: Option<Vec<HighlightedLine>>) -> Option<Seq<Seq<SpanModel>>> {
    match o {
        Some(v) => Some(lines_view(v@)),
        None => None,
    }
}

pub fn highlighted_lines(
    content: &str,
    spec: &TreeSitterLanguageSpec,
    theme: &ResolvedTheme,
) -> (r: Option<Vec<HighlightedLine>>)
    requires
        spec.wf(),
    ensures
        opt_lines(r) == highlighted(spec.grammar, content@, theme@),
        r matches Some(lines) ==> content@.len() > 0 && returns_end_lines(content@) ==> line_texts(
            lines_view(lines@),
        ) == shown_lines(content@),
{
    if chars_of(content).len() == 0 {
        let none: Vec<HighlightedLine> = Vec::new();
        assert(lines_view(none@) =~= Seq::empty());
        return Some(none);
    }
    let captures = match captures_of(spec) {
        Some(captures) => captures,
        None => return None,
    };
    let events = match trace_text(spec, &captures, content) {
        Some(events) => events,
        None => return None,
    };
    let r = draw_trace(content, &captures, theme, &events);
    proof {
        if r is Some && returns_end_lines(content@) {
            law_drawing_keeps_text(content@, text::texts(captures@), theme@, events@);
        }
    }
    r
}

/// The text of a line.
pub open spec fn line_text(line: Seq<SpanModel>) -> Seq<char>
    decreases line.len(),
{
    if line.len() == 0 {
        Seq::empty()
    } else {
        line_text(line.drop_last()) + line.last().text
    }
}

pub open spec fn line_texts(lines: Seq<Seq<SpanModel>>) -> Seq<Seq<char>> {
    lines.map_values(|line: Seq<SpanModel>| line_text(line))
}

/// Carriage returns stand only before line breaks and at the end of the text.
pub open spec fn returns_end_lines(content: Seq<char>) -> bool {
    forall|i: int|
        0 <= i < content.len() - 1 && #[trigger] content[i] == '\r' ==> content[i + 1] == '\n'
}

/// Each text without a carriage return at its end.
pub open spec fn stripped(parts: Seq<Seq<char>>) -> Seq<Seq<char>> {
    parts.map_values(|part: Seq<char>| strip_cr(part))
}

/// The lines of a text as they are shown: without the characters that end them.
pub open spec fn shown_lines(content: Seq<char>) -> Seq<Seq<char>> {
    stripped(text::split(content, '\n', '\n'))
}

proof fn lemma_appended_text(line: Seq<SpanModel>, style: SyntaxRenderStyle, added: Seq<char>)
    ensures
        line_text(appended(line, style, added)) == line_text(line) + added,
{
    let after = appended(line, style, added);
    if added.len() == 0 {
        assert(line_text(line) + added =~= line_text(line));
    } else if line.len() > 0 && line.last().look.style == style {
        assert(after.drop_last() =~= line.drop_last());
        assert(line_text(after) =~= line_text(line) + added);
    } else {
        assert(after.drop_last() =~= line);
    }
}

/// A line that a sequence of additions builds up, each of a text in a style.
pub open spec fn built(added: Seq<(SyntaxRenderStyle, Seq<char>)>) -> Seq<SpanModel>
    decreases added.len(),
{
    if added.len() == 0 {
        Seq::empty()
    } else {
        appended(built(added.drop_last()), added.last().0, added.last().1)
    }
}

/// The texts of a sequence of additions, one after the other.
pub open spec fn added_text(added: Seq<(SyntaxRenderStyle, Seq<char>)>) -> Seq<char>
    decreases added.len(),
{
    if added.len() == 0 {
        Seq::empty()
    } else {
        added_text(added.drop_last()) + added.last().1
    }
}

/// A line that was built by additions has no empty span, no background, and no two neighbours in
/// the same style, and its text is that of the additions in their order.
pub proof fn law_built_lines(added: Seq<(SyntaxRenderStyle, Seq<char>)>)
    ensures
        ({
            let line = built(added);
            &&& forall|i: int|
                0 <= i < line.len() ==> (#[trigger] line[i]).text.len() > 0 && line[i].look.bg
                    is None
            &&& forall|i: int|
                0 <= i < line.len() - 1 ==> (#[trigger] line[i]).look.style != line[i
                    + 1].look.style
            &&& line_text(line) == added_text(added)
        }),
    decreases added.len(),
{
    if added.len() > 0 {
        let front = added.drop_last();
        law_built_lines(front);
        let before = built(front);
        let line = built(added);
        lemma_appended_text(before, added.last().0, added.last().1);
        assert forall|i: int| 0 <= i < line.len() implies (#[trigger] line[i]).text.len() > 0
            && line[i].look.bg is None by {
            if i < before.len() {
                assert(before[i].text.len() > 0 && before[i].look.bg is None);
            }
        }
        assert forall|i: int| 0 <= i < line.len() - 1 implies (#[trigger] line[i]).look.style
            != line[i + 1].look.style by {
            if i < before.len() - 1 {
                assert(before[i].look.style != before[i + 1].look.style);
            }
        }
    } else {
        assert(line_text(built(added)) =~= added_text(added));
    }
}

/// Added text continues the last line and goes on in new ones.
proof fn lemma_pushed_text(
    lines: Seq<Seq<SpanModel>>,
    added: Seq<char>,
    style: SyntaxRenderStyle,
)
    requires
        lines.len() > 0,
    ensures
        pushed(lines, added, style).len() > 0,
        line_texts(pushed(lines, added, style)) == text::glued(line_texts(lines), shown_lines(added)),
    decreases added.len(),
{
    let i = text::first_of(added, '\n', '\n');
    text::lemma_first_of(added, '\n', '\n');
    let parts = text::split(added, '\n', '\n');
    let shown = shown_lines(added);
    if added.len() == 0 {
        assert(parts =~= seq![added]);
        assert(shown[0] =~= Seq::empty());
        assert(line_texts(lines).last() + shown[0] =~= line_texts(lines).last());
        assert(text::glued(line_texts(lines), shown) =~= line_texts(lines));
    } else if i < added.len() {
        let head = strip_cr(added.take(i));
        let tail = added.skip(i + 1);
        let last = appended(lines.last(), style, head);
        let next = lines.drop_last().push(last).push(Seq::empty());
        lemma_appended_text(lines.last(), style, head);
        lemma_pushed_text(next, tail, style);
        let rest = shown_lines(tail);
        text::lemma_split_nonempty(tail, '\n', '\n');
        assert(shown =~= seq![head] + rest);
        assert(line_texts(next).drop_last() =~= line_texts(lines).drop_last().push(
            line_text(last),
        ));
        assert(line_texts(next).last() + rest[0] =~= rest[0]);
        assert(shown.skip(1) =~= rest);
        assert(rest =~= seq![rest[0]] + rest.skip(1));
        assert(text::glued(line_texts(next), rest) =~= text::glued(line_texts(lines), shown));
    } else {
        let whole = strip_cr(added);
        lemma_appended_text(lines.last(), style, whole);
        assert(parts =~= seq![added]);
        assert(shown =~= seq![whole]);
        let next = lines.drop_last().push(appended(lines.last(), style, whole));
        assert(line_texts(next) =~= text::glued(line_texts(lines), shown));
    }
}

/// Where text continues another one in which carriage returns end lines, the lines that are shown
/// continue too.
proof fn lemma_shown_glued(a: Seq<char>, b: Seq<char>)
    requires
        returns_end_lines(a + b),
    ensures
        shown_lines(a + b) == text::glued(shown_lines(a), shown_lines(b)),
{
    text::lemma_split_glued(a, b, '\n', '\n');
    text::lemma_split_nonempty(a, '\n', '\n');
    text::lemma_split_nonempty(b, '\n', '\n');
    let left = text::split(a, '\n', '\n');
    let right = text::split(b, '\n', '\n');
    let x = left.last();
    let y = right[0];
    lemma_split_last_first(a, b);
    assert(strip_cr(x + y) =~= strip_cr(x) + strip_cr(y)) by {
        if x.len() > 0 && y.len() > 0 && x.last() == '\r' {
            let n = a.len() as int;
            assert((a + b)[n - 1] == '\r');
            assert((a + b)[n] == b[0]);
        }
        if y.len() == 0 {
            assert(x + y =~= x);
        }
    }
    let whole = text::glued(left, right);
    assert(stripped(whole) =~= text::glued(stripped(left), stripped(right)));
}

/// The last part of a text is its end, and the first part is its start.
proof fn lemma_split_last_first(a: Seq<char>, b: Seq<char>)
    ensures
        ({
            let x = text::split(a, '\n', '\n').last();
            let y = text::split(b, '\n', '\n')[0];
            &&& x.len() > 0 ==> a.len() > 0 && x.last() == a.last()
            &&& y.len() > 0 ==> b.len() > 0 && y[0] == b[0] && b[0] != '\n'
        }),
    decreases a.len(),
{
    let i = text::first_of(a, '\n', '\n');
    text::lemma_first_of(a, '\n', '\n');
    text::lemma_first_of(b, '\n', '\n');
    if i < a.len() {
        let tail = a.skip(i + 1);
        lemma_split_last_first(tail, b);
        text::lemma_split_nonempty(tail, '\n', '\n');
        assert(text::split(a, '\n', '\n').last() == text::split(tail, '\n', '\n').last());
        assert(tail.len() > 0 ==> tail.last() == a.last());
    }
}

proof fn lemma_drawn_prefix(
    content: Seq<char>,
    captures: Seq<Seq<char>>,
    theme: theme::ThemeModel,
    events: Seq<TraceEvent>,
)
    requires
        trace_ok(content, captures, theme, events),
        grammar::covers(events, 0),
        returns_end_lines(content),
    ensures
        grammar::pieces_end(events) >= 0,
        text::is_boundary(content, grammar::pieces_end(events)),
        drawn(content, captures, theme, events).0.len() > 0,
        line_texts(drawn(content, captures, theme, events).0) == shown_lines(
            content.take(text::floor_index(content, grammar::pieces_end(events))),
        ),
    decreases events.len(),
{
    if events.len() == 0 {
        assert(content.take(0) =~= Seq::empty());
        text::lemma_boundary_at(content, 0);
        let blank: Seq<Seq<SpanModel>> = seq![Seq::empty()];
        assert(line_texts(blank) =~= seq![Seq::<char>::empty()]);
        assert(text::split(Seq::<char>::empty(), '\n', '\n') =~= seq![Seq::<char>::empty()]);
        assert(shown_lines(Seq::<char>::empty()) =~= seq![Seq::<char>::empty()]);
    } else {
        let front = events.drop_last();
        let n = events.len() - 1;
        assert(front =~= events.take(n));
        assert forall|i: int| 0 <= i < front.len() implies event_ok(
            content,
            captures,
            theme,
            #[trigger] front[i],
        ) by {
            assert(front[i] == events[i]);
        }
        assert(grammar::covers(front, 0)) by {
            assert forall|i: int| 0 <= i < front.len() implies match #[trigger] front[i] {
                TraceEvent::Piece { start, end } => start == grammar::pieces_end(front.take(i))
                    && start < end,
                _ => true,
            } by {
                assert(front[i] == events[i]);
                assert(front.take(i) =~= events.take(i));
            }
            lemma_pieces_end(front);
        }
        lemma_drawn_prefix(content, captures, theme, front);
        assert(event_ok(content, captures, theme, events[n]));
        if let TraceEvent::Piece { start, end } = events[n] {
            let from = text::floor_index(content, start as int);
            let to = text::floor_index(content, end as int);
            assert(start == grammar::pieces_end(front));
            lemma_floor_ordered(content, start as int, end as int);
            text::lemma_floor_index(content, start as int);
            text::lemma_floor_index(content, end as int);
            let added = piece_text(content, start as int, end as int);
            let (lines, open) = drawn(content, captures, theme, front);
            lemma_pushed_text(lines, added, open.last());
            assert(content.take(from) + added =~= content.take(to));
            assert(returns_end_lines(content.take(to))) by {
                assert forall|i: int|
                    0 <= i < content.take(to).len() - 1 && #[trigger] content.take(to)[i]
                        == '\r' implies content.take(to)[i + 1] == '\n' by {
                    assert(content[i] == '\r');
                }
            }
            lemma_shown_glued(content.take(from), added);
        }
    }
}

proof fn lemma_pieces_end(events: Seq<TraceEvent>)
    ensures
        grammar::pieces_end(events) >= 0,
    decreases events.len(),
{
    if events.len() > 0 {
        lemma_pieces_end(events.drop_last());
    }
}

/// Colouring a text in which carriage returns end lines changes nothing of it: its lines are the
/// lines of the text, without the characters that end them.
pub proof fn law_drawing_keeps_text(
    content: Seq<char>,
    captures: Seq<Seq<char>>,
    theme: theme::ThemeModel,
    events: Seq<TraceEvent>,
)
    requires
        trace_ok(content, captures, theme, events),
        grammar::covers(events, text::utf8_len(content) as int),
        returns_end_lines(content),
    ensures
        line_texts(drawn(content, captures, theme, events).0) == shown_lines(content),
{
    lemma_drawn_prefix(content, captures, theme, events);
    let end = grammar::pieces_end(events);
    let k = text::floor_index(content, end);
    text::lemma_floor_index(content, end);
    if k < content.len() {
        text::lemma_utf8_len_take(content, k, content.len() as int);
        assert(content.take(content.len() as int) =~= content);
    }
    assert(content.take(k) =~= content);
}

/// The lines of plain text are those of the text, without the characters that end them; a line
/// break at the end begins no line.
pub proof fn law_plain_lines_keep_text(content: Seq<char>, style: SyntaxRenderStyle)
    ensures
        line_texts(plain_lines(content, style)) == (if content.len() == 0 || content.last()
            == '\n' {
            shown_lines(content).drop_last()
        } else {
            shown_lines(content)
        }),
    decreases content.len(),
{
    let i = text::first_of(content, '\n', '\n');
    text::lemma_first_of(content, '\n', '\n');
    let parts = text::split(content, '\n', '\n');
    let shown = shown_lines(content);
    let lines = plain_lines(content, style);
    if content.len() == 0 {
        assert(shown.drop_last() =~= Seq::empty());
        assert(line_texts(lines) =~= Seq::empty());
    } else if i < content.len() {
        let head = strip_cr(content.take(i));
        let tail = content.skip(i + 1);
        law_plain_lines_keep_text(tail, style);
        lemma_plain_line_text(head, style);
        let rest = shown_lines(tail);
        text::lemma_split_nonempty(tail, '\n', '\n');
        assert(shown =~= seq![head] + rest);
        assert(tail.len() > 0 ==> tail.last() == content.last());
        assert(line_texts(lines) =~= seq![head] + line_texts(plain_lines(tail, style)));
        assert(shown.drop_last() =~= seq![head] + rest.drop_last());
    } else {
        let whole = strip_cr(content);
        lemma_plain_line_text(whole, style);
        assert(parts =~= seq![content]);
        assert(shown =~= seq![whole]);
        assert(line_texts(lines) =~= seq![whole]);
    }
}

proof fn lemma_plain_line_text(t: Seq<char>, style: SyntaxRenderStyle)
    ensures
        line_text(plain_line(t, style)) == t,
{
    let line = plain_line(t, style);
    if t.len() == 0 {
        assert(line_text(line) =~= t);
    } else {
        assert(line.drop_last() =~= Seq::empty());
        assert(line_text(line.drop_last()) =~= Seq::empty());
        assert(line_text(line) =~= t);
    }
}

/// The lines of a file: coloured if there is a grammar for its path and the highlighter gets
/// through, else plain.
pub open spec fn path_lines(
    path: Seq<char>,
    content: Seq<char>,
    theme: theme::ThemeModel,
) -> Seq<Seq<SpanModel>> {
    let coloured = match grammar::path_grammar(path) {
        Some(grammar) => highlighted(grammar, content, theme),
        None => None,
    };
    match coloured {
        Some(lines) => lines,
        None => plain_lines(content, theme.render_style("text"@)),
    }
}

/// Lines that show a text: all its lines, but for an empty one behind a line break at the end,
/// which may be there or not.
pub open spec fn shows(lines: Seq<Seq<SpanModel>>, content: Seq<char>) -> bool {
    ||| line_texts(lines) == shown_lines(content)
    ||| (content.len() == 0 || content.last() == '\n') && line_texts(lines) == shown_lines(
        content,
    ).drop_last()
}

proof fn lemma_shows(lines: Seq<Seq<SpanModel>>, content: Seq<char>)
    requires
        shows(lines, content),
    ensures
        lines.len() <= shown_lines(content).len(),
        forall|k: int|
            0 <= k < lines.len() ==> line_text(#[trigger] lines[k]) == shown_lines(content)[k],
{
    text::lemma_split_nonempty(content, '\n', '\n');
    let shown = shown_lines(content);
    let texts = line_texts(lines);
    assert(texts.len() == lines.len());
    assert forall|k: int| 0 <= k < lines.len() implies line_text(#[trigger] lines[k])
        == shown[k] by {
        assert(texts[k] == line_text(lines[k]));
        if texts != shown {
            assert(shown.drop_last()[k] == shown[k]);
        }
    }
}

/// The lines of a file. They show its text, if carriage returns only end lines in it.
pub fn syntax_lines_for_path(
    path: &str,
    content: &str,
    theme: &ResolvedTheme,
) -> (r: Vec<HighlightedLine>)
    requires
        has_text(content@) ==> theme@.render_ok("text"@),
    ensures
        lines_view(r@) == path_lines(path@, content@, theme@),
        returns_end_lines(content@) ==> shows(lines_view(r@), content@),
{
    proof {
        law_plain_lines_keep_text(content@, theme@.render_style("text"@));
        if content@.len() == 0 {
            assert(shown_lines(content@).drop_last() =~= Seq::empty());
            assert(line_texts(Seq::<Seq<SpanModel>>::empty()) =~= Seq::empty());
        }
    }
    let spec = match syntax_set_for_path(path) {
        Some(spec) => spec,
        None => return plain_text_lines(content, theme),
    };
    match highlighted_lines(content, &spec, theme) {
        Some(lines) => lines,
        None => plain_text_lines(content, theme),
    }
}

/// The window of lines that starts at a line, counted from one.
pub open spec fn preview_window<T>(lines: Seq<T>, start_line: int) -> Seq<T> {
    let from = if start_line > 1 {
        start_line - 1
    } else {
        0
    };
    if from >= lines.len() {
        Seq::empty()
    } else if lines.len() - from <= MAX_PREVIEW_LINES {
        lines.skip(from)
    } else {
        lines.subrange(from, from + MAX_PREVIEW_LINES)
    }
}

pub fn slice_preview_lines(lines: Vec<HighlightedLine>, start_line: usize) -> (r: (
    usize,
    Vec<HighlightedLine>,
))
    ensures
        r.0 == start_line,
        lines_view(r.1@) == preview_window(lines_view(lines@), start_line as int),
{
    let start = start_line.saturating_sub(1);
    let mut preview: Vec<HighlightedLine> = Vec::new();
    let ghost all = lines_view(lines@);
    let mut i: usize = start;
    assert(start < all.len() ==> all.subrange(start as int, start as int) =~= Seq::empty());
    while i < lines.len() && i - start < MAX_PREVIEW_LINES
        invariant
            start <= i,
            start <= lines.len() ==> i <= lines.len(),
            start > lines.len() ==> i == start,
            all == lines_view(lines@),
            preview.len() == i - start <= MAX_PREVIEW_LINES,
            start <= lines.len() ==> lines_view(preview@) =~= all.subrange(
                start as int,
                i as int,
            ),
        decreases lines.len() - i,
    {
        let ghost before = lines_view(preview@);
        let line = lines[i].clone();
        preview.push(line);
        assert(lines_view(preview@) =~= before.push(all[i as int]));
        i += 1;
    }
    assert(lines_view(preview@) =~= preview_window(all, start_line as int));
    (start_line, preview)
}

/// The first line of the window around a line: a few lines before it, and none before the first.
pub open spec fn window_start(center: Option<usize>) -> int {
    match center {
        Some(line) => if line > MATCH_CONTEXT_BEFORE + 1 {
            line - MATCH_CONTEXT_BEFORE
        } else {
            1
        },
        None => 1,
    }
}

/// The preview of a file: the number of its first line and the lines. There is no content where
/// the file could not be read as text.
pub fn highlight_file_window(
    path: &str,
    content: Option<&str>,
    center_line: Option<usize>,
    theme: &ResolvedTheme,
) -> (r: (usize, Vec<HighlightedLine>))
    requires
        content matches Some(content) ==> has_text(content@) ==> theme@.render_ok("text"@),
    ensures
        content is None ==> r.0 == 1 && r.1@.len() == 0,
        content matches Some(content) ==> r.0 == window_start(center_line) && lines_view(r.1@)
            == preview_window(path_lines(path@, content@, theme@), window_start(center_line)),
        content matches Some(content) ==> returns_end_lines(content@) ==> forall|k: int|
            0 <= k < r.1.len() ==> r.0 - 1 + k < shown_lines(content@).len() && line_text(
                #[trigger] lines_view(r.1@)[k],
            ) == shown_lines(content@)[r.0 - 1 + k],
{
    let content = match content {
        Some(content) => content,
        None => return (1, Vec::new()),
    };
    let lines = syntax_lines_for_path(path, content, theme);
    let ghost all = lines_view(lines@);
    proof {
        if returns_end_lines(content@) {
            lemma_shows(all, content@);
        }
    }
    let start_line = match center_line {
        Some(line) => {
            let start = line.saturating_sub(MATCH_CONTEXT_BEFORE);
            if start < 1 {
                1
            } else {
                start
            }
        },
        None => 1,
    };
    let r = slice_preview_lines(lines, start_line);
    proof {
        let window = lines_view(r.1@);
        assert(window.len() == r.1.len());
        if returns_end_lines(content@) {
            assert forall|k: int| 0 <= k < window.len() implies r.0 - 1 + k < shown_lines(
                content@,
            ).len() && line_text(#[trigger] window[k]) == shown_lines(content@)[r.0 - 1 + k] by {
                assert(window[k] == all[r.0 - 1 + k]);
            }
        }
    }
    r
}

/// The line that a window is for is in it, wherever the file has that line.
pub proof fn law_window_shows_center<T>(lines: Seq<T>, center: usize)
    requires
        1 <= center <= lines.len(),
    ensures
        ({
            let start = window_start(Some(center));
            let window = preview_window(lines, start);
            start <= center < start + window.len() && window[center - start] == lines[center - 1]
        }),
{
}

/// Looks up what the first preview needs: the palette, and the colour of keywords.
pub fn warm_highlighter(active: &ActiveTheme) -> (r: (Palette, u32))
    requires
        active.theme@.color_ok("keyword"@),
    ensures
        r.0 == active.theme@.palette,
        r.1 == active.theme@.color("keyword"@),
{
    (theme::palette(active), theme::syntax_color(active, "keyword"))
}

/// A window shows the lines from its start on, without a gap, up to five hundred of them.
pub proof fn law_window_is_a_run<T>(lines: Seq<T>, start: int, i: int)
    requires
        start >= 1,
    ensures
        preview_window(lines, start).len() <= 500,
        0 <= i < 500 && start - 1 + i < lines.len() ==> i < preview_window(lines, start).len()
            && preview_window(lines, start)[i] == lines[start - 1 + i],
        i >= 0 && start - 1 + i >= lines.len() ==> i >= preview_window(lines, start).len(),
{
}

/// A window for a line begins eight lines before it, or at the first line where there are fewer; a
/// window for no line begins at the first.
pub proof fn law_lines_before_center(center: usize)
    ensures
        window_start(Some(center)) >= 1,
        window_start(Some(center)) >= center - 8,
        window_start(Some(center)) == 1 || window_start(Some(center)) == center - 8,
        window_start(None) == 1,
{
}

/// What the models hold of lines is theirs: each line in its place, and in it each span with its
/// text and its look.
pub proof fn law_lines_are_faithful(lines: Seq<HighlightedLine>, i: int, k: int)
    requires
        0 <= i < lines.len(),
        0 <= k < lines[i].spans@.len(),
    ensures
        ({
            let shown = lines_view(lines);
            let span = lines[i].spans@[k];
            &&& shown.len() == lines.len()
            &&& shown[i].len() == lines[i].spans@.len()
            &&& shown[i][k].text == span.text@
            &&& shown[i][k].look.bg == span.bg
            &&& shown[i][k].look.style.color == span.color
            &&& shown[i][k].look.style.italic == span.italic
            &&& shown[i][k].look.style.bold == span.bold
            &&& shown[i][k].look.style.underline == span.underline
            &&& shown[i][k].look.style.strikethrough == span.strikethrough
        }),
{
}

/// A window before the first line is the one at the first line.
pub proof fn law_window_before_the_start<T>(lines: Seq<T>, start: int)
    requires
        start <= 1,
    ensures
        preview_window(lines, start) == preview_window(lines, 1),
{
}

} // verus!
