//! How the pieces of a highlighted text get their colours from the captures around them.

use vstd::prelude::*;

use crate::grammar::TraceEvent;
use crate::preview;
use crate::preview::SpanModel;
use crate::text;
use crate::theme;
use crate::theme::SyntaxRenderStyle;

verus! {

/// The number of captures that begin among the steps from `a` to `b`.
pub open spec fn starts(events: Seq<TraceEvent>, a: int, b: int) -> int
    decreases b - a,
{
    if b <= a {
        0
    } else {
        starts(events, a, b - 1) + if events[b - 1] is Start {
            1int
        } else {
            0
        }
    }
}

/// The number of captures that end among the steps from `a` to `b`.
pub open spec fn ends(events: Seq<TraceEvent>, a: int, b: int) -> int
    decreases b - a,
{
    if b <= a {
        0
    } else {
        ends(events, a, b - 1) + if events[b - 1] is End {
            1int
        } else {
            0
        }
    }
}

/// The capture that begins at step `s` is open before step `k`: never since have more captures
/// ended than begun.
pub open spec fn is_open(events: Seq<TraceEvent>, s: int, k: int) -> bool {
    &&& 0 <= s < k <= events.len()
    &&& events[s] is Start
    &&& forall|m: int|
        s < m <= k ==> ends(events, s + 1, m) <= #[trigger] starts(events, s + 1, m)
}

/// The capture that begins at step `s` is the last of those that are open before step `k`.
pub open spec fn is_innermost(events: Seq<TraceEvent>, s: int, k: int) -> bool {
    is_open(events, s, k) && forall|later: int| s < later ==> !#[trigger] is_open(events, later, k)
}

/// The steps at which the captures began that are open before step `k`, the innermost last.
spec fn openings(events: Seq<TraceEvent>, k: int) -> Seq<int>
    decreases k,
{
    if k <= 0 {
        Seq::empty()
    } else {
        let before = openings(events, k - 1);
        match events[k - 1] {
            TraceEvent::Start(_) => before.push(k - 1),
            TraceEvent::End => if before.len() > 0 {
                before.drop_last()
            } else {
                before
            },
            _ => before,
        }
    }
}

proof fn lemma_is_open_step(events: Seq<TraceEvent>, s: int, k: int)
    requires
        0 <= s < k < events.len(),
    ensures
        is_open(events, s, k + 1) <==> is_open(events, s, k) && ends(events, s + 1, k + 1)
            <= starts(events, s + 1, k + 1),
{
    if is_open(events, s, k) && ends(events, s + 1, k + 1) <= starts(events, s + 1, k + 1) {
        assert forall|m: int| s < m <= k + 1 implies ends(events, s + 1, m) <= #[trigger] starts(
            events,
            s + 1,
            m,
        ) by {
            if m <= k {
                assert(ends(events, s + 1, m) <= starts(events, s + 1, m));
            }
        }
    }
    if is_open(events, s, k + 1) {
        assert(ends(events, s + 1, k + 1) <= starts(events, s + 1, k + 1));
        assert forall|m: int| s < m <= k implies ends(events, s + 1, m) <= #[trigger] starts(
            events,
            s + 1,
            m,
        ) by {}
    }
}

/// The openings are the steps whose captures are open, in order, and behind each of them as many
/// more captures have begun than ended as there are openings behind it.
proof fn lemma_openings(events: Seq<TraceEvent>, k: int)
    requires
        0 <= k <= events.len(),
    ensures
        ({
            let open = openings(events, k);
            &&& forall|p: int|
                0 <= p < open.len() ==> is_open(events, #[trigger] open[p], k) && starts(
                    events,
                    open[p] + 1,
                    k,
                ) - ends(events, open[p] + 1, k) == open.len() - 1 - p
            &&& forall|p: int, q: int| 0 <= p < q < open.len() ==> #[trigger] open[p] < #[trigger] open[q]
            &&& forall|s: int| #[trigger] is_open(events, s, k) ==> open.contains(s)
        }),
    decreases k,
{
    if k > 0 {
        let j = k - 1;
        lemma_openings(events, j);
        let before = openings(events, j);
        let open = openings(events, k);
        assert forall|p: int| 0 <= p < open.len() implies is_open(events, #[trigger] open[p], k)
            && starts(events, open[p] + 1, k) - ends(events, open[p] + 1, k) == open.len() - 1
            - p by {
            let s = open[p];
            if s == j && p == before.len() {
                assert(events[j] is Start);
                assert forall|m: int| s < m <= k implies ends(events, s + 1, m)
                    <= #[trigger] starts(events, s + 1, m) by {}
            } else {
                assert(before[p] == s);
                assert(is_open(events, before[p], j));
                lemma_is_open_step(events, s, j);
            }
        }
        assert forall|p: int, q: int| 0 <= p < q < open.len() implies #[trigger] open[p]
            < #[trigger] open[q] by {
            if q < before.len() {
                assert(open[p] == before[p] && open[q] == before[q]);
            } else {
                assert(is_open(events, before[p], j));
            }
        }
        assert forall|s: int| #[trigger] is_open(events, s, k) implies open.contains(s) by {
            if s == j {
                assert(open[before.len() as int] == s);
            } else {
                lemma_is_open_step(events, s, j);
                assert(is_open(events, s, j));
                assert(before.contains(s));
                let p = choose|p: int| 0 <= p < before.len() && before[p] == s;
                if events[j] is End && p == before.len() - 1 {
                    assert(is_open(events, before[p], j));
                    assert(starts(events, s + 1, j) == ends(events, s + 1, j));
                    assert(ends(events, s + 1, k) > starts(events, s + 1, k));
                } else {
                    assert(open[p] == s);
                }
            }
        }
    }
}

/// The style that a capture is drawn in.
pub open spec fn style_of(
    captures: Seq<Seq<char>>,
    theme: theme::ThemeModel,
    event: TraceEvent,
) -> SyntaxRenderStyle {
    match event {
        TraceEvent::Start(index) => if index < captures.len() {
            theme.render_style(captures[index as int])
        } else {
            theme.render_style("text"@)
        },
        _ => theme.render_style("text"@),
    }
}

proof fn lemma_stack(
    content: Seq<char>,
    captures: Seq<Seq<char>>,
    theme: theme::ThemeModel,
    events: Seq<TraceEvent>,
    k: int,
)
    requires
        0 <= k <= events.len(),
    ensures
        ({
            let stack = preview::drawn(content, captures, theme, events.take(k)).1;
            let open = openings(events, k);
            &&& stack.len() == open.len() + 1
            &&& stack[0] == theme.render_style("text"@)
            &&& forall|p: int|
                0 <= p < open.len() ==> 0 <= #[trigger] open[p] < k && stack[p + 1] == style_of(
                    captures,
                    theme,
                    events[open[p]],
                )
        }),
    decreases k,
{
    let now = events.take(k);
    if k > 0 {
        lemma_stack(content, captures, theme, events, k - 1);
        assert(now.drop_last() =~= events.take(k - 1));
        assert(now.last() == events[k - 1]);
        let before = openings(events, k - 1);
        let open = openings(events, k);
        let stack = preview::drawn(content, captures, theme, now).1;
        assert forall|p: int| 0 <= p < open.len() implies 0 <= #[trigger] open[p] < k && stack[p
            + 1] == style_of(captures, theme, events[open[p]]) by {
            if p < before.len() {
                assert(open[p] == before[p]);
            }
        }
    } else {
        assert(now =~= Seq::empty());
    }
}

/// The characters of a line, each with its style.
pub open spec fn coloured(line: Seq<SpanModel>) -> Seq<(char, SyntaxRenderStyle)>
    decreases line.len(),
{
    if line.len() == 0 {
        Seq::empty()
    } else {
        coloured(line.drop_last()) + in_style(line.last().text, line.last().look.style)
    }
}

/// The characters of some lines, each with its style.
pub open spec fn coloured_lines(lines: Seq<Seq<SpanModel>>) -> Seq<(char, SyntaxRenderStyle)>
    decreases lines.len(),
{
    if lines.len() == 0 {
        Seq::empty()
    } else {
        coloured_lines(lines.drop_last()) + coloured(lines.last())
    }
}

/// The characters of a text, all in one style.
pub open spec fn in_style(t: Seq<char>, style: SyntaxRenderStyle) -> Seq<(char, SyntaxRenderStyle)> {
    t.map_values(|c: char| (c, style))
}

/// Those of the first `n` characters of a text that are shown: no line breaks, and no carriage
/// returns before one or at the end.
pub open spec fn visible(t: Seq<char>, n: int) -> Seq<char>
    decreases n,
{
    if n <= 0 {
        Seq::empty()
    } else if t[n - 1] == '\n' || (t[n - 1] == '\r' && (n == t.len() || t[n] == '\n')) {
        visible(t, n - 1)
    } else {
        visible(t, n - 1).push(t[n - 1])
    }
}

proof fn lemma_visible_start(t: Seq<char>, i: int, n: int)
    requires
        0 <= n < i <= t.len(),
        forall|k: int| 0 <= k < i ==> #[trigger] t[k] != '\n',
    ensures
        visible(t, n) == t.take(n),
    decreases n,
{
    if n > 0 {
        lemma_visible_start(t, i, n - 1);
        assert(t[n] != '\n');
        assert(t.take(n) =~= t.take(n - 1).push(t[n - 1]));
    } else {
        assert(t.take(0) =~= Seq::empty());
    }
}

proof fn lemma_visible_line(t: Seq<char>, i: int)
    requires
        0 <= i <= t.len(),
        forall|k: int| 0 <= k < i ==> #[trigger] t[k] != '\n',
        i < t.len() ==> t[i] == '\n',
    ensures
        visible(t, i) == preview::strip_cr(t.take(i)),
{
    if i > 0 {
        lemma_visible_start(t, i, i - 1);
        assert(t.take(i).drop_last() =~= t.take(i - 1));
        assert(t.take(i) =~= t.take(i - 1).push(t[i - 1]));
        assert(t.take(i).last() == t[i - 1]);
    } else {
        assert(t.take(0) =~= Seq::empty());
    }
}

proof fn lemma_visible_rest(t: Seq<char>, i: int, n: int)
    requires
        0 <= i < n <= t.len(),
        t[i] == '\n',
    ensures
        visible(t, n) == visible(t, i) + visible(t.skip(i + 1), n - i - 1),
    decreases n,
{
    let rest = t.skip(i + 1);
    if n == i + 1 {
        assert(visible(rest, 0) =~= Seq::empty());
        assert(visible(t, i) + visible(rest, 0) =~= visible(t, i));
    } else {
        lemma_visible_rest(t, i, n - 1);
        assert(rest[n - i - 2] == t[n - 1]);
        if n < t.len() {
            assert(rest[n - i - 1] == t[n]);
        }
        assert(visible(t, n) =~= visible(t, i) + visible(rest, n - i - 1));
    }
}

proof fn lemma_in_style(a: Seq<char>, b: Seq<char>, style: SyntaxRenderStyle)
    ensures
        in_style(a + b, style) == in_style(a, style) + in_style(b, style),
{
    assert(in_style(a + b, style) =~= in_style(a, style) + in_style(b, style));
}

proof fn lemma_appended_colours(line: Seq<SpanModel>, style: SyntaxRenderStyle, added: Seq<char>)
    ensures
        coloured(preview::appended(line, style, added)) == coloured(line) + in_style(added, style),
{
    let after = preview::appended(line, style, added);
    if added.len() == 0 {
        assert(coloured(line) + in_style(added, style) =~= coloured(line));
    } else if line.len() > 0 && line.last().look.style == style {
        assert(after.drop_last() =~= line.drop_last());
        lemma_in_style(line.last().text, added, style);
        assert(coloured(after) =~= coloured(line) + in_style(added, style));
    } else {
        assert(after.drop_last() =~= line);
    }
}

proof fn lemma_last_line(lines: Seq<Seq<SpanModel>>, last: Seq<SpanModel>)
    requires
        lines.len() > 0,
    ensures
        coloured_lines(lines.drop_last().push(last)) == coloured_lines(lines.drop_last())
            + coloured(last),
{
    assert(lines.drop_last().push(last).drop_last() =~= lines.drop_last());
}

proof fn lemma_pushed_colours(
    lines: Seq<Seq<SpanModel>>,
    added: Seq<char>,
    style: SyntaxRenderStyle,
)
    requires
        lines.len() > 0,
    ensures
        preview::pushed(lines, added, style).len() > 0,
        coloured_lines(preview::pushed(lines, added, style)) == coloured_lines(lines) + in_style(
            visible(added, added.len() as int),
            style,
        ),
    decreases added.len(),
{
    let i = text::first_of(added, '\n', '\n');
    text::lemma_first_of(added, '\n', '\n');
    let seen = visible(added, added.len() as int);
    if added.len() == 0 {
        assert(in_style(seen, style) =~= Seq::empty());
        assert(coloured_lines(lines) + in_style(seen, style) =~= coloured_lines(lines));
    } else {
        let head = preview::strip_cr(added.take(i));
        let last = preview::appended(lines.last(), style, head);
        let longer = lines.drop_last().push(last);
        lemma_visible_line(added, i);
        lemma_appended_colours(lines.last(), style, head);
        lemma_last_line(lines, last);
        assert(coloured_lines(longer) =~= coloured_lines(lines) + in_style(head, style));
        if i < added.len() {
            let rest = added.skip(i + 1);
            let next = longer.push(Seq::empty());
            assert(next.drop_last() =~= longer);
            assert(coloured_lines(next) =~= coloured_lines(longer));
            lemma_pushed_colours(next, rest, style);
            lemma_visible_rest(added, i, added.len() as int);
            let behind = visible(rest, rest.len() as int);
            lemma_in_style(head, behind, style);
            assert(coloured_lines(lines) + in_style(head, style) + in_style(behind, style)
                =~= coloured_lines(lines) + in_style(seen, style));
        } else {
            assert(added.take(i) =~= added);
        }
    }
}

proof fn lemma_drawn_nonempty(
    content: Seq<char>,
    captures: Seq<Seq<char>>,
    theme: theme::ThemeModel,
    events: Seq<TraceEvent>,
)
    ensures
        preview::drawn(content, captures, theme, events).0.len() > 0,
    decreases events.len(),
{
    if events.len() > 0 {
        lemma_drawn_nonempty(content, captures, theme, events.drop_last());
        if let TraceEvent::Piece { start, end } = events.last() {
            let (lines, open) = preview::drawn(content, captures, theme, events.drop_last());
            lemma_pushed_colours(
                lines,
                preview::piece_text(content, start as int, end as int),
                open.last(),
            );
        }
    }
}

/// A piece of a text, from character `a` to character `b`, is drawn in the style of the innermost
/// capture that is open there, and in that of plain text where none is open. It goes behind what
/// was drawn before.
pub proof fn law_pieces_take_the_innermost_capture(
    content: Seq<char>,
    captures: Seq<Seq<char>>,
    theme: theme::ThemeModel,
    events: Seq<TraceEvent>,
    k: int,
    a: int,
    b: int,
)
    requires
        0 <= k < events.len(),
        0 <= a <= b <= content.len(),
        events[k] matches TraceEvent::Piece { start, end } && start == text::utf8_len(
            content.take(a),
        ) && end == text::utf8_len(content.take(b)),
    ensures
        ({
            let before = coloured_lines(
                preview::drawn(content, captures, theme, events.take(k)).0,
            );
            let after = coloured_lines(
                preview::drawn(content, captures, theme, events.take(k + 1)).0,
            );
            let piece = content.subrange(a, b);
            let seen = visible(piece, piece.len() as int);
            &&& forall|s: int| #[trigger]
                is_innermost(events, s, k) ==> after == before + in_style(
                    seen,
                    style_of(captures, theme, events[s]),
                )
            &&& (forall|s: int| !#[trigger] is_open(events, s, k)) ==> after == before + in_style(
                seen,
                theme.render_style("text"@),
            )
        }),
{
    let now = events.take(k + 1);
    assert(now.drop_last() =~= events.take(k));
    assert(now.last() == events[k]);
    let (lines, stack) = preview::drawn(content, captures, theme, events.take(k));
    lemma_drawn_nonempty(content, captures, theme, events.take(k));
    lemma_stack(content, captures, theme, events, k);
    lemma_openings(events, k);
    text::lemma_boundary_at(content, a);
    text::lemma_boundary_at(content, b);
    let open = openings(events, k);
    if let TraceEvent::Piece { start, end } = events[k] {
        let piece = preview::piece_text(content, start as int, end as int);
        assert(piece =~= content.subrange(a, b));
        lemma_pushed_colours(lines, piece, stack.last());
        assert forall|s: int| #[trigger] is_innermost(events, s, k) implies stack.last()
            == style_of(captures, theme, events[s]) by {
            assert(is_open(events, s, k));
            let p = choose|p: int| 0 <= p < open.len() && open[p] == s;
            let n = open.len() - 1;
            if p < n {
                assert(is_open(events, open[n], k));
                assert(open[p] < open[n]);
            }
        }
        if forall|s: int| !#[trigger] is_open(events, s, k) {
            if open.len() > 0 {
                assert(is_open(events, open[0], k));
            }
        }
    }
}

/// Where a capture begins or ends nothing is drawn, and at the start there is one empty line.
pub proof fn law_captures_draw_nothing(
    content: Seq<char>,
    captures: Seq<Seq<char>>,
    theme: theme::ThemeModel,
    events: Seq<TraceEvent>,
    k: int,
)
    requires
        0 <= k < events.len(),
        !(events[k] is Piece),
    ensures
        preview::drawn(content, captures, theme, events.take(k + 1)).0 == preview::drawn(
            content,
            captures,
            theme,
            events.take(k),
        ).0,
        preview::drawn(content, captures, theme, events.take(0)).0 == seq![
            Seq::<SpanModel>::empty(),
        ],
{
    assert(events.take(k + 1).drop_last() =~= events.take(k));
    assert(events.take(k + 1).last() == events[k]);
    assert(events.take(0) =~= Seq::empty());
}

proof fn lemma_front_line(line: Seq<SpanModel>, rest: Seq<Seq<SpanModel>>)
    ensures
        coloured_lines(seq![line] + rest) == coloured(line) + coloured_lines(rest),
    decreases rest.len(),
{
    let all = seq![line] + rest;
    if rest.len() == 0 {
        assert(all.drop_last() =~= Seq::empty());
        assert(coloured_lines(all.drop_last()) =~= Seq::empty());
        assert(coloured_lines(all) =~= coloured(line) + coloured_lines(rest));
    } else {
        lemma_front_line(line, rest.drop_last());
        assert(all.drop_last() =~= seq![line] + rest.drop_last());
        assert(coloured_lines(all) =~= coloured(line) + coloured_lines(rest));
    }
}

/// Plain lines show all that can be seen of a text, in one style.
pub proof fn law_plain_lines_are_in_one_style(content: Seq<char>, style: SyntaxRenderStyle)
    ensures
        coloured_lines(preview::plain_lines(content, style)) == in_style(
            visible(content, content.len() as int),
            style,
        ),
    decreases content.len(),
{
    let i = text::first_of(content, '\n', '\n');
    text::lemma_first_of(content, '\n', '\n');
    let lines = preview::plain_lines(content, style);
    let seen = visible(content, content.len() as int);
    if content.len() == 0 {
        assert(in_style(seen, style) =~= Seq::empty());
    } else {
        let head = preview::strip_cr(content.take(i));
        let line = preview::plain_line(head, style);
        lemma_visible_line(content, i);
        assert(coloured(line) =~= in_style(head, style)) by {
            reveal_with_fuel(coloured, 2);
        }
        if i < content.len() {
            let rest = content.skip(i + 1);
            law_plain_lines_are_in_one_style(rest, style);
            lemma_front_line(line, preview::plain_lines(rest, style));
            lemma_visible_rest(content, i, content.len() as int);
            lemma_in_style(head, visible(rest, rest.len() as int), style);
        } else {
            assert(content.take(i) =~= content);
            assert(lines =~= seq![line]);
            assert(lines.drop_last() =~= Seq::empty());
            assert(coloured_lines(lines.drop_last()) =~= Seq::empty());
            assert(coloured_lines(lines) =~= coloured(line));
        }
    }
}

/// A file without an extension is shown in the style of plain text.
pub proof fn law_unknown_files_are_plain(
    path: Seq<char>,
    content: Seq<char>,
    theme: theme::ThemeModel,
)
    requires
        crate::grammar::extension(path) is None,
    ensures
        coloured_lines(preview::path_lines(path, content, theme)) == in_style(
            visible(content, content.len() as int),
            theme.render_style("text"@),
        ),
{
    law_plain_lines_are_in_one_style(content, theme.render_style("text"@));
}

proof fn lemma_visible_some(t: Seq<char>, n: int)
    requires
        0 <= n <= t.len(),
    ensures
        visible(t, n).len() > 0 <==> exists|k: int| k < n && preview::shown_at(t, k),
    decreases n,
{
    if n > 0 {
        lemma_visible_some(t, n - 1);
        if preview::shown_at(t, n - 1) {
            assert(n - 1 < n && preview::shown_at(t, n - 1));
        }
        if visible(t, n - 1).len() > 0 {
            let k = choose|k: int| k < n - 1 && preview::shown_at(t, k);
            assert(k < n && preview::shown_at(t, k));
        }
        if exists|k: int| k < n && preview::shown_at(t, k) {
            let k = choose|k: int| k < n && preview::shown_at(t, k);
            if k < n - 1 {
                assert(k < n - 1 && preview::shown_at(t, k));
            }
        }
    }
}

/// A text has something on a line just where something of it can be seen.
pub proof fn law_text_is_visible(content: Seq<char>)
    ensures
        preview::has_text(content) <==> visible(content, content.len() as int).len() > 0,
{
    lemma_visible_some(content, content.len() as int);
    if preview::has_text(content) {
        let i = choose|i: int| preview::shown_at(content, i);
        assert(i < content.len() && preview::shown_at(content, i));
    }
}

/// A file whose grammar fails on it is shown in the style of plain text.
pub proof fn law_failed_highlighting_is_plain(
    path: Seq<char>,
    content: Seq<char>,
    theme: theme::ThemeModel,
    grammar: crate::grammar::Grammar,
)
    requires
        crate::grammar::path_grammar(path) == Some(grammar),
    ensures
        crate::grammar::query_captures(grammar) is None ==> coloured_lines(
            preview::path_lines(path, content, theme),
        ) == in_style(visible(content, content.len() as int), theme.render_style("text"@)),
        (crate::grammar::query_captures(grammar) matches Some(captures)
            && crate::grammar::highlight_trace(grammar, captures, content) is None)
            ==> coloured_lines(preview::path_lines(path, content, theme)) == in_style(
            visible(content, content.len() as int),
            theme.render_style("text"@),
        ),
{
    law_plain_lines_are_in_one_style(content, theme.render_style("text"@));
    if content.len() == 0 {
        assert(in_style(visible(content, 0), theme.render_style("text"@)) =~= Seq::empty());
        assert(coloured_lines(Seq::empty()) =~= Seq::empty());
    }
}

/// A file with a grammar is shown as the whole trace of the highlighter draws it, if all its pieces
/// can be drawn, and in the style of plain text if not.
pub proof fn law_the_whole_trace_is_drawn(
    path: Seq<char>,
    content: Seq<char>,
    theme: theme::ThemeModel,
    grammar: crate::grammar::Grammar,
    captures: Seq<Seq<char>>,
    events: Seq<TraceEvent>,
)
    requires
        content.len() > 0,
        crate::grammar::path_grammar(path) == Some(grammar),
        crate::grammar::query_captures(grammar) == Some(captures),
        crate::grammar::highlight_trace(grammar, captures, content) == Some(events),
    ensures
        preview::trace_ok(content, captures, theme, events) ==> preview::path_lines(
            path,
            content,
            theme,
        ) == preview::drawn(content, captures, theme, events).0,
        !preview::trace_ok(content, captures, theme, events) ==> coloured_lines(
            preview::path_lines(path, content, theme),
        ) == in_style(visible(content, content.len() as int), theme.render_style("text"@)),
{
    law_plain_lines_are_in_one_style(content, theme.render_style("text"@));
}

} // verus!
