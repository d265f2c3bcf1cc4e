//! Shortening a path to a character budget.

use vstd::prelude::*;
use vstd::utf8::*;

use crate::text;
use crate::text::{byte_count, chars_of, decimal_of, join_range, same, slice_text, split_chars};

verus! {

/// Below this budget a path is cut off instead of being taken apart.
pub const MIN_SMART_SHORTEN_SIZE: usize = 8;

#[derive(Clone, Copy)]
pub enum PathShortenStrategy {
    /// Middle components are replaced by a marker that tells how many are hidden.
    MiddleNumber,
}

pub open spec fn slash() -> Seq<char> {
    seq!['/']
}

/// A component that names an entry: not empty, and not one of the two special names.
pub open spec fn is_normal(part: Seq<char>) -> bool {
    part.len() > 0 && part != seq!['.'] && part != seq!['.', '.']
}

/// The names along a path, in order. Roots and the special names do not count.
pub open spec fn normal_components(path: Seq<char>) -> Seq<Seq<char>> {
    text::split(path, '/', '/').filter(|part: Seq<char>| is_normal(part))
}

/// The first `n` characters of a text, or all of it.
pub open spec fn truncated(s: Seq<char>, n: int) -> Seq<char> {
    if s.len() <= n {
        s
    } else {
        s.take(n)
    }
}

/// The marker for `n` hidden components.
pub open spec fn ellipsis(n: nat) -> Seq<char> {
    if n == 1 {
        seq!['.']
    } else if n == 2 {
        seq!['.', '.']
    } else if n == 3 {
        seq!['.', '.', '.']
    } else {
        seq!['.'] + text::decimal(n) + seq!['.']
    }
}

/// The first `left` components, a marker for those hidden, and the components from `right` on.
pub open spec fn middle(parts: Seq<Seq<char>>, left: int, right: int) -> Seq<char> {
    text::join(parts.take(left), slash()) + slash() + ellipsis((right - left) as nat) + slash() + text::join(
        parts.skip(right),
        slash(),
    )
}

pub open spec fn middle_fits(parts: Seq<Seq<char>>, left: int, right: int, max: int) -> bool {
    text::utf8_len(middle(parts, left, right)) <= max
}

/// Takes back hidden components, one on the right and one on the left in turn, for as long as the
/// path fits and at least one stays hidden. The result is the end of the left part and the start
/// of the right part.
pub open spec fn expanded(parts: Seq<Seq<char>>, left: int, right: int, max: int) -> (int, int)
    decreases right - left,
{
    let r = if right > left + 1 && middle_fits(parts, left, right - 1, max) {
        right - 1
    } else {
        right
    };
    let l = if left < r - 1 && middle_fits(parts, left + 1, r, max) {
        left + 1
    } else {
        left
    };
    if (l == left && r == right) || r <= l {
        (l, r)
    } else {
        expanded(parts, l, r, max)
    }
}

pub open spec fn shortened_pair(parts: Seq<Seq<char>>, max: int) -> Seq<char> {
    let joined = parts[0] + slash() + parts[1];
    let room = max - 1 - text::utf8_len(parts[1]);
    if text::utf8_len(joined) <= max {
        joined
    } else if room > 0 {
        truncated(parts[0], room) + slash() + parts[1]
    } else {
        truncated(parts[1], max)
    }
}

pub open spec fn shortened_middle(parts: Seq<Seq<char>>, max: int) -> Seq<char> {
    let first = parts[0];
    let last = parts.last();
    let dots = ellipsis((parts.len() - 2) as nat);
    if text::utf8_len(first) + text::utf8_len(last) + 2 + text::utf8_len(dots) <= max {
        let (l, r) = expanded(parts, 1, parts.len() - 1, max);
        middle(parts, l, r)
    } else if text::utf8_len(last) + 2 + text::utf8_len(dots) <= max {
        truncated(first, max - text::utf8_len(last) - 2 - text::utf8_len(dots)) + slash() + dots + slash()
            + last
    } else if text::utf8_len(dots) + 1 + text::utf8_len(last) <= max {
        dots + slash() + last
    } else {
        truncated(last, max)
    }
}

/// What a path is shortened to for a budget of `max`.
pub open spec fn shortened(path: Seq<char>, max: int) -> Seq<char> {
    let parts = normal_components(path);
    if text::utf8_len(path) <= max {
        path
    } else if max < MIN_SMART_SHORTEN_SIZE || parts.len() == 0 {
        truncated(path, max)
    } else if parts.len() == 1 {
        truncated(parts[0], max)
    } else if parts.len() == 2 {
        shortened_pair(parts, max)
    } else {
        shortened_middle(parts, max)
    }
}

/// The names along a path.
fn components_of(path: &str) -> (r: Vec<String>)
    ensures
        text::texts(r@) == normal_components(path@),
{
    let all = split_chars(&chars_of(path), '/', '/');
    let ghost pieces = text::split(path@, '/', '/');
    let ghost keep = |part: Seq<char>| is_normal(part);
    let mut r: Vec<String> = Vec::new();
    let mut i: usize = 0;
    assert(pieces.take(0).filter(keep) =~= Seq::<Seq<char>>::empty()) by {
        reveal(Seq::filter);
    }
    while i < all.len()
        invariant
            i <= all.len(),
            text::texts(all@) == pieces,
            keep == (|part: Seq<char>| is_normal(part)),
            text::texts(r@) == pieces.take(i as int).filter(keep),
        decreases all.len() - i,
    {
        proof {
            reveal_strlit(".");
            reveal_strlit("..");
            assert("."@ =~= seq!['.']);
            assert(".."@ =~= seq!['.', '.']);
            assert(all@[i as int]@ == pieces[i as int]);
            assert(pieces.take(i + 1).drop_last() =~= pieces.take(i as int));
            reveal(Seq::filter);
        }
        let ghost before = text::texts(r@);
        let part = all[i].as_str();
        if part.is_empty() || same(part, ".") || same(part, "..") {
            assert(pieces.take(i + 1).filter(keep) == before);
        } else {
            r.push(part.to_owned());
            assert(text::texts(r@) =~= before.push(part@));
        }
        i += 1;
    }
    assert(pieces.take(pieces.len() as int) =~= pieces);
    r
}

/// Whether three sizes together stay within a limit.
fn fit_within(a: usize, b: usize, c: usize, max: usize) -> (r: bool)
    ensures
        r == (a + b + c <= max),
{
    a <= max && b <= max - a && c <= max - a - b
}

impl PathShortenStrategy {
    /// Shortens a path to fit within the requested character budget.
    pub fn shorten_path(&self, path: &str, max_size: usize) -> (r: String)
        ensures
            r@ == shortened(path@, max_size as int),
    {
        if byte_count(path) <= max_size {
            return path.to_owned();
        }
        if max_size < MIN_SMART_SHORTEN_SIZE {
            return Self::truncate_str(path, max_size);
        }
        let components = components_of(path);
        assert(components@.len() == normal_components(path@).len());
        if components.len() == 0 {
            Self::truncate_str(path, max_size)
        } else if components.len() == 1 {
            assert(text::texts(components@)[0] == components@[0]@);
            Self::truncate_str(components[0].as_str(), max_size)
        } else if components.len() == 2 {
            Self::shorten_pair(&components, max_size)
        } else {
            self.shorten_middle(&components, max_size)
        }
    }

    /// Shortens a two-component path while preserving the file name when possible.
    fn shorten_pair(components: &Vec<String>, max_size: usize) -> (r: String)
        requires
            components.len() == 2,
        ensures
            r@ == shortened_pair(text::texts(components@), max_size as int),
    {
        let ghost parts = text::texts(components@);
        assert(parts[0] == components@[0]@ && parts[1] == components@[1]@);
        let first = components[0].as_str();
        let last = components[1].as_str();
        let mut joined = first.to_owned();
        joined.push('/');
        joined.append(last);
        assert(joined@ =~= parts[0] + slash() + parts[1]);
        if byte_count(joined.as_str()) <= max_size {
            return joined;
        }
        let last_len = byte_count(last);
        if last_len < max_size && max_size - last_len > 1 {
            let mut r = Self::truncate_str(first, max_size - last_len - 1);
            r.push('/');
            r.append(last);
            assert(r@ =~= truncated(parts[0], max_size - 1 - last_len) + slash() + parts[1]);
            return r;
        }
        Self::truncate_str(last, max_size)
    }

    /// Shortens a path of three components or more by replacing middle components with a marker.
    fn shorten_middle(&self, components: &Vec<String>, max_size: usize) -> (r: String)
        requires
            components.len() >= 3,
        ensures
            r@ == shortened_middle(text::texts(components@), max_size as int),
    {
        let ghost parts = text::texts(components@);
        let total = components.len();
        let first = components[0].as_str();
        let last = components[total - 1].as_str();
        assert(parts[0] == first@ && parts.last() == last@);
        let dots = Self::make_ellipsis(total - 2);
        let dots_len = byte_count(dots.as_str());
        let last_len = byte_count(last);
        let first_len = byte_count(first);
        if fit_within(first_len, last_len, 2, max_size) && dots_len <= max_size - first_len
            - last_len - 2 {
            return self.expand_middle(components, max_size);
        }
        if fit_within(last_len, 2, dots_len, max_size) {
            let mut r = Self::truncate_str(first, max_size - last_len - 2 - dots_len);
            r.push('/');
            r.append(dots.as_str());
            r.push('/');
            r.append(last);
            assert(r@ =~= truncated(first@, max_size - last_len - 2 - dots_len) + slash() + dots@
                + slash() + last@);
            return r;
        }
        if fit_within(dots_len, 1, last_len, max_size) {
            let mut r = dots;
            let ghost d = r@;
            r.push('/');
            r.append(last);
            assert(r@ =~= d + slash() + last@);
            return r;
        }
        Self::truncate_str(last, max_size)
    }

    /// Expands the visible prefix and suffix while the path still fits.
    fn expand_middle(&self, components: &Vec<String>, max_size: usize) -> (r: String)
        requires
            components.len() >= 3,
        ensures
            ({
                let parts = text::texts(components@);
                let (l, r0) = expanded(parts, 1, parts.len() - 1, max_size as int);
                r@ == middle(parts, l, r0)
            }),
    {
        let ghost parts = text::texts(components@);
        let ghost goal = expanded(parts, 1, parts.len() - 1, max_size as int);
        let mut left_end: usize = 1;
        let mut right_start: usize = components.len() - 1;
        let mut growing = true;
        while growing
            invariant
                parts == text::texts(components@),
                1 <= left_end < right_start <= components.len() - 1,
                growing ==> goal == expanded(
                    parts,
                    left_end as int,
                    right_start as int,
                    max_size as int,
                ),
                !growing ==> goal == (left_end as int, right_start as int),
            decreases right_start - left_end, (if growing { 1int } else { 0int }),
        {
            let mut added = false;
            if right_start > left_end + 1 {
                let candidate = Self::build_middle_result(components, left_end, right_start - 1);
                if byte_count(candidate.as_str()) <= max_size {
                    right_start -= 1;
                    added = true;
                }
            }
            if left_end < right_start - 1 {
                let candidate = Self::build_middle_result(components, left_end + 1, right_start);
                if byte_count(candidate.as_str()) <= max_size {
                    left_end += 1;
                    added = true;
                }
            }
            growing = added;
        }
        Self::build_middle_result(components, left_end, right_start)
    }

    /// Builds a shortened path from visible prefix, marker, and suffix components.
    fn build_middle_result(components: &Vec<String>, left_end: usize, right_start: usize) -> (r:
        String)
        requires
            left_end <= right_start <= components.len(),
        ensures
            r@ == middle(text::texts(components@), left_end as int, right_start as int),
    {
        let ghost parts = text::texts(components@);
        proof {
            reveal_strlit("/");
            assert("/"@ =~= slash());
            assert(parts.subrange(0, left_end as int) =~= parts.take(left_end as int));
            assert(parts.subrange(right_start as int, parts.len() as int) =~= parts.skip(
                right_start as int,
            ));
        }
        let mut r = join_range(components, 0, left_end, "/");
        let ghost head = r@;
        r.push('/');
        let dots = Self::make_ellipsis(right_start - left_end);
        r.append(dots.as_str());
        r.push('/');
        let tail = join_range(components, right_start, components.len(), "/");
        r.append(tail.as_str());
        assert(r@ =~= head + slash() + dots@ + slash() + tail@);
        r
    }

    /// Formats the marker that represents hidden path components.
    fn make_ellipsis(hidden_count: usize) -> (r: String)
        ensures
            r@ == ellipsis(hidden_count as nat),
    {
        let mut r = String::new();
        r.push('.');
        if hidden_count == 1 {
        } else if hidden_count == 2 {
            r.push('.');
        } else if hidden_count == 3 {
            r.push('.');
            r.push('.');
        } else {
            let number = decimal_of(hidden_count as u64);
            r.append(number.as_str());
            r.push('.');
        }
        assert(r@ =~= ellipsis(hidden_count as nat));
        r
    }

    /// Truncates a string to a maximum number of characters.
    fn truncate_str(s: &str, max_len: usize) -> (r: String)
        ensures
            r@ == truncated(s@, max_len as int),
    {
        let v = chars_of(s);
        if v.len() <= max_len {
            return s.to_owned();
        }
        assert(v@.subrange(0, max_len as int) =~= s@.take(max_len as int));
        slice_text(&v, 0, max_len)
    }
}

proof fn lemma_middle_len(parts: Seq<Seq<char>>)
    requires
        parts.len() >= 3,
    ensures
        ({
            let n = parts.len() as int;
            &&& middle(parts, 1, n - 1) == parts[0] + slash() + ellipsis((n - 2) as nat) + slash()
                + parts.last()
            &&& text::utf8_len(middle(parts, 1, n - 1)) == text::utf8_len(parts[0])
                + text::utf8_len(parts.last()) + 2 + text::utf8_len(ellipsis((n - 2) as nat))
        }),
{
    let n = parts.len() as int;
    let dots = ellipsis((n - 2) as nat);
    assert(parts.take(1).len() == 1 && parts.take(1)[0] == parts[0]);
    assert(parts.skip(n - 1).len() == 1 && parts.skip(n - 1)[0] == parts.last());
    text::lemma_utf8_len_one('/');
    text::lemma_utf8_len_concat(parts[0], slash());
    text::lemma_utf8_len_concat(parts[0] + slash(), dots);
    text::lemma_utf8_len_concat(parts[0] + slash() + dots, slash());
    text::lemma_utf8_len_concat(parts[0] + slash() + dots + slash(), parts.last());
}

/// Taking components back keeps the path within the budget, keeps at least one component hidden,
/// and stops only when neither side has room for one more.
pub proof fn law_expansion_is_maximal(parts: Seq<Seq<char>>, left: int, right: int, max: int)
    requires
        1 <= left < right < parts.len(),
        middle_fits(parts, left, right, max),
    ensures
        ({
            let (l, r) = expanded(parts, left, right, max);
            &&& left <= l < r <= right
            &&& middle_fits(parts, l, r, max)
            &&& r > l + 1 ==> !middle_fits(parts, l, r - 1, max) && !middle_fits(
                parts,
                l + 1,
                r,
                max,
            )
        }),
    decreases right - left,
{
    let r = if right > left + 1 && middle_fits(parts, left, right - 1, max) {
        right - 1
    } else {
        right
    };
    let l = if left < r - 1 && middle_fits(parts, left + 1, r, max) {
        left + 1
    } else {
        left
    };
    if l != left || r != right {
        law_expansion_is_maximal(parts, l, r, max);
    }
}

/// The join of some parts ends with the last part.
proof fn lemma_join_ends_with_last(parts: Seq<Seq<char>>)
    requires
        parts.len() >= 1,
    ensures
        parts.last().is_suffix_of(text::join(parts, slash())),
{
    let joined = text::join(parts, slash());
    let last = parts.last();
    let at = joined.len() - last.len();
    assert(joined.subrange(at, joined.len() as int) =~= last);
}

proof fn lemma_suffix(a: Seq<char>, b: Seq<char>)
    ensures
        b.is_suffix_of(a + b),
{
    assert((a + b).subrange(a.len() as int, (a + b).len() as int) =~= b);
}

proof fn lemma_suffix_extended(a: Seq<char>, b: Seq<char>, c: Seq<char>)
    requires
        c.is_suffix_of(b),
    ensures
        c.is_suffix_of(a + b),
{
    assert((a + b).subrange((a + b).len() - c.len(), (a + b).len() as int) =~= b.subrange(
        b.len() - c.len(),
        b.len() as int,
    ));
}

/// A shortened path has no more characters than the budget.
pub proof fn law_shortened_path_fits(path: Seq<char>, max: int)
    requires
        max >= 0,
    ensures
        shortened(path, max).len() <= max,
{
    let parts = normal_components(path);
    text::lemma_utf8_len_bounds(path);
    text::lemma_utf8_len_bounds(shortened(path, max));
    if parts.len() == 2 {
        text::lemma_utf8_len_bounds(parts[1]);
    } else if parts.len() >= 3 {
        let dots = ellipsis((parts.len() - 2) as nat);
        text::lemma_utf8_len_bounds(parts.last());
        text::lemma_utf8_len_bounds(dots);
        lemma_middle_len(parts);
        if middle_fits(parts, 1, parts.len() - 1, max) {
            law_expansion_is_maximal(parts, 1, parts.len() - 1, max);
        }
    }
}

/// A path that already fits is left as it is.
pub proof fn law_fitting_path_is_unchanged(path: Seq<char>, max: int)
    requires
        text::utf8_len(path) <= max,
    ensures
        shortened(path, max) == path,
{
}

proof fn lemma_pair_ends_with_last(parts: Seq<Seq<char>>, max: int)
    requires
        parts.len() == 2,
        text::utf8_len(parts[1]) <= max,
    ensures
        parts[1].is_suffix_of(shortened_pair(parts, max)),
{
    let last = parts[1];
    text::lemma_utf8_len_bounds(last);
    lemma_suffix(parts[0] + slash(), last);
    lemma_suffix(truncated(parts[0], max - 1 - text::utf8_len(last)) + slash(), last);
    assert(last.is_suffix_of(last)) by {
        lemma_suffix(Seq::empty(), last);
        assert(Seq::<char>::empty() + last =~= last);
    }
}

proof fn lemma_middle_ends_with_last(parts: Seq<Seq<char>>, max: int)
    requires
        parts.len() >= 3,
        text::utf8_len(parts.last()) <= max,
    ensures
        parts.last().is_suffix_of(shortened_middle(parts, max)),
{
    let last = parts.last();
    let dots = ellipsis((parts.len() - 2) as nat);
    lemma_middle_len(parts);
    if middle_fits(parts, 1, parts.len() - 1, max) {
        law_expansion_is_maximal(parts, 1, parts.len() - 1, max);
        let (l, r) = expanded(parts, 1, parts.len() - 1, max);
        assert(parts.skip(r).last() == last);
        lemma_join_ends_with_last(parts.skip(r));
        lemma_suffix_extended(
            text::join(parts.take(l), slash()) + slash() + ellipsis((r - l) as nat) + slash(),
            text::join(parts.skip(r), slash()),
            last,
        );
    } else {
        let room = max - text::utf8_len(last) - 2 - text::utf8_len(dots);
        text::lemma_utf8_len_bounds(last);
        lemma_suffix(truncated(parts[0], room) + slash() + dots + slash(), last);
        lemma_suffix(dots + slash(), last);
        assert(last.is_suffix_of(last)) by {
            lemma_suffix(Seq::empty(), last);
            assert(Seq::<char>::empty() + last =~= last);
        }
    }
}

/// Where the file name alone fits, a path that has to be shortened still ends with it.
pub proof fn law_file_name_is_kept(path: Seq<char>, max: int)
    requires
        max >= MIN_SMART_SHORTEN_SIZE,
        text::utf8_len(path) > max,
        normal_components(path).len() > 0,
        text::utf8_len(normal_components(path).last()) <= max,
    ensures
        normal_components(path).last().is_suffix_of(shortened(path, max)),
{
    let parts = normal_components(path);
    let last = parts.last();
    if parts.len() == 1 {
        text::lemma_utf8_len_bounds(last);
        lemma_suffix(Seq::empty(), last);
        assert(Seq::<char>::empty() + last =~= last);
    } else if parts.len() == 2 {
        lemma_pair_ends_with_last(parts, max);
    } else {
        lemma_middle_ends_with_last(parts, max);
    }
}

proof fn lemma_ascii_parts(s: Seq<char>)
    requires
        is_ascii_chars(s),
    ensures
        forall|k: int|
            0 <= k < text::split(s, '/', '/').len() ==> is_ascii_chars(
                #[trigger] text::split(s, '/', '/')[k],
            ),
    decreases s.len(),
{
    let i = text::first_of(s, '/', '/');
    text::lemma_first_of(s, '/', '/');
    if i < s.len() {
        let rest = s.skip(i + 1);
        lemma_ascii_parts(rest);
        let parts = text::split(s, '/', '/');
        assert(parts == seq![s.take(i)] + text::split(rest, '/', '/'));
        assert forall|k: int| 0 <= k < parts.len() implies is_ascii_chars(#[trigger] parts[k]) by {
            if k > 0 {
                assert(parts[k] == text::split(rest, '/', '/')[k - 1]);
            }
        }
    }
}

/// All parts are of ASCII characters.
spec fn all_ascii(parts: Seq<Seq<char>>) -> bool {
    forall|k: int| 0 <= k < parts.len() ==> is_ascii_chars(#[trigger] parts[k])
}

proof fn lemma_ascii_components(path: Seq<char>)
    requires
        is_ascii_chars(path),
    ensures
        all_ascii(normal_components(path)),
{
    lemma_ascii_parts(path);
    let all = text::split(path, '/', '/');
    let keep = |part: Seq<char>| is_normal(part);
    let parts = normal_components(path);
    assert forall|k: int| 0 <= k < parts.len() implies is_ascii_chars(#[trigger] parts[k]) by {
        assert(parts.contains(parts[k]));
        all.lemma_filter_contains_rev(keep, parts[k]);
        let j = choose|j: int| 0 <= j < all.len() && all[j] == parts[k];
        assert(is_ascii_chars(all[j]));
    }
}

proof fn lemma_ascii_join(parts: Seq<Seq<char>>)
    requires
        all_ascii(parts),
    ensures
        is_ascii_chars(text::join(parts, slash())),
    decreases parts.len(),
{
    if parts.len() >= 2 {
        let front = parts.drop_last();
        assert forall|k: int| 0 <= k < front.len() implies is_ascii_chars(
            #[trigger] front[k],
        ) by {
            assert(front[k] == parts[k]);
        }
        lemma_ascii_join(front);
        assert(is_ascii_chars(parts[parts.len() - 1]));
    } else if parts.len() == 1 {
        assert(is_ascii_chars(parts[0]));
    }
}

proof fn lemma_ascii_decimal(n: nat)
    ensures
        is_ascii_chars(text::decimal(n)),
    decreases n,
{
    if n >= 10 {
        lemma_ascii_decimal(n / 10);
    }
}

proof fn lemma_ascii_ellipsis(n: nat)
    ensures
        is_ascii_chars(ellipsis(n)),
{
    lemma_ascii_decimal(n);
}

proof fn lemma_ascii_middle(parts: Seq<Seq<char>>, left: int, right: int)
    requires
        all_ascii(parts),
        0 <= left <= right <= parts.len(),
    ensures
        is_ascii_chars(middle(parts, left, right)),
{
    let head = parts.take(left);
    let tail = parts.skip(right);
    assert forall|k: int| 0 <= k < head.len() implies is_ascii_chars(#[trigger] head[k]) by {
        assert(head[k] == parts[k]);
    }
    assert forall|k: int| 0 <= k < tail.len() implies is_ascii_chars(#[trigger] tail[k]) by {
        assert(tail[k] == parts[right + k]);
    }
    lemma_ascii_join(head);
    lemma_ascii_join(tail);
    lemma_ascii_ellipsis((right - left) as nat);
}

proof fn lemma_ascii_shortened_middle(parts: Seq<Seq<char>>, max: int)
    requires
        parts.len() >= 3,
        all_ascii(parts),
        max >= 0,
    ensures
        is_ascii_chars(shortened_middle(parts, max)),
{
    let dots = ellipsis((parts.len() - 2) as nat);
    lemma_ascii_ellipsis((parts.len() - 2) as nat);
    assert(is_ascii_chars(parts[0]));
    assert(is_ascii_chars(parts[parts.len() - 1]));
    lemma_middle_len(parts);
    if middle_fits(parts, 1, parts.len() - 1, max) {
        law_expansion_is_maximal(parts, 1, parts.len() - 1, max);
        let (l, r) = expanded(parts, 1, parts.len() - 1, max);
        lemma_ascii_middle(parts, l, r);
    } else {
        let last = parts.last();
        let room = max - text::utf8_len(last) - 2 - text::utf8_len(dots);
        if room >= 0 {
            let head = truncated(parts[0], room);
            assert(is_ascii_chars(head));
            assert(is_ascii_chars(head + slash() + dots + slash() + last));
        } else {
            assert(is_ascii_chars(dots + slash() + last));
            assert(is_ascii_chars(truncated(last, max)));
        }
    }
}

/// Shortening a path of ASCII characters once more changes nothing.
pub proof fn law_shortening_twice(path: Seq<char>, max: int)
    requires
        max >= 0,
        is_ascii_chars(path),
    ensures
        shortened(shortened(path, max), max) == shortened(path, max),
{
    let parts = normal_components(path);
    let short = shortened(path, max);
    lemma_ascii_components(path);
    if parts.len() >= 1 {
        assert(is_ascii_chars(parts[0]));
    }
    if parts.len() == 2 {
        assert(is_ascii_chars(parts[1]));
    } else if parts.len() >= 3 {
        lemma_ascii_shortened_middle(parts, max);
    }
    assert(is_ascii_chars(short));
    text::lemma_ascii_size(short);
    law_shortened_path_fits(path, max);
    law_fitting_path_is_unchanged(short, max);
}

proof fn lemma_all_normal(names: Seq<Seq<char>>)
    requires
        forall|k: int| 0 <= k < names.len() ==> is_normal(#[trigger] names[k]),
    ensures
        names.filter(|part: Seq<char>| is_normal(part)) == names,
    decreases names.len(),
{
    reveal(Seq::filter);
    if names.len() > 0 {
        let front = names.drop_last();
        assert forall|k: int| 0 <= k < front.len() implies is_normal(#[trigger] front[k]) by {
            assert(front[k] == names[k]);
        }
        lemma_all_normal(front);
        assert(is_normal(names[names.len() - 1]));
        assert(front.push(names.last()) =~= names);
    } else {
        assert(names.filter(|part: Seq<char>| is_normal(part)) =~= names);
    }
}

/// The names along a path are those between its slashes, with or without a slash in front.
pub proof fn law_names_along_a_path(names: Seq<Seq<char>>)
    requires
        names.len() > 0,
        forall|k: int|
            0 <= k < names.len() ==> (#[trigger] names[k]).len() > 0 && names[k] != "."@ && names[k]
                != ".."@ && text::unbroken(names[k], '/', '/'),
    ensures
        normal_components(text::join(names, "/"@)) == names,
        normal_components("/"@ + text::join(names, "/"@)) == names,
{
    let keep = |part: Seq<char>| is_normal(part);
    reveal_strlit("/");
    reveal_strlit(".");
    reveal_strlit("..");
    assert("/"@ =~= seq!['/']);
    assert("."@ =~= seq!['.']);
    assert(".."@ =~= seq!['.', '.']);
    let inner = text::join(names, "/"@);
    text::lemma_split_join(names, '/', '/');
    assert forall|k: int| 0 <= k < names.len() implies is_normal(#[trigger] names[k]) by {}
    lemma_all_normal(names);
    let rooted = "/"@ + inner;
    text::lemma_first_of_is(rooted, '/', '/', 0);
    assert(rooted.skip(1) =~= inner);
    assert(rooted.take(0) =~= Seq::empty());
    let root = seq![Seq::<char>::empty()];
    assert(text::split(rooted, '/', '/') =~= root + names);
    Seq::filter_distributes_over_add(root, names, keep);
    assert(root.filter(keep) =~= Seq::empty()) by {
        reveal(Seq::filter);
        assert(root.drop_last() =~= Seq::empty());
        assert(!is_normal(root.last()));
    }
    assert(Seq::<Seq<char>>::empty() + names =~= names);
}

/// What stands for `n` hidden names: a dot for each, or between two dots how many they are.
pub open spec fn hidden_mark(n: nat) -> Seq<char> {
    if n <= 3 {
        Seq::new(n, |i: int| '.')
    } else {
        "."@ + text::decimal(n) + "."@
    }
}

proof fn lemma_hidden_mark(n: nat)
    requires
        n > 0,
    ensures
        ellipsis(n) == hidden_mark(n),
{
    reveal_strlit(".");
    assert("."@ =~= seq!['.']);
    assert(ellipsis(n) =~= hidden_mark(n));
}

/// A path with hidden names: the first `l` names, the mark, and the names from `r` on.
pub open spec fn with_hidden(names: Seq<Seq<char>>, l: int, r: int) -> Seq<char> {
    text::join(names.take(l), "/"@) + "/"@ + hidden_mark((r - l) as nat) + "/"@ + text::join(
        names.skip(r),
        "/"@,
    )
}

proof fn lemma_with_hidden(names: Seq<Seq<char>>, l: int, r: int)
    requires
        l < r,
    ensures
        middle(names, l, r) == with_hidden(names, l, r),
{
    reveal_strlit("/");
    assert("/"@ =~= slash());
    lemma_hidden_mark((r - l) as nat);
}

/// Where the first name and the last fit with what stands for those between, a path shows them and
/// as many others at both ends as fit, and hides the rest; the name before the last is the first
/// to be shown.
pub proof fn law_middle_is_hidden(path: Seq<char>, max: int)
    requires
        text::utf8_len(path) > max >= 8,
        normal_components(path).len() >= 3,
        ({
            let names = normal_components(path);
            text::utf8_len(with_hidden(names, 1, names.len() - 1)) <= max
        }),
    ensures
        ({
            let names = normal_components(path);
            let n = names.len() as int;
            exists|l: int, r: int|
                {
                    &&& 1 <= l < r < n
                    &&& shortened(path, max) == #[trigger] with_hidden(names, l, r)
                    &&& text::utf8_len(with_hidden(names, l, r)) <= max
                    &&& r > l + 1 ==> text::utf8_len(with_hidden(names, l, r - 1)) > max
                        && text::utf8_len(with_hidden(names, l + 1, r)) > max
                    &&& n > 3 && text::utf8_len(with_hidden(names, 1, n - 2)) <= max ==> r < n - 1
                }
        }),
{
    let names = normal_components(path);
    let n = names.len() as int;
    lemma_with_hidden(names, 1, n - 1);
    lemma_middle_len(names);
    law_expansion_is_maximal(names, 1, n - 1, max);
    let (l, r) = expanded(names, 1, n - 1, max);
    lemma_with_hidden(names, l, r);
    if r > l + 1 {
        lemma_with_hidden(names, l, r - 1);
        lemma_with_hidden(names, l + 1, r);
    }
    if n > 3 {
        lemma_with_hidden(names, 1, n - 2);
        if middle_fits(names, 1, n - 2, max) {
            lemma_first_taken_back(names, max);
        }
    }
    assert(shortened(path, max) == with_hidden(names, l, r));
}

proof fn lemma_first_taken_back(names: Seq<Seq<char>>, max: int)
    requires
        names.len() > 3,
        middle_fits(names, 1, names.len() - 2, max),
    ensures
        expanded(names, 1, names.len() - 1, max).1 < names.len() - 1,
{
    let right = names.len() - 2;
    let left = if 1 < right - 1 && middle_fits(names, 2, right, max) {
        2int
    } else {
        1
    };
    assert(left < right);
    law_expansion_is_maximal(names, left, right, max);
}

/// Where the first name is too long, its start is shown with the mark and the last name; where
/// there is no room for it, the mark and the last name; and where there is none for these, the
/// start of the last name.
pub proof fn law_tight_budgets(path: Seq<char>, max: int)
    requires
        text::utf8_len(path) > max >= 8,
        normal_components(path).len() >= 3,
        ({
            let names = normal_components(path);
            text::utf8_len(with_hidden(names, 1, names.len() - 1)) > max
        }),
    ensures
        ({
            let names = normal_components(path);
            let mark = hidden_mark((names.len() - 2) as nat);
            let (first, last) = (names[0], names.last());
            let room = max - text::utf8_len("/"@ + mark + "/"@ + last);
            let short = shortened(path, max);
            &&& 0 <= room <= first.len() ==> short == first.take(room) + "/"@ + mark + "/"@ + last
            &&& room > first.len() ==> short == first + "/"@ + mark + "/"@ + last
            &&& room == -1 ==> short == mark + "/"@ + last
            &&& room < -1 ==> short.is_prefix_of(last) && (short.len() == max || short == last)
        }),
{
    let names = normal_components(path);
    let n = names.len() as int;
    let mark = hidden_mark((n - 2) as nat);
    let (first, last) = (names[0], names.last());
    lemma_with_hidden(names, 1, n - 1);
    lemma_middle_len(names);
    lemma_hidden_mark((n - 2) as nat);
    reveal_strlit("/");
    assert("/"@ =~= slash());
    text::lemma_utf8_len_one('/');
    text::lemma_utf8_len_concat("/"@, mark);
    text::lemma_utf8_len_concat("/"@ + mark, "/"@);
    text::lemma_utf8_len_concat("/"@ + mark + "/"@, last);
    assert(first.take(first.len() as int) =~= first);
}

/// A path of two names shows the last, and in front of it as much of the first as there is room
/// for; the start of the last alone where there is none.
pub proof fn law_two_names(path: Seq<char>, max: int)
    requires
        text::utf8_len(path) > max >= 8,
        normal_components(path).len() == 2,
    ensures
        ({
            let names = normal_components(path);
            let (first, last) = (names[0], names[1]);
            let room = max - text::utf8_len("/"@ + last);
            let short = shortened(path, max);
            &&& room > 0 && room < first.len() ==> short == first.take(room) + "/"@ + last
            &&& room > 0 && room >= first.len() ==> short == first + "/"@ + last
            &&& room <= 0 ==> short.is_prefix_of(last) && (short.len() == max || short == last)
        }),
{
    let names = normal_components(path);
    let (first, last) = (names[0], names[1]);
    reveal_strlit("/");
    assert("/"@ =~= slash());
    text::lemma_utf8_len_one('/');
    text::lemma_utf8_len_concat("/"@, last);
    text::lemma_utf8_len_concat(first, slash());
    text::lemma_utf8_len_concat(first + slash(), last);
    text::lemma_utf8_len_bounds(first);
    assert(normal_components(path)[0].len() > 0) by {
        lemma_normal_kept(text::split(path, '/', '/'), 0);
    }
}

proof fn lemma_normal_kept(parts: Seq<Seq<char>>, k: int)
    requires
        0 <= k < parts.filter(|part: Seq<char>| is_normal(part)).len(),
    ensures
        is_normal(parts.filter(|part: Seq<char>| is_normal(part))[k]),
    decreases parts.len(),
{
    reveal(Seq::filter);
    let front = parts.drop_last();
    if k < front.filter(|part: Seq<char>| is_normal(part)).len() {
        lemma_normal_kept(front, k);
    }
}

/// With a budget of less than eight, and for a single name, the start is shown.
pub proof fn law_start_is_shown(path: Seq<char>, max: int)
    requires
        text::utf8_len(path) > max >= 0,
    ensures
        max < 8 ==> shortened(path, max).is_prefix_of(path) && (shortened(path, max).len() == max
            || shortened(path, max) == path),
        max >= 8 && normal_components(path).len() == 1 ==> shortened(path, max).is_prefix_of(
            normal_components(path)[0],
        ) && (shortened(path, max).len() == max || shortened(path, max) == normal_components(
            path,
        )[0]),
{
}

} // verus!
