//! Text as a sequence of characters: measuring, trimming, splitting, joining and number notation.
//!
//! The views of `str` and `String` are sequences of `char`. Offsets that count bytes of the UTF-8
//! encoding are related to character indices through `utf8_len`.

use vstd::prelude::*;
use vstd::utf8::*;

verus! {

/// Appends one character, as the documentation of `String::push` states.
pub assume_specification[ String::push ](s: &mut String, c: char)
    ensures
        final(s)@ == old(s)@.push(c),
;

/// The number of bytes that a character takes in UTF-8.
pub open spec fn width(c: char) -> nat {
    if (c as u32) < 0x80 {
        1
    } else if (c as u32) < 0x800 {
        2
    } else if (c as u32) < 0x10000 {
        3
    } else {
        4
    }
}

/// The number of bytes that a text takes in UTF-8.
pub open spec fn utf8_len(s: Seq<char>) -> nat
    decreases s.len(),
{
    if s.len() == 0 {
        0
    } else {
        utf8_len(s.drop_last()) + width(s.last())
    }
}

pub proof fn lemma_utf8_len_concat(a: Seq<char>, b: Seq<char>)
    ensures
        utf8_len(a + b) == utf8_len(a) + utf8_len(b),
    decreases b.len(),
{
    if b.len() == 0 {
        assert(a + b =~= a);
    } else {
        assert((a + b).drop_last() =~= a + b.drop_last());
        lemma_utf8_len_concat(a, b.drop_last());
    }
}

pub proof fn lemma_utf8_len_one(c: char)
    ensures
        utf8_len(seq![c]) == width(c),
{
    assert(seq![c].drop_last() =~= Seq::<char>::empty());
    assert(seq![c].last() == c);
    assert(utf8_len(Seq::<char>::empty()) == 0);
}

/// Every character takes between one and four bytes.
pub proof fn lemma_utf8_len_bounds(s: Seq<char>)
    ensures
        s.len() <= utf8_len(s) <= 4 * s.len(),
    decreases s.len(),
{
    if s.len() > 0 {
        lemma_utf8_len_bounds(s.drop_last());
    }
}

/// An ASCII character takes one byte.
pub proof fn lemma_ascii_size(s: Seq<char>)
    requires
        is_ascii_chars(s),
    ensures
        utf8_len(s) == s.len(),
    decreases s.len(),
{
    if s.len() > 0 {
        lemma_ascii_size(s.drop_last());
    }
}

/// `utf8_len` counts the bytes of the encoding.
pub proof fn lemma_utf8_len_is_encoded(s: Seq<char>)
    ensures
        utf8_len(s) == encode_utf8(s).len(),
    decreases s.len(),
{
    if s.len() > 0 {
        char_is_scalar(s[0]);
        lemma_utf8_len_is_encoded(s.drop_first());
        assert(s =~= seq![s[0]] + s.drop_first());
        lemma_utf8_len_concat(seq![s[0]], s.drop_first());
        lemma_utf8_len_one(s[0]);
    }
}

/// The byte offset of each character index grows with the index.
pub proof fn lemma_utf8_len_take(s: Seq<char>, i: int, j: int)
    requires
        0 <= i <= j <= s.len(),
    ensures
        utf8_len(s.take(j)) == utf8_len(s.take(i)) + utf8_len(s.subrange(i, j)),
        i < j ==> utf8_len(s.take(i)) < utf8_len(s.take(j)),
{
    assert(s.take(j) =~= s.take(i) + s.subrange(i, j));
    lemma_utf8_len_concat(s.take(i), s.subrange(i, j));
    lemma_utf8_len_bounds(s.subrange(i, j));
}

/// The number of bytes of a text.
pub fn byte_count(s: &str) -> (n: usize)
    ensures
        n == utf8_len(s@),
{
    proof {
        lemma_utf8_len_is_encoded(s@);
    }
    s.as_bytes().len()
}

pub fn char_width(c: char) -> (n: usize)
    ensures
        n == width(c),
{
    let code: u32 = c as u32;
    if code < 0x80 {
        1
    } else if code < 0x800 {
        2
    } else if code < 0x10000 {
        3
    } else {
        4
    }
}

/// The characters of a text, in order.
pub fn chars_of(s: &str) -> (v: Vec<char>)
    ensures
        v@ == s@,
{
    let mut v: Vec<char> = Vec::new();
    for c in it: s.chars()
        invariant
            it.seq() == s@,
            v@ == s@.take(it.index() as int),
    {
        v.push(c);
    }
    assert(s@.take(s@.len() as int) =~= s@);
    v
}

/// The text made of the given characters.
pub fn text_of(v: &Vec<char>) -> (s: String)
    ensures
        s@ == v@,
{
    let mut s = String::new();
    let mut i: usize = 0;
    while i < v.len()
        invariant
            i <= v.len(),
            s@ == v@.take(i as int),
        decreases v.len() - i,
    {
        s.push(v[i]);
        i += 1;
    }
    assert(v@.take(v@.len() as int) =~= v@);
    s
}

/// The views of a list of texts.
pub open spec fn texts(v: Seq<String>) -> Seq<Seq<char>> {
    v.map_values(|s: String| s@)
}

/// The white space characters of Unicode (its White_Space property).
pub open spec fn is_white(c: char) -> bool {
    let n = c as u32;
    ||| 0x09 <= n <= 0x0d
    ||| n == 0x20
    ||| n == 0x85
    ||| n == 0xa0
    ||| n == 0x1680
    ||| 0x2000 <= n <= 0x200a
    ||| n == 0x2028
    ||| n == 0x2029
    ||| n == 0x202f
    ||| n == 0x205f
    ||| n == 0x3000
}

pub fn char_is_white(c: char) -> (b: bool)
    ensures
        b == is_white(c),
{
    let n: u32 = c as u32;
    (0x09 <= n && n <= 0x0d) || n == 0x20 || n == 0x85 || n == 0xa0 || n == 0x1680 || (0x2000 <= n
        && n <= 0x200a) || n == 0x2028 || n == 0x2029 || n == 0x202f || n == 0x205f || n == 0x3000
}

/// The text without its leading white space.
pub open spec fn trim_start(s: Seq<char>) -> Seq<char>
    decreases s.len(),
{
    if s.len() > 0 && is_white(s[0]) {
        trim_start(s.drop_first())
    } else {
        s
    }
}

/// The text without its trailing white space.
pub open spec fn trim_end(s: Seq<char>) -> Seq<char>
    decreases s.len(),
{
    if s.len() > 0 && is_white(s.last()) {
        trim_end(s.drop_last())
    } else {
        s
    }
}

/// The text without white space at either end.
pub open spec fn trim(s: Seq<char>) -> Seq<char> {
    trim_end(trim_start(s))
}

/// Trimming cuts a range out of the text, and neither end of that range is white space.
pub proof fn lemma_trim_range(s: Seq<char>) -> (r: (int, int))
    ensures
        0 <= r.0 <= r.1 <= s.len(),
        trim(s) == s.subrange(r.0, r.1),
        trim(s).len() > 0 ==> !is_white(trim(s)[0]) && !is_white(trim(s).last()),
{
    let a = lemma_trim_start_range(s);
    let t = trim_start(s);
    let b = lemma_trim_end_range(t);
    assert(t.take(b) =~= s.subrange(a, a + b));
    (a, a + b)
}

proof fn lemma_trim_start_range(s: Seq<char>) -> (a: int)
    ensures
        0 <= a <= s.len(),
        trim_start(s) == s.skip(a),
        a < s.len() ==> !is_white(s[a]),
        forall|i: int| 0 <= i < a ==> is_white(#[trigger] s[i]),
    decreases s.len(),
{
    if s.len() > 0 && is_white(s[0]) {
        let b = lemma_trim_start_range(s.drop_first());
        assert(s.drop_first().skip(b) =~= s.skip(b + 1));
        assert forall|i: int| 0 <= i < b + 1 implies is_white(#[trigger] s[i]) by {
            if i > 0 {
                assert(s.drop_first()[i - 1] == s[i]);
            }
        }
        b + 1
    } else {
        assert(s.skip(0) =~= s);
        0
    }
}

proof fn lemma_trim_end_range(s: Seq<char>) -> (b: int)
    ensures
        0 <= b <= s.len(),
        trim_end(s) == s.take(b),
        b > 0 ==> !is_white(s[b - 1]),
        forall|i: int| b <= i < s.len() ==> is_white(#[trigger] s[i]),
    decreases s.len(),
{
    if s.len() > 0 && is_white(s.last()) {
        let b = lemma_trim_end_range(s.drop_last());
        assert(s.drop_last().take(b) =~= s.take(b));
        assert forall|i: int| b <= i < s.len() implies is_white(#[trigger] s[i]) by {
            if i < s.len() - 1 {
                assert(s.drop_last()[i] == s[i]);
            }
        }
        b
    } else {
        assert(s.take(s.len() as int) =~= s);
        s.len() as int
    }
}

/// A text that neither starts nor ends with white space is its own trimmed form.
pub proof fn lemma_trim_fixed(s: Seq<char>)
    requires
        s.len() > 0 ==> !is_white(s[0]) && !is_white(s.last()),
    ensures
        trim(s) == s,
{
}

/// A copy of the part of `v` from index `from` up to `to`.
/// All characters are white space.
pub open spec fn all_white(s: Seq<char>) -> bool {
    forall|i: int| 0 <= i < s.len() ==> is_white(#[trigger] s[i])
}

/// White space in front does not count.
pub proof fn lemma_trim_start_past(before: Seq<char>, rest: Seq<char>)
    requires
        all_white(before),
    ensures
        trim_start(before + rest) == trim_start(rest),
    decreases before.len(),
{
    if before.len() == 0 {
        assert(before + rest =~= rest);
    } else {
        let less = before.drop_first();
        assert forall|i: int| 0 <= i < less.len() implies is_white(#[trigger] less[i]) by {
            assert(less[i] == before[i + 1]);
        }
        lemma_trim_start_past(less, rest);
        assert((before + rest).drop_first() =~= less + rest);
        assert(is_white(before[0]));
    }
}

proof fn lemma_trim_end_past(rest: Seq<char>, after: Seq<char>)
    requires
        all_white(after),
    ensures
        trim_end(rest + after) == trim_end(rest),
    decreases after.len(),
{
    if after.len() == 0 {
        assert(rest + after =~= rest);
    } else {
        let less = after.drop_last();
        assert forall|i: int| 0 <= i < less.len() implies is_white(#[trigger] less[i]) by {
            assert(less[i] == after[i]);
        }
        lemma_trim_end_past(rest, less);
        assert((rest + after).drop_last() =~= rest + less);
        assert(is_white(after[after.len() - 1]));
    }
}

/// Trimming takes away white space around a text that neither starts nor ends with any.
pub proof fn lemma_trim_around(before: Seq<char>, s: Seq<char>, after: Seq<char>)
    requires
        all_white(before),
        all_white(after),
        s.len() > 0,
        !is_white(s[0]),
        !is_white(s.last()),
    ensures
        trim(before + s + after) == s,
{
    assert(before + s + after =~= before + (s + after));
    lemma_trim_start_past(before, s + after);
    assert((s + after)[0] == s[0]);
    lemma_trim_end_past(s, after);
}

pub fn slice_of(v: &Vec<char>, from: usize, to: usize) -> (r: Vec<char>)
    requires
        from <= to <= v.len(),
    ensures
        r@ == v@.subrange(from as int, to as int),
{
    let mut r: Vec<char> = Vec::new();
    let mut i: usize = from;
    while i < to
        invariant
            from <= i <= to <= v.len(),
            r@ == v@.subrange(from as int, i as int),
        decreases to - i,
    {
        r.push(v[i]);
        i += 1;
    }
    r
}

/// The text made of the part of `v` from index `from` up to `to`.
pub fn slice_text(v: &Vec<char>, from: usize, to: usize) -> (r: String)
    requires
        from <= to <= v.len(),
    ensures
        r@ == v@.subrange(from as int, to as int),
{
    text_of(&slice_of(v, from, to))
}

/// Where the trimmed part of `v` begins and ends.
pub fn trim_bounds(v: &Vec<char>) -> (r: (usize, usize))
    ensures
        r.0 <= r.1 <= v.len(),
        v@.subrange(r.0 as int, r.1 as int) == trim(v@),
        v@.skip(r.0 as int) == trim_start(v@),
{
    let mut a: usize = 0;
    assert(v@.skip(0) =~= v@);
    while a < v.len() && char_is_white(v[a])
        invariant
            a <= v.len(),
            trim_start(v@.skip(a as int)) == trim_start(v@),
        decreases v.len() - a,
    {
        assert(v@.skip(a as int).drop_first() =~= v@.skip(a + 1));
        a += 1;
    }
    assert(trim_start(v@) == v@.skip(a as int));
    let mut b: usize = v.len();
    assert(v@.subrange(a as int, b as int) =~= v@.skip(a as int));
    while b > a && char_is_white(v[b - 1])
        invariant
            a <= b <= v.len(),
            trim_end(v@.subrange(a as int, b as int)) == trim(v@),
        decreases b,
    {
        assert(v@.subrange(a as int, b as int).drop_last() =~= v@.subrange(a as int, b - 1));
        b -= 1;
    }
    (a, b)
}

/// The text without white space at either end.
pub fn trimmed(s: &str) -> (r: String)
    ensures
        r@ == trim(s@),
{
    let v = chars_of(s);
    let (a, b) = trim_bounds(&v);
    slice_text(&v, a, b)
}

/// The first index of `s` that holds `a` or `b`; the length where neither occurs.
pub open spec fn first_of(s: Seq<char>, a: char, b: char) -> int
    decreases s.len(),
{
    if s.len() == 0 || s[0] == a || s[0] == b {
        0
    } else {
        1 + first_of(s.drop_first(), a, b)
    }
}

pub proof fn lemma_first_of(s: Seq<char>, a: char, b: char)
    ensures
        0 <= first_of(s, a, b) <= s.len(),
        first_of(s, a, b) < s.len() ==> s[first_of(s, a, b)] == a || s[first_of(s, a, b)] == b,
        forall|i: int| 0 <= i < first_of(s, a, b) ==> #[trigger] s[i] != a && s[i] != b,
    decreases s.len(),
{
    if s.len() > 0 && s[0] != a && s[0] != b {
        lemma_first_of(s.drop_first(), a, b);
        assert forall|i: int| 0 <= i < first_of(s, a, b) implies #[trigger] s[i] != a && s[i]
            != b by {
            if i > 0 {
                assert(s.drop_first()[i - 1] == s[i]);
            }
        }
    }
}

/// The first index is the only one with these properties.
pub proof fn lemma_first_of_is(s: Seq<char>, a: char, b: char, k: int)
    requires
        0 <= k <= s.len(),
        k < s.len() ==> s[k] == a || s[k] == b,
        forall|i: int| 0 <= i < k ==> #[trigger] s[i] != a && s[i] != b,
    ensures
        first_of(s, a, b) == k,
{
    lemma_first_of(s, a, b);
    let f = first_of(s, a, b);
    if f < k {
        assert(s[f] != a);
    } else if k < f {
        assert(s[k] != a);
    }
}

/// The pieces of `s` between the characters `a` and `b`, which are not part of any piece.
pub open spec fn split(s: Seq<char>, a: char, b: char) -> Seq<Seq<char>>
    decreases s.len(),
    via split_decreases
{
    let i = first_of(s, a, b);
    if i >= s.len() {
        seq![s]
    } else {
        seq![s.take(i)] + split(s.skip(i + 1), a, b)
    }
}

#[via_fn]
proof fn split_decreases(s: Seq<char>, a: char, b: char) {
    lemma_first_of(s, a, b);
}

pub proof fn lemma_split_nonempty(s: Seq<char>, a: char, b: char)
    ensures
        split(s, a, b).len() > 0,
{
}

/// Parts with text added to the last one.
pub open spec fn glued(parts: Seq<Seq<char>>, more: Seq<Seq<char>>) -> Seq<Seq<char>> {
    parts.drop_last().push(parts.last() + more[0]) + more.skip(1)
}

/// Splitting a text that continues another continues the last part.
pub proof fn lemma_split_glued(s: Seq<char>, t: Seq<char>, a: char, b: char)
    ensures
        split(s + t, a, b) == glued(split(s, a, b), split(t, a, b)),
    decreases s.len(),
{
    let i = first_of(s, a, b);
    lemma_first_of(s, a, b);
    let parts = split(t, a, b);
    let whole = s + t;
    if i < s.len() {
        let head = s.take(i);
        let tail = s.skip(i + 1);
        assert forall|k: int| 0 <= k < i implies #[trigger] whole[k] != a && whole[k] != b by {
            assert(whole[k] == s[k]);
        }
        assert(whole[i] == s[i]);
        lemma_first_of_is(whole, a, b, i);
        assert(whole.take(i) =~= head);
        assert(whole.skip(i + 1) =~= tail + t);
        lemma_split_glued(tail, t, a, b);
        lemma_split_nonempty(tail, a, b);
        let rest = split(tail, a, b);
        let left = split(s, a, b);
        assert(left =~= seq![head] + rest);
        assert(left.last() == rest.last());
        assert(left.drop_last() =~= seq![head] + rest.drop_last());
        assert(seq![head] + glued(rest, parts) =~= glued(left, parts));
    } else {
        assert(split(s, a, b) =~= seq![s]);
        let j = first_of(t, a, b);
        lemma_first_of(t, a, b);
        assert forall|k: int| 0 <= k < s.len() + j implies #[trigger] whole[k] != a && whole[k]
            != b by {
            if k < s.len() {
                assert(whole[k] == s[k]);
            } else {
                assert(whole[k] == t[k - s.len()]);
            }
        }
        if j < t.len() {
            assert(whole[s.len() + j] == t[j]);
        }
        lemma_first_of_is(whole, a, b, s.len() + j);
        if j < t.len() {
            assert(whole.take(s.len() + j) =~= s + t.take(j));
            assert(whole.skip(s.len() + j + 1) =~= t.skip(j + 1));
            assert(parts =~= seq![t.take(j)] + split(t.skip(j + 1), a, b));
            assert(parts.skip(1) =~= split(t.skip(j + 1), a, b));
            assert(split(whole, a, b) =~= glued(seq![s], parts));
        } else {
            assert(parts =~= seq![t]);
            assert(split(whole, a, b) =~= glued(seq![s], parts));
        }
    }
}

/// Neither separator occurs in a text.
pub open spec fn unbroken(s: Seq<char>, a: char, b: char) -> bool {
    forall|i: int| 0 <= i < s.len() ==> #[trigger] s[i] != a && s[i] != b
}

/// The parts of a text are unbroken.
pub proof fn lemma_split_unbroken(s: Seq<char>, a: char, b: char)
    ensures
        forall|k: int|
            0 <= k < split(s, a, b).len() ==> unbroken(#[trigger] split(s, a, b)[k], a, b),
    decreases s.len(),
{
    let i = first_of(s, a, b);
    lemma_first_of(s, a, b);
    if i < s.len() {
        let rest = s.skip(i + 1);
        lemma_split_unbroken(rest, a, b);
        let parts = split(s, a, b);
        assert(parts == seq![s.take(i)] + split(rest, a, b));
        assert forall|k: int| 0 <= k < parts.len() implies unbroken(#[trigger] parts[k], a, b) by {
            if k > 0 {
                assert(parts[k] == split(rest, a, b)[k - 1]);
            }
        }
    }
}

/// Joining unbroken parts with a separator and splitting gives the parts back.
pub proof fn lemma_split_join(parts: Seq<Seq<char>>, a: char, b: char)
    requires
        parts.len() > 0,
        forall|k: int| 0 <= k < parts.len() ==> unbroken(#[trigger] parts[k], a, b),
    ensures
        split(join(parts, seq![a]), a, b) == parts,
    decreases parts.len(),
{
    let last = parts.last();
    assert(unbroken(parts[parts.len() - 1], a, b));
    lemma_first_of_is(last, a, b, last.len() as int);
    assert(split(last, a, b) =~= seq![last]);
    if parts.len() == 1 {
        assert(parts =~= seq![last]);
    } else {
        let front = parts.drop_last();
        assert forall|k: int| 0 <= k < front.len() implies unbroken(#[trigger] front[k], a, b) by {
            assert(front[k] == parts[k]);
        }
        lemma_split_join(front, a, b);
        let head = join(front, seq![a]);
        let tail = seq![a] + last;
        assert(join(parts, seq![a]) =~= head + tail);
        lemma_first_of_is(tail, a, b, 0);
        assert(tail.take(0) =~= Seq::empty());
        assert(tail.skip(1) =~= last);
        assert(split(tail, a, b) =~= seq![Seq::empty(), last]);
        lemma_split_glued(head, tail, a, b);
        let more = split(tail, a, b);
        assert(front.last() + more[0] =~= front.last());
        assert(glued(front, more) =~= parts);
    }
}

/// The pieces of `v` between the characters `a` and `b`.
pub fn split_chars(v: &Vec<char>, a: char, b: char) -> (r: Vec<String>)
    ensures
        texts(r@) == split(v@, a, b),
{
    let mut r: Vec<String> = Vec::new();
    let mut from: usize = 0;
    let mut i: usize = 0;
    let ghost whole = split(v@, a, b);
    assert(v@.skip(0) =~= v@);
    assert(texts(r@) + whole =~= whole);
    while i < v.len()
        invariant
            from <= i <= v.len(),
            forall|j: int| from <= j < i ==> #[trigger] v@[j] != a && v@[j] != b,
            texts(r@) + split(v@.skip(from as int), a, b) == whole,
        decreases v.len() - i,
    {
        if v[i] == a || v[i] == b {
            let ghost rest = v@.skip(from as int);
            let piece = slice_text(v, from, i);
            proof {
                assert forall|j: int| 0 <= j < i - from implies #[trigger] rest[j] != a && rest[j]
                    != b by {
                    assert(rest[j] == v@[from + j]);
                }
                lemma_first_of_is(rest, a, b, i - from);
                assert(rest.take(i - from) =~= v@.subrange(from as int, i as int));
                assert(rest.skip(i - from + 1) =~= v@.skip(i + 1));
                assert(texts(r@.push(piece)) =~= texts(r@).push(piece@));
                assert(texts(r@) + (seq![piece@] + split(v@.skip(i + 1), a, b)) =~= texts(r@).push(
                    piece@,
                ) + split(v@.skip(i + 1), a, b));
            }
            r.push(piece);
            from = i + 1;
        }
        i += 1;
    }
    let ghost rest = v@.skip(from as int);
    let piece = slice_text(v, from, v.len());
    proof {
        assert forall|j: int| 0 <= j < rest.len() implies #[trigger] rest[j] != a && rest[j]
            != b by {
            assert(rest[j] == v@[from + j]);
        }
        lemma_first_of_is(rest, a, b, rest.len() as int);
        assert(rest =~= v@.subrange(from as int, v@.len() as int));
        assert(texts(r@.push(piece)) =~= texts(r@) + seq![piece@]);
    }
    r.push(piece);
    r
}

/// The index after the leading run of characters that are not white space.
pub open spec fn word_end(s: Seq<char>) -> int
    decreases s.len(),
{
    if s.len() == 0 || is_white(s[0]) {
        0
    } else {
        1 + word_end(s.drop_first())
    }
}

pub proof fn lemma_word_end(s: Seq<char>)
    ensures
        0 <= word_end(s) <= s.len(),
        word_end(s) < s.len() ==> is_white(s[word_end(s)]),
        forall|i: int| 0 <= i < word_end(s) ==> !is_white(#[trigger] s[i]),
        s.len() > 0 && !is_white(s[0]) ==> word_end(s) > 0,
    decreases s.len(),
{
    if s.len() > 0 && !is_white(s[0]) {
        lemma_word_end(s.drop_first());
        assert forall|i: int| 0 <= i < word_end(s) implies !is_white(#[trigger] s[i]) by {
            if i > 0 {
                assert(s.drop_first()[i - 1] == s[i]);
            }
        }
    }
}

/// The longest pieces of `s` that hold no white space.
pub open spec fn words(s: Seq<char>) -> Seq<Seq<char>>
    decreases s.len(),
    via words_decreases
{
    let t = trim_start(s);
    if t.len() == 0 {
        Seq::empty()
    } else {
        seq![t.take(word_end(t))] + words(t.skip(word_end(t)))
    }
}

#[via_fn]
proof fn words_decreases(s: Seq<char>) {
    let a = lemma_trim_start_range(s);
    lemma_word_end(trim_start(s));
}

/// A text without words is white space.
proof fn lemma_wordless(s: Seq<char>)
    requires
        words(s).len() == 0,
    ensures
        all_white(s),
{
    let a = lemma_trim_start_range(s);
    assert(trim_start(s).len() == 0);
}

/// The words of a text that starts with one.
proof fn lemma_first_word(s: Seq<char>)
    requires
        s.len() > 0,
        !is_white(s[0]),
    ensures
        words(s) == seq![s.take(word_end(s))] + words(s.skip(word_end(s))),
{
    assert(trim_start(s) == s);
}

/// A trimmed text has no white space at its ends.
proof fn lemma_trimmed_ends(s: Seq<char>)
    requires
        trim(s) == s,
        s.len() > 0,
    ensures
        !is_white(s[0]),
        !is_white(s.last()),
{
    let r = lemma_trim_range(s);
}

proof fn lemma_blank_has_no_words(s: Seq<char>)
    requires
        s.len() == 0,
    ensures
        words(s).len() == 0,
{
    assert(trim_start(s) == s);
}

/// In a text that does not end in white space, only its end has no words behind it.
proof fn lemma_one_word(s: Seq<char>, end: int)
    requires
        0 <= end <= s.len(),
        words(s.skip(end)).len() == 0,
        s.len() > 0,
        !is_white(s.last()),
    ensures
        end == s.len(),
{
    let rest = s.skip(end);
    lemma_wordless(rest);
    if end < s.len() {
        assert(is_white(rest[rest.len() - 1]));
        assert(rest[rest.len() - 1] == s.last());
    }
}

/// A trimmed text of one word has no white space in it.
pub proof fn lemma_single_word(s: Seq<char>)
    requires
        trim(s) == s,
        words(s).len() == 1,
    ensures
        s.len() > 0,
        forall|i: int| 0 <= i < s.len() ==> !is_white(#[trigger] s[i]),
{
    if s.len() == 0 {
        lemma_blank_has_no_words(s);
    } else {
        lemma_trimmed_ends(s);
        lemma_first_word(s);
        lemma_word_end(s);
        lemma_one_word(s, word_end(s));
    }
}

/// A text without white space is one word.
pub proof fn lemma_unspaced_word(s: Seq<char>)
    requires
        s.len() > 0,
        forall|i: int| 0 <= i < s.len() ==> !is_white(#[trigger] s[i]),
    ensures
        trim(s) == s,
        words(s) == seq![s],
{
    lemma_trim_fixed(s);
    lemma_word_end(s);
    let end = word_end(s);
    if end < s.len() {
        assert(is_white(s[end]));
    }
    assert(s.take(end) =~= s);
    let rest = s.skip(end);
    assert(rest =~= Seq::empty());
    assert(trim_start(rest) =~= Seq::empty());
    assert(words(rest) =~= Seq::empty());
    assert(trim_start(s) == s);
    assert(words(s) =~= seq![s]);
}

/// The longest pieces of a text that hold no white space.
pub fn words_of(s: &str) -> (r: Vec<String>)
    ensures
        texts(r@) == words(s@),
{
    let v = chars_of(s);
    let mut r: Vec<String> = Vec::new();
    let mut i: usize = 0;
    let ghost whole = words(v@);
    assert(v@.skip(0) =~= v@);
    assert(texts(r@) + whole =~= whole);
    while i < v.len()
        invariant
            i <= v.len(),
            v@ == s@,
            whole == words(v@),
            texts(r@) + words(v@.skip(i as int)) == whole,
        decreases v.len() - i,
    {
        let ghost rest = v@.skip(i as int);
        let mut a: usize = i;
        while a < v.len() && char_is_white(v[a])
            invariant
                i <= a <= v.len(),
                trim_start(v@.skip(a as int)) == trim_start(v@.skip(i as int)),
            decreases v.len() - a,
        {
            assert(v@.skip(a as int).drop_first() =~= v@.skip(a + 1));
            a += 1;
        }
        if a >= v.len() {
            assert(v@.skip(a as int) =~= Seq::<char>::empty());
            assert(words(rest) =~= Seq::<Seq<char>>::empty());
            assert(texts(r@) + words(rest) =~= texts(r@));
            return r;
        }
        let ghost t = v@.skip(a as int);
        assert(trim_start(rest) == t);
        let mut b: usize = a;
        while b < v.len() && !char_is_white(v[b])
            invariant
                a <= b <= v.len(),
                t == v@.skip(a as int),
                word_end(t) == b - a + word_end(v@.skip(b as int)),
            decreases v.len() - b,
        {
            assert(v@.skip(b as int).drop_first() =~= v@.skip(b + 1));
            b += 1;
        }
        let piece = slice_text(&v, a, b);
        proof {
            assert(word_end(v@.skip(b as int)) == 0);
            assert(t.take(b - a) =~= v@.subrange(a as int, b as int));
            assert(t.skip(b - a) =~= v@.skip(b as int));
            lemma_word_end(t);
            assert(texts(r@.push(piece)) =~= texts(r@).push(piece@));
            assert(texts(r@) + (seq![piece@] + words(v@.skip(b as int))) =~= texts(r@).push(piece@)
                + words(v@.skip(b as int)));
        }
        r.push(piece);
        i = b;
    }
    assert(v@.skip(v@.len() as int) =~= Seq::<char>::empty());
    assert(words(Seq::<char>::empty()) =~= Seq::<Seq<char>>::empty());
    assert(texts(r@) + Seq::<Seq<char>>::empty() =~= texts(r@));
    r
}

/// The parts in order, with `sep` between each two.
pub open spec fn join(parts: Seq<Seq<char>>, sep: Seq<char>) -> Seq<char>
    decreases parts.len(),
{
    if parts.len() == 0 {
        Seq::empty()
    } else if parts.len() == 1 {
        parts[0]
    } else {
        join(parts.drop_last(), sep) + sep + parts.last()
    }
}

/// The parts `from` up to `to` in order, with `sep` between each two.
pub fn join_range(parts: &Vec<String>, from: usize, to: usize, sep: &str) -> (r: String)
    requires
        from <= to <= parts.len(),
    ensures
        r@ == join(texts(parts@).subrange(from as int, to as int), sep@),
{
    let ghost all = texts(parts@);
    let mut r = String::new();
    let mut i: usize = from;
    assert(all.subrange(from as int, from as int) =~= Seq::<Seq<char>>::empty());
    while i < to
        invariant
            from <= i <= to <= parts.len(),
            all == texts(parts@),
            r@ == join(all.subrange(from as int, i as int), sep@),
        decreases to - i,
    {
        let ghost next = all.subrange(from as int, i + 1);
        assert(next.drop_last() =~= all.subrange(from as int, i as int));
        assert(next.last() == parts@[i as int]@);
        if i > from {
            r.append(sep);
        } else {
            assert(r@ + parts@[i as int]@ =~= parts@[i as int]@);
        }
        r.append(parts[i].as_str());
        i += 1;
    }
    r
}

/// All the parts in order, with `sep` between each two.
pub fn join_all(parts: &Vec<String>, sep: &str) -> (r: String)
    ensures
        r@ == join(texts(parts@), sep@),
{
    assert(texts(parts@).subrange(0, parts@.len() as int) =~= texts(parts@));
    join_range(parts, 0, parts.len(), sep)
}

/// Whether two texts hold the same characters.
pub fn same(a: &str, b: &str) -> (r: bool)
    ensures
        r == (a@ == b@),
{
    a.to_owned() == b.to_owned()
}

/// Whether `prefix` begins the text.
pub fn begins_with(s: &str, prefix: &str) -> (r: bool)
    ensures
        r == prefix@.is_prefix_of(s@),
{
    let a = chars_of(s);
    let p = chars_of(prefix);
    if p.len() > a.len() {
        return false;
    }
    let mut i: usize = 0;
    while i < p.len()
        invariant
            i <= p.len() <= a.len(),
            a@ == s@,
            p@ == prefix@,
            forall|j: int| 0 <= j < i ==> #[trigger] a@[j] == p@[j],
        decreases p.len() - i,
    {
        if a[i] != p[i] {
            return false;
        }
        i += 1;
    }
    assert(a@.subrange(0, p@.len() as int) =~= p@);
    true
}

/// Whether the text holds the character.
pub fn holds_char(s: &str, c: char) -> (r: bool)
    ensures
        r == s@.contains(c),
{
    let a = chars_of(s);
    let mut i: usize = 0;
    while i < a.len()
        invariant
            i <= a.len(),
            a@ == s@,
            forall|j: int| 0 <= j < i ==> #[trigger] a@[j] != c,
        decreases a.len() - i,
    {
        if a[i] == c {
            assert(s@.contains(c));
            return true;
        }
        i += 1;
    }
    false
}

/// The lower case form of an ASCII letter; any other character unchanged.
pub open spec fn ascii_lower(c: char) -> char {
    if 'A' <= c && c <= 'Z' {
        ((c as u32) + 32) as char
    } else {
        c
    }
}

pub fn char_ascii_lower(c: char) -> (r: char)
    ensures
        r == ascii_lower(c),
{
    let n: u32 = c as u32;
    if 0x41 <= n && n <= 0x5a {
        let lower: u8 = (n + 32) as u8;
        lower as char
    } else {
        c
    }
}

/// The text with its ASCII letters in lower case.
pub open spec fn ascii_lowercase(s: Seq<char>) -> Seq<char> {
    s.map_values(|c: char| ascii_lower(c))
}

pub fn ascii_lowercase_of(s: &str) -> (r: String)
    ensures
        r@ == ascii_lowercase(s@),
{
    let a = chars_of(s);
    let mut r = String::new();
    let mut i: usize = 0;
    while i < a.len()
        invariant
            i <= a.len(),
            a@ == s@,
            r@ == ascii_lowercase(s@.take(i as int)),
        decreases a.len() - i,
    {
        r.push(char_ascii_lower(a[i]));
        i += 1;
        assert(r@ =~= ascii_lowercase(s@.take(i as int)));
    }
    assert(s@.take(s@.len() as int) =~= s@);
    r
}

/// The digit character of a value below ten.
pub open spec fn digit_char(d: nat) -> char {
    ('0' as u32 + d) as char
}

/// A number in decimal notation, without leading zeros.
pub open spec fn decimal(n: nat) -> Seq<char>
    decreases n,
{
    if n < 10 {
        seq![digit_char(n)]
    } else {
        decimal(n / 10).push(digit_char(n % 10))
    }
}

/// A number in decimal notation.
pub fn decimal_of(n: u64) -> (r: String)
    ensures
        r@ == decimal(n as nat),
    decreases n,
{
    let d: u8 = 48 + (n % 10) as u8;
    if n < 10 {
        let mut r = String::new();
        r.push(d as char);
        assert(r@ =~= seq![digit_char(n as nat)]);
        r
    } else {
        let mut r = decimal_of(n / 10);
        r.push(d as char);
        r
    }
}

/// The view of an optional text.
pub open spec fn opt_text(o: Option<String>) -> Option<Seq<char>> {
    match o {
        Some(s) => Some(s@),
        None => None,
    }
}

pub open spec fn view_of(o: Option<&str>) -> Option<Seq<char>> {
    match o {
        Some(s) => Some(s@),
        None => None,
    }
}

pub fn copy_opt(o: &Option<String>) -> (r: Option<String>)
    ensures
        opt_text(r) == opt_text(*o),
{
    match o {
        Some(s) => Some(s.clone()),
        None => None,
    }
}

/// What `str::to_lowercase` makes of a text.
pub uninterp spec fn lowercase(s: Seq<char>) -> Seq<char>;

/// Calls `str::to_lowercase`. The result is a function of the text alone, and on a text of ASCII
/// characters it only puts the letters in lower case.
#[verifier::external_body]
fn lowercase_of(s: &str) -> (r: String)
    ensures
        r@ == lowercase(s@),
        is_ascii_chars(s@) ==> r@ == ascii_lowercase(s@),
{
    s.to_lowercase()
}

/// A text in lower case. Of ASCII characters only the letters change.
pub open spec fn lowered(s: Seq<char>) -> Seq<char> {
    if is_ascii_chars(s) {
        ascii_lowercase(s)
    } else {
        lowercase(s)
    }
}

pub fn lowered_of(s: &str) -> (r: String)
    ensures
        r@ == lowered(s@),
{
    lowercase_of(s)
}

/// The first character of what `char::to_lowercase` yields for a character.
pub uninterp spec fn lower_char(c: char) -> char;

/// Takes the first character that `char::to_lowercase` yields. The result is a function of the
/// character alone, and for an ASCII character it is its ASCII lower case form.
#[verifier::external_body]
fn lower_char_of(c: char) -> (r: char)
    ensures
        r == lower_char(c),
        (c as u32) < 0x80 ==> r == ascii_lower(c),
{
    c.to_lowercase().next().unwrap_or(c)
}

/// The lower case form of a character. Of ASCII characters only the letters have another one.
pub open spec fn lower_form(c: char) -> char {
    if (c as u32) < 0x80 {
        ascii_lower(c)
    } else {
        lower_char(c)
    }
}

pub fn lower_form_of(c: char) -> (r: char)
    ensures
        r == lower_form(c),
{
    lower_char_of(c)
}

/// The number of leading characters of `s` that end at or before byte offset `b`.
pub open spec fn floor_index(s: Seq<char>, b: int) -> int
    decreases s.len(),
{
    if s.len() == 0 || utf8_len(s) <= b {
        s.len() as int
    } else {
        floor_index(s.drop_last(), b)
    }
}

/// The number of leading characters of `s` needed to reach byte offset `b`, or all of them.
pub open spec fn ceil_index(s: Seq<char>, b: int) -> int {
    let k = floor_index(s, b);
    if k == s.len() || utf8_len(s.take(k)) >= b {
        k
    } else {
        k + 1
    }
}

/// Whether byte offset `b` lies between two characters of `s`, or at one of its ends.
pub open spec fn is_boundary(s: Seq<char>, b: int) -> bool {
    utf8_len(s.take(floor_index(s, b))) == b
}

pub proof fn lemma_floor_index(s: Seq<char>, b: int)
    requires
        b >= 0,
    ensures
        0 <= floor_index(s, b) <= s.len(),
        utf8_len(s.take(floor_index(s, b))) <= b,
        floor_index(s, b) < s.len() ==> utf8_len(s.take(floor_index(s, b) + 1)) > b,
    decreases s.len(),
{
    assert(s.take(s.len() as int) =~= s);
    if s.len() > 0 && utf8_len(s) > b {
        let t = s.drop_last();
        lemma_floor_index(t, b);
        let k = floor_index(t, b);
        assert(s.take(k) =~= t.take(k));
        if k < t.len() {
            assert(s.take(k + 1) =~= t.take(k + 1));
        }
    }
}

/// The index whose offsets enclose `b` is the only one.
pub proof fn lemma_floor_index_is(s: Seq<char>, b: int, k: int)
    requires
        0 <= k <= s.len(),
        utf8_len(s.take(k)) <= b,
        k < s.len() ==> utf8_len(s.take(k + 1)) > b,
    ensures
        floor_index(s, b) == k,
{
    lemma_floor_index(s, b);
    let f = floor_index(s, b);
    if f < k {
        lemma_utf8_len_take(s, f + 1, k);
    } else if k < f {
        lemma_utf8_len_take(s, k + 1, f);
    }
}

/// The offset of a character index is a boundary, and that index is both its floor and its ceiling.
pub proof fn lemma_boundary_at(s: Seq<char>, k: int)
    requires
        0 <= k <= s.len(),
    ensures
        floor_index(s, utf8_len(s.take(k)) as int) == k,
        ceil_index(s, utf8_len(s.take(k)) as int) == k,
        is_boundary(s, utf8_len(s.take(k)) as int),
{
    if k < s.len() {
        lemma_utf8_len_take(s, k, k + 1);
    }
    lemma_floor_index_is(s, utf8_len(s.take(k)) as int, k);
}

/// The floor index of a byte offset, together with that index's own offset.
pub fn floor_index_of(v: &Vec<char>, b: usize) -> (r: (usize, usize))
    ensures
        r.0 == floor_index(v@, b as int),
        r.1 == utf8_len(v@.take(r.0 as int)),
        r.0 <= v.len(),
        r.1 <= b,
{
    let mut k: usize = 0;
    let mut at: usize = 0;
    assert(v@.take(0) =~= Seq::<char>::empty());
    while k < v.len() && char_width(v[k]) <= b - at
        invariant
            k <= v.len(),
            at <= b,
            at == utf8_len(v@.take(k as int)),
        decreases v.len() - k,
    {
        assert(v@.take(k + 1).drop_last() =~= v@.take(k as int));
        at += char_width(v[k]);
        k += 1;
    }
    proof {
        if k < v.len() {
            assert(v@.take(k + 1).drop_last() =~= v@.take(k as int));
        }
        lemma_floor_index_is(v@, b as int, k as int);
    }
    (k, at)
}

/// The ceiling index of a byte offset.
pub fn ceil_index_of(v: &Vec<char>, b: usize) -> (r: usize)
    ensures
        r == ceil_index(v@, b as int),
        r <= v.len(),
{
    let (k, at) = floor_index_of(v, b);
    if k == v.len() || at >= b {
        k
    } else {
        k + 1
    }
}

/// A word begins at a character: it is not white space, and no such character stands before it.
pub open spec fn is_word_start(s: Seq<char>, i: int) -> bool {
    0 <= i < s.len() && !is_white(s[i]) && (i == 0 || is_white(s[i - 1]))
}

/// The number of words that begin among the first `n` characters.
pub open spec fn word_starts(s: Seq<char>, n: int) -> int
    decreases n,
{
    if n <= 0 {
        0
    } else {
        word_starts(s, n - 1) + if is_word_start(s, n - 1) {
            1int
        } else {
            0
        }
    }
}

proof fn lemma_no_word_starts(s: Seq<char>, n: int)
    requires
        0 <= n <= s.len(),
        forall|i: int| 0 <= i < n ==> is_white(#[trigger] s[i]),
    ensures
        word_starts(s, n) == 0,
    decreases n,
{
    if n > 0 {
        lemma_no_word_starts(s, n - 1);
        assert(is_white(s[n - 1]));
    }
}

proof fn lemma_one_word_start(s: Seq<char>, a: int, n: int)
    requires
        0 <= a < n <= s.len(),
        forall|i: int| 0 <= i < a ==> is_white(#[trigger] s[i]),
        forall|i: int| a <= i < n ==> !is_white(#[trigger] s[i]),
    ensures
        word_starts(s, n) == 1,
    decreases n,
{
    if n == a + 1 {
        lemma_no_word_starts(s, a);
        assert(!is_white(s[a]));
        if a > 0 {
            assert(is_white(s[a - 1]));
        }
    } else {
        lemma_one_word_start(s, a, n - 1);
        assert(!is_white(s[n - 2]));
    }
}

proof fn lemma_word_starts_behind(s: Seq<char>, c: int, n: int)
    requires
        0 <= c <= n <= s.len(),
        c < s.len() ==> is_white(s[c]),
    ensures
        word_starts(s, n) == word_starts(s, c) + word_starts(s.skip(c), n - c),
    decreases n,
{
    if n > c {
        lemma_word_starts_behind(s, c, n - 1);
        let rest = s.skip(c);
        assert(rest[n - 1 - c] == s[n - 1]);
        if n - 1 > c {
            assert(rest[n - 2 - c] == s[n - 2]);
        }
        assert(is_word_start(rest, n - 1 - c) == is_word_start(s, n - 1));
    }
}

/// How a text begins: white space, a word, and the rest. Gives back the two places between them.
proof fn lemma_words_step(s: Seq<char>) -> (r: (int, int))
    requires
        trim_start(s).len() > 0,
    ensures
        0 <= r.0 < r.1 <= s.len(),
        forall|i: int| 0 <= i < r.0 ==> is_white(#[trigger] s[i]),
        forall|i: int| r.0 <= i < r.1 ==> !is_white(#[trigger] s[i]),
        r.1 < s.len() ==> is_white(s[r.1]),
        words(s) == seq![s.subrange(r.0, r.1)] + words(s.skip(r.1)),
{
    let a = lemma_trim_start_range(s);
    let t = trim_start(s);
    lemma_word_end(t);
    let end = word_end(t);
    assert(t[0] == s[a]);
    assert forall|i: int| a <= i < a + end implies !is_white(#[trigger] s[i]) by {
        assert(t[i - a] == s[i]);
    }
    if a + end < s.len() {
        assert(t[end] == s[a + end]);
    }
    assert(t.take(end) =~= s.subrange(a, a + end));
    assert(t.skip(end) =~= s.skip(a + end));
    (a, a + end)
}

/// White space, a word and more: the word comes first, then the words of the rest.
pub proof fn lemma_words_front(gap: Seq<char>, word: Seq<char>, rest: Seq<char>)
    requires
        all_white(gap),
        word.len() > 0,
        forall|i: int| 0 <= i < word.len() ==> !is_white(#[trigger] word[i]),
        rest.len() == 0 || is_white(rest[0]),
    ensures
        words(gap + word + rest) == seq![word] + words(rest),
{
    let all = gap + word + rest;
    let n = gap.len() as int;
    let m = n + word.len();
    assert(all =~= gap + (word + rest));
    lemma_trim_start_past(gap, word + rest);
    assert((word + rest)[0] == word[0]);
    assert(trim_start(word + rest) == word + rest);
    let (a, b) = lemma_words_step(all);
    assert(all[n] == word[0]);
    if a < n {
        assert(all[a] == gap[a]);
    } else if a > n {
        assert(is_white(all[n]));
    }
    if b < m {
        assert(all[b] == word[b - n]);
    } else if b > m {
        assert(all[m] == rest[0]);
        assert(!is_white(all[m]));
    }
    assert(all.subrange(n, m) =~= word);
    assert(all.skip(m) =~= rest);
}

/// The words of a text are its longest pieces without white space, in their order: the one that
/// begins at character `i` and ends before character `j` stands at the place that the number of
/// words before it gives.
pub proof fn law_words(s: Seq<char>, i: int, j: int)
    requires
        is_word_start(s, i),
        i < j <= s.len(),
        forall|k: int| i <= k < j ==> !is_white(#[trigger] s[k]),
        j == s.len() || is_white(s[j]),
    ensures
        words(s).len() == word_starts(s, s.len() as int),
        0 <= word_starts(s, i) < words(s).len(),
        words(s)[word_starts(s, i)] == s.subrange(i, j),
    decreases s.len(),
{
    let x = lemma_trim_start_range(s);
    if trim_start(s).len() == 0 {
        assert(is_white(s[i]));
    }
    let (a, b) = lemma_words_step(s);
    let rest = s.skip(b);
    lemma_one_word_start(s, a, b);
    lemma_word_starts_behind(s, b, s.len() as int);
    lemma_word_count(rest);
    lemma_starts_positive(rest, rest.len() as int);
    assert(words(s).len() == 1 + words(rest).len());
    assert(i >= a) by {
        if i < a {
            assert(is_white(s[i]));
        }
    }
    if i == a {
        lemma_no_word_starts(s, a);
        assert(j == b) by {
            if j < b {
                assert(!is_white(s[j]));
            } else if j > b {
                assert(!is_white(s[b]));
            }
        }
    } else {
        assert(i > b) by {
            if i <= b && i < s.len() {
                if i == b {
                    assert(is_white(s[b]));
                } else {
                    assert(!is_white(s[i - 1]));
                }
            }
        }
        assert(rest[i - b] == s[i]);
        assert(rest[i - b - 1] == s[i - 1]);
        assert forall|k: int| i - b <= k < j - b implies !is_white(#[trigger] rest[k]) by {
            assert(rest[k] == s[k + b]);
        }
        if j < s.len() {
            assert(rest[j - b] == s[j]);
        }
        law_words(rest, i - b, j - b);
        lemma_word_starts_behind(s, b, i);
        assert(rest.subrange(i - b, j - b) =~= s.subrange(i, j));
    }
}

proof fn lemma_starts_positive(s: Seq<char>, n: int)
    ensures
        word_starts(s, n) >= 0,
    decreases n,
{
    if n > 0 {
        lemma_starts_positive(s, n - 1);
    }
}

/// There are as many words as begin in the text.
pub proof fn lemma_word_count(s: Seq<char>)
    ensures
        words(s).len() == word_starts(s, s.len() as int),
    decreases s.len(),
{
    let x = lemma_trim_start_range(s);
    if trim_start(s).len() == 0 {
        lemma_no_word_starts(s, s.len() as int);
    } else {
        let (a, b) = lemma_words_step(s);
        lemma_one_word_start(s, a, b);
        lemma_word_starts_behind(s, b, s.len() as int);
        lemma_word_count(s.skip(b));
    }
}

/// What is left after trimming neither begins nor ends with white space.
pub proof fn lemma_trim_ends(s: Seq<char>)
    ensures
        trim(s).len() > 0 ==> !is_white(trim(s)[0]) && !is_white(trim(s).last()),
{
    let a = lemma_trim_start_range(s);
    let t = trim_start(s);
    let b = lemma_trim_end_range(t);
    if trim(s).len() > 0 {
        assert(trim(s)[0] == t[0]);
        assert(t[0] == s[a]);
    }
}

/// No word is empty.
pub proof fn lemma_words_nonempty(s: Seq<char>)
    ensures
        forall|k: int| 0 <= k < words(s).len() ==> (#[trigger] words(s)[k]).len() > 0,
    decreases s.len(),
{
    let x = lemma_trim_start_range(s);
    if trim_start(s).len() > 0 {
        let (a, b) = lemma_words_step(s);
        lemma_words_nonempty(s.skip(b));
        assert forall|k: int| 0 <= k < words(s).len() implies (#[trigger] words(s)[k]).len() > 0 by {
            if k > 0 {
                assert(words(s)[k] == words(s.skip(b))[k - 1]);
            }
        }
    }
}

/// White space behind a text adds no word.
proof fn lemma_words_before_white(s: Seq<char>, after: Seq<char>)
    requires
        all_white(after),
    ensures
        words(s + after) == words(s),
    decreases s.len(),
{
    let whole = s + after;
    let x = lemma_trim_start_range(s);
    let y = lemma_trim_start_range(whole);
    if trim_start(s).len() == 0 {
        assert(trim_start(whole).len() == 0) by {
            if y < whole.len() {
                if y < s.len() {
                    assert(whole[y] == s[y]);
                } else {
                    assert(whole[y] == after[y - s.len()]);
                }
            }
        }
    } else {
        let (a, b) = lemma_words_step(s);
        let gap = s.take(a);
        let word = s.subrange(a, b);
        let rest = s.skip(b);
        assert(whole =~= gap + word + (rest + after));
        if rest.len() > 0 {
            assert((rest + after)[0] == s[b]);
        } else if after.len() > 0 {
            assert((rest + after)[0] == after[0]);
        }
        lemma_words_front(gap, word, rest + after);
        lemma_words_before_white(rest, after);
    }
}

/// White space around a text makes no difference to its words.
pub proof fn lemma_trim_words(s: Seq<char>)
    ensures
        words(trim(s)) == words(s),
{
    let a = lemma_trim_start_range(s);
    let t = trim_start(s);
    let b = lemma_trim_end_range(t);
    let after = t.skip(b);
    assert(t =~= t.take(b) + after);
    assert(all_white(after)) by {
        assert forall|i: int| 0 <= i < after.len() implies is_white(#[trigger] after[i]) by {
            assert(after[i] == t[b + i]);
        }
    }
    lemma_words_before_white(t.take(b), after);
    assert(trim_start(t) == t) by {
        if t.len() > 0 {
            assert(t[0] == s[a]);
        }
    }
    assert(words(t) == words(s));
}

/// Trimming drops no character but white space.
pub proof fn lemma_trim_keeps(s: Seq<char>, i: int)
    requires
        0 <= i < s.len(),
        !is_white(s[i]),
    ensures
        trim(s).contains(s[i]),
{
    let a = lemma_trim_start_range(s);
    let t = trim_start(s);
    let b = lemma_trim_end_range(t);
    assert(i >= a) by {
        if i < a {
            assert(is_white(s[i]));
        }
    }
    assert(t[i - a] == s[i]);
    assert(i - a < b) by {
        if i - a >= b {
            assert(is_white(t[i - a]));
        }
    }
    assert(trim(s)[i - a] == s[i]);
}

/// Every character that is no white space is in a word.
pub proof fn lemma_char_in_words(s: Seq<char>, i: int)
    requires
        0 <= i < s.len(),
        !is_white(s[i]),
    ensures
        exists|k: int| 0 <= k < words(s).len() && (#[trigger] words(s)[k]).contains(s[i]),
    decreases s.len(),
{
    let x = lemma_trim_start_range(s);
    if trim_start(s).len() == 0 {
        assert(is_white(s[i]));
    }
    let (a, b) = lemma_words_step(s);
    let rest = s.skip(b);
    let first = s.subrange(a, b);
    if i < b {
        assert(i >= a) by {
            if i < a {
                assert(is_white(s[i]));
            }
        }
        assert(first[i - a] == s[i]);
        assert(words(s)[0] == first);
        assert(words(s)[0].contains(s[i]));
    } else {
        assert(rest[i - b] == s[i]);
        lemma_char_in_words(rest, i - b);
        let k = choose|k: int| 0 <= k < words(rest).len() && (#[trigger] words(rest)[k]).contains(
            s[i],
        );
        assert(words(s)[k + 1] == words(rest)[k]);
    }
}

/// The characters of a word come from the text.
pub proof fn lemma_word_from_text(s: Seq<char>, k: int, c: char)
    requires
        0 <= k < words(s).len(),
        words(s)[k].contains(c),
    ensures
        s.contains(c),
        !is_white(c),
    decreases s.len(),
{
    let x = lemma_trim_start_range(s);
    let (a, b) = lemma_words_step(s);
    let rest = s.skip(b);
    if k == 0 {
        let first = s.subrange(a, b);
        let j = choose|j: int| 0 <= j < first.len() && first[j] == c;
        assert(s[a + j] == c);
    } else {
        assert(words(s)[k] == words(rest)[k - 1]);
        lemma_word_from_text(rest, k - 1, c);
        let j = choose|j: int| 0 <= j < rest.len() && rest[j] == c;
        assert(s[b + j] == c);
    }
}

proof fn lemma_join_front(first: Seq<char>, rest: Seq<Seq<char>>, sep: Seq<char>)
    requires
        rest.len() > 0,
    ensures
        join(seq![first] + rest, sep) == first + sep + join(rest, sep),
    decreases rest.len(),
{
    let all = seq![first] + rest;
    assert(all.drop_last() =~= seq![first] + rest.drop_last());
    assert(all.last() == rest.last());
    if rest.len() == 1 {
        assert(all.drop_last() =~= seq![first]);
        assert(join(seq![first], sep) == first);
        assert(join(rest, sep) == rest[0]);
        assert(all.len() == 2);
        assert(join(all, sep) == join(all.drop_last(), sep) + sep + all.last());
        assert(join(all, sep) =~= first + sep + join(rest, sep));
    } else {
        lemma_join_front(first, rest.drop_last(), sep);
        assert(join(all, sep) =~= first + sep + join(rest, sep));
    }
}

/// The parts of a text hold no separator, and with one between each two they make up the text.
pub proof fn law_split_and_join(s: Seq<char>, a: char)
    ensures
        join(split(s, a, a), seq![a]) == s,
        forall|k: int|
            0 <= k < split(s, a, a).len() ==> unbroken(#[trigger] split(s, a, a)[k], a, a),
    decreases s.len(),
{
    lemma_split_unbroken(s, a, a);
    let i = first_of(s, a, a);
    lemma_first_of(s, a, a);
    if i < s.len() {
        let rest = s.skip(i + 1);
        law_split_and_join(rest, a);
        lemma_split_nonempty(rest, a, a);
        lemma_join_front(s.take(i), split(rest, a, a), seq![a]);
        assert(s =~= s.take(i) + seq![a] + rest);
    }
}

/// The number that a text of digits writes.
pub open spec fn number_of(s: Seq<char>) -> int
    decreases s.len(),
{
    if s.len() == 0 {
        0
    } else {
        number_of(s.drop_last()) * 10 + (s.last() as u32 - '0' as u32)
    }
}

/// A number is written in digits, without zeros in front, and reads back as itself.
pub proof fn law_decimal_reads_back(n: nat)
    ensures
        number_of(decimal(n)) == n,
        decimal(n).len() > 0,
        forall|i: int| 0 <= i < decimal(n).len() ==> '0' <= #[trigger] decimal(n)[i] <= '9',
        decimal(n).len() > 1 ==> decimal(n)[0] != '0',
        n > 0 ==> decimal(n)[0] != '0',
    decreases n,
{
    let s = decimal(n);
    if n < 10 {
        assert(s.drop_last() =~= Seq::empty());
        assert(number_of(s.drop_last()) == 0);
    } else {
        law_decimal_reads_back(n / 10);
        assert(s.drop_last() =~= decimal(n / 10));
        assert(s.last() == digit_char(n % 10));
        assert forall|i: int| 0 <= i < s.len() implies '0' <= #[trigger] s[i] <= '9' by {
            if i < s.len() - 1 {
                assert(s[i] == decimal(n / 10)[i]);
            }
        }
        assert(s[0] == decimal(n / 10)[0]);
    }
}

/// Only the letters from `A` to `Z` change in ASCII lower case, each to the one 32 places on.
pub proof fn law_ascii_lower(c: char)
    ensures
        'A' <= c <= 'Z' ==> ascii_lower(c) as u32 == c as u32 + 32,
        !('A' <= c <= 'Z') ==> ascii_lower(c) == c,
{
}

/// White space is what Unicode calls so.
pub proof fn law_white_space(c: char)
    ensures
        is_white(c) <==> c == ' ' || ('\t' <= c <= '\r') || c == '\u{85}' || c == '\u{a0}' || c
            == '\u{1680}' || ('\u{2000}' <= c <= '\u{200a}') || c == '\u{2028}' || c == '\u{2029}'
            || c == '\u{202f}' || c == '\u{205f}' || c == '\u{3000}',
{
}

/// The texts of some strings are theirs, one for one and in their order.
pub proof fn law_texts(v: Seq<String>, i: int)
    requires
        0 <= i < v.len(),
    ensures
        texts(v).len() == v.len(),
        texts(v)[i] == v[i]@,
        opt_text(Some(v[i])) == Some(v[i]@),
        opt_text(None) is None,
{
}

} // verus!
