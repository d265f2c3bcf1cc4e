//! Sets of texts in order.
//!
//! Texts are ordered character by character, paths component by component.

use vstd::prelude::*;

use crate::components;
use crate::text;
use crate::text::chars_of;

verus! {

/// The number of a character, behind those that mark where names begin and end.
pub open spec fn char_code(c: char) -> u32 {
    ((c as u32) + 5) as u32
}

/// The numbers of the characters of a name.
pub open spec fn char_codes(name: Seq<char>) -> Seq<u32> {
    name.map_values(|c: char| char_code(c))
}

/// A name in numbers: `..` comes before other names, and a name before those that it begins.
pub open spec fn name_key(name: Seq<char>) -> Seq<u32> {
    if name == ".."@ {
        seq![3u32]
    } else {
        seq![4u32] + char_codes(name) + seq![0u32]
    }
}

pub open spec fn names_key(names: Seq<Seq<char>>) -> Seq<u32>
    decreases names.len(),
{
    if names.len() == 0 {
        Seq::empty()
    } else {
        names_key(names.drop_last()) + name_key(names.last())
    }
}

/// A path in numbers: how it begins, and its names. The root comes before a `.`, and both before
/// names.
pub open spec fn path_key(path: Seq<char>) -> Seq<u32> {
    if components::lead_code(path) == 0 {
        names_key(components::path_names(path))
    } else {
        seq![components::lead_code(path)] + names_key(components::path_names(path))
    }
}

/// The numbers by which a text or a path is ordered.
#[verifier::opaque]
pub open spec fn key(t: Seq<char>, by_path: bool) -> Seq<u32> {
    if by_path {
        path_key(t)
    } else {
        char_codes(t)
    }
}

/// The first list of numbers comes before the second.
pub open spec fn before(a: Seq<u32>, b: Seq<u32>) -> bool
    decreases a.len(),
{
    if b.len() == 0 {
        false
    } else if a.len() == 0 {
        true
    } else if a[0] == b[0] {
        before(a.drop_first(), b.drop_first())
    } else {
        a[0] < b[0]
    }
}

/// The first text comes before the second.
#[verifier::opaque]
pub open spec fn precedes(a: Seq<char>, b: Seq<char>, by_path: bool) -> bool {
    before(key(a, by_path), key(b, by_path))
}

/// Two texts are the same, or write the same path.
#[verifier::opaque]
pub open spec fn alike(a: Seq<char>, b: Seq<char>, by_path: bool) -> bool {
    if by_path {
        components::same_path(a, b)
    } else {
        a == b
    }
}

proof fn lemma_char_code(c: char)
    ensures
        char_code(c) == (c as u32) + 5,
        c as u32 <= 0x10ffff,
{
}

proof fn lemma_char_codes_differ(c: char, d: char)
    ensures
        char_code(c) == char_code(d) ==> c == d,
{
    lemma_char_code(c);
    lemma_char_code(d);
}

proof fn lemma_char_codes(a: Seq<char>, b: Seq<char>)
    ensures
        char_codes(a) == char_codes(b) ==> a == b,
        forall|i: int| 0 <= i < a.len() ==> #[trigger] char_codes(a)[i] >= 5,
{
    if char_codes(a) == char_codes(b) {
        assert(a.len() == char_codes(a).len() && b.len() == char_codes(b).len());
        assert forall|i: int| 0 <= i < a.len() implies a[i] == b[i] by {
            assert(char_codes(a)[i] == char_codes(b)[i]);
            lemma_char_codes_differ(a[i], b[i]);
        }
        assert(a =~= b);
    }
    assert forall|i: int| 0 <= i < a.len() implies #[trigger] char_codes(a)[i] >= 5 by {
        lemma_char_code(a[i]);
    }
}

proof fn lemma_names_key_start(names: Seq<Seq<char>>)
    requires
        names.len() > 0,
    ensures
        names_key(names).len() > 0,
        names_key(names)[0] >= 3,
    decreases names.len(),
{
    if names.len() > 1 {
        lemma_names_key_start(names.drop_last());
    } else {
        assert(names_key(names.drop_last()) =~= Seq::empty());
    }
}

/// Behind the last 4 only one reading is possible.
proof fn lemma_split_at_mark(x: Seq<u32>, m: Seq<u32>, y: Seq<u32>, n: Seq<u32>)
    requires
        x + seq![4u32] + m == y + seq![4u32] + n,
        forall|i: int| 0 <= i < m.len() ==> #[trigger] m[i] != 4,
        forall|i: int| 0 <= i < n.len() ==> #[trigger] n[i] != 4,
    ensures
        x == y,
        m == n,
{
    let whole = x + seq![4u32] + m;
    let other = y + seq![4u32] + n;
    assert(whole.len() == x.len() + 1 + m.len());
    assert(other.len() == y.len() + 1 + n.len());
    assert(whole[x.len() as int] == 4);
    assert(other[y.len() as int] == 4);
    if x.len() < y.len() {
        let k = y.len() - x.len() - 1;
        assert(whole[x.len() + 1 + k] == m[k]);
        assert(m[k] != 4);
    } else if y.len() < x.len() {
        let k = x.len() - y.len() - 1;
        assert(other[y.len() + 1 + k] == n[k]);
        assert(n[k] != 4);
    }
    assert(whole.take(x.len() as int) =~= x);
    assert(other.take(y.len() as int) =~= y);
    assert(whole.skip(x.len() as int + 1) =~= m);
    assert(other.skip(y.len() as int + 1) =~= n);
}

proof fn lemma_names_key(a: Seq<Seq<char>>, b: Seq<Seq<char>>)
    requires
        names_key(a) == names_key(b),
    ensures
        a == b,
    decreases a.len(),
{
    if a.len() == 0 || b.len() == 0 {
        if a.len() > 0 {
            lemma_names_key_start(a);
        }
        if b.len() > 0 {
            lemma_names_key_start(b);
        }
        assert(a =~= b);
    } else {
        let (x, y) = (names_key(a.drop_last()), names_key(b.drop_last()));
        let (m, n) = (char_codes(a.last()), char_codes(b.last()));
        let (ka, kb) = (names_key(a), names_key(b));
        lemma_char_codes(a.last(), b.last());
        lemma_char_codes(b.last(), a.last());
        if a.last() == ".."@ {
            assert(ka.last() == 3);
        } else {
            assert(ka.last() == 0);
        }
        if b.last() == ".."@ {
            assert(kb.last() == 3);
        } else {
            assert(kb.last() == 0);
        }
        if a.last() == ".."@ {
            assert(ka.drop_last() =~= x);
            assert(kb.drop_last() =~= y);
        } else {
            assert(ka.drop_last() =~= x + seq![4u32] + m);
            assert(kb.drop_last() =~= y + seq![4u32] + n);
            lemma_split_at_mark(x, m, y, n);
        }
        lemma_names_key(a.drop_last(), b.drop_last());
        assert(a =~= a.drop_last().push(a.last()));
        assert(b =~= b.drop_last().push(b.last()));
    }
}

/// The numbers tell texts, or paths, apart.
proof fn lemma_alike(a: Seq<char>, b: Seq<char>, by_path: bool)
    ensures
        alike(a, b, by_path) <==> key(a, by_path) == key(b, by_path),
{
    reveal(alike);
    reveal(key);
    if by_path {
        components::lemma_lead_code(a, b);
        let (x, y) = (components::path_names(a), components::path_names(b));
        if path_key(a) == path_key(b) {
            if x.len() > 0 {
                lemma_names_key_start(x);
            }
            if y.len() > 0 {
                lemma_names_key_start(y);
            }
            let (p, q) = (components::lead_code(a), components::lead_code(b));
            if p != 0 {
                assert(path_key(a)[0] == p);
                assert(path_key(a).skip(1) =~= names_key(x));
            }
            if q != 0 {
                assert(path_key(b)[0] == q);
                assert(path_key(b).skip(1) =~= names_key(y));
            }
            lemma_names_key(x, y);
        }
    } else {
        lemma_char_codes(a, b);
    }
}

proof fn lemma_before_total(a: Seq<u32>, b: Seq<u32>)
    ensures
        a == b ==> !before(a, b),
        a != b ==> (before(a, b) <==> !before(b, a)),
    decreases a.len(),
{
    if a.len() == 0 && b.len() == 0 {
        assert(a =~= b);
    } else if a.len() > 0 && b.len() > 0 {
        if a[0] == b[0] {
            lemma_before_total(a.drop_first(), b.drop_first());
            assert(a =~= seq![a[0]] + a.drop_first());
            assert(b =~= seq![b[0]] + b.drop_first());
        }
    }
}

proof fn lemma_before_trans(a: Seq<u32>, b: Seq<u32>, c: Seq<u32>)
    requires
        before(a, b),
        before(b, c),
    ensures
        before(a, c),
    decreases a.len(),
{
    if a.len() > 0 {
        if a[0] == b[0] && b[0] == c[0] {
            lemma_before_trans(a.drop_first(), b.drop_first(), c.drop_first());
        }
    }
}

/// Of two texts that differ exactly one comes first.
pub proof fn lemma_precedes_total(a: Seq<char>, b: Seq<char>, by_path: bool)
    ensures
        alike(a, b, by_path) ==> !precedes(a, b, by_path),
        !alike(a, b, by_path) ==> (precedes(a, b, by_path) <==> !precedes(b, a, by_path)),
{
    reveal(precedes);
    lemma_alike(a, b, by_path);
    lemma_before_total(key(a, by_path), key(b, by_path));
}

/// Texts that are alike have one place.
proof fn lemma_precedes_alike(a: Seq<char>, b: Seq<char>, c: Seq<char>, by_path: bool)
    requires
        alike(b, c, by_path),
    ensures
        precedes(a, b, by_path) == precedes(a, c, by_path),
        precedes(b, a, by_path) == precedes(c, a, by_path),
{
    reveal(precedes);
    lemma_alike(b, c, by_path);
}

pub proof fn lemma_precedes_trans(a: Seq<char>, b: Seq<char>, c: Seq<char>, by_path: bool)
    requires
        precedes(a, b, by_path),
        precedes(b, c, by_path),
    ensures
        precedes(a, c, by_path),
{
    reveal(precedes);
    lemma_before_trans(key(a, by_path), key(b, by_path), key(c, by_path));
}

/// The key of a name behind what is there.
fn push_codes(r: &mut Vec<u32>, name: &str)
    ensures
        final(r)@ == old(r)@ + char_codes(name@),
{
    let chars = chars_of(name);
    let ghost start = r@;
    let ghost codes = char_codes(name@);
    let mut i: usize = 0;
    assert(start + codes.take(0) =~= start);
    while i < chars.len()
        invariant
            i <= chars.len(),
            codes == char_codes(chars@),
            r@ == start + codes.take(i as int),
        decreases chars.len() - i,
    {
        let c = chars[i];
        proof {
            lemma_char_code(c);
        }
        r.push(c as u32 + 5);
        i += 1;
        assert(r@ =~= start + codes.take(i as int));
    }
    assert(codes.take(i as int) =~= codes);
}

fn key_of(t: &str, by_path: bool) -> (r: Vec<u32>)
    ensures
        r@ == key(t@, by_path),
{
    proof {
        reveal(key);
    }
    let mut r: Vec<u32> = Vec::new();
    if !by_path {
        push_codes(&mut r, t);
        assert(r@ =~= char_codes(t@));
        return r;
    }
    let code = components::lead_of(&chars_of(t));
    if code != 0 {
        r.push(code);
    }
    let ghost start = r@;
    let names = components::names_of(t);
    let ghost all = text::texts(names@);
    let mut i: usize = 0;
    assert(start + names_key(all.take(0)) =~= start);
    while i < names.len()
        invariant
            i <= names.len(),
            all == text::texts(names@),
            r@ == start + names_key(all.take(i as int)),
        decreases names.len() - i,
    {
        let ghost so_far = names_key(all.take(i as int));
        let name = names[i].as_str();
        assert(all.take(i + 1).drop_last() =~= all.take(i as int));
        assert(all.take(i + 1).last() == name@);
        if text::same(name, "..") {
            r.push(3);
            assert(r@ =~= start + (so_far + seq![3u32]));
        } else {
            r.push(4);
            push_codes(&mut r, name);
            r.push(0);
            assert(r@ =~= start + (so_far + (seq![4u32] + char_codes(name@) + seq![0u32])));
        }
        i += 1;
    }
    assert(all.take(i as int) =~= all);
    assert(r@ =~= start + names_key(all));
    assert(Seq::<u32>::empty() + names_key(all) =~= names_key(all));
    assert(code != 0 ==> start =~= seq![code]);
    r
}

fn comes_before(a: &str, b: &str, by_path: bool) -> (r: bool)
    ensures
        r == precedes(a@, b@, by_path),
{
    proof {
        reveal(precedes);
    }
    let x = key_of(a, by_path);
    let y = key_of(b, by_path);
    let mut i: usize = 0;
    assert(x@.skip(0) =~= x@);
    assert(y@.skip(0) =~= y@);
    while i < x.len() && i < y.len() && x[i] == y[i]
        invariant
            i <= x.len(),
            i <= y.len(),
            before(x@, y@) == before(x@.skip(i as int), y@.skip(i as int)),
        decreases x.len() - i,
    {
        assert(x@.skip(i as int).drop_first() =~= x@.skip(i + 1));
        assert(y@.skip(i as int).drop_first() =~= y@.skip(i + 1));
        i += 1;
    }
    if i >= y.len() {
        return false;
    }
    if i >= x.len() {
        return true;
    }
    assert(x@.skip(i as int)[0] == x@[i as int] && y@.skip(i as int)[0] == y@[i as int]);
    x[i] < y[i]
}

fn is_alike(a: &str, b: &str, by_path: bool) -> (r: bool)
    ensures
        r == alike(a@, b@, by_path),
{
    proof {
        reveal(alike);
    }
    if by_path {
        components::is_same_path(a, b)
    } else {
        text::same(a, b)
    }
}

/// Each text comes before the next; so none is there twice.
pub open spec fn is_ordered(s: Seq<Seq<char>>, by_path: bool) -> bool {
    forall|i: int, j: int|
        0 <= i < j < s.len() ==> precedes(#[trigger] s[i], #[trigger] s[j], by_path)
}

/// The number of leading texts that come before a text.
pub open spec fn place_of(s: Seq<Seq<char>>, t: Seq<char>, by_path: bool) -> int
    decreases s.len(),
{
    if s.len() > 0 && precedes(s[0], t, by_path) {
        1 + place_of(s.drop_first(), t, by_path)
    } else {
        0
    }
}

/// A text like this one is there.
pub open spec fn holds(s: Seq<Seq<char>>, t: Seq<char>, by_path: bool) -> bool {
    exists|i: int| 0 <= i < s.len() && alike(#[trigger] s[i], t, by_path)
}

/// The texts with one more in its place, unless one like it is there.
pub open spec fn with_text(s: Seq<Seq<char>>, t: Seq<char>, by_path: bool) -> Seq<Seq<char>> {
    if holds(s, t, by_path) {
        s
    } else {
        s.insert(place_of(s, t, by_path), t)
    }
}

/// The texts without those like one.
pub open spec fn without_text(s: Seq<Seq<char>>, t: Seq<char>, by_path: bool) -> Seq<Seq<char>> {
    s.filter(other_than(t, by_path))
}

pub open spec fn other_than(t: Seq<char>, by_path: bool) -> spec_fn(Seq<char>) -> bool {
    |x: Seq<char>| !alike(x, t, by_path)
}

/// Among texts that are not paths, only the text itself is like it.
pub proof fn lemma_holds_text(s: Seq<Seq<char>>, t: Seq<char>)
    ensures
        holds(s, t, false) <==> s.contains(t),
{
    reveal(alike);
    if s.contains(t) {
        let k = choose|k: int| 0 <= k < s.len() && s[k] == t;
        assert(alike(s[k], t, false));
    }
}

proof fn lemma_place_is(s: Seq<Seq<char>>, t: Seq<char>, by_path: bool, k: int)
    requires
        0 <= k <= s.len(),
        forall|i: int| 0 <= i < k ==> precedes(#[trigger] s[i], t, by_path),
        k < s.len() ==> !precedes(s[k], t, by_path),
    ensures
        place_of(s, t, by_path) == k,
    decreases s.len(),
{
    if k > 0 {
        let rest = s.drop_first();
        assert forall|i: int| 0 <= i < k - 1 implies precedes(#[trigger] rest[i], t, by_path) by {
            assert(rest[i] == s[i + 1]);
        }
        lemma_place_is(rest, t, by_path, k - 1);
    }
}

proof fn lemma_place(s: Seq<Seq<char>>, t: Seq<char>, by_path: bool)
    ensures
        0 <= place_of(s, t, by_path) <= s.len(),
        forall|i: int| 0 <= i < place_of(s, t, by_path) ==> precedes(#[trigger] s[i], t, by_path),
        place_of(s, t, by_path) < s.len() ==> !precedes(
            s[place_of(s, t, by_path)],
            t,
            by_path,
        ),
    decreases s.len(),
{
    if s.len() > 0 && precedes(s[0], t, by_path) {
        let rest = s.drop_first();
        lemma_place(rest, t, by_path);
        assert forall|i: int| 0 <= i < place_of(s, t, by_path) implies precedes(
            #[trigger] s[i],
            t,
            by_path,
        ) by {
            if i > 0 {
                assert(rest[i - 1] == s[i]);
            }
        }
    }
}

/// In an ordered list a text can only be in its place.
proof fn lemma_holds_at_place(s: Seq<Seq<char>>, t: Seq<char>, by_path: bool)
    requires
        is_ordered(s, by_path),
    ensures
        holds(s, t, by_path) <==> place_of(s, t, by_path) < s.len() && alike(
            s[place_of(s, t, by_path)],
            t,
            by_path,
        ),
{
    lemma_place(s, t, by_path);
    let p = place_of(s, t, by_path);
    if holds(s, t, by_path) {
        let k = choose|k: int| 0 <= k < s.len() && alike(#[trigger] s[k], t, by_path);
        lemma_precedes_total(s[k], t, by_path);
        if k < p {
            assert(precedes(s[k], t, by_path));
        } else if k > p {
            assert(precedes(s[p], s[k], by_path));
            lemma_precedes_alike(s[p], s[k], t, by_path);
        }
    }
}

/// Putting a text in keeps the order, and adds that text alone.
pub proof fn lemma_with_text(s: Seq<Seq<char>>, t: Seq<char>, by_path: bool)
    requires
        is_ordered(s, by_path),
    ensures
        is_ordered(with_text(s, t, by_path), by_path),
        forall|x: Seq<char>| #[trigger]
            with_text(s, t, by_path).contains(x) <==> s.contains(x) || x == t && !holds(
                s,
                t,
                by_path,
            ),
        forall|x: Seq<char>| #[trigger]
            holds(with_text(s, t, by_path), x, by_path) <==> holds(s, x, by_path) || alike(
                t,
                x,
                by_path,
            ),
{
    let after = with_text(s, t, by_path);
    if !holds(s, t, by_path) {
        lemma_place(s, t, by_path);
        let p = place_of(s, t, by_path);
        if p < s.len() {
            lemma_precedes_total(s[p], t, by_path);
            assert(!alike(s[p], t, by_path));
        }
        assert forall|i: int, j: int| 0 <= i < j < after.len() implies precedes(
            #[trigger] after[i],
            #[trigger] after[j],
            by_path,
        ) by {
            let a = if i < p {
                i
            } else {
                i - 1
            };
            let b = if j < p {
                j
            } else {
                j - 1
            };
            if i == p {
                assert(after[j] == s[j - 1]);
                if j - 1 > p {
                    assert(precedes(s[p], s[j - 1], by_path));
                    lemma_precedes_trans(t, s[p], s[j - 1], by_path);
                }
            } else if j == p {
                assert(after[i] == s[i]);
            } else {
                assert(after[i] == s[a] && after[j] == s[b]);
            }
        }
        assert forall|x: Seq<char>| #[trigger] after.contains(x) <==> s.contains(x) || x == t by {
            if after.contains(x) {
                let k = choose|k: int| 0 <= k < after.len() && after[k] == x;
                if k < p {
                    assert(s[k] == x);
                } else if k > p {
                    assert(s[k - 1] == x);
                }
            }
            if s.contains(x) {
                let k = choose|k: int| 0 <= k < s.len() && s[k] == x;
                if k < p {
                    assert(after[k] == x);
                } else {
                    assert(after[k + 1] == x);
                }
            }
            if x == t {
                assert(after[p] == x);
            }
        }
        assert forall|x: Seq<char>| #[trigger]
            holds(after, x, by_path) <==> holds(s, x, by_path) || alike(t, x, by_path) by {
            if holds(after, x, by_path) {
                let k = choose|k: int| 0 <= k < after.len() && alike(#[trigger] after[k], x, by_path);
                if k < p {
                    assert(alike(s[k], x, by_path));
                } else if k > p {
                    assert(alike(s[k - 1], x, by_path));
                }
            }
            if holds(s, x, by_path) {
                let k = choose|k: int| 0 <= k < s.len() && alike(#[trigger] s[k], x, by_path);
                if k < p {
                    assert(alike(after[k], x, by_path));
                } else {
                    assert(alike(after[k + 1], x, by_path));
                }
            }
            if alike(t, x, by_path) {
                assert(alike(after[p], x, by_path));
            }
        }
    } else {
        let k = choose|k: int| 0 <= k < s.len() && alike(#[trigger] s[k], t, by_path);
        assert forall|x: Seq<char>| alike(t, x, by_path) implies #[trigger] holds(
            s,
            x,
            by_path,
        ) by {
            lemma_alike(s[k], t, by_path);
            lemma_alike(t, x, by_path);
            lemma_alike(s[k], x, by_path);
        }
    }
}

/// Dropping texts from an ordered list keeps the order.
pub proof fn lemma_filter_ordered(
    s: Seq<Seq<char>>,
    keep: spec_fn(Seq<char>) -> bool,
    by_path: bool,
)
    requires
        is_ordered(s, by_path),
    ensures
        is_ordered(s.filter(keep), by_path),
        forall|x: Seq<char>| #[trigger]
            s.filter(keep).contains(x) <==> s.contains(x) && keep(x),
    decreases s.len(),
{
    reveal(Seq::filter);
    let kept = s.filter(keep);
    if s.len() > 0 {
        let front = s.drop_last();
        assert forall|i: int, j: int| 0 <= i < j < front.len() implies precedes(
            #[trigger] front[i],
            #[trigger] front[j],
            by_path,
        ) by {
            assert(front[i] == s[i] && front[j] == s[j]);
        }
        lemma_filter_ordered(front, keep, by_path);
        let rest = front.filter(keep);
        let last = s.last();
        assert forall|x: Seq<char>| s.contains(x) <==> front.contains(x) || x == last by {
            if s.contains(x) {
                let k = choose|k: int| 0 <= k < s.len() && s[k] == x;
                if k < front.len() {
                    assert(front[k] == x);
                }
            }
            if front.contains(x) {
                let k = choose|k: int| 0 <= k < front.len() && front[k] == x;
                assert(s[k] == x);
            }
            if x == last {
                assert(s[s.len() - 1] == x);
            }
        }
        if keep(last) {
            assert(kept =~= rest.push(last));
            assert forall|x: Seq<char>| #[trigger]
                kept.contains(x) <==> rest.contains(x) || x == last by {
                if kept.contains(x) {
                    let k = choose|k: int| 0 <= k < kept.len() && kept[k] == x;
                    if k < rest.len() {
                        assert(rest[k] == x);
                    }
                }
                if rest.contains(x) {
                    let k = choose|k: int| 0 <= k < rest.len() && rest[k] == x;
                    assert(kept[k] == x);
                }
                if x == last {
                    assert(kept[rest.len() as int] == x);
                }
            }
            assert forall|i: int, j: int| 0 <= i < j < kept.len() implies precedes(
                #[trigger] kept[i],
                #[trigger] kept[j],
                by_path,
            ) by {
                if j < rest.len() {
                    assert(precedes(rest[i], rest[j], by_path));
                } else {
                    assert(rest.contains(rest[i]));
                    let k = choose|k: int| 0 <= k < front.len() && front[k] == rest[i];
                    assert(precedes(s[k], s[s.len() - 1], by_path));
                }
            }
        } else {
            assert(kept =~= rest);
        }
    }
}

#[verifier::rlimit(60)]
proof fn lemma_out_and_in(s: Seq<Seq<char>>, t: Seq<char>, by_path: bool)
    requires
        is_ordered(s, by_path),
        holds(s, t, by_path),
    ensures
        with_text(without_text(s, t, by_path), t, by_path) == s.update(
            place_of(s, t, by_path),
            t,
        ),
        !holds(without_text(s, t, by_path), t, by_path),
        s.contains(t) ==> s[place_of(s, t, by_path)] == t,
{
    lemma_place(s, t, by_path);
    lemma_holds_at_place(s, t, by_path);
    let p = place_of(s, t, by_path);
    let left = s.take(p);
    let right = s.skip(p + 1);
    let one = s[p];
    lemma_alike(one, t, by_path);
    assert(s =~= left + seq![one] + right);
    assert forall|i: int| 0 <= i < left.len() implies !alike(#[trigger] left[i], t, by_path) by {
        assert(precedes(s[i], s[p], by_path));
        lemma_precedes_total(s[i], s[p], by_path);
        lemma_alike(s[i], s[p], by_path);
        lemma_alike(s[i], t, by_path);
    }
    assert forall|i: int| 0 <= i < right.len() implies !alike(#[trigger] right[i], t, by_path) by {
        assert(right[i] == s[p + 1 + i]);
        assert(precedes(s[p], s[p + 1 + i], by_path));
        lemma_precedes_total(s[p], s[p + 1 + i], by_path);
        lemma_alike(s[p], s[p + 1 + i], by_path);
        lemma_alike(s[p + 1 + i], t, by_path);
    }
    lemma_without(left, one, right, t, by_path);
    let fewer = without_text(s, t, by_path);
    assert(fewer == left + right);
    assert(!holds(fewer, t, by_path)) by {
        if holds(fewer, t, by_path) {
            let k = choose|k: int| 0 <= k < fewer.len() && alike(#[trigger] fewer[k], t, by_path);
            if k < p {
                assert(alike(left[k], t, by_path));
            } else {
                assert(alike(right[k - p], t, by_path));
            }
        }
    }
    assert forall|i: int| 0 <= i < p implies precedes(#[trigger] fewer[i], t, by_path) by {
        assert(fewer[i] == s[i]);
    }
    if p < fewer.len() {
        assert(fewer[p] == s[p + 1]);
        assert(precedes(s[p], s[p + 1], by_path));
        lemma_precedes_total(s[p], s[p + 1], by_path);
        lemma_precedes_alike(s[p + 1], s[p], t, by_path);
    }
    lemma_place_is(fewer, t, by_path, p);
    assert(fewer.insert(p, t) =~= s.update(p, t));
    if s.contains(t) {
        let k = choose|k: int| 0 <= k < s.len() && s[k] == t;
        lemma_alike(t, t, by_path);
        if k < p {
            assert(left[k] == t);
        } else if k > p {
            assert(right[k - p - 1] == t);
        }
    }
}

proof fn lemma_in_and_out(s: Seq<Seq<char>>, t: Seq<char>, by_path: bool)
    requires
        !holds(s, t, by_path),
    ensures
        without_text(with_text(s, t, by_path), t, by_path) == s,
{
    lemma_place(s, t, by_path);
    let p = place_of(s, t, by_path);
    let left = s.take(p);
    let right = s.skip(p);
    assert forall|i: int| 0 <= i < s.len() implies !alike(#[trigger] s[i], t, by_path) by {}
    assert forall|i: int| 0 <= i < left.len() implies !alike(#[trigger] left[i], t, by_path) by {
        assert(left[i] == s[i]);
    }
    assert forall|i: int| 0 <= i < right.len() implies !alike(#[trigger] right[i], t, by_path) by {
        assert(right[i] == s[p + i]);
    }
    lemma_alike(t, t, by_path);
    lemma_without(left, t, right, t, by_path);
    lemma_insert_between(s, p, t);
}

proof fn lemma_insert_between(s: Seq<Seq<char>>, p: int, t: Seq<char>)
    requires
        0 <= p <= s.len(),
    ensures
        s.insert(p, t) == s.take(p) + seq![t] + s.skip(p),
        s.take(p) + s.skip(p) == s,
{
    assert(s.insert(p, t) =~= s.take(p) + seq![t] + s.skip(p));
    assert(s.take(p) + s.skip(p) =~= s);
}

/// Putting a text in and taking it out again changes nothing. Taking one out and putting it in
/// again leaves it as it is written the second time.
pub proof fn law_toggle_twice(s: Seq<Seq<char>>, t: Seq<char>, by_path: bool)
    requires
        is_ordered(s, by_path),
    ensures
        holds(s, t, by_path) ==> with_text(without_text(s, t, by_path), t, by_path) == s.update(
            place_of(s, t, by_path),
            t,
        ) && !holds(without_text(s, t, by_path), t, by_path),
        s.contains(t) ==> with_text(without_text(s, t, by_path), t, by_path) == s,
        !holds(s, t, by_path) ==> without_text(with_text(s, t, by_path), t, by_path) == s,
{
    if s.contains(t) {
        let k = choose|k: int| 0 <= k < s.len() && s[k] == t;
        lemma_alike(t, t, by_path);
        assert(alike(s[k], t, by_path));
    }
    if holds(s, t, by_path) {
        lemma_out_and_in(s, t, by_path);
        lemma_place(s, t, by_path);
        lemma_holds_at_place(s, t, by_path);
        if s.contains(t) {
            assert(s.update(place_of(s, t, by_path), t) =~= s);
        }
    } else {
        lemma_in_and_out(s, t, by_path);
    }
}

/// Where a text is there once, taking it out leaves what is around it.
proof fn lemma_without(
    left: Seq<Seq<char>>,
    one: Seq<char>,
    right: Seq<Seq<char>>,
    t: Seq<char>,
    by_path: bool,
)
    requires
        alike(one, t, by_path),
        forall|i: int| 0 <= i < left.len() ==> !alike(#[trigger] left[i], t, by_path),
        forall|i: int| 0 <= i < right.len() ==> !alike(#[trigger] right[i], t, by_path),
    ensures
        without_text(left + seq![one] + right, t, by_path) == left + right,
    decreases right.len(),
{
    reveal(Seq::filter);
    let all = left + seq![one] + right;
    let keep = other_than(t, by_path);
    if right.len() > 0 {
        let front = right.drop_last();
        assert forall|i: int| 0 <= i < front.len() implies !alike(
            #[trigger] front[i],
            t,
            by_path,
        ) by {
            assert(front[i] == right[i]);
        }
        lemma_without(left, one, front, t, by_path);
        assert(all.drop_last() =~= left + seq![one] + front);
        assert(all.last() == right[right.len() - 1]);
        assert(all.filter(keep) == all.drop_last().filter(keep).push(right.last()));
        assert(left + right =~= (left + front).push(right.last()));
    } else {
        assert(all.drop_last() =~= left);
        assert(all.last() == one);
        lemma_filter_all(left, keep);
        assert(all.filter(keep) == left.filter(keep));
        assert(left + right =~= left);
    }
}

proof fn lemma_filter_all(s: Seq<Seq<char>>, keep: spec_fn(Seq<char>) -> bool)
    requires
        forall|i: int| 0 <= i < s.len() ==> keep(#[trigger] s[i]),
    ensures
        s.filter(keep) == s,
    decreases s.len(),
{
    reveal(Seq::filter);
    if s.len() > 0 {
        let front = s.drop_last();
        assert forall|i: int| 0 <= i < front.len() implies keep(#[trigger] front[i]) by {
            assert(front[i] == s[i]);
        }
        lemma_filter_all(front, keep);
        assert(keep(s[s.len() - 1]));
        assert(front.push(s.last()) =~= s);
    }
}

/// Whether a list holds a text, or a path.
pub fn holds_text(v: &Vec<String>, t: &str, by_path: bool) -> (r: bool)
    ensures
        r == holds(text::texts(v@), t@, by_path),
{
    let ghost all = text::texts(v@);
    let mut i: usize = 0;
    while i < v.len()
        invariant
            i <= v.len(),
            all == text::texts(v@),
            forall|k: int| 0 <= k < i ==> !alike(#[trigger] all[k], t@, by_path),
        decreases v.len() - i,
    {
        assert(all[i as int] == v@[i as int]@);
        if is_alike(v[i].as_str(), t, by_path) {
            return true;
        }
        i += 1;
    }
    false
}

/// Puts a text in its place, unless one like it is there already.
pub fn insert_text(v: &mut Vec<String>, t: String, by_path: bool)
    ensures
        text::texts(final(v)@) == with_text(text::texts(old(v)@), t@, by_path),
{
    if holds_text(v, t.as_str(), by_path) {
        return;
    }
    let ghost before = text::texts(v@);
    let mut i: usize = 0;
    while i < v.len() && comes_before(v[i].as_str(), t.as_str(), by_path)
        invariant
            i <= v.len(),
            before == text::texts(v@),
            forall|k: int| 0 <= k < i ==> precedes(#[trigger] before[k], t@, by_path),
        decreases v.len() - i,
    {
        assert(before[i as int] == v@[i as int]@);
        i += 1;
    }
    proof {
        if i < v.len() {
            assert(before[i as int] == v@[i as int]@);
        }
        lemma_place_is(before, t@, by_path, i as int);
    }
    v.insert(i, t);
    assert(text::texts(v@) =~= before.insert(i as int, t@));
}

/// Takes a text and those like it out.
pub fn remove_text(v: &mut Vec<String>, t: &str, by_path: bool)
    ensures
        text::texts(final(v)@) == without_text(text::texts(old(v)@), t@, by_path),
{
    let ghost all = text::texts(v@);
    let ghost keep = other_than(t@, by_path);
    let mut r: Vec<String> = Vec::new();
    let mut i: usize = 0;
    proof {
        reveal(Seq::filter);
    }
    assert(all.take(0).filter(keep) =~= Seq::empty());
    assert(text::texts(r@) =~= Seq::empty());
    while i < v.len()
        invariant
            i <= v.len(),
            all == text::texts(v@),
            v@ == old(v)@,
            keep == other_than(t@, by_path),
            text::texts(r@) == all.take(i as int).filter(keep),
        decreases v.len() - i,
    {
        let ghost before = text::texts(r@);
        assert(all.take(i + 1).drop_last() =~= all.take(i as int));
        assert(all.take(i + 1).last() == v@[i as int]@);
        proof {
            reveal(Seq::filter);
        }
        if !is_alike(v[i].as_str(), t, by_path) {
            let kept = v[i].clone();
            r.push(kept);
            assert(text::texts(r@) =~= before.push(kept@));
        }
        i += 1;
    }
    assert(all.take(i as int) =~= all);
    *v = r;
}

proof fn lemma_before_common(common: Seq<u32>, a: Seq<u32>, b: Seq<u32>)
    ensures
        before(common + a, common + b) == before(a, b),
    decreases common.len(),
{
    if common.len() == 0 {
        assert(common + a =~= a);
        assert(common + b =~= b);
    } else {
        let rest = common.drop_first();
        lemma_before_common(rest, a, b);
        assert((common + a).drop_first() =~= rest + a);
        assert((common + b).drop_first() =~= rest + b);
    }
}

/// Texts are in the order of the first characters in which they differ, and a text comes before
/// those that it begins.
pub proof fn law_text_order(common: Seq<char>, x: char, y: char, s: Seq<char>, t: Seq<char>)
    requires
        (x as u32) < (y as u32),
    ensures
        precedes(common.push(x) + s, common.push(y) + t, false),
        precedes(common, common.push(x) + s, false),
{
    reveal(precedes);
    reveal(key);
    lemma_char_code(x);
    lemma_char_code(y);
    let start = char_codes(common);
    let a = seq![char_code(x)] + char_codes(s);
    let b = seq![char_code(y)] + char_codes(t);
    assert(char_codes(common.push(x) + s) =~= start + a);
    assert(char_codes(common.push(y) + t) =~= start + b);
    lemma_before_common(start, a, b);
    lemma_before_common(start, Seq::empty(), a);
    assert(start + Seq::empty() =~= start);
}

proof fn lemma_names_key_concat(a: Seq<Seq<char>>, b: Seq<Seq<char>>)
    ensures
        names_key(a + b) == names_key(a) + names_key(b),
    decreases b.len(),
{
    if b.len() == 0 {
        assert(a + b =~= a);
        assert(names_key(a) + names_key(b) =~= names_key(a));
    } else {
        lemma_names_key_concat(a, b.drop_last());
        assert((a + b).drop_last() =~= a + b.drop_last());
        assert((a + b).last() == b.last());
        assert(names_key(a + b) =~= names_key(a) + names_key(b));
    }
}

/// Paths that begin alike are in the order of the first names in which they differ: `..` before
/// other names, and these as texts. A path comes before those below it.
pub proof fn law_path_order(
    a: Seq<char>,
    b: Seq<char>,
    common: Seq<Seq<char>>,
    x: Seq<char>,
    y: Seq<char>,
    s: Seq<Seq<char>>,
    t: Seq<Seq<char>>,
)
    requires
        components::lead(a) == components::lead(b),
    ensures
        components::path_names(a) == common && components::path_names(b) == common.push(y) + t
            ==> precedes(a, b, true),
        components::path_names(a) == common.push(x) + s && components::path_names(b) == common.push(
            y,
        ) + t && x != ".."@ && y != ".."@ && precedes(x, y, false) ==> precedes(a, b, true),
        components::path_names(a) == common.push(".."@) + s && components::path_names(b)
            == common.push(y) + t && y != ".."@ ==> precedes(a, b, true),
{
    reveal(precedes);
    reveal(key);
    components::lemma_lead_code(a, b);
    let (p, q) = (components::path_names(a), components::path_names(b));
    let code = components::lead_code(a);
    let front = if code == 0 {
        Seq::<u32>::empty()
    } else {
        seq![code]
    };
    assert(path_key(a) =~= front + names_key(p));
    assert(path_key(b) =~= front + names_key(q));
    lemma_before_common(front, names_key(p), names_key(q));
    let start = names_key(common);
    if q == common.push(y) + t {
        lemma_name_front(common, y, t);
        let behind = name_key(y) + names_key(t);
        if p == common {
            lemma_before_common(start, Seq::empty(), behind);
            assert(start + Seq::empty() =~= start);
        }
        if y != ".."@ && p == common.push(".."@) + s {
            lemma_name_front(common, ".."@, s);
            lemma_before_common(start, name_key(".."@) + names_key(s), behind);
        }
        if x != ".."@ && y != ".."@ && p == common.push(x) + s && precedes(x, y, false) {
            lemma_name_front(common, x, s);
            let ahead = name_key(x) + names_key(s);
            lemma_before_common(start, ahead, behind);
            let (m, n) = (char_codes(x), char_codes(y));
            let four = seq![4u32];
            let u = seq![0u32] + names_key(s);
            let v = seq![0u32] + names_key(t);
            assert(ahead =~= four + (m + u));
            assert(behind =~= four + (n + v));
            lemma_before_common(four, m + u, n + v);
            lemma_before_with_ends(x, y, m, n, u, v);
        }
    }
}

proof fn lemma_name_front(common: Seq<Seq<char>>, y: Seq<char>, t: Seq<Seq<char>>)
    ensures
        names_key(common.push(y) + t) == names_key(common) + (name_key(y) + names_key(t)),
{
    lemma_names_key_concat(common.push(y), t);
    assert(common.push(y).drop_last() =~= common);
    assert(names_key(common) + (name_key(y) + names_key(t)) =~= names_key(common) + name_key(y)
        + names_key(t));
}

proof fn lemma_before_with_ends(
    x: Seq<char>,
    y: Seq<char>,
    m: Seq<u32>,
    n: Seq<u32>,
    u: Seq<u32>,
    v: Seq<u32>,
)
    requires
        before(m, n),
        m == char_codes(x),
        n == char_codes(y),
        u.len() > 0,
        u[0] == 0,
    ensures
        before(m + u, n + v),
    decreases m.len(),
{
    lemma_char_codes(x, y);
    lemma_char_codes(y, x);
    if m.len() == 0 {
        assert(m + u =~= u);
        assert(n[0] >= 5);
        assert((n + v)[0] == n[0]);
    } else {
        assert((m + u)[0] == m[0] && (n + v)[0] == n[0]);
        if m[0] == n[0] {
            assert(m.drop_first() =~= char_codes(x.drop_first()));
            assert(n.drop_first() =~= char_codes(y.drop_first()));
            lemma_before_with_ends(
                x.drop_first(),
                y.drop_first(),
                m.drop_first(),
                n.drop_first(),
                u,
                v,
            );
            assert((m + u).drop_first() =~= m.drop_first() + u);
            assert((n + v).drop_first() =~= n.drop_first() + v);
        }
    }
}

/// As paths, texts are alike where they lead to the same place; otherwise only where they are equal.
pub proof fn law_alike(a: Seq<char>, b: Seq<char>)
    ensures
        alike(a, b, false) <==> a == b,
        alike(a, b, true) <==> components::lead(a) == components::lead(b) && components::path_names(a)
            == components::path_names(b),
{
    reveal(alike);
}

/// What it is to be in order, and to hold a text: of each two texts the first comes before the
/// second, and one of them is like the text.
pub proof fn law_order_and_membership(s: Seq<Seq<char>>, t: Seq<char>, i: int, j: int)
    requires
        0 <= i < j < s.len(),
    ensures
        is_ordered(s, true) ==> precedes(s[i], s[j], true) && !precedes(s[j], s[i], true),
        is_ordered(s, false) ==> precedes(s[i], s[j], false) && !precedes(s[j], s[i], false),
        holds(s, t, true) <==> exists|k: int|
            0 <= k < s.len() && components::same_path(#[trigger] s[k], t),
        holds(s, t, false) <==> s.contains(t),
{
    reveal(alike);
    if is_ordered(s, true) {
        lemma_precedes_one_way(s[i], s[j], true);
    }
    if is_ordered(s, false) {
        lemma_precedes_one_way(s[i], s[j], false);
    }
    if holds(s, t, true) {
        let k = choose|k: int| 0 <= k < s.len() && alike(#[trigger] s[k], t, true);
        assert(components::same_path(s[k], t));
    }
    if exists|k: int| 0 <= k < s.len() && components::same_path(#[trigger] s[k], t) {
        let k = choose|k: int| 0 <= k < s.len() && components::same_path(#[trigger] s[k], t);
        assert(alike(s[k], t, true));
    }
    if s.contains(t) {
        let k = choose|k: int| 0 <= k < s.len() && s[k] == t;
        assert(alike(s[k], t, false));
    }
}

proof fn lemma_precedes_one_way(a: Seq<char>, b: Seq<char>, by_path: bool)
    requires
        precedes(a, b, by_path),
    ensures
        !precedes(b, a, by_path),
{
    reveal(precedes);
    lemma_before_one_way(key(a, by_path), key(b, by_path));
}

proof fn lemma_before_one_way(a: Seq<u32>, b: Seq<u32>)
    requires
        before(a, b),
    ensures
        !before(b, a),
    decreases a.len(),
{
    if a.len() > 0 && b.len() > 0 && a[0] == b[0] {
        lemma_before_one_way(a.drop_first(), b.drop_first());
    }
}

/// Putting a text in and taking it out again touches no other.
pub proof fn law_other_texts_stay(s: Seq<Seq<char>>, t: Seq<char>, x: Seq<char>, by_path: bool)
    requires
        is_ordered(s, by_path),
        !alike(x, t, by_path),
    ensures
        with_text(s, t, by_path).contains(x) <==> s.contains(x),
        without_text(s, t, by_path).contains(x) <==> s.contains(x),
        !holds(without_text(s, t, by_path), t, by_path),
        holds(with_text(s, t, by_path), t, by_path),
{
    let keep = other_than(t, by_path);
    lemma_with_text(s, t, by_path);
    assert(alike(t, t, by_path)) by {
        reveal(alike);
    }
    let left = without_text(s, t, by_path);
    if left.contains(x) {
        s.lemma_filter_contains_rev(keep, x);
    }
    if s.contains(x) {
        let k = choose|k: int| 0 <= k < s.len() && s[k] == x;
        s.lemma_filter_contains(keep, k);
    }
    if holds(left, t, by_path) {
        let k = choose|k: int| 0 <= k < left.len() && alike(#[trigger] left[k], t, by_path);
        s.lemma_filter_pred(keep, k);
    }
}

} // verus!
