//! Paths by their components.
//!
//! A path is written with `/` between its parts. Parts that are empty or `.` lead nowhere, except
//! that a path may begin at the root, or with a `.` of its own.

use vstd::prelude::*;

use crate::text;
use crate::text::{chars_of, slice_text, split_chars};

verus! {

/// A part of a path that leads somewhere.
pub open spec fn is_name(part: Seq<char>) -> bool {
    part.len() > 0 && part != "."@
}

/// The names along a path, without those that change nothing.
pub open spec fn path_names(path: Seq<char>) -> Seq<Seq<char>> {
    text::split(path, '/', '/').filter(|part: Seq<char>| is_name(part))
}

/// The number of characters of a path that lie before its `n`th name.
pub open spec fn names_end(path: Seq<char>, n: int) -> int
    decreases path.len(),
    via names_end_decreases
{
    let i = text::first_of(path, '/', '/');
    let part = path.take(i);
    let counts = is_name(part);
    if counts && n <= 0 {
        0
    } else if i >= path.len() {
        path.len() as int
    } else {
        i + 1 + names_end(
            path.skip(i + 1),
            if counts {
                n - 1
            } else {
                n
            },
        )
    }
}

#[via_fn]
proof fn names_end_decreases(path: Seq<char>, n: int) {
    text::lemma_first_of(path, '/', '/');
}

/// Where a path begins: at the root (`/`), at a `.`, or with its first name.
pub open spec fn lead(path: Seq<char>) -> Seq<char> {
    if path.len() > 0 && path[0] == '/' {
        "/"@
    } else if path.take(text::first_of(path, '/', '/')) == "."@ {
        "."@
    } else {
        Seq::empty()
    }
}

/// Two texts write the same path: their components are the same.
pub open spec fn same_path(a: Seq<char>, b: Seq<char>) -> bool {
    lead(a) == lead(b) && path_names(a) == path_names(b)
}

/// The part behind the last slash.
pub open spec fn last_part(s: Seq<char>) -> Seq<char>
    decreases s.len(),
{
    if s.len() == 0 || s.last() == '/' {
        Seq::empty()
    } else {
        last_part(s.drop_last()).push(s.last())
    }
}

/// A path without the parts at its end that lead nowhere.
pub open spec fn tail_cut(s: Seq<char>) -> Seq<char>
    decreases s.len(),
    via tail_cut_decreases
{
    let part = last_part(s);
    if is_name(part) {
        s
    } else if part.len() >= s.len() {
        Seq::empty()
    } else {
        tail_cut(s.take(s.len() - part.len() - 1))
    }
}

#[via_fn]
proof fn tail_cut_decreases(s: Seq<char>) {
    lemma_last_part(s);
}

proof fn lemma_last_part(s: Seq<char>)
    ensures
        last_part(s).len() <= s.len(),
        last_part(s) == s.skip(s.len() - last_part(s).len()),
        forall|i: int| s.len() - last_part(s).len() <= i < s.len() ==> #[trigger] s[i] != '/',
        last_part(s).len() < s.len() ==> s[s.len() - last_part(s).len() - 1] == '/',
    decreases s.len(),
{
    if s.len() > 0 && s.last() != '/' {
        let front = s.drop_last();
        lemma_last_part(front);
        assert forall|i: int| s.len() - last_part(s).len() <= i < s.len() implies #[trigger] s[i]
            != '/' by {
            if i < front.len() {
                assert(front[i] == s[i]);
            }
        }
    }
    assert(last_part(s) =~= s.skip(s.len() - last_part(s).len()));
}

/// A path below a base, seen from there; another path is left as it is. Of a path seen from a base
/// without components only the end is cut.
pub open spec fn relative_path(path: Seq<char>, base: Seq<char>) -> Seq<char> {
    if lead(base).len() == 0 && path_names(base).len() == 0 {
        let keep = lead(path).len() as int;
        path.take(keep) + tail_cut(path.skip(keep))
    } else if lead(path) == lead(base) && path_names(base).is_prefix_of(path_names(path)) {
        tail_cut(path.skip(names_end(path, path_names(base).len() as int)))
    } else {
        path
    }
}

/// The names along a path.
pub fn names_of(path: &str) -> (r: Vec<String>)
    ensures
        text::texts(r@) == path_names(path@),
{
    let parts = split_chars(&chars_of(path), '/', '/');
    let ghost all = text::texts(parts@);
    let ghost keep = |part: Seq<char>| is_name(part);
    let mut r: Vec<String> = Vec::new();
    let mut i: usize = 0;
    proof {
        reveal(Seq::filter);
    }
    assert(all.take(0).filter(keep) =~= Seq::empty());
    assert(text::texts(r@) =~= Seq::empty());
    while i < parts.len()
        invariant
            i <= parts.len(),
            all == text::texts(parts@),
            keep == (|part: Seq<char>| is_name(part)),
            text::texts(r@) == all.take(i as int).filter(keep),
        decreases parts.len() - i,
    {
        let ghost before = text::texts(r@);
        assert(all.take(i + 1).drop_last() =~= all.take(i as int));
        assert(all.take(i + 1).last() == parts@[i as int]@);
        proof {
            reveal(Seq::filter);
        }
        let part = parts[i].as_str();
        if chars_of(part).len() > 0 && !text::same(part, ".") {
            let name = parts[i].clone();
            r.push(name);
            assert(text::texts(r@) =~= before.push(name@));
        }
        i += 1;
    }
    assert(all.take(i as int) =~= all);
    r
}

fn names_end_of(chars: &Vec<char>, n: usize) -> (r: usize)
    ensures
        r == names_end(chars@, n as int),
        r <= chars.len(),
{
    let mut pos: usize = 0;
    let mut left: usize = n;
    assert(chars@.skip(0) =~= chars@);
    while pos < chars.len()
        invariant
            pos <= chars.len(),
            names_end(chars@, n as int) == pos + names_end(chars@.skip(pos as int), left as int),
        decreases chars.len() - pos,
    {
        let ghost rest = chars@.skip(pos as int);
        let mut at = pos;
        while at < chars.len() && chars[at] != '/'
            invariant
                pos <= at <= chars.len(),
                forall|k: int| pos <= k < at ==> #[trigger] chars@[k] != '/',
            decreases chars.len() - at,
        {
            at += 1;
        }
        proof {
            assert forall|k: int| 0 <= k < at - pos implies #[trigger] rest[k] != '/' by {
                assert(rest[k] == chars@[pos + k]);
            }
            text::lemma_first_of_is(rest, '/', '/', at - pos);
            assert(rest.take(at - pos) =~= chars@.subrange(pos as int, at as int));
        }
        let part = slice_text(chars, pos, at);
        let counts = at > pos && !text::same(part.as_str(), ".");
        if counts && left == 0 {
            return pos;
        }
        if at >= chars.len() {
            return chars.len();
        }
        if counts {
            left -= 1;
        }
        assert(rest.skip(at - pos + 1) =~= chars@.skip(at + 1));
        pos = at + 1;
    }
    assert(chars@.skip(pos as int) =~= Seq::empty());
    assert(text::first_of(Seq::<char>::empty(), '/', '/') == 0);
    pos
}

/// How a path begins: 0 with a name, 1 at the root, 2 with a `.`.
pub fn lead_of(chars: &Vec<char>) -> (r: u32)
    ensures
        r == lead_code(chars@),
        lead(chars@).len() == (if r == 0 {
            0nat
        } else {
            1nat
        }),
        lead(chars@).len() <= chars@.len(),
{
    proof {
        reveal_strlit("/");
        reveal_strlit(".");
        assert("/"@ =~= seq!['/'] && "."@ =~= seq!['.']);
        assert("/"@[0] != "."@[0]);
        text::lemma_first_of(chars@, '/', '/');
    }
    let ghost at = text::first_of(chars@, '/', '/');
    if chars.len() == 0 {
        assert(chars@.take(at).len() == 0);
        0
    } else if chars[0] == '/' {
        1
    } else if chars[0] == '.' && (chars.len() == 1 || chars[1] == '/') {
        proof {
            text::lemma_first_of_is(chars@, '/', '/', 1);
            assert(chars@.take(1) =~= "."@);
        }
        2
    } else {
        proof {
            if chars@.take(at) == "."@ {
                assert(chars@.take(at).len() == at);
                assert(chars@.take(at)[0] == chars@[0]);
            }
        }
        0
    }
}

/// The number for how a path begins.
pub open spec fn lead_code(path: Seq<char>) -> u32 {
    if lead(path) == "/"@ {
        1
    } else if lead(path) == "."@ {
        2
    } else {
        0
    }
}

pub proof fn lemma_lead_code(a: Seq<char>, b: Seq<char>)
    ensures
        lead(a) == lead(b) <==> lead_code(a) == lead_code(b),
{
    reveal_strlit("/");
    reveal_strlit(".");
    assert("/"@[0] == '/' && "."@[0] == '.');
    assert("/"@.len() == 1 && "."@.len() == 1);
}

fn same_texts(a: &Vec<String>, b: &Vec<String>, n: usize) -> (r: bool)
    requires
        n <= a.len(),
        n <= b.len(),
    ensures
        r == (text::texts(a@).take(n as int) == text::texts(b@).take(n as int)),
{
    let ghost x = text::texts(a@);
    let ghost y = text::texts(b@);
    let mut i: usize = 0;
    while i < n
        invariant
            i <= n <= a.len(),
            n <= b.len(),
            x == text::texts(a@),
            y == text::texts(b@),
            forall|k: int| 0 <= k < i ==> #[trigger] x[k] == y[k],
        decreases n - i,
    {
        assert(x[i as int] == a@[i as int]@ && y[i as int] == b@[i as int]@);
        if !text::same(a[i].as_str(), b[i].as_str()) {
            assert(x.take(n as int)[i as int] != y.take(n as int)[i as int]);
            return false;
        }
        i += 1;
    }
    assert(x.take(n as int) =~= y.take(n as int));
    true
}

/// Whether two texts write the same path.
pub fn is_same_path(a: &str, b: &str) -> (r: bool)
    ensures
        r == same_path(a@, b@),
{
    proof {
        lemma_lead_code(a@, b@);
    }
    let own = names_of(a);
    let other = names_of(b);
    let ghost x = path_names(a@);
    let ghost y = path_names(b@);
    assert(x.take(x.len() as int) =~= x);
    assert(y.take(y.len() as int) =~= y);
    assert(own.len() == x.len() && other.len() == y.len());
    lead_of(&chars_of(a)) == lead_of(&chars_of(b)) && own.len() == other.len() && same_texts(
        &own,
        &other,
        own.len(),
    )
}

/// The end of a range of a path without the parts there that lead nowhere.
fn tail_end(chars: &Vec<char>, from: usize) -> (r: usize)
    requires
        from <= chars.len(),
    ensures
        from <= r <= chars.len(),
        tail_cut(chars@.skip(from as int)) == chars@.subrange(from as int, r as int),
{
    let mut end: usize = chars.len();
    assert(chars@.skip(from as int) =~= chars@.subrange(from as int, end as int));
    while end > from
        invariant
            from <= end <= chars.len(),
            tail_cut(chars@.skip(from as int)) == tail_cut(
                chars@.subrange(from as int, end as int),
            ),
        decreases end,
    {
        let ghost rest = chars@.subrange(from as int, end as int);
        let mut at = end;
        while at > from && chars[at - 1] != '/'
            invariant
                from <= at <= end <= chars.len(),
                forall|k: int| at <= k < end ==> #[trigger] chars@[k] != '/',
            decreases at,
        {
            at -= 1;
        }
        let part = slice_text(chars, at, end);
        proof {
            lemma_last_part(rest);
            let n = last_part(rest).len() as int;
            if n < end - at {
                assert(rest[rest.len() - n - 1] == chars@[end - n - 1]);
            } else if n > end - at {
                assert(rest[at - from - 1] == chars@[at - 1]);
            }
            assert(part@ =~= last_part(rest));
        }
        if end > at && !text::same(part.as_str(), ".") {
            return end;
        }
        if at == from {
            assert(chars@.subrange(from as int, from as int) =~= Seq::empty());
            return from;
        }
        assert(rest.take(at - 1 - from) =~= chars@.subrange(from as int, at - 1));
        end = at - 1;
    }
    proof {
        let none = chars@.subrange(from as int, end as int);
        assert(last_part(none).len() == 0);
        assert(tail_cut(none) =~= none);
    }
    end
}

/// A path below a base, seen from there.
pub fn strip_base(path: &str, base: &str) -> (r: String)
    ensures
        r@ == relative_path(path@, base@),
{
    let chars = chars_of(path);
    let start = lead_of(&chars);
    let base_start = lead_of(&chars_of(base));
    let names = names_of(path);
    let base_names = names_of(base);
    let ghost own = path_names(path@);
    let ghost wanted = path_names(base@);
    assert(base_names.len() == wanted.len() && names.len() == own.len());
    proof {
        lemma_lead_code(path@, base@);
    }
    if base_start == 0 && base_names.len() == 0 {
        let keep: usize = if start == 0 {
            0
        } else {
            1
        };
        let end = tail_end(&chars, keep);
        assert(path@.take(keep as int) + chars@.subrange(keep as int, end as int)
            =~= chars@.subrange(0, end as int));
        return slice_text(&chars, 0, end);
    }
    if start != base_start || base_names.len() > names.len() {
        return path.to_owned();
    }
    if !same_texts(&base_names, &names, base_names.len()) {
        assert(wanted.take(wanted.len() as int) =~= wanted);
        assert(own.subrange(0, wanted.len() as int) =~= own.take(wanted.len() as int));
        return path.to_owned();
    }
    assert(own.subrange(0, wanted.len() as int) =~= wanted) by {
        assert(wanted.take(wanted.len() as int) =~= wanted);
        assert(own.subrange(0, wanted.len() as int) =~= own.take(wanted.len() as int));
    }
    let from = names_end_of(&chars, base_names.len());
    let end = tail_end(&chars, from);
    slice_text(&chars, from, end)
}

proof fn lemma_one_name(part: Seq<char>)
    ensures
        seq![part].filter(|part: Seq<char>| is_name(part)) == (if is_name(part) {
            seq![part]
        } else {
            Seq::empty()
        }),
{
    reveal(Seq::filter);
    let keep = |part: Seq<char>| is_name(part);
    let one = seq![part];
    assert(one.drop_last() =~= Seq::empty());
    assert(one.drop_last().filter(keep) =~= Seq::empty());
    assert(one.last() == part);
    assert(Seq::<Seq<char>>::empty().push(part) =~= one);
}

proof fn lemma_names_step(path: Seq<char>)
    requires
        text::first_of(path, '/', '/') < path.len(),
    ensures
        ({
            let i = text::first_of(path, '/', '/');
            let first = path.take(i);
            let rest = path_names(path.skip(i + 1));
            path_names(path) == (if is_name(first) {
                seq![first] + rest
            } else {
                rest
            })
        }),
{
    let i = text::first_of(path, '/', '/');
    let first = path.take(i);
    let keep = |part: Seq<char>| is_name(part);
    let rest = text::split(path.skip(i + 1), '/', '/');
    assert(text::split(path, '/', '/') == seq![first] + rest);
    Seq::filter_distributes_over_add(seq![first], rest, keep);
    lemma_one_name(first);
    assert(Seq::empty() + rest.filter(keep) =~= rest.filter(keep));
}

/// A slash at the end adds no name.
proof fn lemma_names_slash(path: Seq<char>)
    ensures
        path_names(path + "/"@) == path_names(path),
    decreases path.len(),
{
    reveal_strlit("/");
    let more = path + "/"@;
    assert("/"@ =~= seq!['/']);
    let i = text::first_of(path, '/', '/');
    text::lemma_first_of(path, '/', '/');
    assert forall|k: int| 0 <= k < i implies #[trigger] more[k] != '/' by {
        assert(more[k] == path[k]);
    }
    assert(more[i] == '/');
    text::lemma_first_of_is(more, '/', '/', i);
    assert(more.take(i) =~= path.take(i));
    lemma_names_step(more);
    if i < path.len() {
        lemma_names_step(path);
        assert(more.skip(i + 1) =~= path.skip(i + 1) + "/"@);
        lemma_names_slash(path.skip(i + 1));
    } else {
        assert(more.skip(i + 1) =~= Seq::empty());
        assert(path.take(i) =~= path);
        assert(text::split(path, '/', '/') =~= seq![path]);
        lemma_one_name(path);
        let none = Seq::<char>::empty();
        assert(text::split(none, '/', '/') =~= seq![none]);
        lemma_one_name(none);
        assert(path_names(more) =~= path_names(path));
    }
}

/// Behind a directory come the names of the rest.
proof fn lemma_names_below(dir: Seq<char>, rest: Seq<char>)
    requires
        dir.len() == 0 || dir.last() == '/',
        is_name(rest.take(text::first_of(rest, '/', '/'))),
    ensures
        path_names(dir + rest) == path_names(dir) + path_names(rest),
        names_end(dir + rest, path_names(dir).len() as int) == dir.len(),
    decreases dir.len(),
{
    let whole = dir + rest;
    if dir.len() == 0 {
        assert(whole =~= rest);
        assert(text::split(dir, '/', '/') =~= seq![dir]);
        lemma_one_name(dir);
        assert(path_names(dir) + path_names(rest) =~= path_names(rest));
    } else {
        let i = text::first_of(dir, '/', '/');
        text::lemma_first_of(dir, '/', '/');
        if i == dir.len() {
            assert(dir[dir.len() - 1] != '/');
        }
        assert forall|k: int| 0 <= k < i implies #[trigger] whole[k] != '/' by {
            assert(whole[k] == dir[k]);
        }
        text::lemma_first_of_is(whole, '/', '/', i);
        assert(whole.take(i) =~= dir.take(i));
        assert(whole.skip(i + 1) =~= dir.skip(i + 1) + rest);
        let below = dir.skip(i + 1);
        assert(below.len() > 0 ==> below.last() == dir.last());
        lemma_names_below(below, rest);
        lemma_names_step(dir);
        lemma_names_step(whole);
        let first = dir.take(i);
        assert((seq![first] + path_names(below)) + path_names(rest) =~= seq![first] + (path_names(
            below,
        ) + path_names(rest)));
    }
}

/// A path below a base is shown as what was put below the base, if that begins and ends with a
/// name.
pub proof fn law_path_below_base(base: Seq<char>, rest: Seq<char>)
    requires
        is_name(rest.take(text::first_of(rest, '/', '/'))),
        is_name(last_part(rest)),
    ensures
        relative_path(crate::paths::joined(base, rest), base) == rest,
{
    lemma_below_base(base, rest);
}

proof fn lemma_below_base(base: Seq<char>, rest: Seq<char>)
    requires
        is_name(rest.take(text::first_of(rest, '/', '/'))),
    ensures
        relative_path(crate::paths::joined(base, rest), base) == tail_cut(rest),
{
    reveal_strlit("/");
    reveal_strlit(".");
    assert("/"@ =~= seq!['/']);
    let whole = crate::paths::joined(base, rest);
    text::lemma_first_of(base, '/', '/');
    text::lemma_first_of(rest, '/', '/');
    let first = rest.take(text::first_of(rest, '/', '/'));
    assert(rest.len() > 0);
    assert(rest[0] != '/') by {
        if rest[0] == '/' {
            text::lemma_first_of_is(rest, '/', '/', 0);
        }
    }
    if base.len() == 0 {
        assert(whole =~= rest);
        assert(base.take(text::first_of(base, '/', '/')).len() == 0);
        lemma_names_below(base, rest);
        assert(text::split(base, '/', '/') =~= seq![base]);
        lemma_one_name(base);
        assert(rest.skip(0) =~= rest);
        assert(rest.take(0) + tail_cut(rest) =~= tail_cut(rest));
    } else {
        let dir = if base.last() == '/' {
            base
        } else {
            base + "/"@
        };
        assert(whole =~= dir + rest);
        lemma_names_slash(base);
        lemma_names_below(dir, rest);
        let names = path_names(base);
        assert(path_names(whole).subrange(0, names.len() as int) =~= names);
        assert(whole[0] == base[0]);
        assert(whole.skip(dir.len() as int) =~= rest);
        let i = text::first_of(base, '/', '/');
        assert forall|k: int| 0 <= k < i implies #[trigger] whole[k] != '/' by {
            assert(whole[k] == base[k]);
        }
        assert(whole[i] == '/');
        text::lemma_first_of_is(whole, '/', '/', i);
        assert(whole.take(i) =~= base.take(i));
        assert(lead(whole) == lead(base));
        if lead(base).len() == 0 && names.len() == 0 {
            if i == base.len() {
                assert(base.take(i) =~= base);
                assert(text::split(base, '/', '/') =~= seq![base]);
                lemma_one_name(base);
            } else {
                lemma_names_step(base);
                if i == 0 {
                    assert(base[0] == '/');
                }
            }
        }
    }
}

/// A part that is no name does not count.
proof fn lemma_filter_push(parts: Seq<Seq<char>>, part: Seq<char>)
    ensures
        parts.push(part).filter(|part: Seq<char>| is_name(part)) == (if is_name(part) {
            parts.filter(|part: Seq<char>| is_name(part)).push(part)
        } else {
            parts.filter(|part: Seq<char>| is_name(part))
        }),
{
    reveal(Seq::filter);
    assert(parts.push(part).drop_last() =~= parts);
}

/// What follows the last slash of a directory is empty.
pub proof fn lemma_ends_blank(dir: Seq<char>)
    requires
        dir.len() > 0,
        dir.last() == '/',
    ensures
        text::split(dir, '/', '/').len() > 0,
        text::split(dir, '/', '/').last().len() == 0,
{
    let front = dir.drop_last();
    let slash = seq!['/'];
    assert(dir =~= front + slash);
    text::lemma_split_glued(front, slash, '/', '/');
    text::lemma_first_of_is(slash, '/', '/', 0);
    assert(slash.take(0) =~= Seq::empty());
    assert(slash.skip(1) =~= Seq::empty());
    let none = Seq::<char>::empty();
    assert(text::split(none, '/', '/') =~= seq![none]);
    assert(text::split(slash, '/', '/') =~= seq![none, none]);
}

/// Behind a directory come the names of what is put there.
proof fn lemma_names_behind(dir: Seq<char>, rest: Seq<char>)
    requires
        dir.len() > 0,
        dir.last() == '/',
    ensures
        path_names(dir + rest) == path_names(dir) + path_names(rest),
{
    let keep = |part: Seq<char>| is_name(part);
    let left = text::split(dir, '/', '/');
    let right = text::split(rest, '/', '/');
    lemma_ends_blank(dir);
    text::lemma_split_nonempty(rest, '/', '/');
    text::lemma_split_glued(dir, rest, '/', '/');
    let all = text::split(dir + rest, '/', '/');
    assert(left.last() + right[0] =~= right[0]);
    assert(all =~= left.drop_last() + right);
    Seq::filter_distributes_over_add(left.drop_last(), right, keep);
    lemma_filter_push(left.drop_last(), left.last());
    assert(left.drop_last().push(left.last()) =~= left);
}

proof fn lemma_lead_of_longer(base: Seq<char>, more: Seq<char>)
    requires
        base.len() > 0,
        more.len() > 0,
        more[0] == '/',
    ensures
        lead(base + more) == lead(base),
{
    let whole = base + more;
    let i = text::first_of(base, '/', '/');
    text::lemma_first_of(base, '/', '/');
    assert(whole[0] == base[0]);
    assert forall|k: int| 0 <= k < i implies #[trigger] whole[k] != '/' by {
        assert(whole[k] == base[k]);
    }
    assert(whole[i] == '/');
    text::lemma_first_of_is(whole, '/', '/', i);
    assert(whole.take(i) =~= base.take(i));
}

/// A slash at the end, a second slash between two parts and a `.` there make no other path.
pub proof fn law_spellings_of_a_path(base: Seq<char>, rest: Seq<char>)
    requires
        base.len() > 0,
    ensures
        same_path(base + "/"@, base),
        same_path(base + "//"@ + rest, base + "/"@ + rest),
        same_path(base + "/./"@ + rest, base + "/"@ + rest),
{
    reveal_strlit("/");
    reveal_strlit("//");
    reveal_strlit("/./");
    reveal_strlit(".");
    let one = base + "/"@;
    let two = base + "//"@;
    let dot = base + "/./"@;
    lemma_names_slash(base);
    lemma_names_slash(one);
    assert(two =~= one + "/"@);
    lemma_lead_of_longer(base, "/"@);
    lemma_lead_of_longer(base, "//"@ + rest);
    lemma_lead_of_longer(base, "/"@ + rest);
    lemma_lead_of_longer(base, "/./"@ + rest);
    assert(base + ("//"@ + rest) =~= two + rest);
    assert(base + ("/"@ + rest) =~= one + rest);
    assert(base + ("/./"@ + rest) =~= dot + rest);
    lemma_names_behind(one, rest);
    lemma_names_behind(two, rest);
    lemma_names_behind(dot, rest);
    let part = seq!['.'];
    assert("."@ =~= part);
    lemma_names_slash(one + part);
    assert(dot =~= one + part + "/"@);
    lemma_names_behind(one, part);
    text::lemma_first_of_is(part, '/', '/', 1);
    assert(text::split(part, '/', '/') =~= seq![part]);
    lemma_one_name(part);
    assert(path_names(one) + path_names(part) =~= path_names(one));
}

/// Different names below one directory are different paths.
pub proof fn law_names_tell_paths_apart(base: Seq<char>, a: Seq<char>, b: Seq<char>)
    requires
        base.len() > 0,
        a.len() > 0 && b.len() > 0,
        a != "."@ && b != "."@,
        text::unbroken(a, '/', '/'),
        text::unbroken(b, '/', '/'),
        a != b,
    ensures
        !same_path(crate::paths::joined(base, a), crate::paths::joined(base, b)),
        !same_path(crate::paths::joined(base, a), base),
{
    reveal_strlit("/");
    assert("/"@ =~= seq!['/']);
    let dir = if base.last() == '/' {
        base
    } else {
        base + "/"@
    };
    assert(crate::paths::joined(base, a) =~= dir + a);
    assert(crate::paths::joined(base, b) =~= dir + b);
    lemma_names_slash(base);
    lemma_names_behind(dir, a);
    lemma_names_behind(dir, b);
    text::lemma_first_of_is(a, '/', '/', a.len() as int);
    text::lemma_first_of_is(b, '/', '/', b.len() as int);
    assert(text::split(a, '/', '/') =~= seq![a]);
    assert(text::split(b, '/', '/') =~= seq![b]);
    lemma_one_name(a);
    lemma_one_name(b);
    let n = path_names(dir).len() as int;
    assert(path_names(dir + a)[n] == a);
    assert(path_names(dir + b)[n] == b);
    assert(path_names(dir) == path_names(base));
}

/// What ends a path without naming anything, a slash or a slash with a dot, is not shown.
pub proof fn law_ends_are_not_shown(base: Seq<char>, rest: Seq<char>)
    requires
        is_name(rest.take(text::first_of(rest, '/', '/'))),
        is_name(last_part(rest)),
    ensures
        relative_path(crate::paths::joined(base, rest + "/"@), base) == rest,
        relative_path(crate::paths::joined(base, rest + "/."@), base) == rest,
{
    reveal_strlit("/");
    reveal_strlit("/.");
    reveal_strlit(".");
    let slash = rest + "/"@;
    let dot = rest + "/."@;
    lemma_first_of_longer(rest, "/"@);
    lemma_first_of_longer(rest, "/."@);
    lemma_below_base(base, slash);
    lemma_below_base(base, dot);
    assert(slash.take(slash.len() - 1) =~= rest);
    assert(dot.drop_last() =~= slash);
    assert(last_part(slash) =~= Seq::empty());
    assert(last_part(dot) =~= "."@);
    assert(dot.take(dot.len() - 2) =~= rest);
    assert(tail_cut(rest) == rest);
    assert(!is_name(last_part(slash)) && !is_name(last_part(dot)));
    assert(tail_cut(slash) == tail_cut(slash.take(slash.len() - 1)));
    assert(tail_cut(dot) == tail_cut(dot.take(dot.len() - 2)));
}

proof fn lemma_first_of_longer(rest: Seq<char>, more: Seq<char>)
    requires
        more.len() > 0,
        more[0] == '/',
    ensures
        (rest + more).take(text::first_of(rest + more, '/', '/')) == rest.take(
            text::first_of(rest, '/', '/'),
        ),
{
    let whole = rest + more;
    let i = text::first_of(rest, '/', '/');
    text::lemma_first_of(rest, '/', '/');
    assert forall|k: int| 0 <= k < i implies #[trigger] whole[k] != '/' by {
        assert(whole[k] == rest[k]);
    }
    assert(whole[i] == '/');
    text::lemma_first_of_is(whole, '/', '/', i);
    assert(whole.take(i) =~= rest.take(i));
}

/// A path that begins otherwise than the base, or with other names, is shown as it is.
pub proof fn law_paths_outside_a_base(path: Seq<char>, base: Seq<char>)
    requires
        base.len() > 0,
        lead(path) != lead(base) || exists|k: int|
            0 <= k < path_names(base).len() && (k >= path_names(path).len() || path_names(path)[k]
                != #[trigger] path_names(base)[k]),
        lead(base).len() > 0 || path_names(base).len() > 0,
    ensures
        relative_path(path, base) == path,
{
    let (names, wanted) = (path_names(path), path_names(base));
    if wanted.is_prefix_of(names) {
        assert forall|k: int| 0 <= k < wanted.len() implies k < names.len() && names[k]
            == #[trigger] wanted[k] by {
            assert(names.subrange(0, wanted.len() as int)[k] == names[k]);
        }
    }
}

} // verus!
