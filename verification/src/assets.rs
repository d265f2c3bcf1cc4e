//! Assets: files that are built in, and files on disk that are known by a key.

use std::collections::hash_map::DefaultHasher;
use std::hash::Hasher;
use vstd::prelude::*;

use crate::order;
use crate::order::insert_text;
use crate::text;
use crate::text::{begins_with, chars_of, same, slice_text};

verus! {

/// The assets: the paths of those that are built in, and those that were registered, each with the
/// file that it stands for.
#[derive(Debug)]
pub struct Assets {
    pub embedded: Vec<String>,
    pub external: Vec<(String, String)>,
}

/// The map that a list of registrations builds up.
pub open spec fn registered(v: Seq<(String, String)>) -> Map<Seq<char>, Seq<char>>
    decreases v.len(),
{
    if v.len() == 0 {
        Map::empty()
    } else {
        registered(v.drop_last()).insert(v.last().0@, v.last().1@)
    }
}

/// Where the bytes of an asset come from.
#[derive(Debug, PartialEq, Eq)]
pub enum AssetSource {
    Embedded,
    File(String),
}

/// What follows a prefix up to the next slash.
pub open spec fn entry_under(path: Seq<char>, prefix: Seq<char>) -> Option<Seq<char>> {
    if prefix.is_prefix_of(path) {
        let rest = path.skip(prefix.len() as int);
        let entry = rest.take(text::first_of(rest, '/', '/'));
        if entry.len() > 0 {
            Some(entry)
        } else {
            None
        }
    } else {
        None
    }
}

/// Entries with those of some more paths put in their places.
pub open spec fn with_entries(
    entries: Seq<Seq<char>>,
    paths: Seq<Seq<char>>,
    prefix: Seq<char>,
) -> Seq<Seq<char>>
    decreases paths.len(),
{
    if paths.len() == 0 {
        entries
    } else {
        let earlier = with_entries(entries, paths.drop_last(), prefix);
        match entry_under(paths.last(), prefix) {
            Some(entry) => order::with_text(earlier, entry, false),
            None => earlier,
        }
    }
}

/// A directory's path as a prefix of the paths in it.
pub open spec fn dir_prefix(path: Seq<char>) -> Seq<char> {
    if path.len() == 0 || path.last() == '/' {
        path
    } else {
        path + "/"@
    }
}

pub open spec fn keys_of(v: Seq<(String, String)>) -> Seq<Seq<char>> {
    v.map_values(|p: (String, String)| p.0@)
}

fn entry_of(path: &str, prefix: &str) -> (r: Option<String>)
    ensures
        text::opt_text(r) == entry_under(path@, prefix@),
{
    if !begins_with(path, prefix) {
        return None;
    }
    let chars = chars_of(path);
    let from = chars_of(prefix).len();
    let ghost rest = path@.skip(from as int);
    let mut at = from;
    while at < chars.len() && chars[at] != '/'
        invariant
            from <= at <= chars.len(),
            forall|k: int| from <= k < at ==> #[trigger] chars@[k] != '/',
        decreases chars.len() - at,
    {
        at += 1;
    }
    proof {
        assert forall|k: int| 0 <= k < at - from implies #[trigger] rest[k] != '/' by {
            assert(rest[k] == chars@[from + k]);
        }
        text::lemma_first_of_is(rest, '/', '/', at - from);
        assert(rest.take(at - from) =~= chars@.subrange(from as int, at as int));
    }
    if from < at {
        Some(slice_text(&chars, from, at))
    } else {
        None
    }
}

/// A hexadecimal digit.
pub open spec fn hex_digit(d: int) -> char {
    if d < 10 {
        ('0' as u32 + d) as char
    } else {
        ('a' as u32 + (d - 10)) as char
    }
}

/// The last `n` hexadecimal digits of a number.
pub open spec fn hex(value: nat, n: nat) -> Seq<char>
    decreases n,
{
    if n == 0 {
        Seq::empty()
    } else {
        hex(value / 16, (n - 1) as nat).push(hex_digit((value % 16) as int))
    }
}

fn hex_of(value: u64, n: u8) -> (r: String)
    ensures
        r@ == hex(value as nat, n as nat),
    decreases n,
{
    if n == 0 {
        return String::new();
    }
    let mut r = hex_of(value / 16, n - 1);
    let d = (value % 16) as u32;
    let c = if d < 10 {
        (48 + d as u8) as char
    } else {
        (97 + (d as u8 - 10)) as char
    };
    r.push(c);
    r
}

/// The key of an asset on disk whose path has a given hash.
pub open spec fn key_for_hash(hash: u64) -> Seq<char> {
    "external/"@ + hex(hash as nat, 16) + ".svg"@
}

pub fn external_key(hash: u64) -> (r: String)
    ensures
        r@ == key_for_hash(hash),
{
    let mut r = "external/".to_owned();
    r.append(hex_of(hash, 16).as_str());
    r.append(".svg");
    r
}

/// The number that std's default hasher gives to the bytes of a path.
pub uninterp spec fn path_digest(path: Seq<char>) -> u64;

/// Hashes the bytes of a path with `DefaultHasher::new`, `write` and `finish` of std. All hashers
/// made by `new` are the same, so the number is a function of the path; which number it is, std
/// leaves open.
#[verifier::external_body]
fn path_hash(path: &str) -> (r: u64)
    ensures
        r == path_digest(path@),
{
    let mut hasher = DefaultHasher::new();
    hasher.write(path.as_bytes());
    hasher.finish()
}

impl Assets {
    /// The registered assets: keys, and the paths of the files they stand for.
    pub open spec fn external(self) -> Map<Seq<char>, Seq<char>> {
        registered(self.external@)
    }

    /// The keys in the order of their registration.
    pub open spec fn registrations(self) -> Seq<Seq<char>> {
        keys_of(self.external@)
    }

    pub fn new(embedded: Vec<String>) -> (r: Self)
        ensures
            r.embedded == embedded,
            r.external() == Map::<Seq<char>, Seq<char>>::empty(),
            r.registrations() == Seq::<Seq<char>>::empty(),
    {
        let r = Assets { embedded, external: Vec::new() };
        assert(keys_of(r.external@) =~= Seq::empty());
        r
    }

    /// Registers a file under a key, in place of the one that was there.
    pub fn register_external_asset(&mut self, key: &str, actual_path: &str) -> (r: String)
        ensures
            r@ == key@,
            final(self).embedded == old(self).embedded,
            final(self).external() == old(self).external().insert(key@, actual_path@),
            final(self).registrations() == old(self).registrations().push(key@),
    {
        let ghost before = self.external@;
        self.external.push((key.to_owned(), actual_path.to_owned()));
        assert(self.external@.drop_last() =~= before);
        assert(keys_of(self.external@) =~= keys_of(before).push(key@));
        key.to_owned()
    }

    /// Registers a file under a key made from the hash of its path.
    pub fn register_external_asset_path(&mut self, actual_path: &str) -> (r: String)
        ensures
            r@ == key_for_hash(path_digest(actual_path@)),
            final(self).embedded == old(self).embedded,
            final(self).external() == old(self).external().insert(r@, actual_path@),
            final(self).registrations() == old(self).registrations().push(r@),
    {
        let key = external_key(path_hash(actual_path));
        self.register_external_asset(key.as_str(), actual_path)
    }

    /// Where an asset comes from: what is built in goes before what was registered.
    pub fn load(&self, path: &str) -> (r: Option<AssetSource>)
        ensures
            text::texts(self.embedded@).contains(path@) ==> r == Some(AssetSource::Embedded),
            !text::texts(self.embedded@).contains(path@) ==> (r is Some
                <==> self.external().contains_key(path@)) && (r matches Some(source) ==> (source
                matches AssetSource::File(file) && file@ == self.external()[path@])),
    {
        proof {
            order::lemma_holds_text(text::texts(self.embedded@), path@);
        }
        if order::holds_text(&self.embedded, path, false) {
            return Some(AssetSource::Embedded);
        }
        let mut n: usize = self.external.len();
        assert(self.external@.take(n as int) =~= self.external@);
        while n > 0
            invariant
                n <= self.external.len(),
                registered(self.external@).contains_key(path@) == registered(
                    self.external@.take(n as int),
                ).contains_key(path@),
                registered(self.external@).contains_key(path@) ==> registered(
                    self.external@,
                )[path@] == registered(self.external@.take(n as int))[path@],
                !text::texts(self.embedded@).contains(path@),
            decreases n,
        {
            assert(self.external@.take(n as int).drop_last() =~= self.external@.take(n - 1));
            if same(self.external[n - 1].0.as_str(), path) {
                return Some(AssetSource::File(self.external[n - 1].1.clone()));
            }
            n -= 1;
        }
        None
    }

    /// The entries of a directory, in order and each once.
    pub open spec fn listing(self, path: Seq<char>) -> Seq<Seq<char>> {
        with_entries(
            with_entries(Seq::empty(), text::texts(self.embedded@), dir_prefix(path)),
            self.registrations(),
            dir_prefix(path),
        )
    }

    pub fn list(&self, path: &str) -> (r: Vec<String>)
        ensures
            text::texts(r@) == self.listing(path@),
    {
        let chars = chars_of(path);
        let mut prefix = path.to_owned();
        if chars.len() > 0 && chars[chars.len() - 1] != '/' {
            prefix.append("/");
        }
        assert(prefix@ == dir_prefix(path@));
        let mut entries: Vec<String> = Vec::new();
        let ghost all = text::texts(self.embedded@);
        let mut i: usize = 0;
        assert(all.take(0) =~= Seq::empty());
        assert(text::texts(entries@) =~= Seq::empty());
        while i < self.embedded.len()
            invariant
                i <= self.embedded.len(),
                all == text::texts(self.embedded@),
                text::texts(entries@) == with_entries(
                    Seq::empty(),
                    all.take(i as int),
                    prefix@,
                ),
            decreases self.embedded.len() - i,
        {
            assert(all.take(i + 1).drop_last() =~= all.take(i as int));
            assert(all.take(i + 1).last() == self.embedded@[i as int]@);
            if let Some(entry) = entry_of(self.embedded[i].as_str(), prefix.as_str()) {
                insert_text(&mut entries, entry, false);
            }
            i += 1;
        }
        assert(all.take(i as int) =~= all);
        let ghost built_in = text::texts(entries@);
        let ghost keys = keys_of(self.external@);
        let mut j: usize = 0;
        assert(keys.take(0) =~= Seq::empty());
        while j < self.external.len()
            invariant
                j <= self.external.len(),
                keys == keys_of(self.external@),
                text::texts(entries@) == with_entries(built_in, keys.take(j as int), prefix@),
            decreases self.external.len() - j,
        {
            assert(keys.take(j + 1).drop_last() =~= keys.take(j as int));
            assert(keys.take(j + 1).last() == self.external@[j as int].0@);
            if let Some(entry) = entry_of(self.external[j].0.as_str(), prefix.as_str()) {
                insert_text(&mut entries, entry, false);
            }
            j += 1;
        }
        assert(keys.take(j as int) =~= keys);
        entries
    }
}

/// Some path has an entry under a prefix.
pub open spec fn is_entry(paths: Seq<Seq<char>>, prefix: Seq<char>, entry: Seq<char>) -> bool {
    exists|i: int| 0 <= i < paths.len() && entry_under(#[trigger] paths[i], prefix) == Some(entry)
}

proof fn lemma_with_entries(entries: Seq<Seq<char>>, paths: Seq<Seq<char>>, prefix: Seq<char>)
    requires
        order::is_ordered(entries, false),
    ensures
        order::is_ordered(with_entries(entries, paths, prefix), false),
        forall|e: Seq<char>| #[trigger]
            with_entries(entries, paths, prefix).contains(e) <==> entries.contains(e) || is_entry(
                paths,
                prefix,
                e,
            ),
    decreases paths.len(),
{
    let after = with_entries(entries, paths, prefix);
    if paths.len() > 0 {
        let front = paths.drop_last();
        let earlier = with_entries(entries, front, prefix);
        lemma_with_entries(entries, front, prefix);
        assert forall|e: Seq<char>| #[trigger]
            is_entry(paths, prefix, e) <==> is_entry(front, prefix, e) || entry_under(
                paths.last(),
                prefix,
            ) == Some(e) by {
            if is_entry(paths, prefix, e) {
                let k = choose|k: int|
                    0 <= k < paths.len() && entry_under(#[trigger] paths[k], prefix) == Some(e);
                if k < front.len() {
                    assert(front[k] == paths[k]);
                }
            }
            if is_entry(front, prefix, e) {
                let k = choose|k: int|
                    0 <= k < front.len() && entry_under(#[trigger] front[k], prefix) == Some(e);
                assert(paths[k] == front[k]);
            }
            if entry_under(paths.last(), prefix) == Some(e) {
                assert(paths[paths.len() - 1] == paths.last());
            }
        }
        if let Some(entry) = entry_under(paths.last(), prefix) {
            order::lemma_with_text(earlier, entry, false);
            order::lemma_holds_text(earlier, entry);
        }
    }
}

/// A listing is in order without repetitions, and holds just the entries of the assets under the
/// directory.
pub proof fn law_listing(assets: Assets, path: Seq<char>)
    ensures
        order::is_ordered(assets.listing(path), false),
        forall|e: Seq<char>| #[trigger]
            assets.listing(path).contains(e) <==> is_entry(
                text::texts(assets.embedded@),
                dir_prefix(path),
                e,
            ) || is_entry(assets.registrations(), dir_prefix(path), e),
{
    let none = Seq::<Seq<char>>::empty();
    let prefix = dir_prefix(path);
    lemma_with_entries(none, text::texts(assets.embedded@), prefix);
    lemma_with_entries(
        with_entries(none, text::texts(assets.embedded@), prefix),
        assets.registrations(),
        prefix,
    );
}

/// The fonts among the assets: those whose names end in `.ttf`.
#[derive(Debug)]
pub struct FontAssets {
    pub files: Vec<String>,
}

pub open spec fn font_files(files: Seq<Seq<char>>) -> Seq<Seq<char>> {
    files.filter(|f: Seq<char>| ".ttf"@.is_suffix_of(f))
}

fn ends_with(s: &str, suffix: &str) -> (r: bool)
    ensures
        r == suffix@.is_suffix_of(s@),
{
    let a = chars_of(s);
    let b = chars_of(suffix);
    if b.len() > a.len() {
        return false;
    }
    let tail = slice_text(&a, a.len() - b.len(), a.len());
    same(tail.as_str(), suffix)
}

impl FontAssets {
    /// The files to load as fonts, in their order.
    pub fn load_fonts(&self) -> (r: Vec<String>)
        ensures
            text::texts(r@) == font_files(text::texts(self.files@)),
    {
        let ghost all = text::texts(self.files@);
        let ghost keep = |f: Seq<char>| ".ttf"@.is_suffix_of(f);
        let mut r: Vec<String> = Vec::new();
        let mut i: usize = 0;
        proof {
            reveal(Seq::filter);
        }
        assert(all.take(0).filter(keep) =~= Seq::empty());
        assert(text::texts(r@) =~= Seq::empty());
        while i < self.files.len()
            invariant
                i <= self.files.len(),
                all == text::texts(self.files@),
                keep == (|f: Seq<char>| ".ttf"@.is_suffix_of(f)),
                text::texts(r@) == all.take(i as int).filter(keep),
            decreases self.files.len() - i,
        {
            let ghost before = text::texts(r@);
            assert(all.take(i + 1).drop_last() =~= all.take(i as int));
            assert(all.take(i + 1).last() == self.files@[i as int]@);
            proof {
                reveal(Seq::filter);
            }
            if ends_with(self.files[i].as_str(), ".ttf") {
                let file = self.files[i].clone();
                r.push(file);
                assert(text::texts(r@) =~= before.push(file@));
            }
            i += 1;
        }
        assert(all.take(i as int) =~= all);
        r
    }
}

proof fn lemma_entry(path: Seq<char>, prefix: Seq<char>, e: Seq<char>)
    ensures
        entry_under(path, prefix) == Some(e) <==> e.len() > 0 && text::unbroken(e, '/', '/') && (
        path == prefix + e || (prefix + e + "/"@).is_prefix_of(path)),
{
    reveal_strlit("/");
    let n = prefix.len() as int;
    let rest = path.skip(n);
    let i = text::first_of(rest, '/', '/');
    text::lemma_first_of(rest, '/', '/');
    let whole = prefix + e + "/"@;
    if entry_under(path, prefix) == Some(e) {
        assert(path =~= prefix + rest);
        assert forall|k: int| 0 <= k < e.len() implies #[trigger] e[k] != '/' by {
            assert(e[k] == rest[k]);
        }
        if i == rest.len() {
            assert(rest.take(i) =~= rest);
        } else {
            assert(whole =~= path.take(n + i + 1)) by {
                assert forall|k: int| 0 <= k < n + i + 1 implies whole[k] == #[trigger] path.take(
                    n + i + 1,
                )[k] by {
                    if n <= k {
                        assert(path[k] == rest[k - n]);
                    }
                }
            }
        }
    }
    if e.len() > 0 && text::unbroken(e, '/', '/') {
        let m = e.len() as int;
        if path == prefix + e {
            assert(rest =~= e);
            assert(prefix =~= path.subrange(0, n));
            text::lemma_first_of_is(rest, '/', '/', m);
            assert(rest.take(m) =~= e);
        } else if whole.is_prefix_of(path) {
            assert(whole =~= path.subrange(0, n + m + 1));
            assert forall|k: int| 0 <= k < n + m + 1 implies path[k] == #[trigger] whole[k] by {}
            assert(prefix =~= path.subrange(0, n)) by {
                assert forall|k: int| 0 <= k < n implies prefix[k] == #[trigger] path.subrange(
                    0,
                    n,
                )[k] by {
                    assert(whole[k] == prefix[k]);
                }
            }
            assert forall|k: int| 0 <= k < m implies #[trigger] rest[k] == e[k] by {
                assert(whole[n + k] == e[k]);
            }
            assert(whole[n + m] == '/');
            assert(rest[m] == '/');
            text::lemma_first_of_is(rest, '/', '/', m);
            assert(rest.take(m) =~= e);
        }
    }
}

/// Whether an asset at `path` is the entry `e` of a directory, or lies below it: the directory's
/// name, a slash unless it is the root or ends in one, and the entry begin its path.
pub open spec fn lies_in(path: Seq<char>, dir: Seq<char>, e: Seq<char>) -> bool {
    let whole = if dir.len() == 0 || dir.last() == '/' {
        dir + e
    } else {
        dir + "/"@ + e
    };
    path == whole || (whole + "/"@).is_prefix_of(path)
}

/// A listing holds a name just where an asset, built in or registered, is or lies below an entry of
/// that name.
pub proof fn law_listed_entries(assets: Assets, dir: Seq<char>, e: Seq<char>)
    requires
        e.len() > 0,
        text::unbroken(e, '/', '/'),
    ensures
        assets.listing(dir).contains(e) <==> (exists|i: int|
            0 <= i < assets.embedded@.len() && lies_in(#[trigger] assets.embedded@[i]@, dir, e)) || (
        exists|i: int|
            0 <= i < assets.external@.len() && lies_in(
                #[trigger] assets.external@[i].0@,
                dir,
                e,
            )),
{
    law_listing(assets, dir);
    let prefix = dir_prefix(dir);
    let built_in = text::texts(assets.embedded@);
    let keys = assets.registrations();
    assert forall|path: Seq<char>| #[trigger] lies_in(path, dir, e) <==> entry_under(path, prefix)
        == Some(e) by {
        lemma_entry(path, prefix, e);
    }
    if is_entry(built_in, prefix, e) {
        let i = choose|i: int|
            0 <= i < built_in.len() && entry_under(#[trigger] built_in[i], prefix) == Some(e);
        assert(built_in[i] == assets.embedded@[i]@);
        assert(lies_in(assets.embedded@[i]@, dir, e));
    }
    if is_entry(keys, prefix, e) {
        let i = choose|i: int|
            0 <= i < keys.len() && entry_under(#[trigger] keys[i], prefix) == Some(e);
        assert(keys[i] == assets.external@[i].0@);
        assert(lies_in(assets.external@[i].0@, dir, e));
    }
    if exists|i: int|
        0 <= i < assets.embedded@.len() && lies_in(#[trigger] assets.embedded@[i]@, dir, e) {
        let i = choose|i: int|
            0 <= i < assets.embedded@.len() && lies_in(#[trigger] assets.embedded@[i]@, dir, e);
        assert(built_in[i] == assets.embedded@[i]@);
    }
    if exists|i: int|
        0 <= i < assets.external@.len() && lies_in(#[trigger] assets.external@[i].0@, dir, e) {
        let i = choose|i: int|
            0 <= i < assets.external@.len() && lies_in(#[trigger] assets.external@[i].0@, dir, e);
        assert(keys[i] == assets.external@[i].0@);
    }
}

/// A key stands for the file it was registered with last; one that never was stands for none.
pub proof fn law_last_registration_counts(v: Seq<(String, String)>, i: int, key: Seq<char>)
    requires
        -1 <= i < v.len(),
        i >= 0 ==> v[i].0@ == key,
        forall|j: int| i < j < v.len() ==> (#[trigger] v[j]).0@ != key,
    ensures
        registered(v).contains_key(key) <==> i >= 0,
        i >= 0 ==> registered(v)[key] == v[i].1@,
    decreases v.len(),
{
    if v.len() > 0 && i < v.len() - 1 {
        let front = v.drop_last();
        assert forall|j: int| i < j < front.len() implies (#[trigger] front[j]).0@ != key by {
            assert(front[j] == v[j]);
        }
        law_last_registration_counts(front, i, key);
        assert(v[v.len() - 1].0@ != key);
    }
}

/// What a hexadecimal digit is worth.
pub open spec fn digit_worth(c: char) -> int {
    if '0' <= c <= '9' {
        c as int - '0' as int
    } else {
        c as int - 'a' as int + 10
    }
}

/// The number that hexadecimal digits stand for.
pub open spec fn hex_number(s: Seq<char>) -> int
    decreases s.len(),
{
    if s.len() == 0 {
        0
    } else {
        16 * hex_number(s.drop_last()) + digit_worth(s.last())
    }
}

spec fn hex_limit(n: nat) -> nat
    decreases n,
{
    if n == 0 {
        1
    } else {
        16 * hex_limit((n - 1) as nat)
    }
}

proof fn lemma_hex(value: nat, n: nat)
    requires
        value < hex_limit(n),
    ensures
        hex(value, n).len() == n,
        hex_number(hex(value, n)) == value,
        forall|i: int|
            0 <= i < n ==> ('0' <= #[trigger] hex(value, n)[i] <= '9') || ('a' <= hex(value, n)[i]
                <= 'f'),
    decreases n,
{
    if n > 0 {
        let front = hex(value / 16, (n - 1) as nat);
        lemma_hex(value / 16, (n - 1) as nat);
        let d = (value % 16) as int;
        assert(hex(value, n).drop_last() =~= front);
        let c = hex_digit(d);
        assert(digit_worth(c) == d);
        assert(('0' <= c <= '9') || ('a' <= c <= 'f'));
        assert forall|i: int| 0 <= i < n implies ('0' <= #[trigger] hex(value, n)[i] <= '9') || (
        'a' <= hex(value, n)[i] <= 'f') by {
            if i < n - 1 {
                assert(hex(value, n)[i] == front[i]);
            }
        }
    }
}

/// The key for a hash is `external/`, the hash in sixteen hexadecimal digits, and `.svg`; so
/// different hashes have different keys.
pub proof fn law_keys_tell_hashes_apart(hash: u64, other: u64)
    ensures
        ({
            let key = key_for_hash(hash);
            &&& key.len() == 29
            &&& key.take(9) == "external/"@
            &&& key.skip(25) == ".svg"@
            &&& hex_number(key.subrange(9, 25)) == hash
            &&& forall|i: int|
                9 <= i < 25 ==> ('0' <= #[trigger] key[i] <= '9') || ('a' <= key[i] <= 'f')
        }),
        hash != other ==> key_for_hash(hash) != key_for_hash(other),
{
    reveal_strlit("external/");
    reveal_strlit(".svg");
    reveal_with_fuel(hex_limit, 17);
    lemma_hex(hash as nat, 16);
    lemma_hex(other as nat, 16);
    let (key, second) = (key_for_hash(hash), key_for_hash(other));
    let digits = hex(hash as nat, 16);
    assert(key.take(9) =~= "external/"@);
    assert(key.skip(25) =~= ".svg"@);
    assert(key.subrange(9, 25) =~= digits);
    assert(second.subrange(9, 25) =~= hex(other as nat, 16));
    assert forall|i: int| 9 <= i < 25 implies ('0' <= #[trigger] key[i] <= '9') || ('a' <= key[i]
        <= 'f') by {
        assert(key[i] == digits[i - 9]);
    }
}

/// The fonts of some files come before those of the files behind them, and a file is a font just
/// where its name ends in `.ttf`.
pub proof fn law_fonts(files: Seq<Seq<char>>, stem: Seq<char>, more: Seq<Seq<char>>)
    ensures
        font_files(files + more) == font_files(files) + font_files(more),
        font_files(seq![stem + ".ttf"@]) == seq![stem + ".ttf"@],
        (stem.len() < 4 || stem.skip(stem.len() - 4) != ".ttf"@) ==> font_files(seq![stem])
            == Seq::<Seq<char>>::empty(),
{
    let keep = |f: Seq<char>| ".ttf"@.is_suffix_of(f);
    Seq::filter_distributes_over_add(files, more, keep);
    reveal_strlit(".ttf");
    reveal(Seq::filter);
    let name = stem + ".ttf"@;
    assert(name.subrange(stem.len() as int, name.len() as int) =~= ".ttf"@);
    assert(seq![name].drop_last() =~= Seq::empty());
    assert(seq![name].drop_last().filter(keep) =~= Seq::empty());
    assert(font_files(seq![name]) =~= seq![name]);
    assert(seq![stem].drop_last() =~= Seq::empty());
    if stem.len() >= 4 {
        assert(stem.skip(stem.len() - 4) =~= stem.subrange(stem.len() - 4, stem.len() as int));
    }
    assert(font_files(seq![stem]) =~= (if ".ttf"@.is_suffix_of(stem) {
        seq![stem]
    } else {
        Seq::empty()
    }));
}

} // verus!
