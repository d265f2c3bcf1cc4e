//! The global shortcut: its notation, which key bindings are in force, and its registration.

use global_hotkey::hotkey::HotKey;
use vstd::prelude::*;

use crate::config::AppConfig;
use crate::text;
use crate::text::{ascii_lowercase_of, chars_of, join_all, same, split_chars, trimmed, words_of};

verus! {

/// The modifiers that `hyper` stands for.
pub open spec fn hyper_keys() -> Seq<Seq<char>> {
    seq!["shift"@, "control"@, "alt"@, "super"@]
}

/// The keys of a shortcut's parts: blank parts are dropped, and `hyper`, in upper or lower case,
/// becomes all four modifiers.
pub open spec fn keys_of(parts: Seq<Seq<char>>) -> Seq<Seq<char>>
    decreases parts.len(),
{
    if parts.len() == 0 {
        Seq::empty()
    } else {
        let earlier = keys_of(parts.drop_last());
        let key = text::trim(parts.last());
        if text::ascii_lowercase(key) == "hyper"@ {
            earlier + hyper_keys()
        } else if key.len() > 0 {
            earlier.push(key)
        } else {
            earlier
        }
    }
}

/// A shortcut written with `+` between its keys.
pub open spec fn expanded(binding: Seq<char>) -> Seq<char> {
    text::join(keys_of(text::split(binding, '+', '-')), "+"@)
}

/// Writes out `hyper` in a shortcut whose keys are set apart by `+` or `-`.
pub fn expand_hyper(binding: &str) -> (r: String)
    ensures
        r@ == expanded(binding@),
{
    let parts = split_chars(&chars_of(binding), '+', '-');
    let ghost all = text::texts(parts@);
    let mut tokens: Vec<String> = Vec::new();
    let mut i: usize = 0;
    assert(all.take(0) =~= Seq::empty());
    assert(text::texts(tokens@) =~= Seq::empty());
    while i < parts.len()
        invariant
            i <= parts.len(),
            all == text::texts(parts@),
            text::texts(tokens@) == keys_of(all.take(i as int)),
        decreases parts.len() - i,
    {
        let ghost before = text::texts(tokens@);
        assert(all.take(i + 1).drop_last() =~= all.take(i as int));
        assert(all.take(i + 1).last() == parts@[i as int]@);
        let token = trimmed(parts[i].as_str());
        if same(ascii_lowercase_of(token.as_str()).as_str(), "hyper") {
            tokens.push("shift".to_owned());
            tokens.push("control".to_owned());
            tokens.push("alt".to_owned());
            tokens.push("super".to_owned());
            assert(text::texts(tokens@) =~= before + hyper_keys());
        } else if chars_of(token.as_str()).len() > 0 {
            tokens.push(token);
            assert(text::texts(tokens@) =~= before.push(token@));
        }
        i += 1;
    }
    assert(all.take(i as int) =~= all);
    join_all(&tokens, "+")
}

/// Why a shortcut was refused.
#[derive(Debug, PartialEq, Eq)]
pub enum HotkeyError {
    /// The text holds more than one word.
    NotSingle { binding: String },
    /// The text is no shortcut; `problem` says why.
    Invalid { binding: String, problem: String },
}

/// What `HotKey`'s parser finds wrong with a shortcut.
pub uninterp spec fn hotkey_problem(shortcut: Seq<char>) -> Option<Seq<char>>;

/// Parses a shortcut with `global_hotkey`'s `FromStr` for `HotKey` and hands back the text of its
/// error, if it fails. The error is a function of the shortcut alone.
#[verifier::external_body]
fn shortcut_problem(shortcut: &str) -> (r: Option<String>)
    ensures
        text::opt_text(r) == hotkey_problem(shortcut@),
{
    shortcut.parse::<HotKey>().err().map(|err| err.to_string())
}

/// The outcome of reading a shortcut, when its parser finds `problem` in its written out form.
pub open spec fn hotkey_outcome(
    binding: Option<Seq<char>>,
    problem: Option<Seq<char>>,
) -> Result<Option<Seq<char>>, (Seq<char>, Option<Seq<char>>)> {
    match binding {
        None => Ok(None),
        Some(b) => if text::trim(b).len() == 0 {
            Ok(None)
        } else if text::words(text::trim(b)).len() != 1 {
            Err((b, None))
        } else if problem is Some {
            Err((b, problem))
        } else {
            Ok(Some(expanded(text::trim(b))))
        },
    }
}

/// An outcome in terms of texts: the shortcut, or the refused text with what was wrong with it.
pub open spec fn outcome_view(
    r: Result<Option<String>, HotkeyError>,
) -> Result<Option<Seq<char>>, (Seq<char>, Option<Seq<char>>)> {
    match r {
        Ok(shortcut) => Ok(text::opt_text(shortcut)),
        Err(HotkeyError::NotSingle { binding }) => Err((binding@, None)),
        Err(HotkeyError::Invalid { binding, problem }) => Err((binding@, Some(problem@))),
    }
}

/// Reads a shortcut up to its parser: blank texts are none, and it must be one word.
pub fn prepare_hotkey(binding: Option<&str>) -> (r: Result<Option<String>, HotkeyError>)
    ensures
        outcome_view(r) == hotkey_outcome(text::view_of(binding), None),
{
    let binding = match binding {
        None => return Ok(None),
        Some(b) => b,
    };
    let trim = trimmed(binding);
    if chars_of(trim.as_str()).len() == 0 {
        return Ok(None);
    }
    let words = words_of(trim.as_str());
    assert(text::texts(words@).len() == words@.len());
    if words.len() != 1 {
        return Err(HotkeyError::NotSingle { binding: binding.to_owned() });
    }
    Ok(Some(expand_hyper(trim.as_str())))
}

/// The outcome of reading a shortcut, given what its parser found wrong with its written out form.
pub fn settle_hotkey(
    binding: Option<&str>,
    problem: Option<String>,
) -> (r: Result<Option<String>, HotkeyError>)
    ensures
        outcome_view(r) == hotkey_outcome(text::view_of(binding), text::opt_text(problem)),
{
    match prepare_hotkey(binding) {
        Ok(Some(shortcut)) => match (binding, problem) {
            (Some(b), Some(problem)) => Err(
                HotkeyError::Invalid { binding: b.to_owned(), problem },
            ),
            _ => Ok(Some(shortcut)),
        },
        other => other,
    }
}

/// What the parser finds wrong with a shortcut, once it is one word and written out.
pub open spec fn problem_of(binding: Option<Seq<char>>) -> Option<Seq<char>> {
    match binding {
        Some(b) => hotkey_problem(expanded(text::trim(b))),
        None => None,
    }
}

/// Reads a shortcut: its written out form, nothing if it is blank, or why it is refused.
pub fn parse_hotkey(binding: Option<&str>) -> (r: Result<Option<String>, HotkeyError>)
    ensures
        outcome_view(r) == hotkey_outcome(text::view_of(binding), problem_of(text::view_of(binding))),
{
    let prepared = prepare_hotkey(binding);
    let problem = match &prepared {
        Ok(Some(shortcut)) => shortcut_problem(shortcut.as_str()),
        _ => None,
    };
    settle_hotkey(binding, problem)
}

/// What to do to the window's key bindings.
#[derive(Debug)]
pub struct KeyBindingPlan {
    /// Drop all bindings first.
    pub clear: bool,
    /// Bind the keys of the picker and its text field.
    pub bind_base: bool,
    /// Bind this shortcut to toggling the window.
    pub bind_toggle: Option<String>,
    /// Whether the configured shortcut could be read.
    pub accepted: bool,
}

/// The configured shortcut is bound as it was written, if it can be read and is not blank.
pub open spec fn bound_toggle(
    keybind: Option<Seq<char>>,
    outcome: Result<Option<Seq<char>>, (Seq<char>, Option<Seq<char>>)>,
) -> Option<Seq<char>> {
    match outcome {
        Ok(Some(_)) => keybind,
        _ => None,
    }
}

/// Plans the key bindings for a configuration whose shortcut was read with a given outcome. The
/// first time all bindings are set anew; afterwards they stay if the shortcut is refused.
pub fn plan_key_bindings(
    config: &AppConfig,
    outcome: &Result<Option<String>, HotkeyError>,
    replace: bool,
) -> (r: KeyBindingPlan)
    ensures
        r.accepted == (outcome is Ok),
        r.clear == (if outcome is Ok {
            replace
        } else {
            !replace
        }),
        r.bind_base == (outcome is Ok || !replace),
        text::opt_text(r.bind_toggle) == bound_toggle(
            text::opt_text(config.global_keybind),
            outcome_view(*outcome),
        ),
{
    match outcome {
        Ok(shortcut) => {
            let bind_toggle = match shortcut {
                Some(_) => text::copy_opt(&config.global_keybind),
                None => None,
            };
            KeyBindingPlan { clear: replace, bind_base: true, bind_toggle, accepted: true }
        },
        Err(_) => KeyBindingPlan {
            clear: !replace,
            bind_base: !replace,
            bind_toggle: None,
            accepted: false,
        },
    }
}

/// Plans the key bindings for a configuration.
pub fn apply_key_bindings(config: &AppConfig, replace: bool) -> (r: KeyBindingPlan)
    ensures
        ({
            let keybind = text::opt_text(config.global_keybind);
            let outcome = hotkey_outcome(keybind, problem_of(keybind));
            &&& r.accepted == (outcome is Ok)
            &&& r.clear == (if outcome is Ok {
                replace
            } else {
                !replace
            })
            &&& r.bind_base == (outcome is Ok || !replace)
            &&& text::opt_text(r.bind_toggle) == bound_toggle(keybind, outcome)
        }),
{
    let keybind = match &config.global_keybind {
        Some(b) => Some(b.as_str()),
        None => None,
    };
    let outcome = parse_hotkey(keybind);
    plan_key_bindings(config, &outcome, replace)
}

/// A change of the shortcut that is registered with the system. Shortcuts are known by their
/// number.
#[derive(Debug, PartialEq, Eq, Structural)]
pub struct RegistrationPlan {
    /// The shortcut to take back first.
    pub unregister: Option<u32>,
    /// The shortcut to register then.
    pub register: Option<u32>,
    /// What is registered before `register` has succeeded.
    pub registered: Option<u32>,
}

/// How to come from the registered shortcut to the wanted one. Without a manager nothing changes;
/// a shortcut that is registered already is left alone.
pub open spec fn registration(
    wanted: Option<u32>,
    has_manager: bool,
    registered: Option<u32>,
) -> RegistrationPlan {
    if !has_manager || wanted == registered {
        RegistrationPlan { unregister: None, register: None, registered }
    } else {
        RegistrationPlan { unregister: registered, register: wanted, registered: None }
    }
}

pub fn register_global_hotkey(
    wanted: Option<u32>,
    has_manager: bool,
    registered: Option<u32>,
) -> (r: RegistrationPlan)
    ensures
        r == registration(wanted, has_manager, registered),
{
    let unchanged = match (wanted, registered) {
        (Some(a), Some(b)) => a == b,
        (None, None) => true,
        _ => false,
    };
    if !has_manager || unchanged {
        RegistrationPlan { unregister: None, register: None, registered }
    } else {
        RegistrationPlan { unregister: registered, register: wanted, registered: None }
    }
}

/// What follows once registering was tried: the shortcut to register again, and the one that is
/// registered afterwards.
pub open spec fn registration_end(
    plan: RegistrationPlan,
    succeeded: bool,
) -> (Option<u32>, Option<u32>) {
    if plan.register is None {
        (None, plan.registered)
    } else if succeeded {
        (None, plan.register)
    } else {
        (plan.unregister, plan.unregister)
    }
}

pub fn finish_registration(plan: &RegistrationPlan, succeeded: bool) -> (r: (
    Option<u32>,
    Option<u32>,
))
    ensures
        r == registration_end(*plan, succeeded),
{
    match plan.register {
        None => (None, plan.registered),
        Some(wanted) => if succeeded {
            (None, Some(wanted))
        } else {
            (plan.unregister, plan.unregister)
        },
    }
}

/// With a manager, the wanted shortcut is registered in the end if the system takes it, and the
/// one from before if not. Without one nothing changes.
pub proof fn law_registration(
    wanted: Option<u32>,
    has_manager: bool,
    registered: Option<u32>,
    succeeded: bool,
)
    ensures
        ({
            let plan = registration(wanted, has_manager, registered);
            let after = registration_end(plan, succeeded).1;
            if !has_manager {
                after == registered
            } else if succeeded || wanted is None {
                after == wanted
            } else {
                after == registered
            }
        }),
{
}

/// `hyper` is a shorthand: it can be written in place of the four modifiers.
pub proof fn law_hyper_is_shorthand(before: Seq<Seq<char>>, after: Seq<Seq<char>>)
    ensures
        keys_of(before.push("hyper"@) + after) == keys_of(before + hyper_keys() + after),
{
    lemma_keys_concat(before.push("hyper"@), after);
    lemma_keys_concat(before + hyper_keys(), after);
    assert(before.push("hyper"@).drop_last() =~= before);
    lemma_literal_keys();
    let keys = hyper_keys();
    let b1 = before.push(keys[0]);
    let b2 = b1.push(keys[1]);
    let b3 = b2.push(keys[2]);
    let b4 = b3.push(keys[3]);
    assert(b1.drop_last() =~= before);
    assert(b2.drop_last() =~= b1);
    assert(b3.drop_last() =~= b2);
    assert(b4.drop_last() =~= b3);
    assert(b4 =~= before + keys);
    assert(keys_of(b1) == keys_of(before).push(keys[0]));
    assert(keys_of(b2) == keys_of(b1).push(keys[1]));
    assert(keys_of(b3) == keys_of(b2).push(keys[2]));
    assert(keys_of(b4) == keys_of(b3).push(keys[3]));
    assert(keys_of(b4) =~= keys_of(before) + keys);
}

proof fn lemma_literal_keys()
    ensures
        text::ascii_lowercase(text::trim("hyper"@)) == "hyper"@,
        forall|i: int|
            0 <= i < 4 ==> text::trim(#[trigger] hyper_keys()[i]) == hyper_keys()[i]
                && text::ascii_lowercase(hyper_keys()[i]) != "hyper"@ && hyper_keys()[i].len() > 0,
{
    reveal_strlit("hyper");
    reveal_strlit("shift");
    reveal_strlit("control");
    reveal_strlit("alt");
    reveal_strlit("super");
    text::lemma_trim_fixed("hyper"@);
    assert(text::ascii_lowercase("hyper"@) =~= "hyper"@);
    assert forall|i: int| 0 <= i < 4 implies text::trim(#[trigger] hyper_keys()[i])
        == hyper_keys()[i] && text::ascii_lowercase(hyper_keys()[i]) != "hyper"@
        && hyper_keys()[i].len() > 0 by {
        let key = hyper_keys()[i];
        text::lemma_trim_fixed(key);
        assert(text::ascii_lowercase(key)[0] == text::ascii_lower(key[0]));
        assert("hyper"@[0] == 'h');
    }
}

proof fn lemma_keys_concat(a: Seq<Seq<char>>, b: Seq<Seq<char>>)
    ensures
        keys_of(a + b) == keys_of(a) + keys_of(b),
    decreases b.len(),
{
    if b.len() == 0 {
        assert(a + b =~= a);
        assert(keys_of(a) + keys_of(b) =~= keys_of(a));
    } else {
        assert((a + b).drop_last() =~= a + b.drop_last());
        lemma_keys_concat(a, b.drop_last());
        assert(keys_of(a + b) =~= keys_of(a) + keys_of(b));
    }
}

/// A key as it stands in a written out shortcut: neither blank nor `hyper`, without white space
/// around it, and without separators.
pub open spec fn is_plain_key(key: Seq<char>) -> bool {
    &&& key.len() > 0
    &&& text::trim(key) == key
    &&& text::ascii_lowercase(key) != "hyper"@
    &&& text::unbroken(key, '+', '-')
}

proof fn lemma_hyper_keys_plain()
    ensures
        forall|i: int| 0 <= i < 4 ==> is_plain_key(#[trigger] hyper_keys()[i]),
{
    lemma_literal_keys();
    reveal_strlit("shift");
    reveal_strlit("control");
    reveal_strlit("alt");
    reveal_strlit("super");
    assert forall|i: int| 0 <= i < 4 implies is_plain_key(#[trigger] hyper_keys()[i]) by {
        let key = hyper_keys()[i];
        assert(text::unbroken(key, '+', '-'));
    }
}

/// The keys of unbroken parts are plain.
proof fn lemma_keys_are_plain(parts: Seq<Seq<char>>)
    requires
        forall|k: int| 0 <= k < parts.len() ==> text::unbroken(#[trigger] parts[k], '+', '-'),
    ensures
        forall|k: int| 0 <= k < keys_of(parts).len() ==> is_plain_key(#[trigger] keys_of(parts)[k]),
    decreases parts.len(),
{
    if parts.len() > 0 {
        let front = parts.drop_last();
        assert forall|k: int| 0 <= k < front.len() implies text::unbroken(
            #[trigger] front[k],
            '+',
            '-',
        ) by {
            assert(front[k] == parts[k]);
        }
        lemma_keys_are_plain(front);
        lemma_hyper_keys_plain();
        let last = parts.last();
        let key = text::trim(last);
        assert(text::unbroken(parts[parts.len() - 1], '+', '-'));
        let (a, b) = text::lemma_trim_range(last);
        assert(text::unbroken(key, '+', '-'));
        text::lemma_trim_fixed(key);
        let earlier = keys_of(front);
        let keys = keys_of(parts);
        assert forall|k: int| 0 <= k < keys.len() implies is_plain_key(#[trigger] keys[k]) by {
            if k < earlier.len() {
                assert(keys[k] == earlier[k]);
            } else if text::ascii_lowercase(key) == "hyper"@ {
                assert(keys[k] == hyper_keys()[k - earlier.len()]);
            }
        }
    }
}

/// Plain keys are their own keys.
proof fn lemma_plain_keys_stay(keys: Seq<Seq<char>>)
    requires
        forall|k: int| 0 <= k < keys.len() ==> is_plain_key(#[trigger] keys[k]),
    ensures
        keys_of(keys) == keys,
    decreases keys.len(),
{
    if keys.len() > 0 {
        let front = keys.drop_last();
        assert forall|k: int| 0 <= k < front.len() implies is_plain_key(#[trigger] front[k]) by {
            assert(front[k] == keys[k]);
        }
        lemma_plain_keys_stay(front);
        assert(is_plain_key(keys[keys.len() - 1]));
        assert(front.push(keys.last()) =~= keys);
    }
}

proof fn lemma_plus()
    ensures
        "+"@ == seq!['+'],
{
    reveal_strlit("+");
    assert("+"@ =~= seq!['+']);
}

/// A written out shortcut has only plain keys, and writing it out once more changes nothing.
pub proof fn law_expansion_is_final(binding: Seq<char>)
    ensures
        expanded(expanded(binding)) == expanded(binding),
        expanded(binding).len() > 0 ==> forall|k: int|
            0 <= k < text::split(expanded(binding), '+', '+').len() ==> is_plain_key(
                #[trigger] text::split(expanded(binding), '+', '+')[k],
            ),
{
    lemma_plus();
    let parts = text::split(binding, '+', '-');
    let keys = keys_of(parts);
    text::lemma_split_unbroken(binding, '+', '-');
    lemma_keys_are_plain(parts);
    if keys.len() == 0 {
        let none = Seq::<char>::empty();
        assert(expanded(binding) =~= none);
        assert(text::split(none, '+', '-') =~= seq![none]);
        text::lemma_split_unbroken(none, '+', '-');
        assert(text::trim(none) =~= none);
        reveal_strlit("hyper");
        assert(text::ascii_lowercase(none).len() == 0);
        assert(seq![none].drop_last() =~= Seq::empty());
        assert(keys_of(Seq::<Seq<char>>::empty()) =~= Seq::empty());
        assert(seq![none].last() == none);
        assert(keys_of(seq![none]) =~= Seq::empty());
    } else {
        assert forall|k: int| 0 <= k < keys.len() implies text::unbroken(
            #[trigger] keys[k],
            '+',
            '-',
        ) && text::unbroken(keys[k], '+', '+') by {
            assert(is_plain_key(keys[k]));
        }
        text::lemma_split_join(keys, '+', '-');
        text::lemma_split_join(keys, '+', '+');
        lemma_plain_keys_stay(keys);
    }
}

proof fn lemma_join_unspaced(parts: Seq<Seq<char>>)
    requires
        forall|k: int, i: int|
            0 <= k < parts.len() && 0 <= i < parts[k].len() ==> !text::is_white(
                #[trigger] parts[k][i],
            ),
    ensures
        forall|i: int|
            0 <= i < text::join(parts, seq!['+']).len() ==> !text::is_white(
                #[trigger] text::join(parts, seq!['+'])[i],
            ),
    decreases parts.len(),
{
    if parts.len() >= 2 {
        let front = parts.drop_last();
        assert forall|k: int, i: int|
            0 <= k < front.len() && 0 <= i < front[k].len() implies !text::is_white(
            #[trigger] front[k][i],
        ) by {
            assert(front[k] == parts[k]);
            assert(!text::is_white(parts[k][i]));
        }
        lemma_join_unspaced(front);
        let head = text::join(front, seq!['+']);
        let whole = text::join(parts, seq!['+']);
        assert(whole == head + seq!['+'] + parts.last());
        assert forall|i: int| 0 <= i < whole.len() implies !text::is_white(#[trigger] whole[i]) by {
            if i < head.len() {
                assert(whole[i] == head[i]);
            } else if i > head.len() {
                let n = parts.len() - 1;
                assert(whole[i] == parts[n][i - head.len() - 1]);
            }
        }
    } else if parts.len() == 1 {
        assert forall|i: int| 0 <= i < parts[0].len() implies !text::is_white(
            #[trigger] parts[0][i],
        ) by {}
    }
}

/// The characters of a part come from the text.
proof fn lemma_parts_unspaced(s: Seq<char>)
    requires
        forall|i: int| 0 <= i < s.len() ==> !text::is_white(#[trigger] s[i]),
    ensures
        forall|k: int, i: int|
            0 <= k < text::split(s, '+', '-').len() && 0 <= i < text::split(s, '+', '-')[k].len()
                ==> !text::is_white(#[trigger] text::split(s, '+', '-')[k][i]),
    decreases s.len(),
{
    let at = text::first_of(s, '+', '-');
    text::lemma_first_of(s, '+', '-');
    let parts = text::split(s, '+', '-');
    if at < s.len() {
        let rest = s.skip(at + 1);
        lemma_parts_unspaced(rest);
        assert(parts == seq![s.take(at)] + text::split(rest, '+', '-'));
        assert forall|k: int, i: int|
            0 <= k < parts.len() && 0 <= i < parts[k].len() implies !text::is_white(
            #[trigger] parts[k][i],
        ) by {
            if k > 0 {
                assert(parts[k] == text::split(rest, '+', '-')[k - 1]);
                assert(!text::is_white(text::split(rest, '+', '-')[k - 1][i]));
            } else {
                assert(parts[k][i] == s[i]);
            }
        }
    } else {
        assert(parts =~= seq![s]);
    }
}

/// A shortcut of one word with `hyper` in it, and the one with the four modifiers in its place and
/// `+` between all keys, are both read as the same shortcut, or both are refused.
pub proof fn law_hyper_is_read_as_modifiers(
    binding: Seq<char>,
    before: Seq<Seq<char>>,
    hyper: Seq<char>,
    after: Seq<Seq<char>>,
)
    requires
        text::words(text::trim(binding)).len() == 1,
        text::split(text::trim(binding), '+', '-') == before.push(hyper) + after,
        text::ascii_lowercase(hyper) == "hyper"@,
    ensures
        ({
            let written = text::join(before + hyper_keys() + after, "+"@);
            let short = hotkey_outcome(Some(binding), problem_of(Some(binding)));
            let long = hotkey_outcome(Some(written), problem_of(Some(written)));
            &&& short is Ok <==> long is Ok
            &&& short is Ok ==> short == long && short->Ok_0 is Some
        }),
{
    lemma_plus();
    let t = text::trim(binding);
    let tokens = before.push(hyper) + after;
    let spelled = before + hyper_keys() + after;
    let written = text::join(spelled, seq!['+']);
    let _ = text::lemma_trim_range(binding);
    text::lemma_trim_fixed(t);
    text::lemma_single_word(t);
    lemma_parts_unspaced(t);
    text::lemma_split_unbroken(t, '+', '-');
    lemma_hyper_keys_plain();
    let n = before.len() as int;
    assert forall|k: int| 0 <= k < spelled.len() implies text::unbroken(
        #[trigger] spelled[k],
        '+',
        '-',
    ) by {
        if k < n {
            assert(spelled[k] == tokens[k]);
        } else if k < n + 4 {
            assert(spelled[k] == hyper_keys()[k - n]);
        } else {
            assert(spelled[k] == tokens[k - 3]);
        }
    }
    lemma_hyper_keys_unspaced();
    assert forall|k: int, i: int|
        0 <= k < spelled.len() && 0 <= i < spelled[k].len() implies !text::is_white(
        #[trigger] spelled[k][i],
    ) by {
        if k < n {
            assert(spelled[k] == tokens[k]);
            assert(!text::is_white(tokens[k][i]));
        } else if k < n + 4 {
            assert(spelled[k] == hyper_keys()[k - n]);
            assert(!text::is_white(hyper_keys()[k - n][i]));
        } else {
            assert(spelled[k] == tokens[k - 3]);
            assert(!text::is_white(tokens[k - 3][i]));
        }
    }
    lemma_join_unspaced(spelled);
    text::lemma_split_join(spelled, '+', '-');
    assert(written.len() > 0) by {
        if written.len() == 0 {
            assert(text::split(written, '+', '-') =~= seq![written]);
            assert(spelled.len() >= 4);
        }
    }
    text::lemma_unspaced_word(written);
    lemma_hyper_token(before, hyper, after);
    assert(expanded(written) == expanded(t));
}

proof fn lemma_hyper_keys_unspaced()
    ensures
        forall|k: int, i: int|
            0 <= k < 4 && 0 <= i < hyper_keys()[k].len() ==> !text::is_white(
                #[trigger] hyper_keys()[k][i],
            ),
{
    reveal_strlit("shift");
    reveal_strlit("control");
    reveal_strlit("alt");
    reveal_strlit("super");
}

/// A token that is `hyper` in upper or lower case counts like `hyper`.
proof fn lemma_hyper_token(before: Seq<Seq<char>>, hyper: Seq<char>, after: Seq<Seq<char>>)
    requires
        text::ascii_lowercase(hyper) == "hyper"@,
    ensures
        keys_of(before.push(hyper) + after) == keys_of(before + hyper_keys() + after),
{
    law_hyper_is_shorthand(before, after);
    lemma_keys_concat(before.push(hyper), after);
    lemma_keys_concat(before.push("hyper"@), after);
    assert(before.push(hyper).drop_last() =~= before);
    assert(before.push("hyper"@).drop_last() =~= before);
    lemma_literal_keys();
    reveal_strlit("hyper");
    assert(hyper.len() == 5);
    assert(text::ascii_lower(hyper[0]) == 'h') by {
        assert(text::ascii_lowercase(hyper)[0] == text::ascii_lower(hyper[0]));
    }
    assert(text::ascii_lower(hyper[4]) == 'r') by {
        assert(text::ascii_lowercase(hyper)[4] == text::ascii_lower(hyper[4]));
    }
    text::lemma_trim_fixed(hyper);
}

/// A shortcut of plain keys keeps them in their order, whether plus or minus signs stand between
/// them; plus signs stand between them afterwards.
pub proof fn law_plain_shortcuts_stay(keys: Seq<Seq<char>>)
    requires
        keys.len() > 0,
        forall|k: int| 0 <= k < keys.len() ==> is_plain_key(#[trigger] keys[k]),
    ensures
        expanded(text::join(keys, "+"@)) == text::join(keys, "+"@),
        expanded(text::join(keys, "-"@)) == text::join(keys, "+"@),
{
    lemma_plus();
    reveal_strlit("-");
    assert("-"@ =~= seq!['-']);
    assert forall|k: int| 0 <= k < keys.len() implies text::unbroken(#[trigger] keys[k], '+', '-')
        && text::unbroken(keys[k], '-', '+') by {
        assert(is_plain_key(keys[k]));
    }
    text::lemma_split_join(keys, '+', '-');
    text::lemma_split_join(keys, '-', '+');
    lemma_plain_keys_stay(keys);
    lemma_split_either(text::join(keys, seq!['-']));
}

proof fn lemma_split_either(s: Seq<char>)
    ensures
        text::split(s, '+', '-') == text::split(s, '-', '+'),
    decreases s.len(),
{
    let i = text::first_of(s, '-', '+');
    text::lemma_first_of(s, '-', '+');
    text::lemma_first_of_is(s, '+', '-', i);
    if i < s.len() {
        lemma_split_either(s.skip(i + 1));
    }
}

/// Where `hyper` stands among plain keys, in upper or lower case, the four modifiers stand in its
/// place in the written out shortcut, and the other keys stay where they are.
pub proof fn law_hyper_is_written_out(
    before: Seq<Seq<char>>,
    hyper: Seq<char>,
    after: Seq<Seq<char>>,
)
    requires
        text::ascii_lowercase(hyper) == "hyper"@,
        forall|k: int| 0 <= k < before.len() ==> is_plain_key(#[trigger] before[k]),
        forall|k: int| 0 <= k < after.len() ==> is_plain_key(#[trigger] after[k]),
    ensures
        expanded(text::join(before.push(hyper) + after, "+"@)) == text::join(
            before + seq!["shift"@, "control"@, "alt"@, "super"@] + after,
            "+"@,
        ),
{
    lemma_plus();
    let parts = before.push(hyper) + after;
    let keys = before + hyper_keys() + after;
    reveal_strlit("hyper");
    assert(hyper.len() == 5) by {
        assert(text::ascii_lowercase(hyper).len() == hyper.len());
    }
    assert(text::unbroken(hyper, '+', '-')) by {
        assert forall|i: int| 0 <= i < hyper.len() implies #[trigger] hyper[i] != '+' && hyper[i]
            != '-' by {
            assert(text::ascii_lowercase(hyper)[i] == text::ascii_lower(hyper[i]));
        }
    }
    assert forall|k: int| 0 <= k < parts.len() implies text::unbroken(
        #[trigger] parts[k],
        '+',
        '-',
    ) by {
        if k < before.len() {
            assert(parts[k] == before[k]);
        } else if k > before.len() {
            assert(parts[k] == after[k - before.len() - 1]);
        }
    }
    text::lemma_split_join(parts, '+', '-');
    lemma_hyper_token(before, hyper, after);
    lemma_hyper_keys_plain();
    assert forall|k: int| 0 <= k < keys.len() implies is_plain_key(#[trigger] keys[k]) by {
        if k < before.len() {
            assert(keys[k] == before[k]);
        } else if k < before.len() + 4 {
            assert(keys[k] == hyper_keys()[k - before.len()]);
        } else {
            assert(keys[k] == after[k - before.len() - 4]);
        }
    }
    lemma_plain_keys_stay(keys);
}

/// A blank shortcut is none; one of several words and one that its parser finds fault with are
/// refused, with the text as it was written; any other is read.
pub proof fn law_hotkey_outcomes(b: Seq<char>, problem: Option<Seq<char>>)
    ensures
        hotkey_outcome(None, problem) == Ok::<
            Option<Seq<char>>,
            (Seq<char>, Option<Seq<char>>),
        >(None),
        text::all_white(b) ==> hotkey_outcome(Some(b), problem) == Ok::<
            Option<Seq<char>>,
            (Seq<char>, Option<Seq<char>>),
        >(None),
        !text::all_white(b) && text::words(b).len() > 1 ==> hotkey_outcome(Some(b), problem)
            == Err::<Option<Seq<char>>, (Seq<char>, Option<Seq<char>>)>((b, None)),
        text::words(b).len() == 1 && problem is Some ==> hotkey_outcome(Some(b), problem) == Err::<
            Option<Seq<char>>,
            (Seq<char>, Option<Seq<char>>),
        >((b, problem)),
        text::words(b).len() == 1 && problem is None ==> hotkey_outcome(Some(b), problem) == Ok::<
            Option<Seq<char>>,
            (Seq<char>, Option<Seq<char>>),
        >(Some(expanded(text::trim(b)))),
{
    text::lemma_trim_words(b);
    let (x, y) = text::lemma_trim_range(b);
    if text::all_white(b) && text::trim(b).len() > 0 {
        assert(text::trim(b)[0] == b[x]);
    }
    if !text::all_white(b) {
        let i = choose|i: int| 0 <= i < b.len() && !text::is_white(#[trigger] b[i]);
        text::lemma_trim_keeps(b, i);
    }
    if text::words(b).len() == 1 {
        let word = text::words(b)[0];
        text::lemma_words_nonempty(b);
        text::lemma_word_from_text(b, 0, word[0]);
        let i = choose|i: int| 0 <= i < b.len() && b[i] == word[0];
        text::lemma_trim_keeps(b, i);
    }
}

/// A shortcut is bound just where it is one word that its parser takes, and then as it was written.
pub proof fn law_bound_as_written(b: Seq<char>, problem: Option<Seq<char>>)
    ensures
        bound_toggle(Some(b), hotkey_outcome(Some(b), problem)) == (if text::words(b).len() == 1
            && problem is None {
            Some(b)
        } else {
            None
        }),
        bound_toggle(None, hotkey_outcome(None, problem)) is None,
{
    law_hotkey_outcomes(b, problem);
    if text::all_white(b) && text::words(b).len() == 1 {
        text::lemma_words_nonempty(b);
        let c = text::words(b)[0][0];
        text::lemma_word_from_text(b, 0, c);
    }
}

/// A shortcut that is registered already is neither taken back nor registered again; another one
/// takes its place.
pub proof fn law_shortcuts_are_registered_once(wanted: Option<u32>, registered: Option<u32>)
    ensures
        ({
            let plan = registration(wanted, true, registered);
            &&& wanted == registered ==> plan.unregister is None && plan.register is None
                && plan.registered == registered
            &&& wanted != registered ==> plan.unregister == registered && plan.register == wanted
                && plan.registered is None
        }),
        ({
            let plan = registration(wanted, false, registered);
            plan.unregister is None && plan.register is None && plan.registered == registered
        }),
{
}

proof fn lemma_join_ends(keys: Seq<Seq<char>>, sep: Seq<char>)
    requires
        keys.len() > 0,
        forall|k: int| 0 <= k < keys.len() ==> (#[trigger] keys[k]).len() > 0,
    ensures
        text::join(keys, sep).len() > 0,
        text::join(keys, sep)[0] == keys[0][0],
        text::join(keys, sep).last() == keys.last().last(),
    decreases keys.len(),
{
    assert(keys[keys.len() - 1].len() > 0);
    if keys.len() > 1 {
        let front = keys.drop_last();
        assert forall|k: int| 0 <= k < front.len() implies (#[trigger] front[k]).len() > 0 by {
            assert(front[k] == keys[k]);
        }
        lemma_join_ends(front, sep);
    }
}

/// The parser gets the keys with plus signs between them, and nothing of the white space around
/// the shortcut.
pub proof fn law_parser_gets_the_keys(keys: Seq<Seq<char>>, before: Seq<char>, after: Seq<char>)
    requires
        keys.len() > 0,
        forall|k: int| 0 <= k < keys.len() ==> is_plain_key(#[trigger] keys[k]),
        text::all_white(before),
        text::all_white(after),
    ensures
        problem_of(Some(before + text::join(keys, "+"@) + after)) == hotkey_problem(
            text::join(keys, "+"@),
        ),
        problem_of(Some(before + text::join(keys, "-"@) + after)) == hotkey_problem(
            text::join(keys, "+"@),
        ),
        problem_of(None) is None,
{
    law_plain_shortcuts_stay(keys);
    assert forall|k: int| 0 <= k < keys.len() implies (#[trigger] keys[k]).len() > 0 by {
        assert(is_plain_key(keys[k]));
    }
    lemma_join_ends(keys, "+"@);
    lemma_join_ends(keys, "-"@);
    lemma_key_ends(keys[0]);
    lemma_key_ends(keys[keys.len() - 1]);
    text::lemma_trim_around(before, text::join(keys, "+"@), after);
    text::lemma_trim_around(before, text::join(keys, "-"@), after);
}

proof fn lemma_key_ends(key: Seq<char>)
    requires
        is_plain_key(key),
    ensures
        !text::is_white(key[0]),
        !text::is_white(key.last()),
{
    text::lemma_trim_ends(key);
}

} // verus!
