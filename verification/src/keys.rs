//! The keys of the picker and its text field.

use vstd::prelude::*;

verus! {

/// What a key does.
#[derive(Debug, Clone, Copy, PartialEq, Eq, Structural)]
pub enum KeyAction {
    Quit,
    OpenSelected,
    SelectPrev,
    SelectNext,
    ToggleSelected,
    ToggleSelectAll,
    ShiftTab,
    CyclePreviousQuery,
    PreviewScrollUp,
    PreviewScrollDown,
    SwitchFiles,
    SwitchGrep,
    FieldBackspace,
    FieldDelete,
    FieldLeft,
    FieldRight,
    FieldSelectLeft,
    FieldSelectRight,
    FieldSelectAll,
    FieldPaste,
    FieldCopy,
    FieldCut,
    FieldHome,
    FieldEnd,
}

/// The keys that are always bound, each with what it does.
pub open spec fn base_keys() -> Seq<(Seq<char>, KeyAction)> {
    seq![
        ("escape"@, KeyAction::Quit),
        ("enter"@, KeyAction::OpenSelected),
        ("return"@, KeyAction::OpenSelected),
        ("up"@, KeyAction::SelectPrev),
        ("down"@, KeyAction::SelectNext),
        ("tab"@, KeyAction::ToggleSelected),
        ("ctrl-a"@, KeyAction::ToggleSelectAll),
        ("shift-tab"@, KeyAction::ShiftTab),
        ("ctrl-up"@, KeyAction::CyclePreviousQuery),
        ("ctrl-u"@, KeyAction::PreviewScrollUp),
        ("ctrl-d"@, KeyAction::PreviewScrollDown),
        ("ctrl-f"@, KeyAction::SwitchFiles),
        ("ctrl-g"@, KeyAction::SwitchGrep),
        ("backspace"@, KeyAction::FieldBackspace),
        ("delete"@, KeyAction::FieldDelete),
        ("left"@, KeyAction::FieldLeft),
        ("right"@, KeyAction::FieldRight),
        ("shift-left"@, KeyAction::FieldSelectLeft),
        ("shift-right"@, KeyAction::FieldSelectRight),
        ("cmd-a"@, KeyAction::FieldSelectAll),
        ("cmd-v"@, KeyAction::FieldPaste),
        ("cmd-c"@, KeyAction::FieldCopy),
        ("cmd-x"@, KeyAction::FieldCut),
        ("home"@, KeyAction::FieldHome),
        ("end"@, KeyAction::FieldEnd),
    ]
}

pub open spec fn keys_view(v: Seq<(&'static str, KeyAction)>) -> Seq<(Seq<char>, KeyAction)> {
    v.map_values(|p: (&'static str, KeyAction)| (p.0@, p.1))
}

/// The keys that are always bound.
pub fn base_key_bindings() -> (r: Vec<(&'static str, KeyAction)>)
    ensures
        keys_view(r@) == base_keys(),
{
    let mut r: Vec<(&'static str, KeyAction)> = Vec::new();
    r.push(("escape", KeyAction::Quit));
    r.push(("enter", KeyAction::OpenSelected));
    r.push(("return", KeyAction::OpenSelected));
    r.push(("up", KeyAction::SelectPrev));
    r.push(("down", KeyAction::SelectNext));
    r.push(("tab", KeyAction::ToggleSelected));
    r.push(("ctrl-a", KeyAction::ToggleSelectAll));
    r.push(("shift-tab", KeyAction::ShiftTab));
    r.push(("ctrl-up", KeyAction::CyclePreviousQuery));
    r.push(("ctrl-u", KeyAction::PreviewScrollUp));
    r.push(("ctrl-d", KeyAction::PreviewScrollDown));
    r.push(("ctrl-f", KeyAction::SwitchFiles));
    r.push(("ctrl-g", KeyAction::SwitchGrep));
    r.push(("backspace", KeyAction::FieldBackspace));
    r.push(("delete", KeyAction::FieldDelete));
    r.push(("left", KeyAction::FieldLeft));
    r.push(("right", KeyAction::FieldRight));
    r.push(("shift-left", KeyAction::FieldSelectLeft));
    r.push(("shift-right", KeyAction::FieldSelectRight));
    r.push(("cmd-a", KeyAction::FieldSelectAll));
    r.push(("cmd-v", KeyAction::FieldPaste));
    r.push(("cmd-c", KeyAction::FieldCopy));
    r.push(("cmd-x", KeyAction::FieldCut));
    r.push(("home", KeyAction::FieldHome));
    r.push(("end", KeyAction::FieldEnd));
    assert(keys_view(r@) =~= base_keys());
    r
}

/// No key is bound twice.
pub proof fn law_keys_are_distinct(i: int, j: int)
    requires
        0 <= i < j < base_keys().len(),
    ensures
        base_keys()[i].0 != base_keys()[j].0,
{
    reveal_strlit("escape");
    reveal_strlit("enter");
    reveal_strlit("return");
    reveal_strlit("up");
    reveal_strlit("down");
    reveal_strlit("tab");
    reveal_strlit("ctrl-a");
    reveal_strlit("shift-tab");
    reveal_strlit("ctrl-up");
    reveal_strlit("ctrl-u");
    reveal_strlit("ctrl-d");
    reveal_strlit("ctrl-f");
    reveal_strlit("ctrl-g");
    reveal_strlit("backspace");
    reveal_strlit("delete");
    reveal_strlit("left");
    reveal_strlit("right");
    reveal_strlit("shift-left");
    reveal_strlit("shift-right");
    reveal_strlit("cmd-a");
    reveal_strlit("cmd-v");
    reveal_strlit("cmd-c");
    reveal_strlit("cmd-x");
    reveal_strlit("home");
    reveal_strlit("end");
    let a = base_keys()[i].0;
    let b = base_keys()[j].0;
    if a == b {
        assert(a.len() == b.len());
        assert(a[0] == b[0] && a[1] == b[1]);
        assert(a[a.len() - 1] == b[b.len() - 1]);
    }
}

/// A key is bound to an action.
pub open spec fn does(key: Seq<char>, action: KeyAction) -> bool {
    exists|i: int| 0 <= i < base_keys().len() && #[trigger] base_keys()[i] == (key, action)
}

/// What each key does; no other key is bound.
pub proof fn law_what_keys_do()
    ensures
        base_keys().len() == 25,
        does("escape"@, KeyAction::Quit),
        does("enter"@, KeyAction::OpenSelected),
        does("return"@, KeyAction::OpenSelected),
        does("up"@, KeyAction::SelectPrev),
        does("down"@, KeyAction::SelectNext),
        does("tab"@, KeyAction::ToggleSelected),
        does("ctrl-a"@, KeyAction::ToggleSelectAll),
        does("shift-tab"@, KeyAction::ShiftTab),
        does("ctrl-up"@, KeyAction::CyclePreviousQuery),
        does("ctrl-u"@, KeyAction::PreviewScrollUp),
        does("ctrl-d"@, KeyAction::PreviewScrollDown),
        does("ctrl-f"@, KeyAction::SwitchFiles),
        does("ctrl-g"@, KeyAction::SwitchGrep),
        does("backspace"@, KeyAction::FieldBackspace),
        does("delete"@, KeyAction::FieldDelete),
        does("left"@, KeyAction::FieldLeft),
        does("right"@, KeyAction::FieldRight),
        does("shift-left"@, KeyAction::FieldSelectLeft),
        does("shift-right"@, KeyAction::FieldSelectRight),
        does("cmd-a"@, KeyAction::FieldSelectAll),
        does("cmd-v"@, KeyAction::FieldPaste),
        does("cmd-c"@, KeyAction::FieldCopy),
        does("cmd-x"@, KeyAction::FieldCut),
        does("home"@, KeyAction::FieldHome),
        does("end"@, KeyAction::FieldEnd),
{
    assert(base_keys()[0] == ("escape"@, KeyAction::Quit));
    assert(base_keys()[1] == ("enter"@, KeyAction::OpenSelected));
    assert(base_keys()[2] == ("return"@, KeyAction::OpenSelected));
    assert(base_keys()[3] == ("up"@, KeyAction::SelectPrev));
    assert(base_keys()[4] == ("down"@, KeyAction::SelectNext));
    assert(base_keys()[5] == ("tab"@, KeyAction::ToggleSelected));
    assert(base_keys()[6] == ("ctrl-a"@, KeyAction::ToggleSelectAll));
    assert(base_keys()[7] == ("shift-tab"@, KeyAction::ShiftTab));
    assert(base_keys()[8] == ("ctrl-up"@, KeyAction::CyclePreviousQuery));
    assert(base_keys()[9] == ("ctrl-u"@, KeyAction::PreviewScrollUp));
    assert(base_keys()[10] == ("ctrl-d"@, KeyAction::PreviewScrollDown));
    assert(base_keys()[11] == ("ctrl-f"@, KeyAction::SwitchFiles));
    assert(base_keys()[12] == ("ctrl-g"@, KeyAction::SwitchGrep));
    assert(base_keys()[13] == ("backspace"@, KeyAction::FieldBackspace));
    assert(base_keys()[14] == ("delete"@, KeyAction::FieldDelete));
    assert(base_keys()[15] == ("left"@, KeyAction::FieldLeft));
    assert(base_keys()[16] == ("right"@, KeyAction::FieldRight));
    assert(base_keys()[17] == ("shift-left"@, KeyAction::FieldSelectLeft));
    assert(base_keys()[18] == ("shift-right"@, KeyAction::FieldSelectRight));
    assert(base_keys()[19] == ("cmd-a"@, KeyAction::FieldSelectAll));
    assert(base_keys()[20] == ("cmd-v"@, KeyAction::FieldPaste));
    assert(base_keys()[21] == ("cmd-c"@, KeyAction::FieldCopy));
    assert(base_keys()[22] == ("cmd-x"@, KeyAction::FieldCut));
    assert(base_keys()[23] == ("home"@, KeyAction::FieldHome));
    assert(base_keys()[24] == ("end"@, KeyAction::FieldEnd));
}

} // verus!
