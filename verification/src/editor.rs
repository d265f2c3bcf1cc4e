//! The editor that a picked file is opened with.

use vstd::prelude::*;

use crate::text;
use crate::text::{decimal_of, words_of};

verus! {

/// The editor: that of the environment's `EDITOR`, else of `VISUAL`, else the configured one.
pub open spec fn chosen_editor(
    editor: Option<&str>,
    visual: Option<&str>,
    configured: Option<&str>,
) -> Option<Seq<char>> {
    if editor is Some {
        text::view_of(editor)
    } else if visual is Some {
        text::view_of(visual)
    } else {
        text::view_of(configured)
    }
}

/// Picks the editor, if there is one to pick.
pub fn choose_editor(
    editor: Option<&str>,
    visual: Option<&str>,
    configured: Option<&str>,
) -> (r: Option<String>)
    ensures
        text::opt_text(r) == chosen_editor(editor, visual, configured),
{
    if let Some(e) = editor {
        return Some(e.to_owned());
    }
    if let Some(e) = visual {
        return Some(e.to_owned());
    }
    match configured {
        Some(e) => Some(e.to_owned()),
        None => None,
    }
}

/// The argument that sends an editor to a line.
pub open spec fn line_argument(line: usize) -> Seq<char> {
    "+"@ + text::decimal(line as nat)
}

fn line_argument_of(line: usize) -> (r: String)
    ensures
        r@ == line_argument(line),
{
    let mut r = "+".to_owned();
    r.append(decimal_of(line as u64).as_str());
    r
}

/// The command line for a file: the program and its arguments. An editor with arguments of its
/// own goes through a shell, which gets the path as its first argument.
pub open spec fn command_line(
    editor: Seq<char>,
    path: Seq<char>,
    line: Option<usize>,
) -> Seq<Seq<char>> {
    if text::words(editor).len() >= 2 {
        let goto = match line {
            Some(line) => " "@ + line_argument(line),
            None => Seq::empty(),
        };
        seq!["sh"@, "-c"@, "exec "@ + editor + goto + " \"$1\""@, "fff-editor"@, path]
    } else {
        match line {
            Some(line) => seq![editor, line_argument(line), path],
            None => seq![editor, path],
        }
    }
}

/// Puts the command line together that opens a file, at a line if there is one.
pub fn editor_command(editor: &str, path: &str, line: Option<usize>) -> (r: Vec<String>)
    ensures
        text::texts(r@) == command_line(editor@, path@, line),
{
    let mut r: Vec<String> = Vec::new();
    let words = words_of(editor);
    assert(text::texts(words@).len() == words@.len());
    if words.len() >= 2 {
        let mut script = "exec ".to_owned();
        script.append(editor);
        if let Some(line) = line {
            script.append(" ");
            script.append(line_argument_of(line).as_str());
            assert(script@ =~= "exec "@ + editor@ + (" "@ + line_argument(line)));
        } else {
            assert(script@ =~= "exec "@ + editor@ + Seq::empty());
        }
        script.append(" \"$1\"");
        r.push("sh".to_owned());
        r.push("-c".to_owned());
        r.push(script);
        r.push("fff-editor".to_owned());
        r.push(path.to_owned());
    } else {
        r.push(editor.to_owned());
        if let Some(line) = line {
            r.push(line_argument_of(line));
        }
        r.push(path.to_owned());
    }
    assert(text::texts(r@) =~= command_line(editor@, path@, line));
    r
}

/// An editor is told the line: in an argument of its own, or at the end of the shell's script.
pub proof fn law_line_is_passed_on(editor: Seq<char>, path: Seq<char>, line: usize)
    ensures
        ({
            let args = command_line(editor, path, Some(line));
            if text::words(editor).len() >= 2 {
                args[2] == "exec "@ + editor + (" "@ + line_argument(line)) + " \"$1\""@
            } else {
                args[1] == line_argument(line)
            }
        }),
{
}

/// Whatever the editor and the line, the path is the last argument, as it is.
pub proof fn law_path_is_last_argument(editor: Seq<char>, path: Seq<char>, line: Option<usize>)
    ensures
        command_line(editor, path, line).len() >= 2,
        command_line(editor, path, line).last() == path,
{
}

/// `EDITOR` is chosen before `VISUAL`, and both before the configured editor.
pub proof fn law_editor_order(
    editor: Option<&str>,
    visual: Option<&str>,
    configured: Option<&str>,
)
    ensures
        editor matches Some(e) ==> chosen_editor(editor, visual, configured) == Some(e@),
        editor is None ==> (visual matches Some(v) ==> chosen_editor(editor, visual, configured)
            == Some(v@)),
        editor is None && visual is None ==> (configured matches Some(c) ==> chosen_editor(
            editor,
            visual,
            configured,
        ) == Some(c@)),
        editor is None && visual is None && configured is None ==> chosen_editor(
            editor,
            visual,
            configured,
        ) is None,
{
}

/// An editor of one word is run itself, with a plus sign and the line before the path. One of more
/// words is run by a shell, which gets the words as they are, the line behind them, and the path as
/// an argument of its own.
pub proof fn law_editor_command(editor: Seq<char>, path: Seq<char>, line: Option<usize>)
    ensures
        ({
            let args = command_line(editor, path, line);
            &&& text::words(editor).len() < 2 ==> {
                &&& args[0] == editor
                &&& line is None ==> args.len() == 2
                &&& line matches Some(n) ==> args.len() == 3 && args[1].len() > 1 && args[1][0]
                    == '+' && text::number_of(args[1].skip(1)) == n
            }
            &&& text::words(editor).len() >= 2 ==> {
                &&& args.len() == 5
                &&& args[0] == "sh"@ && args[1] == "-c"@
                &&& ("exec "@ + editor).is_prefix_of(args[2])
                &&& " \"$1\""@.is_suffix_of(args[2])
                &&& line is None ==> args[2].len() == 10 + editor.len()
                &&& line matches Some(n) ==> args[2].len() > 12 + editor.len() && args[2][5
                    + editor.len() as int] == ' ' && args[2][6 + editor.len() as int] == '+'
                    && text::number_of(args[2].subrange(7 + editor.len() as int, args[2].len() - 5))
                    == n
            }
        }),
{
    reveal_strlit("exec ");
    reveal_strlit(" \"$1\"");
    reveal_strlit(" ");
    reveal_strlit("+");
    let args = command_line(editor, path, line);
    if let Some(n) = line {
        let digits = text::decimal(n as nat);
        text::law_decimal_reads_back(n as nat);
        assert(line_argument(n).skip(1) =~= digits);
        if text::words(editor).len() >= 2 {
            assert(args[2].subrange(7 + editor.len() as int, args[2].len() - 5) =~= digits);
        }
    }
    if text::words(editor).len() >= 2 {
        let start = "exec "@ + editor;
        let end = " \"$1\""@;
        assert(args[2].subrange(0, start.len() as int) =~= start);
        assert(args[2].subrange(args[2].len() - end.len(), args[2].len() as int) =~= end);
    }
}

} // verus!
