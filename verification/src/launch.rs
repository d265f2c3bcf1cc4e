//! What a launch asks for: its command line and the request that it forwards.

use vstd::prelude::*;

use crate::paths;
use crate::paths::home_dir;
use crate::service::ServiceCommand;
use crate::text;
use crate::text::same;

verus! {

/// An argument of the command line. `dir` is the directory that it names, if it names one.
#[derive(Debug)]
pub struct LaunchArgument {
    pub text: String,
    pub dir: Option<String>,
}

#[derive(Debug)]
pub struct LaunchOptions {
    pub base_path: String,
    pub open_path: Option<String>,
    pub base_path_explicit: bool,
    pub start_in_grep: bool,
    pub show_help: bool,
    pub show_version: bool,
}

/// What has been read of a command line.
pub struct LaunchModel {
    pub base: Option<Seq<char>>,
    pub open: Option<Seq<char>>,
    pub grep: bool,
    pub help: bool,
    pub version: bool,
}

pub open spec fn nothing_read() -> LaunchModel {
    LaunchModel { base: None, open: None, grep: false, help: false, version: false }
}

/// Reads the rest of a command line. `--open` takes the next argument; the last directory that it
/// names counts, and of the plain arguments the first that names one. What is neither is ignored.
pub open spec fn launch_model(args: Seq<LaunchArgument>, read: LaunchModel) -> LaunchModel
    decreases args.len(),
{
    if args.len() == 0 {
        read
    } else {
        let t = args[0].text@;
        let rest = args.skip(1);
        if t == "-h"@ || t == "--help"@ {
            launch_model(rest, LaunchModel { help: true, ..read })
        } else if t == "-V"@ || t == "--version"@ {
            launch_model(rest, LaunchModel { version: true, ..read })
        } else if t == "--grep"@ {
            launch_model(rest, LaunchModel { grep: true, ..read })
        } else if t == "--open"@ {
            if args.len() > 1 && args[1].dir is Some {
                launch_model(
                    args.skip(2),
                    LaunchModel { open: text::opt_text(args[1].dir), ..read },
                )
            } else if args.len() > 1 {
                launch_model(args.skip(2), read)
            } else {
                read
            }
        } else if read.base is None {
            launch_model(rest, LaunchModel { base: text::opt_text(args[0].dir), ..read })
        } else {
            launch_model(rest, read)
        }
    }
}

/// The argument at an index belongs to the `--open` in front of it.
pub open spec fn is_taken(args: Seq<LaunchArgument>, i: int) -> bool
    decreases i,
{
    0 < i && args[i - 1].text@ == "--open"@ && !is_taken(args, i - 1)
}

pub open spec fn is_option(t: Seq<char>) -> bool {
    t == "-h"@ || t == "--help"@ || t == "-V"@ || t == "--version"@ || t == "--grep"@ || t
        == "--open"@
}

/// The argument at an index is this option.
pub open spec fn gives(args: Seq<LaunchArgument>, i: int, option: Seq<char>) -> bool {
    0 <= i < args.len() && !is_taken(args, i) && args[i].text@ == option
}

/// The argument at an index is plain and names a directory.
pub open spec fn is_base(args: Seq<LaunchArgument>, i: int) -> bool {
    0 <= i < args.len() && !is_taken(args, i) && !is_option(args[i].text@) && args[i].dir is Some
}

/// The argument at an index stands behind `--open` and names a directory.
pub open spec fn is_opened(args: Seq<LaunchArgument>, i: int) -> bool {
    0 <= i < args.len() && is_taken(args, i) && args[i].dir is Some
}

/// What the first `n` arguments say.
spec fn read_first(args: Seq<LaunchArgument>, n: int) -> LaunchModel
    decreases n,
{
    if n <= 0 {
        nothing_read()
    } else {
        let read = read_first(args, n - 1);
        let t = args[n - 1].text@;
        if is_taken(args, n - 1) {
            if args[n - 1].dir is Some {
                LaunchModel { open: text::opt_text(args[n - 1].dir), ..read }
            } else {
                read
            }
        } else if t == "-h"@ || t == "--help"@ {
            LaunchModel { help: true, ..read }
        } else if t == "-V"@ || t == "--version"@ {
            LaunchModel { version: true, ..read }
        } else if t == "--grep"@ {
            LaunchModel { grep: true, ..read }
        } else if t == "--open"@ || read.base is Some {
            read
        } else {
            LaunchModel { base: text::opt_text(args[n - 1].dir), ..read }
        }
    }
}

proof fn lemma_options_differ()
    ensures
        "--open"@ != "-h"@,
        "--open"@ != "--help"@,
        "--open"@ != "-V"@,
        "--open"@ != "--version"@,
        "--open"@ != "--grep"@,
        "--grep"@ != "-h"@,
        "--grep"@ != "--help"@,
        "--grep"@ != "-V"@,
        "--grep"@ != "--version"@,
        "-V"@ != "-h"@,
        "-V"@ != "--help"@,
        "--version"@ != "-h"@,
        "--version"@ != "--help"@,
{
    reveal_strlit("--open");
    reveal_strlit("-h");
    reveal_strlit("--help");
    reveal_strlit("-V");
    reveal_strlit("--version");
    reveal_strlit("--grep");
    assert("--open"@[2] == 'o' && "--help"@[2] == 'h' && "--grep"@[2] == 'g');
    assert("-h"@[1] == 'h' && "-V"@[1] == 'V');
    assert("-h"@.len() == 2 && "-V"@.len() == 2 && "--help"@.len() == 6 && "--open"@.len() == 6);
    assert("--grep"@.len() == 6 && "--version"@.len() == 9);
}

proof fn lemma_read_on(args: Seq<LaunchArgument>, n: int)
    requires
        0 <= n <= args.len(),
        !is_taken(args, n),
    ensures
        launch_model(args.skip(n), read_first(args, n)) == read_first(args, args.len() as int),
    decreases args.len() - n,
{
    lemma_options_differ();
    let rest = args.skip(n);
    let read = read_first(args, n);
    if n < args.len() {
        assert(rest[0] == args[n]);
        assert(rest.skip(1) =~= args.skip(n + 1));
        if args[n].text@ == "--open"@ {
            assert(is_taken(args, n + 1));
            assert(read_first(args, n + 1) == read);
            if n + 1 < args.len() {
                assert(rest[1] == args[n + 1]);
                assert(rest.skip(2) =~= args.skip(n + 2));
                assert(!is_taken(args, n + 2));
                lemma_read_on(args, n + 2);
            }
        } else {
            assert(!is_taken(args, n + 1));
            lemma_read_on(args, n + 1);
        }
    }
}

proof fn lemma_read_first(args: Seq<LaunchArgument>, n: int)
    requires
        0 <= n <= args.len(),
    ensures
        ({
            let read = read_first(args, n);
            &&& read.help <==> exists|i: int|
                i < n && (#[trigger] gives(args, i, "-h"@) || gives(args, i, "--help"@))
            &&& read.version <==> exists|i: int|
                i < n && (#[trigger] gives(args, i, "-V"@) || gives(args, i, "--version"@))
            &&& read.grep <==> exists|i: int| i < n && #[trigger] gives(args, i, "--grep"@)
            &&& read.base is Some <==> exists|i: int| i < n && #[trigger] is_base(args, i)
            &&& forall|i: int|
                i < n && #[trigger] is_base(args, i) && (forall|j: int|
                    j < i ==> !#[trigger] is_base(args, j)) ==> read.base == text::opt_text(
                    args[i].dir,
                )
            &&& read.open is Some <==> exists|i: int| i < n && #[trigger] is_opened(args, i)
            &&& forall|i: int|
                i < n && #[trigger] is_opened(args, i) && (forall|j: int|
                    i < j < n ==> !#[trigger] is_opened(args, j)) ==> read.open
                    == text::opt_text(args[i].dir)
        }),
    decreases n,
{
    lemma_options_differ();
    if n > 0 {
        lemma_read_first(args, n - 1);
        let before = read_first(args, n - 1);
        let read = read_first(args, n);
        let k = n - 1;
        assert(gives(args, k, "-h"@) || gives(args, k, "--help"@) ==> read.help);
        assert(gives(args, k, "-V"@) || gives(args, k, "--version"@) ==> read.version);
        assert(gives(args, k, "--grep"@) ==> read.grep);
        assert(is_base(args, k) ==> read.base is Some);
        assert(is_opened(args, k) ==> read.open is Some);
        assert(read.help && !before.help ==> gives(args, k, "-h"@) || gives(args, k, "--help"@));
        assert(read.version && !before.version ==> gives(args, k, "-V"@) || gives(
            args,
            k,
            "--version"@,
        ));
        assert(read.grep && !before.grep ==> gives(args, k, "--grep"@));
        assert(read.base is Some && before.base is None ==> is_base(args, k));
        assert(read.open is Some && before.open is None ==> is_opened(args, k));
        assert forall|i: int|
            i < n && #[trigger] is_base(args, i) && (forall|j: int|
                j < i ==> !#[trigger] is_base(args, j)) implies read.base == text::opt_text(
            args[i].dir,
        ) by {
            if i == k {
                assert(before.base is None);
            }
        }
        assert forall|i: int|
            i < n && #[trigger] is_opened(args, i) && (forall|j: int|
                i < j < n ==> !#[trigger] is_opened(args, j)) implies read.open
            == text::opt_text(args[i].dir) by {
            if i < k {
                assert(!is_opened(args, k));
                assert(read.open == before.open);
            }
        }
    }
}

/// What a command line says, wherever it says it: the base is the directory of the first plain
/// argument that names one, the path to open is the last directory behind an `--open`, and an
/// option is given where it stands anywhere but behind an `--open`.
pub proof fn law_launch_arguments(args: Seq<LaunchArgument>)
    ensures
        ({
            let read = launch_model(args, nothing_read());
            &&& read.help <==> exists|i: int|
                #[trigger] gives(args, i, "-h"@) || gives(args, i, "--help"@)
            &&& read.version <==> exists|i: int|
                #[trigger] gives(args, i, "-V"@) || gives(args, i, "--version"@)
            &&& read.grep <==> exists|i: int| #[trigger] gives(args, i, "--grep"@)
            &&& read.base is Some <==> exists|i: int| #[trigger] is_base(args, i)
            &&& forall|i: int| #[trigger]
                is_base(args, i) && (forall|j: int| j < i ==> !#[trigger] is_base(args, j))
                    ==> read.base == text::opt_text(args[i].dir)
            &&& read.open is Some <==> exists|i: int| #[trigger] is_opened(args, i)
            &&& forall|i: int| #[trigger]
                is_opened(args, i) && (forall|j: int| i < j ==> !#[trigger] is_opened(args, j))
                    ==> read.open == text::opt_text(args[i].dir)
        }),
{
    assert(args.skip(0) =~= args);
    lemma_read_on(args, 0);
    lemma_read_first(args, args.len() as int);
}

pub fn parse_launch_options(args: &Vec<LaunchArgument>, home: Option<&str>) -> (r: LaunchOptions)
    ensures
        ({
            let read = launch_model(args@, nothing_read());
            &&& r.base_path@ == (match read.base {
                Some(dir) => dir,
                None => paths::text_or(home, "/"@),
            })
            &&& text::opt_text(r.open_path) == read.open
            &&& r.base_path_explicit == (read.base is Some)
            &&& r.start_in_grep == read.grep
            &&& r.show_help == read.help
            &&& r.show_version == read.version
        }),
{
    let ghost target = launch_model(args@, nothing_read());
    let mut base: Option<String> = None;
    let mut open_path: Option<String> = None;
    let mut start_in_grep = false;
    let mut show_help = false;
    let mut show_version = false;
    let mut i: usize = 0;
    assert(args@.skip(0) =~= args@);
    while i < args.len()
        invariant
            i <= args.len(),
            target == launch_model(
                args@.skip(i as int),
                LaunchModel {
                    base: text::opt_text(base),
                    open: text::opt_text(open_path),
                    grep: start_in_grep,
                    help: show_help,
                    version: show_version,
                },
            ),
        decreases args.len() - i,
    {
        let ghost rest = args@.skip(i as int);
        assert(rest[0] == args@[i as int]);
        assert(rest.skip(1) =~= args@.skip(i + 1));
        let arg = args[i].text.as_str();
        let mut next: usize = i + 1;
        if same(arg, "-h") || same(arg, "--help") {
            show_help = true;
        } else if same(arg, "-V") || same(arg, "--version") {
            show_version = true;
        } else if same(arg, "--grep") {
            start_in_grep = true;
        } else if same(arg, "--open") {
            if next < args.len() {
                assert(rest[1] == args@[next as int]);
                assert(rest.skip(2) =~= args@.skip(next + 1));
                if let Some(dir) = &args[next].dir {
                    open_path = Some(dir.clone());
                }
                next += 1;
            } else {
                assert(args@.skip(next as int) =~= Seq::empty());
            }
        } else if base.is_none() {
            base = text::copy_opt(&args[i].dir);
        }
        i = next;
    }
    assert(args@.skip(i as int) =~= Seq::empty());
    assert(target == (LaunchModel {
        base: text::opt_text(base),
        open: text::opt_text(open_path),
        grep: start_in_grep,
        help: show_help,
        version: show_version,
    }));
    let base_path_explicit = base.is_some();
    let base_path = match base {
        Some(dir) => dir,
        None => home_dir(home),
    };
    LaunchOptions {
        base_path,
        open_path,
        base_path_explicit,
        start_in_grep,
        show_help,
        show_version,
    }
}

/// The request that a launch forwards to the resident service: a single launch for `--open`, else
/// the resident picker at the base path.
pub fn forward_command(launch: &LaunchOptions) -> (r: ServiceCommand)
    ensures
        launch.open_path matches Some(dir) ==> (r matches ServiceCommand::OpenOneShot {
            path,
            in_grep,
        } && path@ == dir@ && in_grep == launch.start_in_grep),
        launch.open_path is None ==> (r matches ServiceCommand::OpenPath { path, in_grep }
            && path@ == launch.base_path@ && in_grep == launch.start_in_grep),
{
    match &launch.open_path {
        Some(dir) => ServiceCommand::OpenOneShot {
            path: dir.clone(),
            in_grep: launch.start_in_grep,
        },
        None => ServiceCommand::OpenPath {
            path: launch.base_path.clone(),
            in_grep: launch.start_in_grep,
        },
    }
}

/// What a process does first: help goes before the version, and both before any work.
#[derive(Debug, PartialEq, Eq, Structural)]
pub enum FirstStep {
    PrintHelp,
    PrintVersion,
    Forward,
}

pub fn first_step(launch: &LaunchOptions) -> (r: FirstStep)
    ensures
        r == (if launch.show_help {
            FirstStep::PrintHelp
        } else if launch.show_version {
            FirstStep::PrintVersion
        } else {
            FirstStep::Forward
        }),
{
    if launch.show_help {
        FirstStep::PrintHelp
    } else if launch.show_version {
        FirstStep::PrintVersion
    } else {
        FirstStep::Forward
    }
}

/// What follows the version in the help text.
pub const USAGE: &'static str = "\n\nUsage:\n  fff-gpui [OPTIONS] [PATH]\n\nOptions:\n  --grep            Start in grep mode\n  --open <PATH>     Open a specific path\n  -h, --help        Show this help text\n  -V, --version     Show version information";

/// The help text of a version.
pub fn help_text(version: &str) -> (r: String)
    ensures
        r@ == "fff-gpui "@ + version@ + USAGE@,
{
    let mut r = "fff-gpui ".to_owned();
    r.append(version);
    r.append(USAGE);
    r
}

} // verus!
