//! The resident service: what is asked of it, how a request is framed, and what it does about it.

use vstd::prelude::*;

use crate::components;
use crate::components::is_same_path;
use crate::text;
use crate::text::{chars_of, slice_text, trim_bounds};

verus! {

/// What a launch, a shortcut or the menu asks of the service.
#[derive(Debug, PartialEq, Eq)]
pub enum ServiceCommand {
    OpenPath { path: String, in_grep: bool },
    OpenOneShot { path: String, in_grep: bool },
    OpenConfig,
    ShowPicker,
    ToggleWindow,
    Quit,
}

/// A file that was picked, and where to go in it.
#[derive(Debug, PartialEq, Eq)]
pub struct PickEntry {
    pub path: String,
    pub line: Option<usize>,
    pub column: Option<usize>,
}

/// The answer to a launch: what was picked.
#[derive(Debug, PartialEq, Eq)]
pub struct PickResponse {
    pub paths: Vec<PickEntry>,
}

impl Default for PickResponse {
    fn default() -> (r: Self)
        ensures
            r.paths@.len() == 0,
    {
        PickResponse { paths: Vec::new() }
    }
}

/// What became of a launch that was forwarded.
#[derive(Debug, PartialEq, Eq)]
pub enum ForwardOutcome {
    NoDaemon,
    Picked(Vec<PickEntry>),
}

/// The line that carries a message.
pub open spec fn framed(payload: Seq<char>) -> Seq<char> {
    payload + "\n"@
}

pub fn frame_line(payload: &str) -> (r: String)
    ensures
        r@ == framed(payload@),
{
    let mut r = payload.to_owned();
    r.append("\n");
    r
}

/// The message that a line carries; a blank line carries none.
pub open spec fn message(line: Seq<char>) -> Option<Seq<char>> {
    if text::trim(line).len() == 0 {
        None
    } else {
        Some(text::trim(line))
    }
}

pub fn read_request(line: &str) -> (r: Option<String>)
    ensures
        text::opt_text(r) == message(line@),
{
    let chars = chars_of(line);
    let (from, to) = trim_bounds(&chars);
    if from == to {
        None
    } else {
        Some(slice_text(&chars, from, to))
    }
}

/// A message comes out of its line as it went in, if it is not blank and has no white space at its
/// ends.
pub proof fn law_message_survives_its_line(payload: Seq<char>)
    requires
        payload.len() > 0,
        !text::is_white(payload[0]),
        !text::is_white(payload.last()),
    ensures
        message(framed(payload)) == Some(payload),
{
    reveal_strlit("\n");
    let line = framed(payload);
    assert(line =~= payload.push('\n'));
    assert(line[0] == payload[0]);
    assert(text::trim_start(line) == line);
    assert(line.last() == '\n');
    assert(line.drop_last() =~= payload);
    assert(text::trim_end(payload) == payload);
    assert(text::trim_end(line) == text::trim_end(payload));
}

/// What was read from a line can be sent on in a line of its own.
pub proof fn law_message_can_be_sent_on(line: Seq<char>)
    ensures
        message(line) matches Some(payload) ==> message(framed(payload)) == Some(payload),
{
    if let Some(payload) = message(line) {
        let _ = text::lemma_trim_range(line);
        law_message_survives_its_line(payload);
    }
}

/// Whatever writes commands as texts on one line, without white space around them, and reads back
/// what it wrote: a command that is sent arrives as it was, its line ends where the line ends, and
/// a blank line or one that cannot be read is no command.
pub proof fn law_commands_arrive(
    write: spec_fn(ServiceCommand) -> Seq<char>,
    read: spec_fn(Seq<char>) -> Option<ServiceCommand>,
    command: ServiceCommand,
    line: Seq<char>,
)
    requires
        read(write(command)) == Some(command),
        write(command).len() > 0,
        !text::is_white(write(command)[0]),
        !text::is_white(write(command).last()),
        forall|i: int| 0 <= i < write(command).len() ==> #[trigger] write(command)[i] != '\n',
    ensures
        ({
            let sent = framed(write(command));
            &&& received(read, sent) == Some(command)
            &&& sent.last() == '\n'
            &&& forall|i: int| 0 <= i < sent.len() - 1 ==> #[trigger] sent[i] != '\n'
        }),
        text::all_white(line) ==> received(read, line) is None,
        message(line) matches Some(payload) && read(payload) is None ==> received(read, line)
            is None,
{
    reveal_strlit("\n");
    law_message_survives_its_line(write(command));
    let sent = framed(write(command));
    assert(sent =~= write(command).push('\n'));
    assert forall|i: int| 0 <= i < sent.len() - 1 implies #[trigger] sent[i] != '\n' by {
        assert(sent[i] == write(command)[i]);
    }
    if text::all_white(line) {
        let (a, b) = text::lemma_trim_range(line);
        if text::trim(line).len() > 0 {
            assert(text::trim(line)[0] == line[a]);
        }
    }
}

/// The command in a line, where a reader makes one of its message.
pub open spec fn received(
    read: spec_fn(Seq<char>) -> Option<ServiceCommand>,
    line: Seq<char>,
) -> Option<ServiceCommand> {
    match message(line) {
        Some(payload) => read(payload),
        None => None,
    }
}

/// A picker that can be opened. `index` numbers the file index that it works on, and `responder`
/// the connection that waits for an answer.
#[derive(Debug)]
pub struct PickerSession {
    pub base_path: String,
    pub index: u64,
    pub enable_content_indexing: bool,
    pub start_in_grep: bool,
    pub responder: Option<u64>,
}

pub struct SessionModel {
    pub base_path: Seq<char>,
    pub index: u64,
    pub enable_content_indexing: bool,
    pub start_in_grep: bool,
    pub responder: Option<u64>,
}

impl View for PickerSession {
    type V = SessionModel;

    open spec fn view(&self) -> SessionModel {
        SessionModel {
            base_path: self.base_path@,
            index: self.index,
            enable_content_indexing: self.enable_content_indexing,
            start_in_grep: self.start_in_grep,
            responder: self.responder,
        }
    }
}

pub open spec fn new_session(
    base_path: Seq<char>,
    index: u64,
    enable_content_indexing: bool,
    start_in_grep: bool,
) -> SessionModel {
    SessionModel { base_path, index, enable_content_indexing, start_in_grep, responder: None }
}

impl PickerSession {
    pub fn new(
        base_path: String,
        index: u64,
        enable_content_indexing: bool,
        start_in_grep: bool,
    ) -> (r: Self)
        ensures
            r@ == new_session(base_path@, index, enable_content_indexing, start_in_grep),
    {
        PickerSession { base_path, index, enable_content_indexing, start_in_grep, responder: None }
    }
}

impl Clone for PickerSession {
    fn clone(&self) -> (r: Self)
        ensures
            r@ == self@,
    {
        PickerSession {
            base_path: self.base_path.clone(),
            index: self.index,
            enable_content_indexing: self.enable_content_indexing,
            start_in_grep: self.start_in_grep,
            responder: self.responder,
        }
    }
}

/// The sessions of the service: the resident one, and those for single launches, one for each
/// path.
#[derive(Debug)]
pub struct Sessions {
    pub current: PickerSession,
    pub one_shots: Vec<PickerSession>,
    /// The number for the next file index.
    pub next_index: u64,
}

pub open spec fn sessions_view(v: Seq<PickerSession>) -> Seq<SessionModel> {
    v.map_values(|s: PickerSession| s@)
}

pub struct SessionsModel {
    pub current: SessionModel,
    pub one_shots: Seq<SessionModel>,
    pub next_index: u64,
}

impl View for Sessions {
    type V = SessionsModel;

    open spec fn view(&self) -> SessionsModel {
        SessionsModel {
            current: self.current@,
            one_shots: sessions_view(self.one_shots@),
            next_index: self.next_index,
        }
    }
}

/// The index of the first session with a path, or the number of sessions.
pub open spec fn session_index(sessions: Seq<SessionModel>, path: Seq<char>) -> int
    decreases sessions.len(),
{
    if sessions.len() == 0 || components::same_path(sessions[0].base_path, path) {
        0
    } else {
        1 + session_index(sessions.drop_first(), path)
    }
}

proof fn lemma_session_index_is(sessions: Seq<SessionModel>, path: Seq<char>, k: int)
    requires
        0 <= k <= sessions.len(),
        forall|i: int| 0 <= i < k ==> !components::same_path(
            (#[trigger] sessions[i]).base_path,
            path,
        ),
        k < sessions.len() ==> components::same_path(sessions[k].base_path, path),
    ensures
        session_index(sessions, path) == k,
    decreases sessions.len(),
{
    if k > 0 {
        let rest = sessions.drop_first();
        assert forall|i: int| 0 <= i < k - 1 implies !components::same_path(
            (#[trigger] rest[i]).base_path,
            path,
        ) by {
            assert(rest[i] == sessions[i + 1]);
        }
        lemma_session_index_is(rest, path, k - 1);
    }
}

proof fn lemma_session_index(sessions: Seq<SessionModel>, path: Seq<char>)
    ensures
        0 <= session_index(sessions, path) <= sessions.len(),
        session_index(sessions, path) < sessions.len() ==> components::same_path(
            sessions[session_index(sessions, path)].base_path,
            path,
        ),
        forall|i: int|
            0 <= i < session_index(sessions, path) ==> !components::same_path(
            (#[trigger] sessions[i]).base_path,
            path,
        ),
    decreases sessions.len(),
{
    if sessions.len() > 0 && !components::same_path(sessions[0].base_path, path) {
        let rest = sessions.drop_first();
        lemma_session_index(rest, path);
        assert forall|i: int| 0 <= i < session_index(sessions, path) implies !components::same_path(
            (#[trigger] sessions[i]).base_path,
            path,
        ) by {
            if i > 0 {
                assert(rest[i - 1] == sessions[i]);
            }
        }
    }
}

/// What the service does about a command.
#[derive(Debug)]
pub enum ServiceAction {
    Nothing,
    /// Open a window for this session.
    Open(PickerSession),
    /// Close all windows, then open one for this session.
    Replace(PickerSession),
    /// Close all windows.
    Close,
    /// Open the configuration file in the editor.
    OpenConfig,
    Quit,
}

pub enum ActionModel {
    Nothing,
    Open(SessionModel),
    Replace(SessionModel),
    Close,
    OpenConfig,
    Quit,
}

impl View for ServiceAction {
    type V = ActionModel;

    open spec fn view(&self) -> ActionModel {
        match self {
            ServiceAction::Nothing => ActionModel::Nothing,
            ServiceAction::Open(s) => ActionModel::Open(s@),
            ServiceAction::Replace(s) => ActionModel::Replace(s@),
            ServiceAction::Close => ActionModel::Close,
            ServiceAction::OpenConfig => ActionModel::OpenConfig,
            ServiceAction::Quit => ActionModel::Quit,
        }
    }
}

/// The resident session for a path: a new one for a path other than its own, with an index of its
/// own. Either way the connection that asked is the one to answer.
pub open spec fn resident_for(
    sessions: SessionsModel,
    path: Seq<char>,
    in_grep: bool,
    responder: Option<u64>,
) -> SessionsModel {
    if !components::same_path(sessions.current.base_path, path) {
        SessionsModel {
            current: SessionModel {
                responder,
                ..new_session(path, sessions.next_index, true, in_grep)
            },
            next_index: sessions.next_index.wrapping_add(1),
            ..sessions
        }
    } else {
        SessionsModel {
            current: SessionModel { start_in_grep: in_grep, responder, ..sessions.current },
            ..sessions
        }
    }
}

/// The sessions with one for a single launch at a path.
pub open spec fn with_one_shot(
    sessions: SessionsModel,
    path: Seq<char>,
    in_grep: bool,
) -> SessionsModel {
    if session_index(sessions.one_shots, path) < sessions.one_shots.len() {
        sessions
    } else {
        SessionsModel {
            one_shots: sessions.one_shots.push(
                new_session(path, sessions.next_index, true, in_grep),
            ),
            next_index: sessions.next_index.wrapping_add(1),
            ..sessions
        }
    }
}

/// The session for a single launch at a path. What was asked for this time is not kept.
pub open spec fn one_shot(
    sessions: SessionsModel,
    path: Seq<char>,
    in_grep: bool,
    responder: Option<u64>,
) -> SessionModel {
    let after = with_one_shot(sessions, path, in_grep).one_shots;
    SessionModel { start_in_grep: in_grep, responder, ..after[session_index(after, path)] }
}

/// The sessions and the action after a command. `window_open` tells whether any window is open.
pub open spec fn handled(
    sessions: SessionsModel,
    command: ServiceCommand,
    responder: Option<u64>,
    window_open: bool,
) -> (SessionsModel, ActionModel) {
    match command {
        ServiceCommand::ShowPicker => (
            sessions,
            if window_open {
                ActionModel::Nothing
            } else {
                ActionModel::Open(sessions.current)
            },
        ),
        ServiceCommand::ToggleWindow => (
            sessions,
            if window_open {
                ActionModel::Close
            } else {
                ActionModel::Open(sessions.current)
            },
        ),
        ServiceCommand::OpenPath { path, in_grep } => {
            let after = resident_for(sessions, path@, in_grep, responder);
            (
                after,
                if !window_open {
                    ActionModel::Open(after.current)
                } else if !components::same_path(sessions.current.base_path, path@) {
                    ActionModel::Replace(after.current)
                } else {
                    ActionModel::Nothing
                },
            )
        },
        ServiceCommand::OpenOneShot { path, in_grep } => (
            with_one_shot(sessions, path@, in_grep),
            ActionModel::Open(one_shot(sessions, path@, in_grep, responder)),
        ),
        ServiceCommand::OpenConfig => (sessions, ActionModel::OpenConfig),
        ServiceCommand::Quit => (sessions, ActionModel::Quit),
    }
}

/// A session is to answer a connection.
pub open spec fn awaited(sessions: SessionsModel, id: u64) -> bool {
    sessions.current.responder == Some(id) || exists|i: int|
        0 <= i < sessions.one_shots.len() && (#[trigger] sessions.one_shots[i]).responder == Some(
            id,
        )
}

impl Sessions {
    /// The sessions at the start: a resident one alone.
    pub fn new(base_path: String, base_path_explicit: bool, start_in_grep: bool) -> (r: Self)
        ensures
            r@ == (SessionsModel {
                current: new_session(base_path@, 0, base_path_explicit, start_in_grep),
                one_shots: Seq::empty(),
                next_index: 1,
            }),
    {
        let r = Sessions {
            current: PickerSession::new(base_path, 0, base_path_explicit, start_in_grep),
            one_shots: Vec::new(),
            next_index: 1,
        };
        assert(sessions_view(r.one_shots@) =~= Seq::empty());
        r
    }

    fn find_one_shot(&self, path: &str) -> (r: Option<usize>)
        ensures
            r matches Some(i) ==> i == session_index(self@.one_shots, path@) && i
                < self.one_shots.len(),
            r is None ==> session_index(self@.one_shots, path@) == self@.one_shots.len(),
    {
        let ghost all = self@.one_shots;
        let mut i: usize = 0;
        while i < self.one_shots.len()
            invariant
                i <= self.one_shots.len(),
                all == sessions_view(self.one_shots@),
                forall|k: int| 0 <= k < i ==> !components::same_path(
                    (#[trigger] all[k]).base_path,
                    path@,
                ),
            decreases self.one_shots.len() - i,
        {
            assert(all[i as int] == self.one_shots@[i as int]@);
            if is_same_path(self.one_shots[i].base_path.as_str(), path) {
                proof {
                    lemma_session_index_is(all, path@, i as int);
                }
                return Some(i);
            }
            i += 1;
        }
        proof {
            lemma_session_index_is(all, path@, all.len() as int);
        }
        None
    }

    /// The session for a single launch at a path, which later launches there share.
    pub fn one_shot_session(
        &mut self,
        path: String,
        start_in_grep: bool,
        responder: Option<u64>,
    ) -> (r: PickerSession)
        ensures
            final(self)@ == with_one_shot(old(self)@, path@, start_in_grep),
            r@ == one_shot(old(self)@, path@, start_in_grep, responder),
    {
        let ghost before = self@.one_shots;
        let mut session = match self.find_one_shot(path.as_str()) {
            Some(i) => {
                assert(before[i as int] == self.one_shots@[i as int]@);
                self.one_shots[i].clone()
            },
            None => {
                let session = PickerSession::new(
                    path.clone(),
                    self.next_index,
                    true,
                    start_in_grep,
                );
                let copy = session.clone();
                self.next_index = self.next_index.wrapping_add(1);
                self.one_shots.push(session);
                proof {
                    let after = self@.one_shots;
                    assert(after =~= before.push(session@));
                    lemma_session_index(before, path@);
                    assert forall|i: int| 0 <= i < before.len() implies !components::same_path(
                        (#[trigger] after[i]).base_path,
                        path@,
                    ) by {
                        assert(after[i] == before[i]);
                    }
                    lemma_session_index_is(after, path@, before.len() as int);
                }
                copy
            },
        };
        session.start_in_grep = start_in_grep;
        session.responder = responder;
        session
    }

    /// Whether a session is still to answer a connection. Others can be closed, except where a
    /// window that was opened holds on to them.
    pub fn holds_responder(&self, id: u64) -> (r: bool)
        ensures
            r == awaited(self@, id),
    {
        match self.current.responder {
            Some(held) => if held == id {
                return true;
            },
            None => {},
        }
        let ghost all = self@.one_shots;
        let mut i: usize = 0;
        while i < self.one_shots.len()
            invariant
                i <= self.one_shots.len(),
                all == sessions_view(self.one_shots@),
                self.current.responder != Some(id),
                forall|k: int| 0 <= k < i ==> (#[trigger] all[k]).responder != Some(id),
            decreases self.one_shots.len() - i,
        {
            assert(all[i as int] == self.one_shots@[i as int]@);
            match self.one_shots[i].responder {
                Some(held) => if held == id {
                    return true;
                },
                None => {},
            }
            i += 1;
        }
        false
    }

    /// Takes a command and says what is to be done about it.
    pub fn handle_service_command(
        &mut self,
        command: ServiceCommand,
        responder: Option<u64>,
        window_open: bool,
    ) -> (r: ServiceAction)
        ensures
            (final(self)@, r@) == handled(old(self)@, command, responder, window_open),
    {
        match command {
            ServiceCommand::ShowPicker => if window_open {
                ServiceAction::Nothing
            } else {
                ServiceAction::Open(self.current.clone())
            },
            ServiceCommand::ToggleWindow => if window_open {
                ServiceAction::Close
            } else {
                ServiceAction::Open(self.current.clone())
            },
            ServiceCommand::OpenPath { path, in_grep } => {
                let changed = !is_same_path(self.current.base_path.as_str(), path.as_str());
                if changed {
                    self.current = PickerSession::new(path, self.next_index, true, in_grep);
                    self.next_index = self.next_index.wrapping_add(1);
                } else {
                    self.current.start_in_grep = in_grep;
                }
                self.current.responder = responder;
                if !window_open {
                    ServiceAction::Open(self.current.clone())
                } else if changed {
                    ServiceAction::Replace(self.current.clone())
                } else {
                    ServiceAction::Nothing
                }
            },
            ServiceCommand::OpenOneShot { path, in_grep } => ServiceAction::Open(
                self.one_shot_session(path, in_grep, responder),
            ),
            ServiceCommand::OpenConfig => ServiceAction::OpenConfig,
            ServiceCommand::Quit => ServiceAction::Quit,
        }
    }
}

/// Each path has at most one session for single launches.
pub open spec fn one_shots_distinct(sessions: SessionsModel) -> bool {
    forall|i: int, j: int|
        0 <= i < sessions.one_shots.len() && 0 <= j < sessions.one_shots.len() && components::same_path(
            (#[trigger] sessions.one_shots[i]).base_path,
            (#[trigger] sessions.one_shots[j]).base_path,
        ) ==> i == j
}

/// No command makes a second session for single launches at one path.
pub proof fn law_one_session_for_each_path(
    sessions: SessionsModel,
    command: ServiceCommand,
    responder: Option<u64>,
    window_open: bool,
)
    requires
        one_shots_distinct(sessions),
    ensures
        one_shots_distinct(handled(sessions, command, responder, window_open).0),
{
    if let ServiceCommand::OpenOneShot { path, in_grep } = command {
        lemma_session_index(sessions.one_shots, path@);
    }
}

/// A single launch leaves the resident session alone, goes to the path that was asked for, and
/// answers the one who asked. A second launch at the same path works on the same index.
pub proof fn law_one_shot_sessions(
    sessions: SessionsModel,
    path: String,
    in_grep: bool,
    responder: Option<u64>,
    window_open: bool,
    again_in_grep: bool,
    again_responder: Option<u64>,
)
    ensures
        ({
            let first = handled(
                sessions,
                ServiceCommand::OpenOneShot { path, in_grep },
                responder,
                window_open,
            );
            let second = handled(
                first.0,
                ServiceCommand::OpenOneShot { path, in_grep: again_in_grep },
                again_responder,
                window_open,
            );
            &&& first.0.current == sessions.current
            &&& first.1 matches ActionModel::Open(s) && components::same_path(
                s.base_path,
                path@,
            ) && s.start_in_grep
                == in_grep && s.responder == responder
            &&& second.0 == first.0
            &&& second.1 matches ActionModel::Open(s) && s.start_in_grep == again_in_grep
                && s.responder == again_responder
            &&& sessions.one_shots.is_prefix_of(first.0.one_shots)
            &&& first.1 matches ActionModel::Open(a) && second.1 matches ActionModel::Open(b)
                && a.index == b.index
        }),
{
    let after = with_one_shot(sessions, path@, in_grep);
    lemma_session_index(sessions.one_shots, path@);
    assert(after.one_shots.subrange(0, sessions.one_shots.len() as int) =~= sessions.one_shots);
    if session_index(sessions.one_shots, path@) >= sessions.one_shots.len() {
        let n = sessions.one_shots.len() as int;
        assert forall|i: int| 0 <= i < n implies !components::same_path(
            (#[trigger] after.one_shots[i]).base_path,
            path@,
        ) by {
            assert(after.one_shots[i] == sessions.one_shots[i]);
        }
        lemma_session_index_is(after.one_shots, path@, n);
    }
}

/// Opening a path leads to a window for that path which answers the one who asked, unless a window
/// for it is open already; the index is kept just where the path is.
pub proof fn law_open_path(
    sessions: SessionsModel,
    path: String,
    in_grep: bool,
    responder: Option<u64>,
    window_open: bool,
)
    ensures
        ({
            let (after, action) = handled(
                sessions,
                ServiceCommand::OpenPath { path, in_grep },
                responder,
                window_open,
            );
            &&& components::same_path(after.current.base_path, path@)
            &&& after.current.start_in_grep == in_grep
            &&& after.current.responder == responder
            &&& components::same_path(sessions.current.base_path, path@) ==> after.current.index
                == sessions.current.index && after.current.base_path == sessions.current.base_path
            &&& !components::same_path(sessions.current.base_path, path@) ==> after.current.index
                == sessions.next_index && after.current.base_path == path@
            &&& action == ActionModel::Nothing <==> window_open && components::same_path(
                sessions.current.base_path,
                path@,
            )
            &&& !window_open ==> action == ActionModel::Open(after.current)
            &&& window_open && !components::same_path(sessions.current.base_path, path@) ==> action
                == ActionModel::Replace(after.current)
            &&& after.one_shots == sessions.one_shots
            &&& components::same_path(sessions.current.base_path, path@) ==> after.next_index
                == sessions.next_index && after.current.enable_content_indexing
                == sessions.current.enable_content_indexing
            &&& !components::same_path(sessions.current.base_path, path@) ==> after.next_index
                != sessions.next_index && after.current.enable_content_indexing
        }),
{
}

/// Only the resident session holds on to a connection: that of the last command to open a path.
/// So a connection is dropped once another command opens a path, and at once where the command
/// opens none.
pub proof fn law_connections_are_let_go(
    sessions: SessionsModel,
    command: ServiceCommand,
    responder: Option<u64>,
    window_open: bool,
    id: u64,
)
    requires
        forall|i: int|
            0 <= i < sessions.one_shots.len() ==> (#[trigger] sessions.one_shots[i]).responder
                is None,
    ensures
        ({
            let after = handled(sessions, command, responder, window_open).0;
            &&& forall|i: int|
                0 <= i < after.one_shots.len() ==> (#[trigger] after.one_shots[i]).responder
                    is None
            &&& command is OpenPath ==> (awaited(after, id) <==> responder == Some(id))
            &&& !(command is OpenPath) ==> (awaited(after, id) <==> awaited(sessions, id))
        }),
{
}

/// Toggling and then toggling again opens a window and closes it, showing one that is open does
/// nothing, and all of these leave the sessions alone.
pub proof fn law_toggle_and_show(sessions: SessionsModel, responder: Option<u64>)
    ensures
        ({
            let opened = handled(sessions, ServiceCommand::ToggleWindow, responder, false);
            let shown = handled(opened.0, ServiceCommand::ShowPicker, responder, true);
            let closed = handled(shown.0, ServiceCommand::ToggleWindow, responder, true);
            &&& opened == (sessions, ActionModel::Open(sessions.current))
            &&& shown == (sessions, ActionModel::Nothing)
            &&& closed == (sessions, ActionModel::Close)
        }),
{
}

/// Commands that open no path make no use of a connection, and change no session.
pub proof fn law_other_commands_answer_nobody(
    sessions: SessionsModel,
    command: ServiceCommand,
    responder: Option<u64>,
    window_open: bool,
)
    requires
        !(command is OpenPath) && !(command is OpenOneShot),
    ensures
        handled(sessions, command, responder, window_open) == handled(
            sessions,
            command,
            None,
            window_open,
        ),
        handled(sessions, command, responder, window_open).0 == sessions,
{
}

/// What a click on the item in the menu bar does: the secondary button opens its menu, others
/// toggle the window.
#[derive(Debug, PartialEq, Eq)]
pub enum MenuBarClick {
    ShowMenu,
    Send(ServiceCommand),
}

pub fn status_item_clicked(button_number: i64) -> (r: MenuBarClick)
    ensures
        r == (if button_number == 1 {
            MenuBarClick::ShowMenu
        } else {
            MenuBarClick::Send(ServiceCommand::ToggleWindow)
        }),
{
    if button_number == 1 {
        MenuBarClick::ShowMenu
    } else {
        MenuBarClick::Send(ServiceCommand::ToggleWindow)
    }
}

/// A single launch works on the index of the launches at its path before it; the first there gets
/// one that no session has had.
pub proof fn law_indexes_of_single_launches(
    sessions: SessionsModel,
    path: String,
    in_grep: bool,
    responder: Option<u64>,
    window_open: bool,
    i: int,
)
    requires
        one_shots_distinct(sessions),
        0 <= i < sessions.one_shots.len(),
    ensures
        ({
            let (after, action) = handled(
                sessions,
                ServiceCommand::OpenOneShot { path, in_grep },
                responder,
                window_open,
            );
            &&& components::same_path(sessions.one_shots[i].base_path, path@) ==> after == sessions
                && (action matches ActionModel::Open(s) && s.index == sessions.one_shots[i].index
                && s.base_path == sessions.one_shots[i].base_path)
            &&& (forall|j: int|
                0 <= j < sessions.one_shots.len() ==> !components::same_path(
                    (#[trigger] sessions.one_shots[j]).base_path,
                    path@,
                )) ==> after.next_index != sessions.next_index && after.one_shots.len()
                == sessions.one_shots.len() + 1 && (action matches ActionModel::Open(s) && s.index
                == sessions.next_index && s.base_path == path@ && s.enable_content_indexing)
        }),
{
    let shots = sessions.one_shots;
    lemma_session_index(shots, path@);
    let k = session_index(shots, path@);
    if components::same_path(shots[i].base_path, path@) {
        assert(k < shots.len());
        assert(components::same_path(shots[k].base_path, shots[i].base_path));
        assert(k == i);
    }
    if k >= shots.len() {
        let after = with_one_shot(sessions, path@, in_grep);
        assert forall|j: int| 0 <= j < shots.len() implies !components::same_path(
            (#[trigger] after.one_shots[j]).base_path,
            path@,
        ) by {
            assert(after.one_shots[j] == shots[j]);
        }
        lemma_session_index_is(after.one_shots, path@, shots.len() as int);
    }
}

/// The other commands do what they are named for.
pub proof fn law_other_commands(
    sessions: SessionsModel,
    responder: Option<u64>,
    window_open: bool,
)
    ensures
        handled(sessions, ServiceCommand::OpenConfig, responder, window_open).1
            == ActionModel::OpenConfig,
        handled(sessions, ServiceCommand::Quit, responder, window_open).1 == ActionModel::Quit,
        handled(sessions, ServiceCommand::ShowPicker, responder, false).1 == ActionModel::Open(
            sessions.current,
        ),
{
}

/// What the models hold of sessions is theirs, one for one and in their order.
pub proof fn law_sessions_are_faithful(sessions: Seq<PickerSession>, i: int)
    requires
        0 <= i < sessions.len(),
    ensures
        ({
            let session = sessions_view(sessions)[i];
            &&& sessions_view(sessions).len() == sessions.len()
            &&& session.base_path == sessions[i].base_path@
            &&& session.index == sessions[i].index
            &&& session.enable_content_indexing == sessions[i].enable_content_indexing
            &&& session.start_in_grep == sessions[i].start_in_grep
            &&& session.responder == sessions[i].responder
        }),
{
}

} // verus!
