//! What the program does, from its arguments to its exit code.
use vstd::prelude::*;
use vstd::string::*;

use crate::cli::args::{CliArgs, CliView};
use crate::cli::commands::{resumable, resume_found};
use crate::config::{ModelSelection, SelectionView};
use crate::session::{NewSession, NewSessionView, Session, SessionView};
use crate::text::{copy_maybe, maybe, maybe_view, texts, trimmed, views};
use crate::tui::editor::{ActionView, InputAction, InputMode, is_remembered};

verus! {

// ---------------------------------------------------------------------------
// The start

/// What the program was called for.
#[derive(Debug, Clone, Copy, PartialEq, Eq, Structural)]
pub enum Opening {
    Help,
    Version,
    InstallFish,
    RecordShell,
    Agent,
}

/// What the program was called for.
pub open spec fn opening_of(args: CliView) -> Opening {
    if args.help {
        Opening::Help
    } else if args.version {
        Opening::Version
    } else if args.install_fish {
        Opening::InstallFish
    } else if args.shell_record is Some {
        Opening::RecordShell
    } else {
        Opening::Agent
    }
}

/// What the program was called for.
pub fn opening(args: &CliArgs) -> (r: Opening)
    ensures
        r == opening_of(args@),
{
    if args.help {
        Opening::Help
    } else if args.version {
        Opening::Version
    } else if args.install_fish {
        Opening::InstallFish
    } else if args.shell_record.is_some() {
        Opening::RecordShell
    } else {
        Opening::Agent
    }
}

/// The prompt: that of the arguments or, from Fish, that of the environment,
/// unless it is blank.
pub fn first_prompt(args: &CliArgs, environment: Option<String>) -> (r: Option<String>)
    ensures
        maybe(r) == (if args@.fish_ai && args@.prompt is None {
            match maybe(environment) {
                Some(prompt) => if trimmed(prompt).len() > 0 {
                    Some(prompt)
                } else {
                    None
                },
                None => None,
            }
        } else {
            args@.prompt
        }),
{
    if args.fish_ai && args.prompt.is_none() {
        match environment {
            Some(prompt) => {
                if is_remembered(&prompt) {
                    Some(prompt)
                } else {
                    None
                }
            },
            None => None,
        }
    } else {
        copy_maybe(&args.prompt)
    }
}

/// The first directory that holds a repository, going up; the first one if none
/// does. `directories` go up from the working directory.
pub open spec fn first_marked(directories: Seq<Seq<char>>, marked: Seq<bool>, from: int) -> Seq<char>
    decreases directories.len() - from,
{
    if from >= directories.len() {
        directories[0]
    } else if marked[from] {
        directories[from]
    } else {
        first_marked(directories, marked, from + 1)
    }
}

/// The root of the project: the nearest directory that holds a repository, or
/// the working directory.
pub fn project_root(directories: &Vec<String>, has_repository: &Vec<bool>) -> (r: String)
    requires
        directories.len() > 0,
        has_repository.len() == directories.len(),
    ensures
        r@ == first_marked(texts(directories@), has_repository@, 0),
{
    let ghost all = texts(directories@);
    assert(all.len() == directories@.len());
    let mut i: usize = 0;
    while i < directories.len()
        invariant
            i <= directories.len() == has_repository.len(),
            all == texts(directories@),
            first_marked(all, has_repository@, 0) == first_marked(
                all,
                has_repository@,
                i as int,
            ),
        decreases directories.len() - i,
    {
        assert(all[i as int] == directories@[i as int]@);
        if has_repository[i] {
            return directories[i].clone();
        }
        i += 1;
    }
    assert(all[0] == directories@[0]@);
    directories[0].clone()
}

// ---------------------------------------------------------------------------
// The session

/// Where a session is looked for.
#[derive(Debug)]
pub enum SessionLookup {
    ById(String),
    /// The latest of the directory.
    Latest,
    /// That of a Fish process.
    Client(String),
}

/// The model of a [`SessionLookup`].
pub enum LookupView {
    ById(Seq<char>),
    Latest,
    Client(Seq<char>),
}

impl View for SessionLookup {
    type V = LookupView;

    open spec fn view(&self) -> LookupView {
        match self {
            SessionLookup::ById(id) => LookupView::ById(id@),
            SessionLookup::Latest => LookupView::Latest,
            SessionLookup::Client(key) => LookupView::Client(key@),
        }
    }
}

/// Where a session is looked for, one place after another. A session that is
/// asked for by its id is looked for nowhere else; where nothing is found a new
/// session begins.
pub open spec fn lookups_of(args: CliView) -> Seq<LookupView> {
    match args.resume_session_id {
        Some(id) => seq![LookupView::ById(id)],
        None => (if args.resume {
            seq![LookupView::Latest]
        } else {
            Seq::empty()
        }) + (match args.fish_session_key {
            Some(key) => seq![LookupView::Client(key)],
            None => Seq::empty(),
        }),
    }
}

/// Where a session is looked for.
pub fn session_lookups(args: &CliArgs) -> (r: Vec<SessionLookup>)
    ensures
        views(r@) == lookups_of(args@),
{
    let mut r: Vec<SessionLookup> = Vec::new();
    match &args.resume_session_id {
        Some(id) => {
            r.push(SessionLookup::ById(id.clone()));
        },
        None => {
            if args.resume {
                r.push(SessionLookup::Latest);
            }
            if let Some(key) = &args.fish_session_key {
                r.push(SessionLookup::Client(key.clone()));
            }
        },
    }
    assert(views(r@) =~= lookups_of(args@));
    r
}

/// What a lookup comes to: a session, nothing, or that the session which was
/// asked for cannot be continued here.
pub open spec fn lookup_outcome(
    lookup: LookupView,
    found: Option<SessionView>,
    cwd: Seq<char>,
) -> Result<Option<SessionView>, Seq<char>> {
    match lookup {
        LookupView::ById(id) => match resumable(found, id, cwd) {
            Ok(session) => Ok(Some(session)),
            Err(e) => Err(e),
        },
        _ => Ok(found),
    }
}

/// What a lookup comes to, given what was found.
pub fn settle_lookup(lookup: &SessionLookup, found: Option<Session>, cwd: &str) -> (r: Result<
    Option<Session>,
    String,
>)
    ensures
        lookup_outcome(lookup@, maybe_view(found), cwd@) == (match r {
            Ok(session) => Ok::<Option<SessionView>, Seq<char>>(maybe_view(session)),
            Err(e) => Err::<Option<SessionView>, Seq<char>>(e@),
        }),
{
    match lookup {
        SessionLookup::ById(id) => match resume_found(found, id, cwd) {
            Ok(session) => Ok(Some(session)),
            Err(e) => Err(e),
        },
        SessionLookup::Latest => Ok(found),
        SessionLookup::Client(_) => Ok(found),
    }
}

/// A session that begins.
pub open spec fn new_session_for(args: CliView, cwd: Seq<char>, model: SelectionView) ->
    NewSessionView {
    NewSessionView {
        cwd,
        provider_type: model.provider.kind.name(),
        model: model.provider.model,
        client_session_key: args.fish_session_key,
        model_profile: Some(model.name),
        effort: model.effort,
    }
}

/// A session that begins.
pub fn begin_session(args: &CliArgs, cwd: &str, selection: &ModelSelection) -> (r: NewSession)
    ensures
        r@ == new_session_for(args@, cwd@, selection@),
{
    let effort = match &selection.effort {
        Some(effort) => Some(effort.as_str()),
        None => None,
    };
    let session = NewSession::new(
        cwd,
        selection.provider.kind.as_str(),
        &selection.provider.model,
    ).with_model_selection(&selection.name, effort);
    match &args.fish_session_key {
        Some(key) => session.with_client_session_key(key),
        None => session,
    }
}

/// Whether a session shows the reasoning: as was chosen in it, or else as is
/// configured.
pub fn shows_reasoning(session: &Session, configured: bool) -> (r: bool)
    ensures
        r == (match session@.reasoning_visible {
            Some(visible) => visible,
            None => configured,
        }),
{
    match session.reasoning_visible {
        Some(visible) => visible,
        None => configured,
    }
}

// ---------------------------------------------------------------------------
// Turns

/// What the program has been told so far.
#[derive(Debug)]
pub struct Run {
    pub one_turn: bool,
    pub fish_ai: bool,
    pub prompt: Option<String>,
    /// How often lines are answered; nothing for the prompt of the arguments.
    pub mode: Option<InputMode>,
}

/// The model of a [`Run`].
pub struct RunView {
    pub one_turn: bool,
    pub fish_ai: bool,
    pub prompt: Option<Seq<char>>,
    pub mode: Option<InputMode>,
}

impl View for Run {
    type V = RunView;

    open spec fn view(&self) -> RunView {
        RunView {
            one_turn: self.one_turn,
            fish_ai: self.fish_ai,
            prompt: maybe(self.prompt),
            mode: self.mode,
        }
    }
}

/// What has happened.
#[derive(Debug)]
pub enum RunEvent {
    /// The program is ready.
    Started,
    /// The user did something.
    Input(InputAction),
    /// A line was answered; it may have been cancelled.
    Answered { cancelled: bool },
    /// A command was carried out, or a key was handled.
    Done,
}

/// The model of a [`RunEvent`].
pub enum RunEventView {
    Started,
    Input(ActionView),
    Answered { cancelled: bool },
    Done,
}

impl View for RunEvent {
    type V = RunEventView;

    open spec fn view(&self) -> RunEventView {
        match self {
            RunEvent::Started => RunEventView::Started,
            RunEvent::Input(action) => RunEventView::Input(action@),
            RunEvent::Answered { cancelled } => RunEventView::Answered { cancelled: *cancelled },
            RunEvent::Done => RunEventView::Done,
        }
    }
}

/// What to do next.
#[derive(Debug)]
pub enum RunOrder {
    /// Carry out or answer a line. It is shown first if `echo` says so, and kept
    /// in the history if `remember` says so.
    Handle { line: String, echo: bool, remember: bool },
    /// Read a line.
    Read,
    ToggleReasoning,
    Rewind,
    Exit(i32),
    Fail(String),
}

/// The model of a [`RunOrder`].
pub enum OrderView {
    Handle { line: Seq<char>, echo: bool, remember: bool },
    Read,
    ToggleReasoning,
    Rewind,
    Exit(i32),
    Fail(Seq<char>),
}

impl View for RunOrder {
    type V = OrderView;

    open spec fn view(&self) -> OrderView {
        match self {
            RunOrder::Handle { line, echo, remember } => OrderView::Handle {
                line: line@,
                echo: *echo,
                remember: *remember,
            },
            RunOrder::Read => OrderView::Read,
            RunOrder::ToggleReasoning => OrderView::ToggleReasoning,
            RunOrder::Rewind => OrderView::Rewind,
            RunOrder::Exit(code) => OrderView::Exit(*code),
            RunOrder::Fail(message) => OrderView::Fail(message@),
        }
    }
}

/// The exit code of a program that the user interrupted.
pub const INTERRUPTED: i32 = 130;

/// What to do after a line: go on, unless one line was all.
pub open spec fn after_line(run: RunView, cancelled: bool) -> OrderView {
    let last = match run.mode {
        None => run.one_turn,
        Some(mode) => mode == InputMode::Once,
    };
    if !last {
        OrderView::Read
    } else if cancelled {
        OrderView::Exit(INTERRUPTED)
    } else {
        OrderView::Exit(0)
    }
}

/// What the program has been told once something has happened, and what it does
/// next.
pub open spec fn run_effect(run: RunView, event: RunEventView) -> (RunView, OrderView) {
    match event {
        RunEventView::Started => match run.prompt {
            Some(prompt) => (
                RunView { mode: None, ..run },
                OrderView::Handle { line: prompt, echo: !run.fish_ai, remember: false },
            ),
            None => if run.one_turn {
                (run, OrderView::Fail("--one-turn requires a prompt"@))
            } else {
                (RunView { mode: Some(InputMode::Multi), ..run }, OrderView::Read)
            },
        },
        RunEventView::Input(action) => match action {
            ActionView::Submit(line, mode) => if trimmed(line).len() > 0 {
                (
                    RunView { mode: Some(mode), ..run },
                    OrderView::Handle { line, echo: false, remember: true },
                )
            } else {
                (run, OrderView::Read)
            },
            ActionView::ToggleReasoning => (
                RunView { mode: Some(InputMode::Multi), ..run },
                OrderView::ToggleReasoning,
            ),
            ActionView::Rewind => (
                RunView { mode: Some(InputMode::Multi), ..run },
                OrderView::Rewind,
            ),
            ActionView::Interrupt => (run, OrderView::Exit(INTERRUPTED)),
            ActionView::Eof => (run, OrderView::Exit(0)),
        },
        RunEventView::Answered { cancelled } => (run, after_line(run, cancelled)),
        RunEventView::Done => (run, after_line(run, false)),
    }
}

impl Run {
    /// A run that has been told its arguments.
    pub fn new(args: &CliArgs, prompt: Option<String>) -> (r: Run)
        ensures
            r@ == (RunView {
                one_turn: args@.one_turn,
                fish_ai: args@.fish_ai,
                prompt: maybe(prompt),
                mode: None,
            }),
    {
        Run { one_turn: args.one_turn, fish_ai: args.fish_ai, prompt, mode: None }
    }

    fn after(&self, cancelled: bool) -> (r: RunOrder)
        ensures
            r@ == after_line(self@, cancelled),
    {
        let last = match self.mode {
            None => self.one_turn,
            Some(mode) => mode == InputMode::Once,
        };
        if !last {
            RunOrder::Read
        } else if cancelled {
            RunOrder::Exit(INTERRUPTED)
        } else {
            RunOrder::Exit(0)
        }
    }

    /// What to do once something has happened.
    pub fn step(&mut self, event: RunEvent) -> (r: RunOrder)
        ensures
            (final(self)@, r@) == run_effect(old(self)@, event@),
    {
        match event {
            RunEvent::Started => match &self.prompt {
                Some(prompt) => {
                    let line = prompt.clone();
                    self.mode = None;
                    RunOrder::Handle { line, echo: !self.fish_ai, remember: false }
                },
                None => {
                    if self.one_turn {
                        RunOrder::Fail("--one-turn requires a prompt".to_owned())
                    } else {
                        self.mode = Some(InputMode::Multi);
                        RunOrder::Read
                    }
                },
            },
            RunEvent::Input(action) => match action {
                InputAction::Submit(line, mode) => {
                    if is_remembered(&line) {
                        self.mode = Some(mode);
                        RunOrder::Handle { line, echo: false, remember: true }
                    } else {
                        RunOrder::Read
                    }
                },
                InputAction::ToggleReasoning => {
                    self.mode = Some(InputMode::Multi);
                    RunOrder::ToggleReasoning
                },
                InputAction::Rewind => {
                    self.mode = Some(InputMode::Multi);
                    RunOrder::Rewind
                },
                InputAction::Interrupt => RunOrder::Exit(INTERRUPTED),
                InputAction::Eof => RunOrder::Exit(0),
            },
            RunEvent::Answered { cancelled } => self.after(cancelled),
            RunEvent::Done => self.after(false),
        }
    }
}

/// With one turn asked for, the program answers its prompt and ends: with 130
/// where the answer was cancelled, else with 0. Without a prompt it refuses.
pub proof fn law_one_turn_ends(run: RunView, cancelled: bool)
    requires
        run.one_turn,
    ensures
        ({
            let (after, order) = run_effect(run, RunEventView::Started);
            match run.prompt {
                Some(prompt) => order is Handle && run_effect(
                    after,
                    RunEventView::Answered { cancelled },
                ).1 == OrderView::Exit(
                    if cancelled {
                        130
                    } else {
                        0
                    },
                ),
                None => order is Fail,
            }
        }),
{
}

/// A line that was entered to be answered once is the last; one that was entered
/// among many is followed by another.
pub proof fn law_modes_decide(run: RunView, line: Seq<char>, mode: InputMode, cancelled: bool)
    requires
        trimmed(line).len() > 0,
    ensures
        ({
            let (after, order) = run_effect(
                run,
                RunEventView::Input(ActionView::Submit(line, mode)),
            );
            let next = run_effect(after, RunEventView::Answered { cancelled }).1;
            &&& order == OrderView::Handle { line, echo: false, remember: true }
            &&& (mode == InputMode::Multi) == (next is Read)
            &&& (mode == InputMode::Once) == (next is Exit)
        }),
{
}

/// A key press while a turn is running: whether it was released, whether it is
/// Escape, its character if it is one, and whether Ctrl was held. Escape and
/// Ctrl+C cancel the turn.
pub fn cancels_turn(released: bool, escape: bool, character: Option<char>, control: bool) -> (r:
    bool)
    ensures
        r == (!released && (escape || character == Some('c') && control)),
{
    let letter = match character {
        Some(c) => c == 'c',
        None => false,
    };
    !released && (escape || letter && control)
}

/// A prompt that was given is handled first, and shown unless the shell shows it;
/// without one a line is read.
pub proof fn law_the_given_prompt_comes_first(run: RunView, prompt: Seq<char>)
    ensures
        run.prompt == Some(prompt) ==> run_effect(run, RunEventView::Started).1
            == (OrderView::Handle { line: prompt, echo: !run.fish_ai, remember: false }),
        run.prompt is None && !run.one_turn ==> run_effect(run, RunEventView::Started).1
            == OrderView::Read,
        run.prompt is Some && !run.one_turn ==> run_effect(
            run_effect(run, RunEventView::Started).0,
            RunEventView::Answered { cancelled: true },
        ).1 == OrderView::Read,
{
}

/// What is entered is done: a blank line is asked for again, an interruption and
/// the end of the input end the run, with the code for it.
pub proof fn law_what_is_entered_is_done(run: RunView, line: Seq<char>, mode: InputMode)
    ensures
        trimmed(line).len() == 0 ==> run_effect(
            run,
            RunEventView::Input(ActionView::Submit(line, mode)),
        ) == (run, OrderView::Read),
        run_effect(run, RunEventView::Input(ActionView::Interrupt)).1 == OrderView::Exit(130),
        run_effect(run, RunEventView::Input(ActionView::Eof)).1 == OrderView::Exit(0),
        run_effect(run, RunEventView::Input(ActionView::Rewind)).1 == OrderView::Rewind,
        run_effect(run, RunEventView::Input(ActionView::ToggleReasoning)).1
            == OrderView::ToggleReasoning,
        run_effect(
            run_effect(run, RunEventView::Input(ActionView::Rewind)).0,
            RunEventView::Done,
        ).1 == OrderView::Read,
        run_effect(
            run_effect(run, RunEventView::Input(ActionView::ToggleReasoning)).0,
            RunEventView::Done,
        ).1 == OrderView::Read,
{
}

/// The directory that is marked is found, the first of several, and the first of
/// all where none is.
pub proof fn law_the_first_marked_directory_is_found(
    directories: Seq<Seq<char>>,
    marked: Seq<bool>,
    n: int,
)
    requires
        0 <= n < directories.len(),
        forall|i: int| 0 <= i < n ==> !#[trigger] marked[i],
        marked[n] || (n == 0 && forall|i: int| 0 <= i < directories.len() ==> !#[trigger] marked[i]),
    ensures
        first_marked(directories, marked, 0) == directories[n],
{
    lemma_first_marked(directories, marked, n, 0);
}

proof fn lemma_first_marked(directories: Seq<Seq<char>>, marked: Seq<bool>, n: int, from: int)
    requires
        0 <= n < directories.len(),
        0 <= from <= directories.len(),
        forall|i: int| 0 <= i < n ==> !#[trigger] marked[i],
        marked[n] || (n == 0 && forall|i: int| 0 <= i < directories.len() ==> !#[trigger] marked[i]),
        marked[n] ==> from <= n,
    ensures
        first_marked(directories, marked, from) == directories[n],
    decreases directories.len() - from,
{
    if from < directories.len() && !marked[from] {
        lemma_first_marked(directories, marked, n, from + 1);
    }
}

/// A session that was named is the only one that is looked for, and must be there
/// and belong to the directory; else the latest is, where one is to be resumed, and
/// then that of the shell; none of these need be there.
pub proof fn law_sessions_are_looked_for(
    args: CliView,
    id: Seq<char>,
    key: Seq<char>,
    session: SessionView,
    cwd: Seq<char>,
)
    ensures
        args.resume_session_id == Some(id) ==> lookups_of(args) == seq![LookupView::ById(id)],
        args.resume_session_id is None ==> {
            &&& lookups_of(args).contains(LookupView::Latest) == args.resume
            &&& args.fish_session_key == Some(key) ==> lookups_of(args).last()
                == LookupView::Client(key)
            &&& lookups_of(args).len() == (if args.resume {
                1nat
            } else {
                0
            }) + (if args.fish_session_key is Some {
                1nat
            } else {
                0
            })
            &&& args.resume ==> lookups_of(args)[0] == LookupView::Latest
        },
        lookup_outcome(LookupView::ById(id), Some(session), cwd) == (if session.cwd == cwd {
            Ok::<Option<SessionView>, Seq<char>>(Some(session))
        } else {
            Err("cannot resume a session from a different cwd"@)
        }),
        lookup_outcome(LookupView::ById(id), None, cwd) == Err::<Option<SessionView>, Seq<char>>(
            "session not found: "@ + id,
        ),
        lookup_outcome(LookupView::Latest, None, cwd) == Ok::<Option<SessionView>, Seq<char>>(None),
        lookup_outcome(LookupView::Client(key), Some(session), cwd) == Ok::<
            Option<SessionView>,
            Seq<char>,
        >(Some(session)),
{
    let all = lookups_of(args);
    if args.resume_session_id is None {
        if args.resume {
            assert(all[0] == LookupView::Latest);
        }
    }
}

/// A new session is that of the directory and the model it is begun with.
pub proof fn law_new_sessions_hold_what_was_selected(
    args: CliView,
    cwd: Seq<char>,
    model: SelectionView,
)
    ensures
        ({
            let s = new_session_for(args, cwd, model);
            &&& s.cwd == cwd
            &&& s.model == model.provider.model
            &&& s.provider_type == model.provider.kind.name()
            &&& s.model_profile == Some(model.name)
            &&& s.effort == model.effort
            &&& s.client_session_key == args.fish_session_key
        }),
{
}

/// What is asked for first is done first: help before all else, then the version,
/// then what is installed or recorded; else the agent is run.
pub proof fn law_runs_open_with_what_is_asked_for(args: CliView)
    ensures
        args.help ==> opening_of(args) == Opening::Help,
        !args.help && args.version ==> opening_of(args) == Opening::Version,
        !args.help && !args.version && args.install_fish ==> opening_of(args)
            == Opening::InstallFish,
        (opening_of(args) == Opening::RecordShell) == (!args.help && !args.version
            && !args.install_fish && args.shell_record is Some),
        (opening_of(args) == Opening::Agent) == (!args.help && !args.version && !args.install_fish
            && args.shell_record is None),
{
}

} // verus!
