//! The arguments of the command line.
use vstd::prelude::*;
use vstd::string::*;

use crate::seqs::{law_picks_are_unique, lemma_picks_last, lemma_picks_nothing, picked_at, picks};
use crate::session::is_session_id;
use crate::text::{
    begins, holds_text, integer, join, joined, law_signed_decimal_is_read_back, lemma_texts_push,
    maybe, maybe_view, occurs_at, parse_i32, parse_i64, same, signed_decimal, starts_with, texts,
};

verus! {

pub const HELP: &'static str = "a - fast terminal coding agent

Usage:
  a [OPTIONS] [FILES...] [PROMPT]

Options:
  -1, --one-turn       Exit after one complete user/tool/model turn
  -r, --resume         Resume the latest session for the current directory
      --session ID     Resume a specific session
      --install-fish   Install Fish shell integration
  -h, --help           Show help
  -V, --version        Show version
";

/// What the command line asks for.
#[derive(Debug, PartialEq, Eq)]
pub struct CliArgs {
    pub one_turn: bool,
    pub resume: bool,
    pub resume_session_id: Option<String>,
    pub files: Vec<String>,
    pub prompt: Option<String>,
    pub help: bool,
    pub version: bool,
    pub install_fish: bool,
    pub fish_ai: bool,
    pub fish_session_key: Option<String>,
    pub shell_record: Option<ShellRecordArgs>,
}

/// A shell command to be kept.
#[derive(Debug, PartialEq, Eq)]
pub struct ShellRecordArgs {
    pub cwd: String,
    pub command: String,
    pub exit_code: Option<i32>,
    pub started_at: i64,
    pub duration_ms: Option<i64>,
    pub pipe_status: Option<String>,
    pub fish_session_key: Option<String>,
}

/// Why the arguments were refused.
#[derive(Debug, PartialEq, Eq)]
pub struct CliError(pub String);

impl View for CliError {
    type V = Seq<char>;

    open spec fn view(&self) -> Seq<char> {
        self.0@
    }
}

impl CliError {
    /// What is shown to the user.
    pub fn to_string(&self) -> (r: String)
        ensures
            r@ == self@,
    {
        self.0.clone()
    }
}

/// The model of a [`ShellRecordArgs`].
pub struct RecordView {
    pub cwd: Seq<char>,
    pub command: Seq<char>,
    pub exit_code: Option<i32>,
    pub started_at: i64,
    pub duration_ms: Option<i64>,
    pub pipe_status: Option<Seq<char>>,
    pub fish_session_key: Option<Seq<char>>,
}

impl View for ShellRecordArgs {
    type V = RecordView;

    open spec fn view(&self) -> RecordView {
        RecordView {
            cwd: self.cwd@,
            command: self.command@,
            exit_code: self.exit_code,
            started_at: self.started_at,
            duration_ms: self.duration_ms,
            pipe_status: maybe(self.pipe_status),
            fish_session_key: maybe(self.fish_session_key),
        }
    }
}

/// The model of a [`CliArgs`].
pub struct CliView {
    pub one_turn: bool,
    pub resume: bool,
    pub resume_session_id: Option<Seq<char>>,
    pub files: Seq<Seq<char>>,
    pub prompt: Option<Seq<char>>,
    pub help: bool,
    pub version: bool,
    pub install_fish: bool,
    pub fish_ai: bool,
    pub fish_session_key: Option<Seq<char>>,
    pub shell_record: Option<RecordView>,
}

impl View for CliArgs {
    type V = CliView;

    open spec fn view(&self) -> CliView {
        CliView {
            one_turn: self.one_turn,
            resume: self.resume,
            resume_session_id: maybe(self.resume_session_id),
            files: texts(self.files@),
            prompt: maybe(self.prompt),
            help: self.help,
            version: self.version,
            install_fish: self.install_fish,
            fish_ai: self.fish_ai,
            fish_session_key: maybe(self.fish_session_key),
            shell_record: maybe_view(self.shell_record),
        }
    }
}

/// Nothing asked for.
pub open spec fn no_args() -> CliView {
    CliView {
        one_turn: false,
        resume: false,
        resume_session_id: None,
        files: Seq::empty(),
        prompt: None,
        help: false,
        version: false,
        install_fish: false,
        fish_ai: false,
        fish_session_key: None,
        shell_record: None,
    }
}

impl Default for CliArgs {
    fn default() -> (r: CliArgs)
        ensures
            r@ == no_args(),
    {
        let files: Vec<String> = Vec::new();
        assert(texts(files@) =~= Seq::empty());
        CliArgs {
            one_turn: false,
            resume: false,
            resume_session_id: None,
            files,
            prompt: None,
            help: false,
            version: false,
            install_fish: false,
            fish_ai: false,
            fish_session_key: None,
            shell_record: None,
        }
    }
}

/// The model of an outcome of reading arguments.
pub open spec fn cli_outcome(r: Result<CliArgs, CliError>) -> Result<CliView, Seq<char>> {
    match r {
        Ok(a) => Ok(a@),
        Err(e) => Err(e@),
    }
}

// ---------------------------------------------------------------------------
// Shell records

/// What has been read of a shell record.
pub struct PartialRecord {
    pub cwd: Option<String>,
    pub command: Option<String>,
    pub exit_code: Option<i32>,
    pub started_at: Option<i64>,
    pub duration_ms: Option<i64>,
    pub pipe_status: Option<String>,
    pub fish_session_key: Option<String>,
}

/// The model of a [`PartialRecord`].
pub struct PartialRecordView {
    pub cwd: Option<Seq<char>>,
    pub command: Option<Seq<char>>,
    pub exit_code: Option<i32>,
    pub started_at: Option<i64>,
    pub duration_ms: Option<i64>,
    pub pipe_status: Option<Seq<char>>,
    pub fish_session_key: Option<Seq<char>>,
}

impl View for PartialRecord {
    type V = PartialRecordView;

    open spec fn view(&self) -> PartialRecordView {
        PartialRecordView {
            cwd: maybe(self.cwd),
            command: maybe(self.command),
            exit_code: self.exit_code,
            started_at: self.started_at,
            duration_ms: self.duration_ms,
            pipe_status: maybe(self.pipe_status),
            fish_session_key: maybe(self.fish_session_key),
        }
    }
}

/// A number of 32 bits that a text denotes.
pub open spec fn small_integer(s: Seq<char>) -> Option<i32> {
    match integer(s) {
        Some(n) => if i32::MIN <= n <= i32::MAX {
            Some(n as i32)
        } else {
            None
        },
        None => None,
    }
}

/// A number of 64 bits that a text denotes.
pub open spec fn large_integer(s: Seq<char>) -> Option<i64> {
    match integer(s) {
        Some(n) => if i64::MIN <= n <= i64::MAX {
            Some(n as i64)
        } else {
            None
        },
        None => None,
    }
}

/// The record with one more option.
pub open spec fn take_field(
    p: PartialRecordView,
    key: Seq<char>,
    value: Seq<char>,
) -> Result<PartialRecordView, Seq<char>> {
    if key == "--cwd"@ {
        Ok(PartialRecordView { cwd: Some(value), ..p })
    } else if key == "--command"@ {
        Ok(PartialRecordView { command: Some(value), ..p })
    } else if key == "--exit-code"@ {
        match small_integer(value) {
            Some(n) => Ok(PartialRecordView { exit_code: Some(n), ..p }),
            None => Err("--exit-code must be an integer"@),
        }
    } else if key == "--started-at"@ {
        match large_integer(value) {
            Some(n) => Ok(PartialRecordView { started_at: Some(n), ..p }),
            None => Err("--started-at must be an integer"@),
        }
    } else if key == "--duration-ms"@ {
        match large_integer(value) {
            Some(n) => Ok(PartialRecordView { duration_ms: Some(n), ..p }),
            None => Err("--duration-ms must be an integer"@),
        }
    } else if key == "--pipe-status"@ {
        Ok(PartialRecordView { pipe_status: Some(value), ..p })
    } else if key == "--fish-session-key"@ {
        Ok(PartialRecordView { fish_session_key: Some(value), ..p })
    } else {
        Err("unknown shell record option: "@ + key)
    }
}

/// The record with the options from a place on, each with its value.
pub open spec fn take_fields(args: Seq<Seq<char>>, from: int, p: PartialRecordView) -> Result<
    PartialRecordView,
    Seq<char>,
>
    decreases args.len() - from,
{
    if from >= args.len() {
        Ok(p)
    } else if from + 1 >= args.len() {
        Err(args[from] + " requires a value"@)
    } else {
        match take_field(p, args[from], args[from + 1]) {
            Err(e) => Err(e),
            Ok(q) => take_fields(args, from + 2, q),
        }
    }
}

/// The record, if nothing that it needs is missing.
pub open spec fn complete_record(p: PartialRecordView) -> Result<RecordView, Seq<char>> {
    if p.cwd is None {
        Err("__record-shell requires --cwd"@)
    } else if p.command is None {
        Err("__record-shell requires --command"@)
    } else if p.started_at is None {
        Err("__record-shell requires --started-at"@)
    } else {
        Ok(
            RecordView {
                cwd: p.cwd->Some_0,
                command: p.command->Some_0,
                exit_code: p.exit_code,
                started_at: p.started_at->Some_0,
                duration_ms: p.duration_ms,
                pipe_status: p.pipe_status,
                fish_session_key: p.fish_session_key,
            },
        )
    }
}

/// A record of which nothing has been read.
pub open spec fn no_record() -> PartialRecordView {
    PartialRecordView {
        cwd: None,
        command: None,
        exit_code: None,
        started_at: None,
        duration_ms: None,
        pipe_status: None,
        fish_session_key: None,
    }
}

/// The shell record that arguments from a place on describe.
pub open spec fn record_of(args: Seq<Seq<char>>, from: int) -> Result<CliView, Seq<char>> {
    match take_fields(args, from, no_record()) {
        Err(e) => Err(e),
        Ok(p) => match complete_record(p) {
            Err(e) => Err(e),
            Ok(r) => Ok(CliView { shell_record: Some(r), ..no_args() }),
        },
    }
}

impl PartialRecord {
    fn take(&mut self, key: &str, value: &str) -> (r: Result<(), CliError>)
        ensures
            match r {
                Ok(()) => take_field(old(self)@, key@, value@) == Ok::<
                    PartialRecordView,
                    Seq<char>,
                >(final(self)@),
                Err(e) => take_field(old(self)@, key@, value@) == Err::<
                    PartialRecordView,
                    Seq<char>,
                >(e@),
            },
    {
        if same(key, "--cwd") {
            self.cwd = Some(value.to_owned());
        } else if same(key, "--command") {
            self.command = Some(value.to_owned());
        } else if same(key, "--exit-code") {
            match parse_i32(value) {
                Some(n) => {
                    self.exit_code = Some(n);
                },
                None => return Err(CliError("--exit-code must be an integer".to_owned())),
            }
        } else if same(key, "--started-at") {
            match parse_i64(value) {
                Some(n) => {
                    self.started_at = Some(n);
                },
                None => return Err(CliError("--started-at must be an integer".to_owned())),
            }
        } else if same(key, "--duration-ms") {
            match parse_i64(value) {
                Some(n) => {
                    self.duration_ms = Some(n);
                },
                None => return Err(CliError("--duration-ms must be an integer".to_owned())),
            }
        } else if same(key, "--pipe-status") {
            self.pipe_status = Some(value.to_owned());
        } else if same(key, "--fish-session-key") {
            self.fish_session_key = Some(value.to_owned());
        } else {
            return Err(CliError("unknown shell record option: ".to_owned().concat(key)));
        }
        Ok(())
    }
}

fn parse_shell_record(args: &Vec<String>, from: usize) -> (r: Result<CliArgs, CliError>)
    requires
        from <= args.len(),
    ensures
        cli_outcome(r) == record_of(texts(args@), from as int),
{
    let ghost all = texts(args@);
    let mut p = PartialRecord {
        cwd: None,
        command: None,
        exit_code: None,
        started_at: None,
        duration_ms: None,
        pipe_status: None,
        fish_session_key: None,
    };
    let mut index: usize = from;
    while index < args.len()
        invariant
            index <= args.len(),
            all == texts(args@),
            all.len() == args.len(),
            record_of(all, from as int) == (match take_fields(all, from as int, no_record()) {
                Err(e) => Err(e),
                Ok(p) => match complete_record(p) {
                    Err(e) => Err(e),
                    Ok(r) => Ok(CliView { shell_record: Some(r), ..no_args() }),
                },
            }),
            take_fields(all, from as int, no_record()) == take_fields(all, index as int, p@),
        decreases args.len() - index,
    {
        let key = &args[index];
        assert(all[index as int] == key@);
        if args.len() - index < 2 {
            return Err(CliError(key.clone().concat(" requires a value")));
        }
        assert(all[index + 1] == args@[index + 1]@);
        match p.take(key, &args[index + 1]) {
            Ok(()) => {},
            Err(e) => return Err(e),
        }
        index += 2;
    }
    let cwd = match p.cwd {
        Some(cwd) => cwd,
        None => return Err(CliError("__record-shell requires --cwd".to_owned())),
    };
    let command = match p.command {
        Some(command) => command,
        None => return Err(CliError("__record-shell requires --command".to_owned())),
    };
    let started_at: i64 = match p.started_at {
        Some(started_at) => started_at,
        None => return Err(CliError("__record-shell requires --started-at".to_owned())),
    };
    let mut parsed = CliArgs::default();
    parsed.shell_record = Some(
        ShellRecordArgs {
            cwd,
            command,
            exit_code: p.exit_code,
            started_at,
            duration_ms: p.duration_ms,
            pipe_status: p.pipe_status,
            fish_session_key: p.fish_session_key,
        },
    );
    Ok(parsed)
}

// ---------------------------------------------------------------------------
// Options

/// What the options ask for, and the arguments that are none.
pub struct ScanView {
    pub args: CliView,
    pub positional: Seq<Seq<char>>,
}

/// What the arguments from a place on ask for, as long as options are read.
pub open spec fn scan_from(args: Seq<Seq<char>>, from: int, s: ScanView, options: bool) -> Result<
    ScanView,
    Seq<char>,
>
    decreases args.len() - from,
{
    if from >= args.len() {
        Ok(s)
    } else {
        let arg = args[from];
        let plain = ScanView { positional: s.positional.push(arg), ..s };
        if !options {
            scan_from(args, from + 1, plain, false)
        } else if arg == "--"@ {
            scan_from(args, from + 1, s, false)
        } else if arg == "-1"@ || arg == "--one-turn"@ {
            scan_from(
                args,
                from + 1,
                (ScanView { args: CliView { one_turn: true, ..s.args }, ..s }),
                true,
            )
        } else if arg == "-r"@ || arg == "--resume"@ {
            scan_from(
                args,
                from + 1,
                (ScanView { args: CliView { resume: true, ..s.args }, ..s }),
                true,
            )
        } else if arg == "-h"@ || arg == "--help"@ {
            scan_from(
                args,
                from + 1,
                (ScanView { args: CliView { help: true, ..s.args }, ..s }),
                true,
            )
        } else if arg == "-V"@ || arg == "--version"@ {
            scan_from(
                args,
                from + 1,
                (ScanView { args: CliView { version: true, ..s.args }, ..s }),
                true,
            )
        } else if arg == "--install-fish"@ {
            scan_from(
                args,
                from + 1,
                (ScanView { args: CliView { install_fish: true, ..s.args }, ..s }),
                true,
            )
        } else if arg == "--fish-ai"@ {
            scan_from(
                args,
                from + 1,
                (ScanView { args: CliView { fish_ai: true, ..s.args }, ..s }),
                true,
            )
        } else if arg == "--fish-session-key"@ {
            if from + 1 < args.len() && args[from + 1].len() > 0 {
                scan_from(
                    args,
                    from + 2,
                    (ScanView {
                        args: CliView { fish_session_key: Some(args[from + 1]), ..s.args },
                        ..s
                    }),
                    true,
                )
            } else {
                Err("--fish-session-key requires a value"@)
            }
        } else if arg == "--session"@ {
            if from + 1 < args.len() {
                scan_from(
                    args,
                    from + 2,
                    (ScanView {
                        args: CliView {
                            resume: true,
                            resume_session_id: Some(args[from + 1]),
                            ..s.args
                        },
                        ..s
                    }),
                    true,
                )
            } else {
                Err("--session requires an ID"@)
            }
        } else if begins(arg, "-"@) {
            Err("unknown option: "@ + arg)
        } else {
            scan_from(args, from + 1, plain, true)
        }
    }
}

/// What is read of arguments before files are told from the prompt: a session
/// to resume may stand first among the arguments that are no options.
pub open spec fn scanned(args: Seq<Seq<char>>) -> Result<ScanView, Seq<char>> {
    match scan_from(args, 0, (ScanView { args: no_args(), positional: Seq::empty() }), true) {
        Err(e) => Err(e),
        Ok(s) => if s.args.resume && s.args.resume_session_id is None && s.positional.len() > 0
            && begins(s.positional[0], "a_"@) {
            Ok(
                ScanView {
                    args: CliView { resume_session_id: Some(s.positional[0]), ..s.args },
                    positional: s.positional.skip(1),
                },
            )
        } else {
            Ok(s)
        },
    }
}

/// The arguments once the first `n` that are no options are files, and the rest
/// is the prompt.
pub open spec fn with_files(s: ScanView, n: int) -> CliView {
    CliView {
        files: s.positional.take(n),
        prompt: if n < s.positional.len() {
            Some(joined(s.positional.skip(n), " "@))
        } else {
            None
        },
        ..s.args
    }
}

/// Whether arguments ask for a shell record.
pub open spec fn records_shell(args: Seq<Seq<char>>) -> bool {
    args.len() > 0 && args[0] == "__record-shell"@
}

struct Scan {
    args: CliArgs,
    positional: Vec<String>,
}

impl View for Scan {
    type V = ScanView;

    closed spec fn view(&self) -> ScanView {
        ScanView { args: self.args@, positional: texts(self.positional@) }
    }
}

fn scan_options(args: &Vec<String>) -> (r: Result<Scan, CliError>)
    ensures
        match r {
            Ok(s) => scan_from(
                texts(args@),
                0,
                (ScanView { args: no_args(), positional: Seq::empty() }),
                true,
            ) == Ok::<ScanView, Seq<char>>(s@),
            Err(e) => scan_from(
                texts(args@),
                0,
                (ScanView { args: no_args(), positional: Seq::empty() }),
                true,
            ) == Err::<ScanView, Seq<char>>(e@),
        },
{
    broadcast use lemma_texts_push;

    let ghost all = texts(args@);
    let ghost start = ScanView { args: no_args(), positional: Seq::empty() };
    let mut s = Scan { args: CliArgs::default(), positional: Vec::new() };
    assert(texts(s.positional@) =~= Seq::empty());
    let mut options = true;
    let mut i: usize = 0;
    while i < args.len()
        invariant
            i <= args.len(),
            all == texts(args@),
            all.len() == args.len(),
            scan_from(all, 0, start, true) == scan_from(all, i as int, s@, options),
            start == (ScanView { args: no_args(), positional: Seq::empty() }),
        decreases args.len() - i,
    {
        let arg = &args[i];
        assert(all[i as int] == arg@);
        let ghost before = s@;
        let ghost plain = ScanView { positional: before.positional.push(arg@), ..before };
        if !options {
            s.positional.push(arg.clone());
            assert(texts(s.positional@) =~= plain.positional);
            assert(s@ == plain);
        } else if same(arg, "--") {
            options = false;
        } else if same(arg, "-1") || same(arg, "--one-turn") {
            s.args.one_turn = true;
            assert(s@ == (ScanView {
                args: CliView { one_turn: true, ..before.args },
                ..before
            }));
        } else if same(arg, "-r") || same(arg, "--resume") {
            s.args.resume = true;
            assert(s@ == (ScanView {
                args: CliView { resume: true, ..before.args },
                ..before
            }));
        } else if same(arg, "-h") || same(arg, "--help") {
            s.args.help = true;
            assert(s@ == (ScanView {
                args: CliView { help: true, ..before.args },
                ..before
            }));
        } else if same(arg, "-V") || same(arg, "--version") {
            s.args.version = true;
            assert(s@ == (ScanView {
                args: CliView { version: true, ..before.args },
                ..before
            }));
        } else if same(arg, "--install-fish") {
            s.args.install_fish = true;
            assert(s@ == (ScanView {
                args: CliView { install_fish: true, ..before.args },
                ..before
            }));
        } else if same(arg, "--fish-ai") {
            s.args.fish_ai = true;
            assert(s@ == (ScanView {
                args: CliView { fish_ai: true, ..before.args },
                ..before
            }));
        } else if same(arg, "--fish-session-key") {
            if args.len() - i < 2 {
                return Err(CliError("--fish-session-key requires a value".to_owned()));
            }
            assert(all[i + 1] == args@[i + 1]@);
            if args[i + 1].as_str().is_empty() {
                return Err(CliError("--fish-session-key requires a value".to_owned()));
            }
            s.args.fish_session_key = Some(args[i + 1].clone());
            assert(s@ == (ScanView {
                args: CliView { fish_session_key: Some(all[i + 1]), ..before.args },
                ..before
            }));
            i += 1;
        } else if same(arg, "--session") {
            if args.len() - i < 2 {
                return Err(CliError("--session requires an ID".to_owned()));
            }
            assert(all[i + 1] == args@[i + 1]@);
            s.args.resume = true;
            s.args.resume_session_id = Some(args[i + 1].clone());
            assert(s@ == (ScanView {
                args: CliView {
                    resume: true,
                    resume_session_id: Some(all[i + 1]),
                    ..before.args
                },
                ..before
            }));
            i += 1;
        } else if starts_with(arg, "-") {
            return Err(CliError("unknown option: ".to_owned().concat(arg)));
        } else {
            s.positional.push(arg.clone());
            assert(texts(s.positional@) =~= plain.positional);
            assert(s@ == plain);
        }
        i += 1;
    }
    Ok(s)
}

fn scan(args: &Vec<String>) -> (r: Result<Scan, CliError>)
    ensures
        match r {
            Ok(s) => scanned(texts(args@)) == Ok::<ScanView, Seq<char>>(s@),
            Err(e) => scanned(texts(args@)) == Err::<ScanView, Seq<char>>(e@),
        },
{
    match scan_options(args) {
        Err(e) => Err(e),
        Ok(s) => {
            let mut s = s;
            let ghost before = s@.positional;
            assert(before.len() == s.positional@.len());
            if s.args.resume && s.args.resume_session_id.is_none() && s.positional.len() > 0 {
                assert(before[0] == s.positional@[0]@);
                if starts_with(&s.positional[0], "a_") {
                    let id = s.positional.remove(0);
                    assert(texts(s.positional@) =~= before.skip(1));
                    s.args.resume_session_id = Some(id);
                }
            }
            Ok(s)
        },
    }
}

fn finish(s: Scan, n: usize) -> (r: CliArgs)
    requires
        n <= s@.positional.len(),
        s@.args.files.len() == 0,
        s@.args.prompt is None,
    ensures
        r@ == with_files(s@, n as int),
{
    let ghost all = s@.positional;
    let mut args = s.args;
    let mut files = s.positional;
    assert(files@.len() == all.len());
    let rest = files.split_off(n);
    assert(texts(files@) =~= all.take(n as int));
    assert(texts(rest@) =~= all.skip(n as int));
    args.files = files;
    if rest.len() > 0 {
        args.prompt = Some(join(&rest, " "));
    }
    args
}

proof fn lemma_scan_keeps(args: Seq<Seq<char>>, from: int, s: ScanView, options: bool)
    requires
        s.args.files.len() == 0,
        s.args.prompt is None,
        s.args.shell_record is None,
    ensures
        scan_from(args, from, s, options) matches Ok(t) ==> t.args.files.len() == 0
            && t.args.prompt is None && t.args.shell_record is None,
    decreases args.len() - from,
{
    if from < args.len() {
        let arg = args[from];
        let plain = ScanView { positional: s.positional.push(arg), ..s };
        lemma_scan_keeps(args, from + 1, plain, options);
        lemma_scan_keeps(args, from + 1, s, false);
        lemma_scan_keeps(
            args,
            from + 1,
            (ScanView { args: CliView { one_turn: true, ..s.args }, ..s }),
            true,
        );
        lemma_scan_keeps(
            args,
            from + 1,
            (ScanView { args: CliView { resume: true, ..s.args }, ..s }),
            true,
        );
        lemma_scan_keeps(
            args,
            from + 1,
            (ScanView { args: CliView { help: true, ..s.args }, ..s }),
            true,
        );
        lemma_scan_keeps(
            args,
            from + 1,
            (ScanView { args: CliView { version: true, ..s.args }, ..s }),
            true,
        );
        lemma_scan_keeps(
            args,
            from + 1,
            (ScanView { args: CliView { install_fish: true, ..s.args }, ..s }),
            true,
        );
        lemma_scan_keeps(
            args,
            from + 1,
            (ScanView { args: CliView { fish_ai: true, ..s.args }, ..s }),
            true,
        );
        if from + 1 < args.len() {
            lemma_scan_keeps(
                args,
                from + 2,
                (ScanView {
                    args: CliView { fish_session_key: Some(args[from + 1]), ..s.args },
                    ..s
                }),
                true,
            );
            lemma_scan_keeps(
                args,
                from + 2,
                (ScanView {
                    args: CliView {
                        resume: true,
                        resume_session_id: Some(args[from + 1]),
                        ..s.args
                    },
                    ..s
                }),
                true,
            );
        }
    }
}

/// The number of leading texts that are among given ones.
pub open spec fn leading(positional: Seq<Seq<char>>, paths: Seq<Seq<char>>, from: int) -> int
    decreases positional.len() - from,
{
    if from >= positional.len() || !paths.contains(positional[from]) {
        from
    } else {
        leading(positional, paths, from + 1)
    }
}

/// What the command line asks for. `paths` are those of the arguments that name
/// a file or a directory.
pub fn parse_args(args: &Vec<String>, paths: &Vec<String>) -> (r: Result<CliArgs, CliError>)
    ensures
        cli_outcome(r) == (if records_shell(texts(args@)) {
            record_of(texts(args@), 1)
        } else {
            match scanned(texts(args@)) {
                Err(e) => Err(e),
                Ok(s) => Ok(with_files(s, leading(s.positional, texts(paths@), 0))),
            }
        }),
{
    assert(texts(args@).len() == args.len());
    if args.len() > 0 {
        assert(texts(args@)[0] == args@[0]@);
        if same(&args[0], "__record-shell") {
            return parse_shell_record(args, 1);
        }
    }
    proof {
        lemma_scan_keeps(
            texts(args@),
            0,
            (ScanView { args: no_args(), positional: Seq::empty() }),
            true,
        );
    }
    let s = match scan(args) {
        Ok(s) => s,
        Err(e) => return Err(e),
    };
    let ghost all = s@.positional;
    let mut n: usize = 0;
    while n < s.positional.len() && holds_text(paths, &s.positional[n])
        invariant
            n <= s.positional.len(),
            all == s@.positional,
            leading(all, texts(paths@), 0) == leading(all, texts(paths@), n as int),
        decreases s.positional.len() - n,
    {
        assert(all[n as int] == s.positional@[n as int]@);
        n += 1;
    }
    assert(n < all.len() ==> all[n as int] == s.positional@[n as int]@);
    Ok(finish(s, n))
}

/// What the command line asks for: leading arguments for which `is_path` says
/// so are files, the first for which it does not begins the prompt.
pub fn parse_args_with<F: Fn(&str) -> bool>(args: Vec<String>, is_path: F) -> (r: Result<
    CliArgs,
    CliError,
>)
    requires
        forall|s: &str| call_requires(is_path, (s,)),
    ensures
        records_shell(texts(args@)) ==> cli_outcome(r) == record_of(texts(args@), 1),
        !records_shell(texts(args@)) ==> match scanned(texts(args@)) {
            Err(e) => cli_outcome(r) == Err::<CliView, Seq<char>>(e),
            Ok(s) => exists|n: int|
                {
                    &&& 0 <= n <= s.positional.len()
                    &&& cli_outcome(r) == Ok::<CliView, Seq<char>>(#[trigger] with_files(s, n))
                    &&& forall|i: int| 0 <= i < n ==> says(is_path, #[trigger] s.positional[i], true)
                    &&& n < s.positional.len() ==> says(is_path, s.positional[n], false)
                },
        },
{
    assert(texts(args@).len() == args.len());
    if args.len() > 0 {
        assert(texts(args@)[0] == args@[0]@);
        if same(&args[0], "__record-shell") {
            return parse_shell_record(&args, 1);
        }
    }
    proof {
        lemma_scan_keeps(
            texts(args@),
            0,
            (ScanView { args: no_args(), positional: Seq::empty() }),
            true,
        );
    }
    let s = match scan(&args) {
        Ok(s) => s,
        Err(e) => return Err(e),
    };
    let ghost all = s@.positional;
    let mut n: usize = 0;
    while n < s.positional.len()
        invariant_except_break
            n <= s.positional.len(),
            forall|s: &str| call_requires(is_path, (s,)),
            all == s@.positional,
            forall|i: int| 0 <= i < n ==> says(is_path, #[trigger] all[i], true),
        ensures
            n <= s.positional.len(),
            all == s@.positional,
            forall|i: int| 0 <= i < n ==> says(is_path, #[trigger] all[i], true),
            n < all.len() ==> says(is_path, all[n as int], false),
        decreases s.positional.len() - n,
    {
        let value = s.positional[n].as_str();
        assert(all[n as int] == value@);
        let found = is_path(value);
        assert(says(is_path, all[n as int], found)) by {
            assert(call_ensures(is_path, (value,), found));
        }
        if !found {
            break;
        }
        n += 1;
    }
    let ghost view = s@;
    let parsed = finish(s, n);
    assert(parsed@ == with_files(view, n as int));
    Ok(parsed)
}

/// Whether a test may answer so for a text.
pub open spec fn says<F: Fn(&str) -> bool>(f: F, text: Seq<char>, answer: bool) -> bool {
    exists|s: &str| s@ == text && #[trigger] call_ensures(f, (s,), answer)
}

/// A new session is found again: after `-r`, its identifier is taken for the
/// session to resume and not for a part of the prompt.
pub proof fn law_session_ids_are_resumed(id: Seq<char>, rest: Seq<Seq<char>>)
    requires
        is_session_id(id),
        forall|i: int| 0 <= i < rest.len() ==> !begins(#[trigger] rest[i], "-"@),
    ensures
        scanned(seq!["-r"@, id] + rest) matches Ok(s) && s.args.resume
            && s.args.resume_session_id == Some(id) && s.positional == rest,
{
    let args = seq!["-r"@, id] + rest;
    let start = ScanView { args: no_args(), positional: Seq::empty() };
    let resumed = ScanView { args: CliView { resume: true, ..no_args() }, positional: Seq::empty() };
    let named = ScanView { positional: Seq::empty().push(id), ..resumed };
    reveal_strlit("-r");
    reveal_strlit("--");
    reveal_strlit("-1");
    reveal_strlit("--one-turn");
    reveal_strlit("--resume");
    reveal_strlit("-h");
    reveal_strlit("--help");
    reveal_strlit("-V");
    reveal_strlit("--version");
    reveal_strlit("--install-fish");
    reveal_strlit("--fish-ai");
    reveal_strlit("--fish-session-key");
    reveal_strlit("--session");
    reveal_strlit("-");
    reveal_strlit("a_");
    assert(args[0] == "-r"@);
    assert("-r"@[1] == 'r');
    assert("--"@[1] == '-');
    assert("-1"@[1] == '1');
    assert("--one-turn"@.len() == 10);
    assert(scan_from(args, 0, start, true) == scan_from(args, 1, resumed, true));
    assert(args[1] == id);
    assert(!begins(id, "-"@)) by {
        if begins(id, "-"@) {
            assert(id.subrange(0, 1)[0] == id[0]);
        }
    }
    lemma_plain_argument(args, 1, resumed);
    assert(scan_from(args, 1, resumed, true) == scan_from(args, 2, named, true));
    assert forall|i: int| 2 <= i < args.len() implies !begins(#[trigger] args[i], "-"@) by {
        assert(args[i] == rest[i - 2]);
    }
    lemma_plain_arguments(args, 2, named);
    assert(args.skip(2) =~= rest);
    let all = seq![id] + rest;
    assert(named.positional + rest =~= all);
    assert(id.subrange(0, 2) =~= "a_"@);
    assert(occurs_at(id, "a_"@, 0));
    assert(all[0] == id);
    assert(all.skip(1) =~= rest);
}

/// An argument that does not begin with a hyphen is no option.
proof fn lemma_plain_argument(args: Seq<Seq<char>>, i: int, s: ScanView)
    requires
        0 <= i < args.len(),
        !begins(args[i], "-"@),
    ensures
        scan_from(args, i, s, true) == scan_from(
            args,
            i + 1,
            (ScanView { positional: s.positional.push(args[i]), ..s }),
            true,
        ),
{
    reveal_strlit("-");
    reveal_strlit("--");
    reveal_strlit("-1");
    reveal_strlit("--one-turn");
    reveal_strlit("-r");
    reveal_strlit("--resume");
    reveal_strlit("-h");
    reveal_strlit("--help");
    reveal_strlit("-V");
    reveal_strlit("--version");
    reveal_strlit("--install-fish");
    reveal_strlit("--fish-ai");
    reveal_strlit("--fish-session-key");
    reveal_strlit("--session");
    let arg = args[i];
    if arg.len() > 0 && arg[0] == '-' {
        assert(arg.subrange(0, 1) =~= "-"@);
    }
}

proof fn lemma_plain_arguments(args: Seq<Seq<char>>, from: int, s: ScanView)
    requires
        0 <= from <= args.len(),
        forall|i: int| from <= i < args.len() ==> !begins(#[trigger] args[i], "-"@),
    ensures
        scan_from(args, from, s, true) == Ok::<ScanView, Seq<char>>(
            ScanView { positional: s.positional + args.skip(from), ..s },
        ),
    decreases args.len() - from,
{
    if from == args.len() {
        assert(s.positional + args.skip(from) =~= s.positional);
    } else {
        lemma_plain_argument(args, from, s);
        let next = ScanView { positional: s.positional.push(args[from]), ..s };
        lemma_plain_arguments(args, from + 1, next);
        assert(next.positional + args.skip(from + 1) =~= s.positional + args.skip(from));
    }
}

/// The names of the options differ.
proof fn lemma_option_names()
    ensures
        "--"@ != "--fish-ai"@,
        "--"@ != "--fish-session-key"@,
        "--"@ != "--help"@,
        "--"@ != "--install-fish"@,
        "--"@ != "--one-turn"@,
        "--"@ != "--resume"@,
        "--"@ != "--session"@,
        "--"@ != "--version"@,
        "--"@ != "-1"@,
        "--"@ != "-V"@,
        "--"@ != "-h"@,
        "--"@ != "-r"@,
        "--fish-ai"@ != "--fish-session-key"@,
        "--fish-ai"@ != "--help"@,
        "--fish-ai"@ != "--install-fish"@,
        "--fish-ai"@ != "--one-turn"@,
        "--fish-ai"@ != "--resume"@,
        "--fish-ai"@ != "--session"@,
        "--fish-ai"@ != "--version"@,
        "--fish-ai"@ != "-1"@,
        "--fish-ai"@ != "-V"@,
        "--fish-ai"@ != "-h"@,
        "--fish-ai"@ != "-r"@,
        "--fish-session-key"@ != "--help"@,
        "--fish-session-key"@ != "--install-fish"@,
        "--fish-session-key"@ != "--one-turn"@,
        "--fish-session-key"@ != "--resume"@,
        "--fish-session-key"@ != "--session"@,
        "--fish-session-key"@ != "--version"@,
        "--fish-session-key"@ != "-1"@,
        "--fish-session-key"@ != "-V"@,
        "--fish-session-key"@ != "-h"@,
        "--fish-session-key"@ != "-r"@,
        "--help"@ != "--install-fish"@,
        "--help"@ != "--one-turn"@,
        "--help"@ != "--resume"@,
        "--help"@ != "--session"@,
        "--help"@ != "--version"@,
        "--help"@ != "-1"@,
        "--help"@ != "-V"@,
        "--help"@ != "-h"@,
        "--help"@ != "-r"@,
        "--install-fish"@ != "--one-turn"@,
        "--install-fish"@ != "--resume"@,
        "--install-fish"@ != "--session"@,
        "--install-fish"@ != "--version"@,
        "--install-fish"@ != "-1"@,
        "--install-fish"@ != "-V"@,
        "--install-fish"@ != "-h"@,
        "--install-fish"@ != "-r"@,
        "--one-turn"@ != "--resume"@,
        "--one-turn"@ != "--session"@,
        "--one-turn"@ != "--version"@,
        "--one-turn"@ != "-1"@,
        "--one-turn"@ != "-V"@,
        "--one-turn"@ != "-h"@,
        "--one-turn"@ != "-r"@,
        "--resume"@ != "--session"@,
        "--resume"@ != "--version"@,
        "--resume"@ != "-1"@,
        "--resume"@ != "-V"@,
        "--resume"@ != "-h"@,
        "--resume"@ != "-r"@,
        "--session"@ != "--version"@,
        "--session"@ != "-1"@,
        "--session"@ != "-V"@,
        "--session"@ != "-h"@,
        "--session"@ != "-r"@,
        "--version"@ != "-1"@,
        "--version"@ != "-V"@,
        "--version"@ != "-h"@,
        "--version"@ != "-r"@,
        "-1"@ != "-V"@,
        "-1"@ != "-h"@,
        "-1"@ != "-r"@,
        "-V"@ != "-h"@,
        "-V"@ != "-r"@,
        "-h"@ != "-r"@,
{
    reveal_strlit("--");
    reveal_strlit("--fish-ai");
    reveal_strlit("--fish-session-key");
    reveal_strlit("--help");
    reveal_strlit("--install-fish");
    reveal_strlit("--one-turn");
    reveal_strlit("--resume");
    reveal_strlit("--session");
    reveal_strlit("--version");
    reveal_strlit("-1");
    reveal_strlit("-V");
    reveal_strlit("-h");
    reveal_strlit("-r");
    assert("--"@.len() != "--fish-ai"@.len());
    assert("--"@.len() != "--fish-session-key"@.len());
    assert("--"@.len() != "--help"@.len());
    assert("--"@.len() != "--install-fish"@.len());
    assert("--"@.len() != "--one-turn"@.len());
    assert("--"@.len() != "--resume"@.len());
    assert("--"@.len() != "--session"@.len());
    assert("--"@.len() != "--version"@.len());
    assert("--"@[1] != "-1"@[1]);
    assert("--"@[1] != "-V"@[1]);
    assert("--"@[1] != "-h"@[1]);
    assert("--"@[1] != "-r"@[1]);
    assert("--fish-ai"@.len() != "--fish-session-key"@.len());
    assert("--fish-ai"@.len() != "--help"@.len());
    assert("--fish-ai"@.len() != "--install-fish"@.len());
    assert("--fish-ai"@.len() != "--one-turn"@.len());
    assert("--fish-ai"@.len() != "--resume"@.len());
    assert("--fish-ai"@[2] != "--session"@[2]);
    assert("--fish-ai"@[2] != "--version"@[2]);
    assert("--fish-ai"@.len() != "-1"@.len());
    assert("--fish-ai"@.len() != "-V"@.len());
    assert("--fish-ai"@.len() != "-h"@.len());
    assert("--fish-ai"@.len() != "-r"@.len());
    assert("--fish-session-key"@.len() != "--help"@.len());
    assert("--fish-session-key"@.len() != "--install-fish"@.len());
    assert("--fish-session-key"@.len() != "--one-turn"@.len());
    assert("--fish-session-key"@.len() != "--resume"@.len());
    assert("--fish-session-key"@.len() != "--session"@.len());
    assert("--fish-session-key"@.len() != "--version"@.len());
    assert("--fish-session-key"@.len() != "-1"@.len());
    assert("--fish-session-key"@.len() != "-V"@.len());
    assert("--fish-session-key"@.len() != "-h"@.len());
    assert("--fish-session-key"@.len() != "-r"@.len());
    assert("--help"@.len() != "--install-fish"@.len());
    assert("--help"@.len() != "--one-turn"@.len());
    assert("--help"@.len() != "--resume"@.len());
    assert("--help"@.len() != "--session"@.len());
    assert("--help"@.len() != "--version"@.len());
    assert("--help"@.len() != "-1"@.len());
    assert("--help"@.len() != "-V"@.len());
    assert("--help"@.len() != "-h"@.len());
    assert("--help"@.len() != "-r"@.len());
    assert("--install-fish"@.len() != "--one-turn"@.len());
    assert("--install-fish"@.len() != "--resume"@.len());
    assert("--install-fish"@.len() != "--session"@.len());
    assert("--install-fish"@.len() != "--version"@.len());
    assert("--install-fish"@.len() != "-1"@.len());
    assert("--install-fish"@.len() != "-V"@.len());
    assert("--install-fish"@.len() != "-h"@.len());
    assert("--install-fish"@.len() != "-r"@.len());
    assert("--one-turn"@.len() != "--resume"@.len());
    assert("--one-turn"@.len() != "--session"@.len());
    assert("--one-turn"@.len() != "--version"@.len());
    assert("--one-turn"@.len() != "-1"@.len());
    assert("--one-turn"@.len() != "-V"@.len());
    assert("--one-turn"@.len() != "-h"@.len());
    assert("--one-turn"@.len() != "-r"@.len());
    assert("--resume"@.len() != "--session"@.len());
    assert("--resume"@.len() != "--version"@.len());
    assert("--resume"@.len() != "-1"@.len());
    assert("--resume"@.len() != "-V"@.len());
    assert("--resume"@.len() != "-h"@.len());
    assert("--resume"@.len() != "-r"@.len());
    assert("--session"@[2] != "--version"@[2]);
    assert("--session"@.len() != "-1"@.len());
    assert("--session"@.len() != "-V"@.len());
    assert("--session"@.len() != "-h"@.len());
    assert("--session"@.len() != "-r"@.len());
    assert("--version"@.len() != "-1"@.len());
    assert("--version"@.len() != "-V"@.len());
    assert("--version"@.len() != "-h"@.len());
    assert("--version"@.len() != "-r"@.len());
    assert("-1"@[1] != "-V"@[1]);
    assert("-1"@[1] != "-h"@[1]);
    assert("-1"@[1] != "-r"@[1]);
    assert("-V"@[1] != "-h"@[1]);
    assert("-V"@[1] != "-r"@[1]);
    assert("-h"@[1] != "-r"@[1]);
}

/// The names of the fields of a record differ.
proof fn lemma_field_names()
    ensures
        "--command"@ != "--cwd"@,
        "--command"@ != "--duration-ms"@,
        "--command"@ != "--exit-code"@,
        "--command"@ != "--fish-session-key"@,
        "--command"@ != "--pipe-status"@,
        "--command"@ != "--started-at"@,
        "--cwd"@ != "--duration-ms"@,
        "--cwd"@ != "--exit-code"@,
        "--cwd"@ != "--fish-session-key"@,
        "--cwd"@ != "--pipe-status"@,
        "--cwd"@ != "--started-at"@,
        "--duration-ms"@ != "--exit-code"@,
        "--duration-ms"@ != "--fish-session-key"@,
        "--duration-ms"@ != "--pipe-status"@,
        "--duration-ms"@ != "--started-at"@,
        "--exit-code"@ != "--fish-session-key"@,
        "--exit-code"@ != "--pipe-status"@,
        "--exit-code"@ != "--started-at"@,
        "--fish-session-key"@ != "--pipe-status"@,
        "--fish-session-key"@ != "--started-at"@,
        "--pipe-status"@ != "--started-at"@,
{
    reveal_strlit("--command");
    reveal_strlit("--cwd");
    reveal_strlit("--duration-ms");
    reveal_strlit("--exit-code");
    reveal_strlit("--fish-session-key");
    reveal_strlit("--pipe-status");
    reveal_strlit("--started-at");
    assert("--command"@.len() != "--cwd"@.len());
    assert("--command"@.len() != "--duration-ms"@.len());
    assert("--command"@.len() != "--exit-code"@.len());
    assert("--command"@.len() != "--fish-session-key"@.len());
    assert("--command"@.len() != "--pipe-status"@.len());
    assert("--command"@.len() != "--started-at"@.len());
    assert("--cwd"@.len() != "--duration-ms"@.len());
    assert("--cwd"@.len() != "--exit-code"@.len());
    assert("--cwd"@.len() != "--fish-session-key"@.len());
    assert("--cwd"@.len() != "--pipe-status"@.len());
    assert("--cwd"@.len() != "--started-at"@.len());
    assert("--duration-ms"@.len() != "--exit-code"@.len());
    assert("--duration-ms"@.len() != "--fish-session-key"@.len());
    assert("--duration-ms"@[2] != "--pipe-status"@[2]);
    assert("--duration-ms"@.len() != "--started-at"@.len());
    assert("--exit-code"@.len() != "--fish-session-key"@.len());
    assert("--exit-code"@.len() != "--pipe-status"@.len());
    assert("--exit-code"@.len() != "--started-at"@.len());
    assert("--fish-session-key"@.len() != "--pipe-status"@.len());
    assert("--fish-session-key"@.len() != "--started-at"@.len());
    assert("--pipe-status"@.len() != "--started-at"@.len());
}

// ---------------------------------------------------------------------------
// What the arguments come to

/// Whether an argument is an option that takes no value.
pub open spec fn is_switch(arg: Seq<char>) -> bool {
    arg == "-1"@ || arg == "--one-turn"@ || arg == "-r"@ || arg == "--resume"@ || arg == "-h"@
        || arg == "--help"@ || arg == "-V"@ || arg == "--version"@ || arg == "--install-fish"@
        || arg == "--fish-ai"@
}

/// Whether each argument is a word or an option that takes no value.
pub open spec fn is_simple(args: Seq<Seq<char>>) -> bool {
    forall|i: int|
        0 <= i < args.len() ==> is_switch(#[trigger] args[i]) || !begins(args[i], "-"@)
}

/// Whether one of two arguments was given.
pub open spec fn is_given(args: Seq<Seq<char>>, short: Seq<char>, long: Seq<char>) -> bool {
    args.contains(short) || args.contains(long)
}

/// An argument that is no option.
pub open spec fn word_of() -> spec_fn(Seq<char>) -> Option<Seq<char>> {
    |arg: Seq<char>|
        if begins(arg, "-"@) {
            None
        } else {
            Some(arg)
        }
}

/// The arguments before any was taken.
pub open spec fn unscanned() -> ScanView {
    ScanView { args: no_args(), positional: Seq::empty() }
}

/// What one simple argument comes to.
spec fn taken(s: ScanView, arg: Seq<char>) -> ScanView {
    if arg == "-1"@ || arg == "--one-turn"@ {
        ScanView { args: CliView { one_turn: true, ..s.args }, ..s }
    } else if arg == "-r"@ || arg == "--resume"@ {
        ScanView { args: CliView { resume: true, ..s.args }, ..s }
    } else if arg == "-h"@ || arg == "--help"@ {
        ScanView { args: CliView { help: true, ..s.args }, ..s }
    } else if arg == "-V"@ || arg == "--version"@ {
        ScanView { args: CliView { version: true, ..s.args }, ..s }
    } else if arg == "--install-fish"@ {
        ScanView { args: CliView { install_fish: true, ..s.args }, ..s }
    } else if arg == "--fish-ai"@ {
        ScanView { args: CliView { fish_ai: true, ..s.args }, ..s }
    } else {
        ScanView { positional: s.positional.push(arg), ..s }
    }
}

proof fn lemma_begins_with_dash(arg: Seq<char>)
    ensures
        begins(arg, "-"@) <==> arg.len() > 0 && arg[0] == '-',
{
    reveal_strlit("-");
    if arg.len() > 0 {
        assert(arg.subrange(0, 1)[0] == arg[0]);
        if arg[0] == '-' {
            assert(arg.subrange(0, 1) =~= "-"@);
        }
    }
    if begins(arg, "-"@) {
        assert(arg.subrange(0, 1) == "-"@);
    }
}

proof fn lemma_options_begin_with_dash()
    ensures
        "-1"@[0] == '-' && "-1"@.len() > 0,
        "--one-turn"@[0] == '-' && "--one-turn"@.len() > 0,
        "-r"@[0] == '-' && "-r"@.len() > 0,
        "--resume"@[0] == '-' && "--resume"@.len() > 0,
        "-h"@[0] == '-' && "-h"@.len() > 0,
        "--help"@[0] == '-' && "--help"@.len() > 0,
        "-V"@[0] == '-' && "-V"@.len() > 0,
        "--version"@[0] == '-' && "--version"@.len() > 0,
        "--install-fish"@[0] == '-' && "--install-fish"@.len() > 0,
        "--fish-ai"@[0] == '-' && "--fish-ai"@.len() > 0,
        "--fish-session-key"@[0] == '-' && "--fish-session-key"@.len() > 0,
        "--session"@[0] == '-' && "--session"@.len() > 0,
        "--"@[0] == '-' && "--"@.len() > 0,
{
    reveal_strlit("-1");
    reveal_strlit("--one-turn");
    reveal_strlit("-r");
    reveal_strlit("--resume");
    reveal_strlit("-h");
    reveal_strlit("--help");
    reveal_strlit("-V");
    reveal_strlit("--version");
    reveal_strlit("--install-fish");
    reveal_strlit("--fish-ai");
    reveal_strlit("--fish-session-key");
    reveal_strlit("--session");
    reveal_strlit("--");
}

proof fn lemma_one_taken(args: Seq<Seq<char>>, from: int, s: ScanView)
    requires
        0 <= from < args.len(),
        is_switch(args[from]) || !begins(args[from], "-"@),
    ensures
        scan_from(args, from, s, true) == scan_from(args, from + 1, taken(s, args[from]), true),
{
    lemma_option_names();
    lemma_options_begin_with_dash();
    lemma_begins_with_dash(args[from]);
}

proof fn lemma_all_taken(a: Seq<Seq<char>>, rest: Seq<Seq<char>>) -> (t: ScanView)
    requires
        is_simple(a),
    ensures
        scan_from(a + rest, 0, unscanned(), true) == scan_from(a + rest, a.len() as int, t, true),
        t.args == (CliView {
            one_turn: is_given(a, "-1"@, "--one-turn"@),
            resume: is_given(a, "-r"@, "--resume"@),
            help: is_given(a, "-h"@, "--help"@),
            version: is_given(a, "-V"@, "--version"@),
            install_fish: a.contains("--install-fish"@),
            fish_ai: a.contains("--fish-ai"@),
            ..no_args()
        }),
        picks(a, t.positional, word_of()),
    decreases a.len(),
{
    if a.len() == 0 {
        lemma_picks_nothing(a, word_of());
        unscanned()
    } else {
        let front = a.drop_last();
        let last = a.last();
        assert forall|i: int| 0 <= i < front.len() implies is_switch(#[trigger] front[i])
            || !begins(front[i], "-"@) by {
            assert(a[i] == front[i]);
        }
        let all = a + rest;
        assert(front + (seq![last] + rest) =~= all);
        let t = lemma_all_taken(front, seq![last] + rest);
        assert(all[front.len() as int] == last);
        assert(a[a.len() - 1] == last);
        lemma_one_taken(all, front.len() as int, t);
        lemma_picks_last(a, t.positional, word_of());
        lemma_option_names();
        lemma_options_begin_with_dash();
        lemma_begins_with_dash(last);
        assert forall|x: Seq<char>| a.contains(x) <==> front.contains(x) || x == last by {
            if a.contains(x) && x != last {
                let k = choose|k: int| 0 <= k < a.len() && a[k] == x;
                assert(front[k] == x);
            }
            if front.contains(x) {
                let k = choose|k: int| 0 <= k < front.len() && front[k] == x;
                assert(a[k] == x);
            }
        }
        taken(t, last)
    }
}

/// Options count wherever they stand, and as often as they stand; the words among
/// them are kept in order.
pub proof fn law_options_count_wherever_they_stand(args: Seq<Seq<char>>)
    requires
        is_simple(args),
        forall|i: int| 0 <= i < args.len() ==> !begins(#[trigger] args[i], "a_"@),
    ensures
        scanned(args) matches Ok(s) && s.args == (CliView {
            one_turn: is_given(args, "-1"@, "--one-turn"@),
            resume: is_given(args, "-r"@, "--resume"@),
            help: is_given(args, "-h"@, "--help"@),
            version: is_given(args, "-V"@, "--version"@),
            install_fish: args.contains("--install-fish"@),
            fish_ai: args.contains("--fish-ai"@),
            ..no_args()
        }) && picks(args, s.positional, word_of()),
{
    let none = Seq::<Seq<char>>::empty();
    assert(args + none =~= args);
    let t = lemma_all_taken(args, none);
    assert(scan_from(args, args.len() as int, t, true) == Ok::<ScanView, Seq<char>>(t));
    if t.positional.len() > 0 {
        let at = choose|at: Seq<int>| picked_at(args, t.positional, word_of(), at);
        assert(at[0] < args.len());
        assert(t.positional[0] == args[at[0]]);
    }
}

proof fn lemma_words_after(args: Seq<Seq<char>>, from: int, s: ScanView)
    requires
        0 <= from <= args.len(),
    ensures
        scan_from(args, from, s, false) == Ok::<ScanView, Seq<char>>(
            ScanView { positional: s.positional + args.skip(from), ..s },
        ),
    decreases args.len() - from,
{
    if from < args.len() {
        let plain = ScanView { positional: s.positional.push(args[from]), ..s };
        lemma_words_after(args, from + 1, plain);
        assert(plain.positional + args.skip(from + 1) =~= s.positional + args.skip(from));
    } else {
        assert(s.positional + args.skip(from) =~= s.positional);
    }
}

/// After two dashes everything is a word, whatever it looks like; before them
/// options count.
pub proof fn law_everything_after_two_dashes_is_a_word(a: Seq<Seq<char>>, b: Seq<Seq<char>>)
    requires
        is_simple(a),
        !is_given(a, "-r"@, "--resume"@),
    ensures
        scanned(a + seq!["--"@] + b) matches Ok(s) && (scanned(a) matches Ok(before) && s.args
            == before.args && s.positional == before.positional + b),
{
    let all = a + seq!["--"@] + b;
    assert(a + (seq!["--"@] + b) =~= all);
    let t = lemma_all_taken(a, seq!["--"@] + b);
    let n = a.len() as int;
    assert(all[n] == "--"@);
    lemma_words_after(all, n + 1, t);
    assert(all.skip(n + 1) =~= b);
    lemma_same_when_simple(a, t, seq!["--"@] + b);
}

proof fn lemma_same_when_simple(a: Seq<Seq<char>>, t: ScanView, rest: Seq<Seq<char>>)
    requires
        is_simple(a),
        t.args == (CliView {
            one_turn: is_given(a, "-1"@, "--one-turn"@),
            resume: is_given(a, "-r"@, "--resume"@),
            help: is_given(a, "-h"@, "--help"@),
            version: is_given(a, "-V"@, "--version"@),
            install_fish: a.contains("--install-fish"@),
            fish_ai: a.contains("--fish-ai"@),
            ..no_args()
        }),
        picks(a, t.positional, word_of()),
    ensures
        scan_from(a, 0, unscanned(), true) == Ok::<ScanView, Seq<char>>(t),
{
    let none = Seq::<Seq<char>>::empty();
    assert(a + none =~= a);
    let u = lemma_all_taken(a, none);
    law_picks_are_unique(a, t.positional, u.positional, word_of());
    assert(scan_from(a, a.len() as int, u, true) == Ok::<ScanView, Seq<char>>(u));
}

/// An option takes the argument after it as its value, and is refused without one;
/// an option that is not known is refused by its name.
pub proof fn law_options_take_their_value(a: Seq<Seq<char>>, value: Seq<char>, rest: Seq<Seq<char>>)
    requires
        is_simple(a),
    ensures
        scanned(a + seq!["--session"@, value]) matches Ok(s) && s.args.resume
            && s.args.resume_session_id == Some(value) && picks(a, s.positional, word_of()),
        value.len() > 0 && !is_given(a, "-r"@, "--resume"@) ==> (scanned(
            a + seq!["--fish-session-key"@, value],
        ) matches Ok(s) && s.args.fish_session_key == Some(value) && picks(
            a,
            s.positional,
            word_of(),
        )),
        scanned(a + seq!["--session"@]) == Err::<ScanView, Seq<char>>("--session requires an ID"@),
        scanned(a + seq!["--fish-session-key"@]) == Err::<ScanView, Seq<char>>(
            "--fish-session-key requires a value"@,
        ),
        (begins(value, "-"@) && !is_switch(value) && value != "--"@ && value != "--session"@
            && value != "--fish-session-key"@) ==> scanned(a + (seq![value] + rest)) == Err::<
            ScanView,
            Seq<char>,
        >("unknown option: "@ + value),
{
    lemma_option_names();
    lemma_options_begin_with_dash();
    let n = a.len() as int;
    let t = lemma_all_taken(a, seq!["--session"@, value]);
    let all = a + seq!["--session"@, value];
    assert(all[n] == "--session"@ && all[n + 1] == value);
    let named = ScanView {
        args: CliView { resume: true, resume_session_id: Some(value), ..t.args },
        ..t
    };
    assert(scan_from(all, n, t, true) == scan_from(all, n + 2, named, true));
    assert(scan_from(all, n + 2, named, true) == Ok::<ScanView, Seq<char>>(named));
    let u = lemma_all_taken(a, seq!["--fish-session-key"@, value]);
    let keyed = a + seq!["--fish-session-key"@, value];
    assert(keyed[n] == "--fish-session-key"@ && keyed[n + 1] == value);
    let with_key = ScanView {
        args: CliView { fish_session_key: Some(value), ..u.args },
        ..u
    };
    if value.len() > 0 {
        assert(scan_from(keyed, n, u, true) == scan_from(keyed, n + 2, with_key, true));
        assert(scan_from(keyed, n + 2, with_key, true) == Ok::<ScanView, Seq<char>>(with_key));
    }
    let v = lemma_all_taken(a, seq!["--session"@]);
    let bare = a + seq!["--session"@];
    assert(bare[n] == "--session"@);
    assert(scan_from(bare, n, v, true) is Err);
    let w = lemma_all_taken(a, seq!["--fish-session-key"@]);
    let keyless = a + seq!["--fish-session-key"@];
    assert(keyless[n] == "--fish-session-key"@);
    assert(scan_from(keyless, n, w, true) is Err);
    let x = lemma_all_taken(a, seq![value] + rest);
    let other = a + (seq![value] + rest);
    assert(other[n] == value);
}

/// The files are the leading words that are paths, as many as there are; what
/// follows is the prompt.
pub proof fn law_leading_paths_are_files(positional: Seq<Seq<char>>, paths: Seq<Seq<char>>)
    ensures
        ({
            let n = leading(positional, paths, 0);
            &&& 0 <= n <= positional.len()
            &&& forall|i: int| 0 <= i < n ==> paths.contains(#[trigger] positional[i])
            &&& n < positional.len() ==> !paths.contains(positional[n])
        }),
{
    lemma_leading_paths(positional, paths, 0);
}

proof fn lemma_leading_paths(positional: Seq<Seq<char>>, paths: Seq<Seq<char>>, from: int)
    requires
        0 <= from <= positional.len(),
        forall|i: int| 0 <= i < from ==> paths.contains(#[trigger] positional[i]),
    ensures
        ({
            let n = leading(positional, paths, from);
            &&& 0 <= n <= positional.len()
            &&& forall|i: int| 0 <= i < n ==> paths.contains(#[trigger] positional[i])
            &&& n < positional.len() ==> !paths.contains(positional[n])
        }),
    decreases positional.len() - from,
{
    if from < positional.len() && paths.contains(positional[from]) {
        lemma_leading_paths(positional, paths, from + 1);
    }
}

/// The files are kept in order, and the words of the prompt are put together again;
/// without words there is no prompt.
pub proof fn law_the_prompt_is_put_together(s: ScanView, n: int, words: Seq<Seq<char>>)
    requires
        0 <= n <= s.positional.len(),
        words == s.positional.skip(n),
    ensures
        with_files(s, n).files == s.positional.take(n),
        words.len() == 0 ==> with_files(s, n).prompt is None,
        words.len() > 0 ==> with_files(s, n).prompt == Some(joined(words, " "@)),
        with_files(s, n).one_turn == s.args.one_turn,
        with_files(s, n).resume == s.args.resume,
        with_files(s, n).resume_session_id == s.args.resume_session_id,
        with_files(s, n).help == s.args.help,
        with_files(s, n).version == s.args.version,
        with_files(s, n).install_fish == s.args.install_fish,
        with_files(s, n).fish_ai == s.args.fish_ai,
        with_files(s, n).fish_session_key == s.args.fish_session_key,
{
}

/// The arguments that tell a command, as the shell writes them.
pub open spec fn record_args(r: RecordView) -> Seq<Seq<char>> {
    seq![
        "__record-shell"@,
        "--cwd"@,
        r.cwd,
        "--command"@,
        r.command,
        "--started-at"@,
        signed_decimal(r.started_at as int),
    ]
}

/// A command that was told is recorded as it was, and what was told of it besides.
pub proof fn law_told_commands_are_recorded(
    r: RecordView,
    code: i32,
    duration: i64,
    status: Seq<char>,
    key: Seq<char>,
)
    requires
        r.exit_code is None,
        r.duration_ms is None,
        r.pipe_status is None,
        r.fish_session_key is None,
    ensures
        records_shell(record_args(r)),
        record_of(record_args(r), 1) == Ok::<CliView, Seq<char>>(
            CliView { shell_record: Some(r), ..no_args() },
        ),
        record_of(
            record_args(r) + seq![
                "--exit-code"@,
                signed_decimal(code as int),
                "--duration-ms"@,
                signed_decimal(duration as int),
                "--pipe-status"@,
                status,
                "--fish-session-key"@,
                key,
            ],
            1,
        ) == Ok::<CliView, Seq<char>>(
            CliView {
                shell_record: Some(
                    RecordView {
                        exit_code: Some(code),
                        duration_ms: Some(duration),
                        pipe_status: Some(status),
                        fish_session_key: Some(key),
                        ..r
                    },
                ),
                ..no_args()
            },
        ),
{
    reveal_with_fuel(take_fields, 8);
    lemma_field_names();
    law_signed_decimal_is_read_back(r.started_at as int);
    law_signed_decimal_is_read_back(code as int);
    law_signed_decimal_is_read_back(duration as int);
}

} // verus!
