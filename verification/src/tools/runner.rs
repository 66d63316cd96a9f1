//! Running the tools that a model calls.
use vstd::prelude::*;
use vstd::string::*;

use crate::model::{ToolCall, ToolCallView, ToolResult, ToolResultView};
use crate::text::{
    begins, contains, decimal, decimal_text, has, increasing, join, joined, lemma_first_at,
    lemma_texts_push, lines_of, occurs_at, outcome, same, signed_decimal, signed_text, starts_with,
    texts, trim_start, trimmed_start, views,
};
use crate::tools::bash::{BashOptions, BashResult, BoundedView, ending_note, output_text};
use crate::tools::patch::{
    FileSnapshot, FileSummaryView, PatchSummary, SnapshotView, acceptable_path, affected_paths,
    framed, law_operations_are_those_named, names, operation_paths, operations_of,
};

verus! {

/// What a tool call came to.
#[derive(Debug)]
pub struct ToolOutcome {
    pub result: ToolResult,
    /// What the files that it changed looked like beforehand.
    pub snapshots: Vec<FileSnapshot>,
}

/// The model of a [`ToolOutcome`].
pub struct OutcomeView {
    pub result: ToolResultView,
    pub snapshots: Seq<SnapshotView>,
}

impl View for ToolOutcome {
    type V = OutcomeView;

    open spec fn view(&self) -> OutcomeView {
        OutcomeView { result: self.result@, snapshots: views(self.snapshots@) }
    }
}

impl ToolOutcome {
    /// An outcome that changed no file.
    pub fn plain(result: ToolResult) -> (r: ToolOutcome)
        ensures
            r@ == (OutcomeView { result: result@, snapshots: Seq::empty() }),
    {
        let snapshots: Vec<FileSnapshot> = Vec::new();
        assert(views(snapshots@) =~= Seq::empty());
        ToolOutcome { result, snapshots }
    }
}

/// What carries out calls of the three tools.
#[derive(Debug)]
pub struct CoreToolExecutor {
    pub cwd: String,
    pub read_max_lines: usize,
    pub max_output_bytes: usize,
    pub bash_options: BashOptions,
    pub snapshot_max_bytes: usize,
}

/// The tool that a name stands for.
#[derive(Debug, Clone, Copy, PartialEq, Eq, Structural)]
pub enum Tool {
    Read,
    ApplyPatch,
    Bash,
}

/// The tool that a name stands for.
pub open spec fn tool_named(name: Seq<char>) -> Option<Tool> {
    if name == "read"@ {
        Some(Tool::Read)
    } else if name == "apply_patch"@ {
        Some(Tool::ApplyPatch)
    } else if name == "bash"@ {
        Some(Tool::Bash)
    } else {
        None
    }
}

/// What is to be done for a call.
#[derive(Debug)]
pub enum Dispatch {
    Run(Tool),
    Refuse(ToolOutcome),
}

/// The answer to a call that cannot be carried out.
pub open spec fn refusal(call: ToolCallView, cancelled: bool) -> Option<ToolResultView> {
    if cancelled {
        Some(
            ToolResultView {
                call_id: call.id,
                output: "tool execution cancelled"@,
                is_error: true,
            },
        )
    } else if tool_named(call.name) is None {
        Some(
            ToolResultView {
                call_id: call.id,
                output: "unknown tool '"@ + call.name
                    + "'; available tools: read, apply_patch, bash"@,
                is_error: true,
            },
        )
    } else {
        None
    }
}

/// The files of a patch with the numbers of lines added and removed.
pub open spec fn file_lines(files: Seq<FileSummaryView>) -> Seq<Seq<char>> {
    Seq::new(
        files.len(),
        |i: int|
            files[i].path + " (+"@ + decimal(files[i].added) + " -"@ + decimal(files[i].removed)
                + ")"@,
    )
}

/// The end of a command as it is told.
pub open spec fn exit_text(exit_code: Option<i32>) -> Seq<char> {
    match exit_code {
        Some(code) => signed_decimal(code as int),
        None => "signal"@,
    }
}

/// Whether a command's output says that it did not end by itself.
pub open spec fn cut_short(output: Seq<char>) -> bool {
    has(output, "[bash cancelled]"@) || has(output, "[bash timed out after "@)
}

impl CoreToolExecutor {
    /// An executor that keeps the previous contents of every file, and whose
    /// commands cannot ask for more time than `bash_timeout`, in milliseconds.
    pub fn new(
        cwd: &str,
        read_max_lines: usize,
        bash_timeout: u64,
        max_output_bytes: usize,
    ) -> (r: CoreToolExecutor)
        ensures
            r.cwd@ == cwd@,
            r.read_max_lines == read_max_lines,
            r.max_output_bytes == max_output_bytes,
            r.bash_options == (BashOptions {
                timeout: bash_timeout,
                max_timeout: bash_timeout,
                max_output_bytes,
            }),
            r.snapshot_max_bytes == usize::MAX,
    {
        CoreToolExecutor {
            cwd: cwd.to_owned(),
            read_max_lines,
            max_output_bytes,
            bash_options: BashOptions {
                timeout: bash_timeout,
                max_timeout: bash_timeout,
                max_output_bytes,
            },
            snapshot_max_bytes: usize::MAX,
        }
    }

    /// The executor with a ceiling for the time that a command may ask for, in
    /// milliseconds.
    pub fn with_max_timeout(self, max_timeout: u64) -> (r: CoreToolExecutor)
        ensures
            r == (CoreToolExecutor {
                bash_options: BashOptions { max_timeout, ..self.bash_options },
                ..self
            }),
    {
        let mut r = self;
        r.bash_options.max_timeout = max_timeout;
        r
    }

    /// The executor with a bound on the previous contents that it keeps of a
    /// file.
    pub fn with_snapshot_max_bytes(self, snapshot_max_bytes: usize) -> (r: CoreToolExecutor)
        ensures
            r == (CoreToolExecutor { snapshot_max_bytes, ..self }),
    {
        let mut r = self;
        r.snapshot_max_bytes = snapshot_max_bytes;
        r
    }

    /// The tool to run for a call, or the answer where none can be run.
    pub fn dispatch(&self, call: &ToolCall, cancelled: bool) -> (r: Dispatch)
        ensures
            match r {
                Dispatch::Run(tool) => refusal(call@, cancelled) is None && tool_named(call@.name)
                    == Some(tool),
                Dispatch::Refuse(o) => refusal(call@, cancelled) == Some(o@.result)
                    && o@.snapshots.len() == 0,
            },
    {
        if cancelled {
            return Dispatch::Refuse(
                ToolOutcome::plain(ToolResult::error(&call.id, "tool execution cancelled")),
            );
        }
        if same(&call.name, "read") {
            Dispatch::Run(Tool::Read)
        } else if same(&call.name, "apply_patch") {
            Dispatch::Run(Tool::ApplyPatch)
        } else if same(&call.name, "bash") {
            Dispatch::Run(Tool::Bash)
        } else {
            let message = "unknown tool '".to_owned().concat(&call.name).concat(
                "'; available tools: read, apply_patch, bash",
            );
            Dispatch::Refuse(ToolOutcome::plain(ToolResult::error(&call.id, &message)))
        }
    }
}

/// The answer to a call that gave a text or failed.
pub open spec fn plain_answer(call_id: Seq<char>, output: Result<Seq<char>, Seq<char>>) ->
    OutcomeView {
    OutcomeView {
        result: match output {
            Ok(output) => ToolResultView { call_id, output, is_error: false },
            Err(output) => ToolResultView { call_id, output, is_error: true },
        },
        snapshots: Seq::empty(),
    }
}

/// The answer to a call of `read`.
pub fn conclude_read(call_id: &str, output: Result<String, String>) -> (r: ToolOutcome)
    ensures
        r@ == plain_answer(call_id@, outcome(output)),
{
    match output {
        Ok(text) => ToolOutcome::plain(ToolResult::success(call_id, &text)),
        Err(e) => ToolOutcome::plain(ToolResult::error(call_id, &e)),
    }
}

/// The answer to a call of `apply_patch`.
pub fn conclude_patch(call_id: &str, summary: Result<PatchSummary, String>) -> (r: ToolOutcome)
    ensures
        match summary {
            Ok(s) => r@ == (OutcomeView {
                result: ToolResultView {
                    call_id: call_id@,
                    output: joined(file_lines(views(s.files@)), "\n"@),
                    is_error: false,
                },
                snapshots: views(s.snapshots@),
            }),
            Err(e) => r@ == plain_answer(call_id@, Err(e@)),
        },
{
    broadcast use lemma_texts_push;

    match summary {
        Err(e) => ToolOutcome::plain(ToolResult::error(call_id, &e)),
        Ok(s) => {
            let ghost all = file_lines(views(s.files@));
            let mut lines: Vec<String> = Vec::new();
            assert(texts(lines@) =~= all.take(0));
            let mut i: usize = 0;
            while i < s.files.len()
                invariant
                    i <= s.files.len(),
                    all == file_lines(views(s.files@)),
                    texts(lines@) == all.take(i as int),
                decreases s.files.len() - i,
            {
                let file = &s.files[i];
                lines.push(
                    file.path.clone().concat(" (+").concat(&decimal_text(file.added as u64)).concat(
                        " -",
                    ).concat(&decimal_text(file.removed as u64)).concat(")"),
                );
                assert(all.take(i + 1) =~= all.take(i as int).push(all[i as int]));
                i += 1;
            }
            assert(all.take(all.len() as int) =~= all);
            let output = join(&lines, "\n");
            ToolOutcome {
                result: ToolResult { call_id: call_id.to_owned(), output, is_error: false },
                snapshots: s.snapshots,
            }
        },
    }
}

/// The answer to a call of `bash` that ran.
pub open spec fn bash_answer(call_id: Seq<char>, output: Seq<char>, exit_code: Option<i32>) ->
    ToolResultView {
    let text = output + "\n[exit code: "@ + exit_text(exit_code) + "]"@;
    ToolResultView { call_id, output: text, is_error: cut_short(text) }
}

/// The answer to a call of `bash`: an error if it could not run, or did not end
/// by itself.
pub fn conclude_bash(call_id: &str, result: Result<BashResult, String>) -> (r: ToolOutcome)
    ensures
        match result {
            Ok(b) => r@ == (OutcomeView {
                result: bash_answer(call_id@, b.output@, b.exit_code),
                snapshots: Seq::empty(),
            }),
            Err(e) => r@ == plain_answer(call_id@, Err(e@)),
        },
{
    match result {
        Err(e) => ToolOutcome::plain(ToolResult::error(call_id, &e)),
        Ok(b) => {
            let code = match b.exit_code {
                Some(code) => signed_text(code as i64),
                None => "signal".to_owned(),
            };
            let output = b.output.concat("\n[exit code: ").concat(&code).concat("]");
            let is_error = contains(&output, "[bash cancelled]") || contains(
                &output,
                "[bash timed out after ",
            );
            ToolOutcome::plain(
                ToolResult { call_id: call_id.to_owned(), output, is_error },
            )
        },
    }
}

/// A command that was cancelled or ran out of time is answered with an error.
pub proof fn law_cut_short_is_an_error(
    call_id: Seq<char>,
    shown: BoundedView,
    timed_out: bool,
    cancelled: bool,
    seconds: Seq<char>,
    capped_from: Option<u64>,
    max_timeout: u64,
    exit_code: Option<i32>,
)
    requires
        timed_out || cancelled,
    ensures
        bash_answer(
            call_id,
            output_text(shown) + ending_note(
                timed_out,
                cancelled,
                seconds,
                capped_from,
                max_timeout,
            ),
            exit_code,
        ).is_error,
{
    let front = output_text(shown);
    let note = ending_note(timed_out, cancelled, seconds, capped_from, max_timeout);
    let rest = "\n[exit code: "@ + exit_text(exit_code) + "]"@;
    let text = front + note + "\n[exit code: "@ + exit_text(exit_code) + "]"@;
    assert(text =~= front + note + rest);
    reveal_strlit("\n[bash timed out after ");
    reveal_strlit("[bash timed out after ");
    reveal_strlit("\n[bash cancelled]");
    reveal_strlit("[bash cancelled]");
    let mark = if timed_out {
        "[bash timed out after "@
    } else {
        "[bash cancelled]"@
    };
    let whole = if timed_out {
        "\n[bash timed out after "@
    } else {
        "\n[bash cancelled]"@
    };
    assert(whole.skip(1) =~= mark);
    assert(note.take(whole.len() as int) =~= whole);
    let at: int = front.len() as int + 1;
    assert(text.subrange(at, at + mark.len()) =~= mark) by {
        assert forall|k: int| 0 <= k < mark.len() implies text.subrange(
            at,
            at + mark.len(),
        )[k] == mark[k] by {
            assert(text[at + k] == note[1 + k]);
            assert(note[1 + k] == note.take(whole.len() as int)[1 + k]);
            assert(whole[1 + k] == whole.skip(1)[k]);
        }
    }
    assert(occurs_at(text, mark, at));
    lemma_first_at(text, mark, 0);
}

// ---------------------------------------------------------------------------
// Scheduling

/// The patch that a call carries: its arguments themselves where they are one,
/// else what was decoded from them.
pub open spec fn patch_of(
    arguments: Seq<char>,
    decoded: Result<Seq<char>, Seq<char>>,
) -> Result<Seq<char>, Seq<char>> {
    if begins(trimmed_start(arguments), "*** Begin Patch"@) {
        Ok(arguments)
    } else {
        decoded
    }
}

/// The patch that a call carries. `decoded` is the patch in its arguments read
/// as JSON.
pub fn patch_text(arguments: &str, decoded: &Result<String, String>) -> (r: Result<String, String>)
    ensures
        outcome(r) == patch_of(arguments@, outcome(*decoded)),
{
    if starts_with(&trim_start(arguments), "*** Begin Patch") {
        Ok(arguments.to_owned())
    } else {
        match decoded {
            Ok(s) => Ok(s.clone()),
            Err(e) => Err(e.clone()),
        }
    }
}

/// Whether a call touches a path, so that it must not run beside another that
/// does.
pub open spec fn touches(
    call: ToolCallView,
    decoded: Result<Seq<char>, Seq<char>>,
    path: Seq<char>,
) -> bool {
    &&& call.name == "apply_patch"@
    &&& patch_of(call.arguments, decoded) matches Ok(patch)
    &&& framed(lines_of(patch))
    &&& forall|p: Seq<char>| #[trigger] names(lines_of(patch), p) ==> acceptable_path(p)
    &&& names(lines_of(patch), path)
}

/// The paths that a call touches, each once and in order, so that all calls
/// claim them in the same order.
pub fn scheduling_paths(call: &ToolCall, decoded: &Result<String, String>) -> (r: Vec<String>)
    ensures
        increasing(texts(r@)),
        forall|path: Seq<char>| #[trigger]
            texts(r@).contains(path) <==> touches(call@, outcome(*decoded), path),
{
    if same(&call.name, "apply_patch") {
        if let Ok(patch) = patch_text(&call.arguments, decoded) {
            if let Ok(paths) = affected_paths(&patch) {
                return paths;
            }
        }
    }
    Vec::new()
}

/// A call with a patch that can be read claims the file of each of its
/// operations and no other, so that two patches of one file are not applied
/// side by side.
pub proof fn law_patches_claim_their_files(
    call: ToolCallView,
    decoded: Result<Seq<char>, Seq<char>>,
    path: Seq<char>,
)
    requires
        call.name == "apply_patch"@,
    ensures
        patch_of(call.arguments, decoded) matches Ok(patch) ==> (operations_of(
            patch,
        ) matches Ok(operations) ==> (touches(call, decoded, path) <==> operation_paths(
            operations,
        ).contains(path))),
{
    if let Ok(patch) = patch_of(call.arguments, decoded) {
        law_operations_are_those_named(patch);
    }
}

/// How many calls may run at a time.
pub fn parallel_limit(max_parallel: usize) -> (r: usize)
    ensures
        r == if max_parallel == 0 {
            1
        } else {
            max_parallel
        },
{
    if max_parallel == 0 {
        1
    } else {
        max_parallel
    }
}

// ---------------------------------------------------------------------------
// How calls are answered

/// The three tools are known by their names, and no other.
pub proof fn law_tools_are_known_by_name(name: Seq<char>)
    ensures
        tool_named("read"@) == Some(Tool::Read),
        tool_named("apply_patch"@) == Some(Tool::ApplyPatch),
        tool_named("bash"@) == Some(Tool::Bash),
        tool_named(name) is Some ==> name == "read"@ || name == "apply_patch"@ || name == "bash"@,
{
    reveal_strlit("read");
    reveal_strlit("apply_patch");
    reveal_strlit("bash");
    assert("read"@[0] != "bash"@[0]);
    assert("read"@.len() != "apply_patch"@.len());
    assert("bash"@.len() != "apply_patch"@.len());
}

/// A call is carried out unless the user cancelled or there is no such tool. Then
/// it is answered with an error, under its id.
pub proof fn law_calls_are_refused_for_a_reason(call: ToolCallView, cancelled: bool)
    ensures
        refusal(call, cancelled) is Some <==> cancelled || !(call.name == "read"@ || call.name
            == "apply_patch"@ || call.name == "bash"@),
        refusal(call, cancelled) matches Some(answer) ==> answer.call_id == call.id
            && answer.is_error && (!cancelled ==> has(answer.output, call.name)),
{
    law_tools_are_known_by_name(call.name);
    if !cancelled && tool_named(call.name) is None {
        let start = "unknown tool '"@;
        let output = start + call.name + "'; available tools: read, apply_patch, bash"@;
        let n = start.len() as int;
        assert(output.subrange(n, n + call.name.len()) =~= call.name);
        lemma_first_at(output, call.name, 0);
        assert(occurs_at(output, call.name, n));
    }
}

/// A call is answered under its id with what its tool gave: a text or an error,
/// or the output of a command with its exit code at the end.
pub proof fn law_answers_hold_what_was_given(
    call_id: Seq<char>,
    output: Result<Seq<char>, Seq<char>>,
    shown: Seq<char>,
    exit_code: Option<i32>,
)
    ensures
        ({
            let plain = plain_answer(call_id, output);
            let bash = bash_answer(call_id, shown, exit_code);
            &&& plain.result.call_id == call_id
            &&& plain.snapshots.len() == 0
            &&& output matches Ok(text) ==> plain.result.output == text && !plain.result.is_error
            &&& output matches Err(text) ==> plain.result.output == text && plain.result.is_error
            &&& bash.call_id == call_id
            &&& bash.output == shown + "\n[exit code: "@ + (match exit_code {
                Some(code) => if code < 0 {
                    seq!['-'] + decimal((-(code as int)) as nat)
                } else {
                    decimal(code as nat)
                },
                None => "signal"@,
            }) + "]"@
            &&& bash.is_error <==> has(bash.output, "[bash cancelled]"@) || has(
                bash.output,
                "[bash timed out after "@,
            )
        }),
{
}

/// What is said of a patch names every file, in the order of the files, with the
/// numbers of lines that were added and removed.
pub proof fn law_patched_files_are_named(files: Seq<FileSummaryView>)
    ensures
        file_lines(files).len() == files.len(),
        forall|i: int|
            0 <= i < files.len() ==> file_lines(files)[i] == (#[trigger] files[i]).path + " (+"@
                + decimal(files[i].added) + " -"@ + decimal(files[i].removed) + ")"@,
{
}

/// A patch is what the arguments of a call hold, or the arguments themselves
/// where they are a patch already.
pub proof fn law_patches_are_taken_as_they_come(
    arguments: Seq<char>,
    decoded: Result<Seq<char>, Seq<char>>,
    rest: Seq<char>,
)
    ensures
        arguments == "*** Begin Patch"@ + rest ==> patch_of(arguments, decoded) == Ok::<
            Seq<char>,
            Seq<char>,
        >(arguments),
        arguments.len() > 0 && arguments[0] == '{' ==> patch_of(arguments, decoded) == decoded,
{
    reveal_strlit("*** Begin Patch");
    if arguments == "*** Begin Patch"@ + rest {
        assert(arguments[0] == '*');
        assert(trimmed_start(arguments) == arguments);
        assert(arguments.subrange(0, "*** Begin Patch"@.len() as int) =~= "*** Begin Patch"@);
    }
    if arguments.len() > 0 && arguments[0] == '{' {
        assert(trimmed_start(arguments) == arguments);
        assert(begins(arguments, "*** Begin Patch"@) ==> arguments.subrange(
            0,
            "*** Begin Patch"@.len() as int,
        )[0] == '*');
    }
}

} // verus!
