//! The tool that runs a shell command.
use vstd::prelude::*;
use vstd::string::*;
use vstd::utf8::*;

use crate::text::{decimal, decimal_text};

verus! {

/// What a call of the tool asks for.
#[derive(Debug)]
pub struct BashArgs {
    pub command: String,
    /// What the model asked for. A build or a full test run needs minutes, while
    /// most commands need seconds, and only the caller knows which this is.
    pub timeout_seconds: Option<u64>,
}

/// The limits of the tool; times are in milliseconds.
#[derive(Debug, Clone, Copy, PartialEq, Eq, Structural)]
pub struct BashOptions {
    /// Used when the call does not ask for a timeout.
    pub timeout: u64,
    /// Ceiling for what a call may ask for, so a hung command cannot run
    /// unbounded.
    pub max_timeout: u64,
    pub max_output_bytes: usize,
}

/// What a command came to.
#[derive(Debug, PartialEq, Eq)]
pub struct BashResult {
    pub output: String,
    pub exit_code: Option<i32>,
    pub timed_out: bool,
    pub cancelled: bool,
}

/// The timeout that a call runs under, and the number of seconds that was asked
/// for if it had to be capped.
pub open spec fn timeout_of(options: BashOptions, requested: Option<u64>) -> (u64, Option<u64>) {
    match requested {
        Some(seconds) => if seconds == 0 {
            (least_time(options), None)
        } else if seconds * 1000 > options.max_timeout {
            (options.max_timeout, Some(seconds))
        } else {
            ((seconds * 1000) as u64, None)
        },
        None => (least_time(options), None),
    }
}

/// The timeout of a call that asks for none.
pub open spec fn least_time(options: BashOptions) -> u64 {
    if options.timeout <= options.max_timeout {
        options.timeout
    } else {
        options.max_timeout
    }
}

impl BashOptions {
    /// The timeout this call runs under, and the requested value if it had to be
    /// capped. Callers report the cap so the model can see why its request did
    /// not take effect.
    pub fn resolve_timeout(&self, args: &BashArgs) -> (r: (u64, Option<u64>))
        ensures
            r == timeout_of(*self, args.timeout_seconds),
            r.0 <= self.max_timeout,
    {
        let least: u64 = if self.timeout <= self.max_timeout {
            self.timeout
        } else {
            self.max_timeout
        };
        match args.timeout_seconds {
            Some(seconds) => {
                if seconds == 0 {
                    return (least, None);
                }
                let asked: u128 = seconds as u128 * 1000;
                if asked > self.max_timeout as u128 {
                    (self.max_timeout, Some(seconds))
                } else {
                    (asked as u64, None)
                }
            },
            None => (least, None),
        }
    }
}

// ---------------------------------------------------------------------------
// Output

/// The text that `String::from_utf8_lossy` makes of bytes that are no valid
/// UTF-8, with replacements.
pub uninterp spec fn repaired_text(bytes: Seq<u8>) -> Seq<char>;

/// The text that bytes stand for: the one that they encode where they are valid
/// UTF-8, and otherwise one with replacements.
pub open spec fn lossy_text(bytes: Seq<u8>) -> Seq<char> {
    if valid_utf8(bytes) {
        decode_utf8(bytes)
    } else {
        repaired_text(bytes)
    }
}

/// `String::from_utf8_lossy` gives the text that the bytes encode where they
/// are valid UTF-8, and otherwise a text with replacements that a name stands
/// for.
#[verifier::external_body]
pub(crate) fn decode_lossy(bytes: &[u8]) -> (r: String)
    ensures
        valid_utf8(bytes@) ==> r@ == decode_utf8(bytes@),
        !valid_utf8(bytes@) ==> r@ == repaired_text(bytes@),
{
    String::from_utf8_lossy(bytes).into_owned()
}

/// Bytes that are valid UTF-8 lose nothing as a text.
pub proof fn law_valid_bytes_are_kept(bytes: Seq<u8>)
    requires
        valid_utf8(bytes),
    ensures
        encode_utf8(lossy_text(bytes)) == bytes,
{
    decode_utf8_encode_utf8(bytes);
}

/// The end of a run of bytes, at most `max` of them.
pub open spec fn last_bytes(bytes: Seq<u8>, max: nat) -> Seq<u8> {
    if bytes.len() > max {
        bytes.skip(bytes.len() - max)
    } else {
        bytes
    }
}

/// The end of an output, and how much of it was dropped.
pub struct BoundedOutput {
    pub bytes: Vec<u8>,
    pub max: usize,
    pub dropped: usize,
}

/// The model of a [`BoundedOutput`].
pub struct BoundedView {
    pub bytes: Seq<u8>,
    pub dropped: nat,
}

impl View for BoundedOutput {
    type V = BoundedView;

    open spec fn view(&self) -> BoundedView {
        BoundedView { bytes: self.bytes@, dropped: self.dropped as nat }
    }
}

/// The end of an output once a chunk has been added.
pub open spec fn push_chunk(b: BoundedView, chunk: Seq<u8>, max: nat) -> BoundedView {
    let all = b.bytes + chunk;
    BoundedView {
        bytes: last_bytes(all, max),
        dropped: b.dropped + (all.len() - last_bytes(all, max).len()) as nat,
    }
}

/// Chunks one after another.
pub open spec fn all_bytes(chunks: Seq<Seq<u8>>) -> Seq<u8>
    decreases chunks.len(),
{
    if chunks.len() == 0 {
        Seq::empty()
    } else {
        all_bytes(chunks.drop_last()) + chunks.last()
    }
}

/// The end of an output once chunks have been added one after another.
pub open spec fn push_chunks(chunks: Seq<Seq<u8>>, max: nat) -> BoundedView
    decreases chunks.len(),
{
    if chunks.len() == 0 {
        BoundedView { bytes: Seq::empty(), dropped: 0 }
    } else {
        push_chunk(push_chunks(chunks.drop_last(), max), chunks.last(), max)
    }
}

/// However an output is cut into chunks, its last `max` bytes are kept and all
/// others are counted as dropped.
pub proof fn law_the_end_is_kept(chunks: Seq<Seq<u8>>, max: nat)
    ensures
        push_chunks(chunks, max).bytes == last_bytes(all_bytes(chunks), max),
        push_chunks(chunks, max).dropped + push_chunks(chunks, max).bytes.len() == all_bytes(
            chunks,
        ).len(),
    decreases chunks.len(),
{
    if chunks.len() > 0 {
        law_the_end_is_kept(chunks.drop_last(), max);
        let before = all_bytes(chunks.drop_last());
        let all = before + chunks.last();
        assert(last_bytes(last_bytes(before, max) + chunks.last(), max) =~= last_bytes(all, max));
    }
}

/// The note on how much of an output was dropped.
pub open spec fn dropped_note(dropped: nat) -> Seq<char> {
    if dropped == 0 {
        Seq::empty()
    } else {
        "[output truncated; dropped "@ + decimal(dropped) + " bytes]\n"@
    }
}

/// The text of an output, after a note on what was dropped.
pub open spec fn output_text(b: BoundedView) -> Seq<char> {
    dropped_note(b.dropped) + lossy_text(b.bytes)
}

impl BoundedOutput {
    pub fn new(max: usize) -> (r: BoundedOutput)
        ensures
            r@ == (BoundedView { bytes: Seq::empty(), dropped: 0 }),
            r.max == max,
    {
        BoundedOutput { bytes: Vec::new(), max, dropped: 0 }
    }

    /// Adds a chunk.
    pub fn push(&mut self, chunk: &[u8])
        requires
            old(self).dropped + old(self).bytes.len() + chunk.len() <= usize::MAX,
        ensures
            final(self)@ == push_chunk(old(self)@, chunk@, old(self).max as nat),
            final(self).max == old(self).max,
    {
        let ghost all = self.bytes@ + chunk@;
        self.bytes.extend_from_slice(chunk);
        assert(self.bytes@ =~= all);
        if self.bytes.len() > self.max {
            let remove: usize = self.bytes.len() - self.max;
            let kept = self.bytes.split_off(remove);
            assert(kept@ =~= last_bytes(all, self.max as nat));
            self.bytes = kept;
            self.dropped += remove;
        }
    }

    /// The text of the output.
    pub fn finish(self) -> (r: String)
        ensures
            r@ == output_text(self@),
            valid_utf8(self@.bytes) ==> encode_utf8(
                r@.skip(dropped_note(self@.dropped).len() as int),
            ) == self@.bytes,
    {
        let tail = decode_lossy(&self.bytes);
        let text = if self.dropped == 0 {
            tail
        } else {
            "[output truncated; dropped ".to_owned().concat(
                &decimal_text(self.dropped as u64),
            ).concat(" bytes]\n").concat(&tail)
        };
        proof {
            let note = dropped_note(self@.dropped);
            assert(text@ =~= note + lossy_text(self@.bytes));
            assert(text@.skip(note.len() as int) =~= lossy_text(self@.bytes));
            if valid_utf8(self@.bytes) {
                law_valid_bytes_are_kept(self@.bytes);
            }
        }
        text
    }
}

// ---------------------------------------------------------------------------
// A run

/// What happens to a command that is running.
#[derive(Debug)]
pub enum BashEvent {
    /// It wrote something.
    Chunk(Vec<u8>),
    /// Its time is up.
    Deadline,
    /// The user cancelled it.
    Cancelled,
    /// It ended.
    Exited,
    /// It ended, and everything that it wrote has come in.
    Drained,
}

/// What is to be done next for a command.
#[derive(Debug)]
pub enum BashStep {
    /// Wait for what happens next.
    Wait,
    /// Show a text, then wait for what happens next.
    Show(String),
    /// End the command's process group, then take in what is left of its output.
    Terminate,
    /// Take in what is left of the output.
    Drain,
    /// Nothing: the run is over.
    Finish,
}

/// The model of a [`BashStep`].
pub enum StepView {
    Wait,
    Show(Seq<char>),
    Terminate,
    Drain,
    Finish,
}

impl View for BashStep {
    type V = StepView;

    open spec fn view(&self) -> StepView {
        match self {
            BashStep::Wait => StepView::Wait,
            BashStep::Show(s) => StepView::Show(s@),
            BashStep::Terminate => StepView::Terminate,
            BashStep::Drain => StepView::Drain,
            BashStep::Finish => StepView::Finish,
        }
    }
}

/// A command that is running.
pub struct BashRun {
    pub output: BoundedOutput,
    pub timed_out: bool,
    pub cancelled: bool,
    /// Whether it has ended, so that only its output is still awaited.
    pub ended: bool,
}

/// The model of a [`BashRun`].
pub struct RunView {
    pub output: BoundedView,
    pub max: usize,
    pub timed_out: bool,
    pub cancelled: bool,
    pub ended: bool,
}

impl View for BashRun {
    type V = RunView;

    open spec fn view(&self) -> RunView {
        RunView {
            output: self.output@,
            max: self.output.max,
            timed_out: self.timed_out,
            cancelled: self.cancelled,
            ended: self.ended,
        }
    }
}

/// The run after an event, and what is to be done next. Once a command has
/// ended, only the rest of its output counts.
pub open spec fn run_step(run: RunView, event: BashEvent) -> (RunView, StepView) {
    match event {
        BashEvent::Chunk(chunk) => (
            RunView { output: push_chunk(run.output, chunk@, run.max as nat), ..run },
            StepView::Show(lossy_text(chunk@)),
        ),
        BashEvent::Deadline => if run.ended {
            (run, StepView::Drain)
        } else {
            (RunView { timed_out: true, ended: true, ..run }, StepView::Terminate)
        },
        BashEvent::Cancelled => if run.ended {
            (run, StepView::Drain)
        } else {
            (RunView { cancelled: true, ended: true, ..run }, StepView::Terminate)
        },
        BashEvent::Exited => (RunView { ended: true, ..run }, StepView::Drain),
        BashEvent::Drained => if run.ended {
            (run, StepView::Finish)
        } else {
            (run, StepView::Wait)
        },
    }
}

/// The note under the output of a command that did not end by itself.
/// `seconds` is the limit that applied, as it is shown.
pub open spec fn ending_note(
    timed_out: bool,
    cancelled: bool,
    seconds: Seq<char>,
    capped_from: Option<u64>,
    max_timeout: u64,
) -> Seq<char> {
    if timed_out {
        "\n[bash timed out after "@ + seconds + "s"@ + (match capped_from {
            Some(requested) => "; timeout_seconds "@ + decimal(requested as nat) + " was capped at "@
                + decimal((max_timeout / 1000) as nat) + "]"@,
            None => "; pass timeout_seconds up to "@ + decimal((max_timeout / 1000) as nat)
                + " for slow commands]"@,
        })
    } else if cancelled {
        "\n[bash cancelled]"@
    } else {
        Seq::empty()
    }
}

impl BashRun {
    pub fn new(options: &BashOptions) -> (r: BashRun)
        ensures
            r@ == (RunView {
                output: BoundedView { bytes: Seq::empty(), dropped: 0 },
                max: options.max_output_bytes,
                timed_out: false,
                cancelled: false,
                ended: false,
            }),
    {
        BashRun {
            output: BoundedOutput::new(options.max_output_bytes),
            timed_out: false,
            cancelled: false,
            ended: false,
        }
    }

    /// Takes in an event and says what is to be done next.
    pub fn step(&mut self, event: &BashEvent) -> (r: BashStep)
        requires
            event matches BashEvent::Chunk(chunk) ==> old(self).output.dropped
                + old(self).output.bytes.len() + chunk.len() <= usize::MAX,
        ensures
            (final(self)@, r@) == run_step(old(self)@, *event),
    {
        match event {
            BashEvent::Chunk(chunk) => {
                self.output.push(chunk);
                BashStep::Show(decode_lossy(chunk))
            },
            BashEvent::Deadline => {
                if self.ended {
                    BashStep::Drain
                } else {
                    self.timed_out = true;
                    self.ended = true;
                    BashStep::Terminate
                }
            },
            BashEvent::Cancelled => {
                if self.ended {
                    BashStep::Drain
                } else {
                    self.cancelled = true;
                    self.ended = true;
                    BashStep::Terminate
                }
            },
            BashEvent::Exited => {
                self.ended = true;
                BashStep::Drain
            },
            BashEvent::Drained => {
                if self.ended {
                    BashStep::Finish
                } else {
                    BashStep::Wait
                }
            },
        }
    }

    /// What the command came to. `seconds` is the limit that applied, as it is
    /// shown; `capped_from` is what was asked for if that was more.
    pub fn finish(
        self,
        exit_code: Option<i32>,
        seconds: &str,
        capped_from: Option<u64>,
        options: &BashOptions,
    ) -> (r: BashResult)
        ensures
            r.output@ == output_text(self@.output) + ending_note(
                self.timed_out,
                self.cancelled,
                seconds@,
                capped_from,
                options.max_timeout,
            ),
            valid_utf8(self@.output.bytes) ==> encode_utf8(
                r.output@.subrange(
                    dropped_note(self@.output.dropped).len() as int,
                    output_text(self@.output).len() as int,
                ),
            ) == self@.output.bytes,
            r.exit_code == exit_code,
            r.timed_out == self.timed_out,
            r.cancelled == self.cancelled,
    {
        let ghost note = dropped_note(self@.output.dropped);
        let mut output = self.output.finish();
        let ghost shown = output@;
        if self.timed_out {
            // Say what the limit was and how to raise it: a bare "timed out" leaves
            // the model guessing whether the command or the limit was wrong.
            let most = decimal_text(options.max_timeout / 1000);
            let reason = match capped_from {
                Some(requested) => "; timeout_seconds ".to_owned().concat(
                    &decimal_text(requested),
                ).concat(" was capped at ").concat(&most).concat("]"),
                None => "; pass timeout_seconds up to ".to_owned().concat(&most).concat(
                    " for slow commands]",
                ),
            };
            let note = "\n[bash timed out after ".to_owned().concat(seconds).concat("s").concat(
                &reason,
            );
            output.append(&note);
        } else if self.cancelled {
            output.append("\n[bash cancelled]");
        }
        assert(output@ =~= shown + ending_note(
            self.timed_out,
            self.cancelled,
            seconds@,
            capped_from,
            options.max_timeout,
        ));
        assert(output@.subrange(note.len() as int, shown.len() as int) =~= shown.skip(
            note.len() as int,
        ));
        BashResult {
            output,
            exit_code,
            timed_out: self.timed_out,
            cancelled: self.cancelled,
        }
    }
}

// ---------------------------------------------------------------------------
// What a command is held to, and what is seen of it

/// A command has the time that it asks for, up to the most that is allowed; more
/// than that is cut to the most, and it is told what was asked for. A command that
/// asks for none has the usual time, which is cut to the most as well.
pub proof fn law_commands_have_the_time_they_ask_for(options: BashOptions, requested: Option<u64>)
    ensures
        ({
            let (time, cut) = timeout_of(options, requested);
            &&& time <= options.max_timeout
            &&& requested matches Some(n) ==> (n > 0 ==> if n * 1000 <= options.max_timeout {
                time == n * 1000 && cut is None
            } else {
                time == options.max_timeout && cut == Some(n)
            })
            &&& requested is None || requested == Some(0u64) ==> cut is None && (time
                == options.timeout || (time == options.max_timeout && options.timeout
                > options.max_timeout))
        }),
{
}

proof fn lemma_all_bytes(chunks: Seq<Seq<u8>>)
    ensures
        all_bytes(chunks) == chunks.flatten(),
    decreases chunks.len(),
{
    if chunks.len() > 0 {
        lemma_all_bytes(chunks.drop_last());
        chunks.drop_last().lemma_flatten_push(chunks.last());
        assert(chunks.drop_last().push(chunks.last()) =~= chunks);
    } else {
        assert(chunks =~= Seq::empty());
    }
}

/// Of what a command puts out, the end is kept, as much of it as is allowed; how
/// much came before it is counted.
pub proof fn law_the_last_bytes_are_kept(chunks: Seq<Seq<u8>>, max: nat)
    ensures
        ({
            let all = chunks.flatten();
            let kept = push_chunks(chunks, max);
            &&& kept.bytes.len() <= max && kept.bytes.len() <= all.len()
            &&& kept.bytes.len() == max || kept.bytes.len() == all.len()
            &&& forall|i: int|
                0 <= i < kept.bytes.len() ==> #[trigger] kept.bytes[i] == all[all.len()
                    - kept.bytes.len() + i]
            &&& kept.dropped == all.len() - kept.bytes.len()
        }),
{
    law_the_end_is_kept(chunks, max);
    lemma_all_bytes(chunks);
}

/// One more piece of output is taken in after those before it.
pub proof fn law_output_comes_piece_by_piece(chunks: Seq<Seq<u8>>, chunk: Seq<u8>, max: nat)
    ensures
        push_chunks(chunks.push(chunk), max) == push_chunk(push_chunks(chunks, max), chunk, max),
        push_chunks(Seq::<Seq<u8>>::empty(), max) == (BoundedView {
            bytes: Seq::empty(),
            dropped: 0,
        }),
{
    assert(chunks.push(chunk).drop_last() =~= chunks);
}

/// What is shown of a command's output is what was kept of it, after a note on
/// what was not, where something was not.
pub proof fn law_dropped_output_is_told_of(b: BoundedView)
    ensures
        b.dropped == 0 && valid_utf8(b.bytes) ==> output_text(b) == decode_utf8(b.bytes),
        b.dropped > 0 && valid_utf8(b.bytes) ==> output_text(b) == "[output truncated; dropped "@
            + decimal(b.dropped) + " bytes]\n"@ + decode_utf8(b.bytes),
{
    assert(Seq::<char>::empty() + lossy_text(b.bytes) =~= lossy_text(b.bytes));
}

/// A command that runs is ended once: by its exit, by its deadline or by the
/// user, whichever comes first. What it puts out is shown and kept before and
/// after that; it is over only when it has ended and nothing more comes.
pub proof fn law_commands_end_once(run: RunView, event: BashEvent)
    ensures
        ({
            let (after, step) = run_step(run, event);
            &&& run.ended ==> after.ended && after.timed_out == run.timed_out && after.cancelled
                == run.cancelled && !(step is Terminate)
            &&& after.timed_out <==> run.timed_out || (!run.ended && event is Deadline)
            &&& after.cancelled <==> run.cancelled || (!run.ended && event is Cancelled)
            &&& step is Terminate <==> !run.ended && (event is Deadline || event is Cancelled)
            &&& after.ended <==> run.ended || event is Deadline || event is Cancelled
                || event is Exited
            &&& step is Finish <==> run.ended && event is Drained
            &&& event is Exited ==> step is Drain
            &&& after.max == run.max
            &&& !(event is Chunk) ==> after.output == run.output
            &&& event matches BashEvent::Chunk(chunk) ==> after.output == push_chunk(
                run.output,
                chunk@,
                run.max as nat,
            ) && (valid_utf8(chunk@) ==> step == StepView::Show(decode_utf8(chunk@)))
        }),
{
}

/// What is told of the end of a command: whether it ran out of time, and after
/// how long, or was cancelled; nothing where it came to its end by itself.
pub proof fn law_the_end_of_a_command_is_told(
    timed_out: bool,
    cancelled: bool,
    seconds: Seq<char>,
    capped_from: Option<u64>,
    max_timeout: u64,
)
    ensures
        ({
            let note = ending_note(timed_out, cancelled, seconds, capped_from, max_timeout);
            &&& !timed_out && !cancelled <==> note.len() == 0
            &&& timed_out ==> exists|rest: Seq<char>| note == #[trigger] (
            "\n[bash timed out after "@ + seconds + "s"@ + rest)
            &&& !timed_out && cancelled ==> note == "\n[bash cancelled]"@
        }),
{
    reveal_strlit("\n[bash timed out after ");
    reveal_strlit("\n[bash cancelled]");
    assert("\n[bash timed out after "@.len() > 0);
    assert("\n[bash cancelled]"@.len() > 0);
    if timed_out {
        let rest = match capped_from {
            Some(requested) => "; timeout_seconds "@ + decimal(requested as nat)
                + " was capped at "@ + decimal((max_timeout / 1000) as nat) + "]"@,
            None => "; pass timeout_seconds up to "@ + decimal((max_timeout / 1000) as nat)
                + " for slow commands]"@,
        };
        assert(ending_note(timed_out, cancelled, seconds, capped_from, max_timeout)
            == "\n[bash timed out after "@ + seconds + "s"@ + rest);
    }
}

} // verus!
