//! The transient area below the transcript: what is running, and the end of
//! what it has written.
use vstd::prelude::*;
use vstd::string::*;

use crate::json::{Json, JsonView, laid_out, parse_json, value_read};
use crate::seqs::{lemma_picks_last, lemma_picks_nothing, picks};
use crate::text::{
    begins, decimal, decimal_text, ends, holds_text, lemma_views_push, lines, lines_of, maybe_view,
    same, texts, views,
};
use crate::tui::style::{Span, SpanView};
use crate::tui::tool_text::{
    BoundedInput, InputView, LimitedText, TailBuffer, TailView, clean_terminal_line, cleaned,
    describe_read, describe_timeout, format_tool_input, input_text, law_inputs_are_shown,
    operation_lines, patch_in, patch_operations, read_text, tail_lines, timeout_text,
};
use crate::tui::width::{columns, cut_to_width, truncate_display_width};

verus! {

/// The spinner that is shown while the model answers.
pub const GENERATION_ID: &'static str = "__a_generation";

/// The unfinished line above that spinner.
pub const GENERATION_CONTENT_ID: &'static str = "__a_generation_content";

// ---------------------------------------------------------------------------
// Steps on the terminal

/// A step on the terminal.
#[derive(Debug)]
pub enum Draw {
    /// Append to the transcript.
    Write(Span),
    /// Show a spinner with a message.
    Start { id: String, message: String },
    /// Change the message of a spinner.
    Update { id: String, message: String },
    /// Show an unfinished line: above the generation spinner if it is shown,
    /// else below everything.
    Content(Vec<Span>),
    /// Change the unfinished line.
    UpdateContent(Vec<Span>),
    /// Take a row away.
    Stop { id: String },
    /// Take all rows away.
    StopAll,
    /// Erase what is drawn of the rows.
    Clear,
    /// Draw all rows.
    Redraw,
    /// Make room for rows below the cursor and remember the place.
    Reserve(u16),
    /// Go back to the remembered place and erase everything below it.
    Restore,
}

/// The model of a [`Draw`].
pub enum DrawView {
    Write(SpanView),
    Start { id: Seq<char>, message: Seq<char> },
    Update { id: Seq<char>, message: Seq<char> },
    Content(Seq<SpanView>),
    UpdateContent(Seq<SpanView>),
    Stop { id: Seq<char> },
    StopAll,
    Clear,
    Redraw,
    Reserve(u16),
    Restore,
}

impl View for Draw {
    type V = DrawView;

    open spec fn view(&self) -> DrawView {
        match self {
            Draw::Write(span) => DrawView::Write(span@),
            Draw::Start { id, message } => DrawView::Start { id: id@, message: message@ },
            Draw::Update { id, message } => DrawView::Update { id: id@, message: message@ },
            Draw::Content(spans) => DrawView::Content(views(spans@)),
            Draw::UpdateContent(spans) => DrawView::UpdateContent(views(spans@)),
            Draw::Stop { id } => DrawView::Stop { id: id@ },
            Draw::StopAll => DrawView::StopAll,
            Draw::Clear => DrawView::Clear,
            Draw::Redraw => DrawView::Redraw,
            Draw::Reserve(rows) => DrawView::Reserve(*rows),
            Draw::Restore => DrawView::Restore,
        }
    }
}

/// Appends a step.
pub fn push_draw(out: &mut Vec<Draw>, draw: Draw)
    ensures
        views(final(out)@) == views(old(out)@).push(draw@),
{
    broadcast use lemma_views_push;

    out.push(draw);
}

// ---------------------------------------------------------------------------
// A running tool

/// A tool call that is shown.
#[derive(Debug)]
pub struct ToolDisplay {
    pub name: String,
    pub arguments: BoundedInput,
    pub output: TailBuffer,
}

/// The model of a [`ToolDisplay`].
pub struct ToolView {
    pub name: Seq<char>,
    pub arguments: InputView,
    pub output: TailView,
}

impl View for ToolDisplay {
    type V = ToolView;

    open spec fn view(&self) -> ToolView {
        ToolView {
            name: self.name@,
            arguments: self.arguments@,
            output: self.output@,
        }
    }
}

/// The least number of bytes that are kept of the arguments of a call, so that
/// they can still be read as JSON.
pub const LEAST_INPUT_BYTES: usize = 65536;

/// A call that has just begun.
pub open spec fn fresh_tool(name: Seq<char>, input_max: nat, output_max: nat) -> ToolView {
    ToolView {
        name,
        arguments: InputView {
            text: Seq::empty(),
            max_bytes: if input_max > LEAST_INPUT_BYTES {
                input_max
            } else {
                LEAST_INPUT_BYTES as nat
            },
            truncated: false,
        },
        output: TailView {
            bytes: Seq::empty(),
            max_bytes: output_max,
            dropped: false,
            total_lines: 0,
        },
    }
}

impl ToolDisplay {
    pub fn new(name: &str, input_max_bytes: usize, output_max_bytes: usize) -> (r: ToolDisplay)
        ensures
            r@ == fresh_tool(name@, input_max_bytes as nat, output_max_bytes as nat),
    {
        let max: usize = if input_max_bytes > LEAST_INPUT_BYTES {
            input_max_bytes
        } else {
            LEAST_INPUT_BYTES
        };
        ToolDisplay {
            name: name.to_owned(),
            arguments: BoundedInput::new(max),
            output: TailBuffer::new(output_max_bytes),
        }
    }
}

/// What is shown first of a running call.
pub open spec fn tool_label(name: Seq<char>, args: Option<JsonView>) -> Seq<char> {
    if name == "bash"@ {
        match timeout_text(args) {
            Some(timeout) => "bash  "@ + timeout,
            None => "bash"@,
        }
    } else if name == "read"@ {
        "read  "@ + read_text(args)
    } else if name == "apply_patch"@ {
        let count = operation_lines(lines_of(patch_in(args))).len();
        "apply_patch  "@ + decimal(count) + (if count == 1 {
            " file"@
        } else {
            " files"@
        })
    } else {
        name
    }
}

/// The first line of a command, with an ellipsis where there are more.
pub open spec fn command_line(command: Seq<char>) -> Seq<char> {
    let lines = lines_of(command);
    if lines.len() == 0 {
        Seq::empty()
    } else if lines.len() == 1 {
        lines[0]
    } else {
        lines[0] + "…"@
    }
}

/// A line that fits into a number of columns.
pub open spec fn fitted(s: Seq<char>, max: nat) -> Seq<char> {
    cut_to_width(cleaned(s), columns(cleaned(s)) as nat, max)
}

/// A number less another, but not less than zero.
pub open spec fn less(a: nat, b: nat) -> nat {
    if a > b {
        (a - b) as nat
    } else {
        0
    }
}

/// The rows of an output.
pub open spec fn output_rows(lines: Seq<Seq<char>>, truncated: bool, width: nat) -> Seq<char>
    decreases lines.len(),
{
    if lines.len() == 0 {
        Seq::empty()
    } else {
        output_rows(lines.drop_last(), truncated, width) + "\n"@ + (if truncated && lines.len()
            == 1 {
            "  … "@
        } else {
            "  │ "@
        }) + fitted(lines.last(), less(width, 4))
    }
}

/// What is shown of a running call: what it is, the command it runs, and the
/// last lines that it has written.
pub open spec fn live_message(tool: ToolView, max_lines: nat, width: nat, color: bool) -> Seq<char> {
    let args = value_read(tool.arguments.text);
    let raw = tool.arguments.text;
    let label = fitted(tool_label(tool.name, args), less(width, 2));
    let command = if tool.name == "bash"@ {
        "\n"@ + (if color {
            "  \x1b[1;36m$\x1b[0m "@
        } else {
            "  $ "@
        }) + fitted(
            command_line(input_text("bash"@, raw, args, laid_out(raw))),
            less(width, 4),
        )
    } else {
        Seq::empty()
    };
    let output = tail_lines(tool.output, max_lines);
    let rows = if max_lines == 0 {
        Seq::empty()
    } else {
        output_rows(output.lines, output.truncated, width)
    };
    label + command + rows
}

/// Subtracts, but not below zero.
pub fn minus(a: usize, b: usize) -> (r: usize)
    ensures
        r == less(a as nat, b as nat),
{
    if a > b {
        a - b
    } else {
        0
    }
}

/// What is shown first of a running call, given its arguments read as JSON.
pub fn describe_tool(name: &str, args: &Option<Json>) -> (r: String)
    ensures
        r@ == tool_label(name@, maybe_view(*args)),
{
    if same(name, "bash") {
        match describe_timeout(args) {
            Some(timeout) => "bash  ".to_owned().concat(&timeout),
            None => "bash".to_owned(),
        }
    } else if same(name, "read") {
        "read  ".to_owned().concat(&describe_read(args))
    } else if same(name, "apply_patch") {
        let patch = match args {
            Some(v) => v.text_or_empty("patch"),
            None => String::new(),
        };
        assert(patch@ =~= patch_in(maybe_view(*args)));
        let operations = patch_operations(&patch);
        assert(texts(operations@).len() == operations@.len());
        let count: usize = operations.len();
        "apply_patch  ".to_owned().concat(&decimal_text(count as u64)).concat(
            if count == 1 {
                " file"
            } else {
                " files"
            },
        )
    } else {
        name.to_owned()
    }
}

/// The first line of a command, with an ellipsis where there are more.
pub fn first_line(command: &str) -> (r: String)
    ensures
        r@ == command_line(command@),
{
    let all = lines(command);
    assert(texts(all@).len() == all@.len());
    if all.len() == 0 {
        return String::new();
    }
    assert(texts(all@)[0] == all@[0]@);
    if all.len() == 1 {
        all[0].clone()
    } else {
        all[0].clone().concat("…")
    }
}

/// A line that fits into a number of columns.
pub fn fit_line(s: &str, max: usize) -> (r: String)
    ensures
        r@ == fitted(s@, max as nat),
{
    truncate_display_width(&clean_terminal_line(s), max)
}

fn show_rows(output: &LimitedText, width: usize) -> (r: String)
    ensures
        r@ == output_rows(output@.lines, output@.truncated, width as nat),
{
    let ghost all = output@.lines;
    let mut r = String::new();
    assert(all.take(0) =~= Seq::empty());
    let mut i: usize = 0;
    while i < output.lines.len()
        invariant
            i <= output.lines.len(),
            all == texts(output.lines@),
            r@ == output_rows(all.take(i as int), output.truncated, width as nat),
        decreases output.lines.len() - i,
    {
        assert(all.take(i + 1).drop_last() =~= all.take(i as int));
        assert(all.take(i + 1).last() == output.lines@[i as int]@);
        let mark = if output.truncated && i == 0 {
            "  … "
        } else {
            "  │ "
        };
        r = r.concat("\n").concat(mark).concat(&fit_line(&output.lines[i], minus(width, 4)));
        i += 1;
    }
    assert(all.take(all.len() as int) =~= all);
    r
}

/// What is shown of a running call: what it is, the command it runs, and the
/// last lines that it has written.
pub fn live_tool_message(
    tool: &ToolDisplay,
    max_lines: usize,
    terminal_width: usize,
    color: bool,
) -> (r: String)
    ensures
        r@ == live_message(tool@, max_lines as nat, terminal_width as nat, color),
{
    let args = parse_json(&tool.arguments.text);
    let label = fit_line(&describe_tool(&tool.name, &args), minus(terminal_width, 2));
    let command = if same(&tool.name, "bash") {
        let line = first_line(&format_tool_input("bash", &tool.arguments.text));
        "\n".to_owned().concat(
            if color {
                "  \x1b[1;36m$\x1b[0m "
            } else {
                "  $ "
            },
        ).concat(&fit_line(&line, minus(terminal_width, 4)))
    } else {
        let none = String::new();
        assert(none@ =~= Seq::empty());
        none
    };
    let rows = if max_lines == 0 {
        let none = String::new();
        assert(none@ =~= Seq::empty());
        none
    } else {
        show_rows(&tool.output.limited(max_lines), terminal_width)
    };
    label.concat(&command).concat(&rows)
}

// ---------------------------------------------------------------------------
// The rows

/// The rows that are shown, and the room that was made for them.
#[derive(Debug)]
pub struct LiveTools {
    pub entries: Vec<String>,
    pub max_lines: usize,
    pub visible_lines: usize,
    pub terminal_width: u16,
    pub terminal_height: Option<u16>,
    pub reserved: bool,
}

/// The model of a [`LiveTools`].
pub struct LiveView {
    /// The rows.
    pub entries: Seq<Seq<char>>,
    /// How many lines of output a call shows at most.
    pub max_lines: nat,
    /// How many lines of output a call shows.
    pub visible_lines: nat,
    pub terminal_width: u16,
    /// The rows of the terminal, where they are known.
    pub terminal_height: Option<u16>,
    /// Whether room was made.
    pub reserved: bool,
}

impl View for LiveTools {
    type V = LiveView;

    open spec fn view(&self) -> LiveView {
        LiveView {
            entries: texts(self.entries@),
            max_lines: self.max_lines as nat,
            visible_lines: self.visible_lines as nat,
            terminal_width: self.terminal_width,
            terminal_height: self.terminal_height,
            reserved: self.reserved,
        }
    }
}

/// No rows on a terminal of a size, if that is known.
pub open spec fn fresh_live(max_lines: nat, size: Option<(u16, u16)>) -> LiveView {
    LiveView {
        entries: Seq::empty(),
        max_lines,
        visible_lines: max_lines,
        terminal_width: match size {
            Some((width, _)) => if width > 0 {
                width
            } else {
                1
            },
            None => 80,
        },
        terminal_height: match size {
            Some((_, height)) => Some(height),
            None => None,
        },
        reserved: false,
    }
}

/// The rows, and the steps on the terminal so far.
pub struct Screen {
    pub live: LiveView,
    pub out: Seq<DrawView>,
}

/// One more step.
pub open spec fn drawn(s: Screen, draw: DrawView) -> Screen {
    Screen { out: s.out.push(draw), ..s }
}

/// Rows without one.
pub open spec fn without_row(entries: Seq<Seq<char>>, id: Seq<char>) -> Seq<Seq<char>>
    decreases entries.len(),
{
    if entries.len() == 0 {
        Seq::empty()
    } else if entries.last() == id {
        without_row(entries.drop_last(), id)
    } else {
        without_row(entries.drop_last(), id).push(entries.last())
    }
}

/// Makes room for rows, unless that was done.
pub open spec fn reserve_rows(s: Screen, rows: u16) -> Screen {
    if s.live.reserved {
        s
    } else {
        Screen {
            live: LiveView { reserved: true, ..s.live },
            out: if rows > 0 {
                s.out.push(DrawView::Reserve(rows))
            } else {
                s.out
            },
        }
    }
}

/// The rows of a terminal that can be used: all but one, of those that it has
/// or is taken to have.
pub open spec fn usable_rows(height: Option<u16>) -> nat {
    match height {
        Some(h) => less(h as nat, 1),
        None => 23,
    }
}

/// How many lines of output a call can show when a number of calls share a
/// terminal.
pub open spec fn shared_lines(max_lines: nat, rows: nat, tools: nat) -> nat {
    let per_tool = rows / (if tools == 0 {
        1
    } else {
        tools
    });
    if max_lines < less(per_tool, 2) {
        max_lines
    } else {
        less(per_tool, 2)
    }
}

/// Makes room for a number of calls, unless that was done.
pub open spec fn reserve_tools(s: Screen, tools: nat) -> Screen {
    if s.live.reserved {
        s
    } else {
        let rows = usable_rows(s.live.terminal_height);
        let visible = shared_lines(s.live.max_lines, rows, tools);
        let desired = tools * (visible + 2);
        reserve_rows(
            Screen { live: LiveView { visible_lines: visible, ..s.live }, ..s },
            (if desired < rows {
                desired
            } else {
                rows
            }) as u16,
        )
    }
}

/// Changes the message of a row, if it is shown.
pub open spec fn row_updated(s: Screen, id: Seq<char>, message: Seq<char>) -> Screen {
    if s.live.entries.contains(id) {
        drawn(s, DrawView::Update { id, message })
    } else {
        s
    }
}

/// Shows a row, or changes its message.
pub open spec fn row_started(s: Screen, id: Seq<char>, message: Seq<char>) -> Screen {
    if s.live.entries.contains(id) {
        row_updated(s, id, message)
    } else {
        Screen {
            live: LiveView { entries: s.live.entries.push(id), ..s.live },
            out: s.out.push(DrawView::Start { id, message }),
        }
    }
}

/// Takes a row away, if it is shown.
pub open spec fn row_finished(s: Screen, id: Seq<char>) -> Screen {
    if s.live.entries.contains(id) {
        Screen {
            live: LiveView { entries: without_row(s.live.entries, id), ..s.live },
            out: s.out.push(DrawView::Stop { id }),
        }
    } else {
        s
    }
}

/// Makes way for the transcript.
pub open spec fn made_way(s: Screen) -> Screen {
    let cleared = drawn(s, DrawView::Clear);
    if s.live.reserved {
        Screen {
            live: LiveView { reserved: false, ..s.live },
            out: cleared.out.push(DrawView::Restore),
        }
    } else {
        cleared
    }
}

/// Shows the rows again below the transcript.
pub open spec fn resumed(s: Screen) -> Screen {
    if s.live.entries.len() == 0 {
        s
    } else if s.live.entries.contains(GENERATION_ID@) {
        drawn(
            reserve_rows(
                s,
                if s.live.entries.contains(GENERATION_CONTENT_ID@) {
                    2
                } else {
                    1
                },
            ),
            DrawView::Redraw,
        )
    } else {
        drawn(reserve_tools(s, s.live.entries.len()), DrawView::Redraw)
    }
}

/// Shows or takes away the unfinished line above the generation spinner.
pub open spec fn content_set(s: Screen, content: Option<Seq<SpanView>>) -> Screen {
    match content {
        Some(spans) => if s.live.entries.contains(GENERATION_CONTENT_ID@) {
            drawn(s, DrawView::UpdateContent(spans))
        } else {
            let way = made_way(s);
            resumed(
                Screen {
                    live: LiveView {
                        entries: way.live.entries.push(GENERATION_CONTENT_ID@),
                        ..way.live
                    },
                    out: way.out.push(DrawView::Content(spans)),
                },
            )
        },
        None => if s.live.entries.contains(GENERATION_CONTENT_ID@) {
            resumed(made_way(row_finished(s, GENERATION_CONTENT_ID@)))
        } else {
            s
        },
    }
}

/// Takes all rows away.
pub open spec fn rows_cleared(s: Screen) -> Screen {
    made_way(
        Screen {
            live: LiveView { entries: Seq::empty(), ..s.live },
            out: s.out.push(DrawView::StopAll),
        },
    )
}

/// However many calls share the terminal, their rows fit on it: each shows its
/// label, its command and the lines of output that are left to it. A terminal
/// too small for two rows a call shows as much as it can.
pub proof fn law_shared_rows_fit(max_lines: nat, rows: nat, tools: nat)
    requires
        tools > 0,
        rows >= 2 * tools,
    ensures
        tools * (shared_lines(max_lines, rows, tools) + 2) <= rows,
        shared_lines(max_lines, rows, tools) <= max_lines,
{
    let per = rows / tools;
    assert(per >= 2) by (nonlinear_arith)
        requires
            per == rows / tools,
            rows >= 2 * tools,
            tools > 0,
    ;
    assert(tools * per <= rows) by (nonlinear_arith)
        requires
            per == rows / tools,
            tools > 0,
    ;
    let v = shared_lines(max_lines, rows, tools);
    assert(tools * (v + 2) <= tools * per) by (nonlinear_arith)
        requires
            v + 2 <= per,
    ;
}

impl LiveTools {
    /// No rows on a terminal of a size, if that is known.
    pub fn new(max_lines: usize, size: Option<(u16, u16)>) -> (r: LiveTools)
        ensures
            r@ == fresh_live(max_lines as nat, size),
    {
        let entries: Vec<String> = Vec::new();
        assert(texts(entries@) =~= Seq::empty());
        let (terminal_width, terminal_height) = match size {
            Some((width, height)) => (
                if width > 0 {
                    width
                } else {
                    1
                },
                Some(height),
            ),
            None => (80, None),
        };
        LiveTools {
            entries,
            max_lines,
            visible_lines: max_lines,
            terminal_width,
            terminal_height,
            reserved: false,
        }
    }

    /// Takes note of the size of the terminal. A size that is not known leaves
    /// the width as it was. Nothing changes while room is made for rows.
    pub fn observe(&mut self, size: Option<(u16, u16)>)
        ensures
            final(self)@ == observed(old(self)@, size),
    {
        if self.reserved {
            return;
        }
        match size {
            Some((width, height)) => {
                self.terminal_width = if width > 0 {
                    width
                } else {
                    1
                };
                self.terminal_height = Some(height);
            },
            None => {
                self.terminal_height = None;
            },
        }
    }

    fn holds(&self, id: &str) -> (r: bool)
        ensures
            r == self@.entries.contains(id@),
    {
        holds_text(&self.entries, id)
    }

    /// Whether the generation spinner is shown.
    pub fn generating(&self) -> (r: bool)
        ensures
            r == self@.entries.contains(GENERATION_ID@),
    {
        self.holds(GENERATION_ID)
    }

    /// Makes room for a number of calls, unless that was done.
    pub fn reserve(&mut self, tools: usize, out: &mut Vec<Draw>)
        ensures
            (Screen { live: final(self)@, out: views(final(out)@) }) == reserve_tools(
                Screen { live: old(self)@, out: views(old(out)@) },
                tools as nat,
            ),
    {
        if self.reserved {
            return;
        }
        let rows: usize = match self.terminal_height {
            Some(h) => minus(h as usize, 1),
            None => 23,
        };
        let divisor: usize = if tools == 0 {
            1
        } else {
            tools
        };
        let per_tool: usize = rows / divisor;
        let lines: usize = minus(per_tool, 2);
        self.visible_lines = if self.max_lines < lines {
            self.max_lines
        } else {
            lines
        };
        let each: usize = self.visible_lines + 2;
        let fits = if tools > rows {
            false
        } else {
            proof {
                assert(tools * each <= 0xffff * 0x10001) by (nonlinear_arith)
                    requires
                        tools <= 0xffff,
                        each <= 0x10001,
                ;
            }
            (tools as u64) * (each as u64) < rows as u64
        };
        proof {
            if tools > rows {
                assert(tools * each >= rows) by (nonlinear_arith)
                    requires
                        tools > rows,
                        each >= 2,
                        rows >= 0,
                ;
            }
        }
        let height: u16 = if fits {
            ((tools as u64) * (each as u64)) as u16
        } else {
            rows as u16
        };
        self.reserve_height(height, out);
    }

    /// Makes room for the generation spinner, unless room was made.
    pub fn reserve_generation(&mut self, out: &mut Vec<Draw>)
        ensures
            (Screen { live: final(self)@, out: views(final(out)@) }) == reserve_rows(
                Screen { live: old(self)@, out: views(old(out)@) },
                1,
            ),
    {
        self.reserve_height(1, out);
    }

    fn reserve_height(&mut self, rows: u16, out: &mut Vec<Draw>)
        ensures
            (Screen { live: final(self)@, out: views(final(out)@) }) == reserve_rows(
                Screen { live: old(self)@, out: views(old(out)@) },
                rows,
            ),
    {
        if self.reserved {
            return;
        }
        if rows > 0 {
            push_draw(out, Draw::Reserve(rows));
        }
        self.reserved = true;
    }

    /// Shows a row, or changes its message.
    pub fn start(&mut self, id: &str, message: String, out: &mut Vec<Draw>)
        ensures
            (Screen { live: final(self)@, out: views(final(out)@) }) == row_started(
                Screen { live: old(self)@, out: views(old(out)@) },
                id@,
                message@,
            ),
    {
        if self.holds(id) {
            self.update(id, message, out);
            return;
        }
        push_draw(out, Draw::Start { id: id.to_owned(), message });
        self.add(id);
    }

    fn add(&mut self, id: &str)
        ensures
            final(self)@ == (LiveView { entries: old(self)@.entries.push(id@), ..old(self)@ }),
    {
        let ghost before = texts(self.entries@);
        let entry = id.to_owned();
        self.entries.push(entry);
        assert(texts(self.entries@) =~= before.push(id@));
    }

    /// Changes the message of a row, if it is shown.
    pub fn update(&self, id: &str, message: String, out: &mut Vec<Draw>)
        ensures
            (Screen { live: self@, out: views(final(out)@) }) == row_updated(
                Screen { live: self@, out: views(old(out)@) },
                id@,
                message@,
            ),
    {
        if self.holds(id) {
            push_draw(out, Draw::Update { id: id.to_owned(), message });
        }
    }

    /// Takes a row away, if it is shown.
    pub fn finish(&mut self, id: &str, out: &mut Vec<Draw>)
        ensures
            (Screen { live: final(self)@, out: views(final(out)@) }) == row_finished(
                Screen { live: old(self)@, out: views(old(out)@) },
                id@,
            ),
    {
        if !self.holds(id) {
            return;
        }
        let ghost all = texts(self.entries@);
        let mut kept: Vec<String> = Vec::new();
        assert(texts(kept@) =~= Seq::empty());
        assert(all.take(0) =~= Seq::empty());
        let mut i: usize = 0;
        while i < self.entries.len()
            invariant
                i <= self.entries.len(),
                all == texts(self.entries@),
                *self == *old(self),
                texts(kept@) == without_row(all.take(i as int), id@),
            decreases self.entries.len() - i,
        {
            assert(all.take(i + 1).drop_last() =~= all.take(i as int));
            assert(all.take(i + 1).last() == self.entries@[i as int]@);
            if !same(&self.entries[i], id) {
                let ghost before = texts(kept@);
                let entry = self.entries[i].clone();
                kept.push(entry);
                assert(texts(kept@) =~= before.push(entry@));
            }
            i += 1;
        }
        assert(all.take(all.len() as int) =~= all);
        self.entries = kept;
        push_draw(out, Draw::Stop { id: id.to_owned() });
    }

    /// Makes way for the transcript.
    pub fn restore_for_commit(&mut self, out: &mut Vec<Draw>)
        ensures
            (Screen { live: final(self)@, out: views(final(out)@) }) == made_way(
                Screen { live: old(self)@, out: views(old(out)@) },
            ),
    {
        push_draw(out, Draw::Clear);
        if self.reserved {
            push_draw(out, Draw::Restore);
            self.reserved = false;
        }
    }

    /// Shows the rows again below the transcript.
    pub fn resume_after_commit(&mut self, out: &mut Vec<Draw>)
        ensures
            (Screen { live: final(self)@, out: views(final(out)@) }) == resumed(
                Screen { live: old(self)@, out: views(old(out)@) },
            ),
    {
        let count: usize = self.entries.len();
        assert(texts(self.entries@).len() == count);
        if count == 0 {
            return;
        }
        if self.generating() {
            let rows: u16 = if self.holds(GENERATION_CONTENT_ID) {
                2
            } else {
                1
            };
            self.reserve_height(rows, out);
        } else {
            self.reserve(count, out);
        }
        push_draw(out, Draw::Redraw);
    }

    /// Shows or takes away the unfinished line above the generation spinner.
    pub fn set_generation_content(&mut self, content: Option<Vec<Span>>, out: &mut Vec<Draw>)
        ensures
            (Screen { live: final(self)@, out: views(final(out)@) }) == content_set(
                Screen { live: old(self)@, out: views(old(out)@) },
                match content {
                    Some(spans) => Some(views(spans@)),
                    None => None,
                },
            ),
    {
        match content {
            Some(spans) => {
                if self.holds(GENERATION_CONTENT_ID) {
                    push_draw(out, Draw::UpdateContent(spans));
                    return;
                }
                self.restore_for_commit(out);
                push_draw(out, Draw::Content(spans));
                self.add(GENERATION_CONTENT_ID);
                self.resume_after_commit(out);
            },
            None => {
                if self.holds(GENERATION_CONTENT_ID) {
                    self.finish(GENERATION_CONTENT_ID, out);
                    self.restore_for_commit(out);
                    self.resume_after_commit(out);
                }
            },
        }
    }

    /// Takes all rows away.
    pub fn clear(&mut self, out: &mut Vec<Draw>)
        ensures
            (Screen { live: final(self)@, out: views(final(out)@) }) == rows_cleared(
                Screen { live: old(self)@, out: views(old(out)@) },
            ),
    {
        self.entries = Vec::new();
        assert(texts(self.entries@) =~= Seq::empty());
        push_draw(out, Draw::StopAll);
        self.restore_for_commit(out);
    }
}

/// The rows once the size of the terminal was looked at.
pub open spec fn observed(live: LiveView, size: Option<(u16, u16)>) -> LiveView {
    if live.reserved {
        live
    } else {
        match size {
            Some((width, height)) => LiveView {
                terminal_width: if width > 0 {
                    width
                } else {
                    1
                },
                terminal_height: Some(height),
                ..live
            },
            None => LiveView { terminal_height: None, ..live },
        }
    }
}

// ---------------------------------------------------------------------------
// What is shown of what is running

/// The rows but for one.
pub open spec fn other_than(id: Seq<char>) -> spec_fn(Seq<char>) -> Option<Seq<char>> {
    |entry: Seq<char>|
        if entry == id {
            None
        } else {
            Some(entry)
        }
}

proof fn lemma_other_rows(entries: Seq<Seq<char>>, id: Seq<char>)
    ensures
        picks(entries, without_row(entries, id), other_than(id)),
    decreases entries.len(),
{
    if entries.len() == 0 {
        lemma_picks_nothing(entries, other_than(id));
    } else {
        lemma_other_rows(entries.drop_last(), id);
        lemma_picks_last(entries, without_row(entries.drop_last(), id), other_than(id));
    }
}

/// A row is shown from its start until it is finished, after those that were
/// there; meanwhile it is updated. Nothing is done with a row that is not shown,
/// and the others stay.
pub proof fn law_rows_come_and_go(s: Screen, id: Seq<char>, message: Seq<char>)
    ensures
        ({
            let shown = s.live.entries.contains(id);
            let started = row_started(s, id, message);
            let finished = row_finished(s, id);
            let updated = row_updated(s, id, message);
            &&& !shown ==> started.live.entries == s.live.entries.push(id) && started.out
                == s.out.push(DrawView::Start { id, message }) && finished == s && updated == s
            &&& shown ==> started.live == s.live && started.out == s.out.push(
                DrawView::Update { id, message },
            ) && updated == started
            &&& shown ==> finished.out == s.out.push(DrawView::Stop { id })
            &&& picks(s.live.entries, finished.live.entries, other_than(id))
            &&& started.live.reserved == s.live.reserved
        }),
{
    lemma_other_rows(s.live.entries, id);
    if !s.live.entries.contains(id) {
        lemma_all_others(s.live.entries, id);
    }
}

proof fn lemma_all_others(entries: Seq<Seq<char>>, id: Seq<char>)
    requires
        !entries.contains(id),
    ensures
        without_row(entries, id) == entries,
    decreases entries.len(),
{
    if entries.len() > 0 {
        let front = entries.drop_last();
        assert(entries.contains(entries[entries.len() - 1]));
        assert(!front.contains(id)) by {
            if front.contains(id) {
                let k = choose|k: int| 0 <= k < front.len() && front[k] == id;
                assert(entries[k] == id);
            }
        }
        lemma_all_others(front, id);
        assert(front.push(entries.last()) =~= entries);
    } else {
        assert(without_row(entries, id) =~= entries);
    }
}

/// Room is taken once and given back when something is written: after that it can
/// be taken again.
pub proof fn law_room_is_taken_and_given_back(s: Screen, rows: u16, tools: nat)
    ensures
        reserve_rows(s, rows).live.reserved,
        reserve_tools(s, tools).live.reserved,
        reserve_rows(reserve_rows(s, rows), rows) == reserve_rows(s, rows),
        !made_way(s).live.reserved,
        made_way(s).live.entries == s.live.entries,
        s.live.reserved ==> made_way(s).out.last() == DrawView::Restore,
        !s.live.reserved && rows > 0 ==> reserve_rows(s, rows).out == s.out.push(
            DrawView::Reserve(rows),
        ),
        rows_cleared(s).live.entries.len() == 0,
        !rows_cleared(s).live.reserved,
{
}

/// The rows of the tools never take more room than the terminal has.
pub proof fn law_tools_take_no_more_room_than_there_is(s: Screen, tools: nat, height: u16)
    requires
        !s.live.reserved,
        s.live.terminal_height == Some(height),
    ensures
        ({
            let after = reserve_tools(s, tools);
            after.out.len() > s.out.len() ==> (after.out.last() matches DrawView::Reserve(rows)
                && rows < height)
        }),
        reserve_tools(s, tools).live.visible_lines <= s.live.max_lines,
{
}

/// What a command is shown with: its first line, and a mark where there are more.
pub proof fn law_commands_are_shown_by_their_first_line(command: Seq<char>)
    ensures
        lines_of(command).len() == 1 ==> command_line(command) == lines_of(command)[0],
        lines_of(command).len() > 1 ==> command_line(command) == lines_of(command)[0].push('…'),
        lines_of(command).len() == 0 ==> command_line(command) == Seq::<char>::empty(),
{
    reveal_strlit("…");
    let lines = lines_of(command);
    if lines.len() > 1 {
        assert(lines[0] + "…"@ =~= lines[0].push('…'));
    }
}

/// The last lines of the output have a row each, in order and cut to the width;
/// the first of them is marked where something is missing before it.
pub proof fn law_output_has_its_rows(
    lines: Seq<Seq<char>>,
    line: Seq<char>,
    truncated: bool,
    width: nat,
)
    requires
        width >= 4,
    ensures
        lines.len() > 0 ==> output_rows(lines.push(line), truncated, width) == output_rows(
            lines,
            truncated,
            width,
        ) + "\n"@ + "  │ "@ + fitted(line, (width - 4) as nat),
        output_rows(seq![line], false, width) == "\n"@ + "  │ "@ + fitted(line, (width - 4) as nat),
        output_rows(seq![line], true, width) == "\n"@ + "  … "@ + fitted(line, (width - 4) as nat),
        output_rows(Seq::empty(), truncated, width) == Seq::<char>::empty(),
{
    assert(lines.push(line).drop_last() =~= lines);
    let one = seq![line];
    assert(one.drop_last() =~= Seq::empty());
    assert(output_rows(one.drop_last(), true, width) =~= Seq::empty());
    assert(output_rows(one.drop_last(), false, width) =~= Seq::empty());
    assert(output_rows(one, false, width) =~= "\n"@ + "  │ "@ + fitted(line, (width - 4) as nat));
    assert(output_rows(one, true, width) =~= "\n"@ + "  … "@ + fitted(line, (width - 4) as nat));
}

/// A running tool is shown by its name and what it works on, a command below it,
/// and the last lines of its output below that; without room for lines, none.
pub proof fn law_running_tools_are_shown(tool: ToolView, max_lines: nat, width: nat)
    ensures
        ({
            let args = value_read(tool.arguments.text);
            let label = fitted(tool_label(tool.name, args), less(width, 2));
            let rows = output_rows(
                tail_lines(tool.output, max_lines).lines,
                tail_lines(tool.output, max_lines).truncated,
                width,
            );
            &&& begins(live_message(tool, max_lines, width, false), label)
            &&& max_lines > 0 ==> ends(live_message(tool, max_lines, width, false), rows)
            &&& tool.name != "bash"@ && max_lines == 0 ==> live_message(
                tool,
                max_lines,
                width,
                false,
            ) == label
            &&& tool.name != "bash"@ && max_lines > 0 ==> live_message(
                tool,
                max_lines,
                width,
                false,
            ) == label + rows
            &&& args matches Some(value) ==> (value.text("command"@) matches Some(command) ==> (
            tool.name == "bash"@ && max_lines == 0 ==> live_message(tool, max_lines, width, false)
                == label + "\n"@ + "  $ "@ + fitted(command_line(command), less(width, 4))))
        }),
{
    let args = value_read(tool.arguments.text);
    let label = fitted(tool_label(tool.name, args), less(width, 2));
    let message = live_message(tool, max_lines, width, false);
    let rows = output_rows(
        tail_lines(tool.output, max_lines).lines,
        tail_lines(tool.output, max_lines).truncated,
        width,
    );
    assert(message.subrange(0, label.len() as int) =~= label);
    if max_lines > 0 {
        assert(message.subrange(message.len() - rows.len(), message.len() as int) =~= rows);
    }
    if tool.name != "bash"@ {
        if max_lines == 0 {
            assert(message =~= label);
        } else {
            assert(message =~= label + rows);
        }
    } else if args is Some && args->Some_0.text("command"@) is Some && max_lines == 0 {
        let command = args->Some_0.text("command"@)->Some_0;
        law_inputs_are_shown(
            tool.name,
            tool.arguments.text,
            args->Some_0,
            laid_out(tool.arguments.text),
            command,
        );
        assert(message =~= label + "\n"@ + "  $ "@ + fitted(
            command_line(command),
            less(width, 4),
        ));
    }
}

/// The size of the terminal is taken where no room is taken yet, and kept while it
/// is.
pub proof fn law_the_size_is_observed(live: LiveView, width: u16, height: u16)
    ensures
        live.reserved ==> observed(live, Some((width, height))) == live,
        !live.reserved && width > 0 ==> observed(live, Some((width, height))) == (LiveView {
            terminal_width: width,
            terminal_height: Some(height),
            ..live
        }),
        !live.reserved ==> observed(live, Some((width, height))).terminal_width >= 1,
{
}

} // verus!
