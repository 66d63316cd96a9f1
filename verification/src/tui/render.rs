//! The transcript: what is appended to the terminal as a turn goes on.
use vstd::prelude::*;
use vstd::string::*;

use crate::json::{laid_out, value_read};
use crate::model::{
    BlockView, ContentBlock, ConversationItem, EventView, ItemView, Role, StreamEvent, ToolResult,
    ToolResultView, text_parts, texts_in,
};
use crate::table::{
    entry_of, find_key, key_at, lemma_key_at, pairs, remove_entries, set_entry, with_entry,
    without_entry,
};
use crate::text::{join, joined, lemma_views_push, lines_of, maybe_view, same, views};
use crate::tui::blocks::{
    RevertLine, StreamStyle, append_stream, bash_block, command_block, completion_line, no_spans,
    output_block, patch_block, push_plain, push_styled, render_bash_command, render_bash_output,
    render_direct_output, render_patch_operations, render_section, revert_plan, section, segments,
    streamed, tool_header, user_block, write_revert_plan, write_tool_completion, write_tool_header,
    write_user_block,
};
use crate::tui::live::{
    Draw, DrawView, GENERATION_CONTENT_ID, GENERATION_ID, LiveTools, LiveView, Screen, ToolDisplay,
    ToolView, content_set, fit_line, fitted, fresh_live, fresh_tool, less, live_message,
    live_tool_message, made_way, minus, observed, push_draw, reserve_rows, reserve_tools, resumed,
    row_finished, row_started, row_updated, rows_cleared,
};
use crate::tui::style::{Span, SpanView, Tint, styled, unstyled};
use crate::tui::tool_text::{
    LimitedText, LimitedView, bash_timeout_label, bash_visible_output, complete_lines,
    format_tool_input, has_failed, input_text, is_failed, last_code, limited, limited_text,
    parse_exit_code, patch_in, patch_in_arguments, read_detail, read_text, summary_of, tail_lines,
    take_complete_lines, timeout_text, tool_summary, with_input, with_output, without_blanks,
    without_code, without_note, without_request_scaffolding, without_scaffolding,
};
use crate::tui::width::{columns, width_of};

verus! {

/// How much is shown of tool calls.
#[derive(Debug, Clone, Copy, PartialEq, Eq, Structural)]
pub struct RenderLimits {
    pub tool_input_max_bytes: usize,
    pub tool_output_max_bytes: usize,
    pub tool_output_max_lines: usize,
    pub tool_live_output_lines: usize,
    pub patch_diff_max_lines: usize,
}

impl Default for RenderLimits {
    fn default() -> (r: RenderLimits)
        ensures
            r == default_limits(),
    {
        RenderLimits {
            tool_input_max_bytes: 2048,
            tool_output_max_bytes: 8192,
            tool_output_max_lines: 16,
            tool_live_output_lines: 6,
            patch_diff_max_lines: 24,
        }
    }
}

/// How much is shown of tool calls unless it is configured.
pub open spec fn default_limits() -> RenderLimits {
    RenderLimits {
        tool_input_max_bytes: 2048,
        tool_output_max_bytes: 8192,
        tool_output_max_lines: 16,
        tool_live_output_lines: 6,
        patch_diff_max_lines: 24,
    }
}

/// Writes a conversation to the terminal as it goes on. The steps to take on
/// the terminal are kept until they are taken.
#[derive(Debug)]
pub struct InlineRenderer {
    color: bool,
    limits: RenderLimits,
    reasoning_visible: bool,
    reasoning_announced: bool,
    reasoning_buffer: String,
    reasoning_pending: String,
    assistant_buffer: String,
    reasoning_at_line_start: bool,
    assistant_at_line_start: bool,
    tools: Vec<(String, ToolDisplay)>,
    live: Option<LiveTools>,
    out: Vec<Draw>,
}

/// The model of an [`InlineRenderer`].
pub struct RendererView {
    pub color: bool,
    pub limits: RenderLimits,
    pub reasoning_visible: bool,
    /// Whether the heading of the reasoning was written.
    pub reasoning_announced: bool,
    /// The reasoning of the answer so far.
    pub reasoning_buffer: Seq<char>,
    /// The unfinished line of reasoning.
    pub reasoning_pending: Seq<char>,
    /// The unfinished line of the answer.
    pub assistant_buffer: Seq<char>,
    pub reasoning_at_line_start: bool,
    pub assistant_at_line_start: bool,
    /// The calls that have not ended, by their ids.
    pub tools: Seq<(Seq<char>, ToolView)>,
    /// The rows below the transcript, on a terminal.
    pub live: Option<LiveView>,
    /// The steps on the terminal so far.
    pub out: Seq<DrawView>,
}

impl View for InlineRenderer {
    type V = RendererView;

    closed spec fn view(&self) -> RendererView {
        RendererView {
            color: self.color,
            limits: self.limits,
            reasoning_visible: self.reasoning_visible,
            reasoning_announced: self.reasoning_announced,
            reasoning_buffer: self.reasoning_buffer@,
            reasoning_pending: self.reasoning_pending@,
            assistant_buffer: self.assistant_buffer@,
            reasoning_at_line_start: self.reasoning_at_line_start,
            assistant_at_line_start: self.assistant_at_line_start,
            tools: pairs(self.tools@),
            live: maybe_view(self.live),
            out: views(self.out@),
        }
    }
}

/// A renderer that has written nothing.
pub open spec fn fresh_renderer(
    show_reasoning: bool,
    color: bool,
    limits: RenderLimits,
    live: Option<LiveView>,
) -> RendererView {
    RendererView {
        color,
        limits,
        reasoning_visible: show_reasoning,
        reasoning_announced: false,
        reasoning_buffer: Seq::empty(),
        reasoning_pending: Seq::empty(),
        assistant_buffer: Seq::empty(),
        reasoning_at_line_start: true,
        assistant_at_line_start: true,
        tools: Seq::empty(),
        live,
        out: Seq::empty(),
    }
}

// ---------------------------------------------------------------------------
// Writing

/// Spans appended to the transcript.
pub open spec fn writes(spans: Seq<SpanView>) -> Seq<DrawView> {
    Seq::new(spans.len(), |i: int| DrawView::Write(spans[i]))
}

/// Appends spans to the transcript.
pub open spec fn wrote(r: RendererView, spans: Seq<SpanView>) -> RendererView {
    RendererView { out: r.out + writes(spans), ..r }
}

/// Appends a text with a color.
pub open spec fn wrote_line(r: RendererView, text: Seq<char>, tint: Tint, bold: bool) -> RendererView {
    wrote(r, seq![styled(r.color, text, tint, bold)])
}

/// The rows and the steps of a renderer that has rows.
pub open spec fn screen(r: RendererView) -> Screen {
    Screen { live: r.live->0, out: r.out }
}

/// A renderer whose rows have changed.
pub open spec fn on_screen(r: RendererView, s: Screen) -> RendererView {
    RendererView { live: Some(s.live), out: s.out, ..r }
}

/// Whether the generation spinner is shown.
pub open spec fn generating(r: RendererView) -> bool {
    r.live matches Some(live) && live.entries.contains(GENERATION_ID@)
}

/// Ends the lines that were begun.
pub open spec fn lines_ended(r: RendererView) -> RendererView {
    let a = if r.reasoning_at_line_start {
        r
    } else {
        RendererView { reasoning_at_line_start: true, ..wrote(r, seq![unstyled("\n"@)]) }
    };
    if a.assistant_at_line_start {
        a
    } else {
        RendererView { assistant_at_line_start: true, ..wrote(a, seq![unstyled("\n"@)]) }
    }
}

// ---------------------------------------------------------------------------
// Generation

/// How reasoning looks.
pub open spec fn reasoning_style() -> StreamStyle {
    StreamStyle { prefix: "  ", prefix_tint: Tint::DarkGrey, tint: Tint::DarkGrey }
}

/// How the answer looks.
pub open spec fn answer_style() -> StreamStyle {
    StreamStyle { prefix: "│ ", prefix_tint: Tint::DarkGreen, tint: Tint::Reset }
}

/// The heading of the reasoning.
pub open spec fn reasoning_heading(visible: bool) -> Seq<char> {
    if visible {
        "▾ Reasoning\n"@
    } else {
        "▸ Reasoning\n"@
    }
}

/// Shows the generation spinner.
pub open spec fn generation_started(r: RendererView) -> RendererView {
    let a = lines_ended(r);
    if a.live is Some {
        on_screen(a, row_started(reserve_rows(screen(a), 1), GENERATION_ID@, "thinking"@))
    } else {
        a
    }
}

/// Takes the generation spinner away.
pub open spec fn generation_ended(r: RendererView) -> RendererView {
    if generating(r) {
        on_screen(
            r,
            made_way(
                row_finished(row_finished(screen(r), GENERATION_CONTENT_ID@), GENERATION_ID@),
            ),
        )
    } else {
        r
    }
}

/// Changes the message of the generation spinner.
pub open spec fn generation_updated(r: RendererView, message: Seq<char>) -> RendererView {
    if r.live is Some {
        on_screen(r, row_updated(screen(r), GENERATION_ID@, message))
    } else {
        r
    }
}

/// Appends spans to the transcript above the generation spinner.
pub open spec fn committed(r: RendererView, spans: Seq<SpanView>) -> RendererView {
    if generating(r) {
        let a = wrote(on_screen(r, made_way(screen(r))), spans);
        on_screen(a, resumed(screen(a)))
    } else {
        wrote(r, spans)
    }
}

/// Whole lines of a stream.
pub open spec fn whole_lines(color: bool, style: StreamStyle, text: Seq<char>) -> Seq<SpanView> {
    let (spans, ended) = streamed(color, style, segments(text), true);
    if ended {
        spans
    } else {
        spans.push(unstyled("\n"@))
    }
}

/// Writes the heading of the reasoning above the generation spinner.
pub open spec fn reasoning_told(r: RendererView) -> RendererView {
    if r.reasoning_announced {
        r
    } else {
        committed(
            RendererView { reasoning_announced: true, ..r },
            seq![styled(r.color, reasoning_heading(r.reasoning_visible), Tint::DarkGrey, true)],
        )
    }
}

/// An unfinished line as it is shown.
pub open spec fn partial_line(
    color: bool,
    style: StreamStyle,
    pending: Seq<char>,
    width: nat,
) -> Seq<SpanView> {
    seq![
        styled(color, style.prefix@, style.prefix_tint, false),
        styled(
            color,
            fitted(pending, less(width, columns(style.prefix@) as nat)),
            style.tint,
            false,
        ),
    ]
}

/// Shows an unfinished line above the generation spinner.
pub open spec fn partial_set(r: RendererView, style: StreamStyle, pending: Seq<char>) -> RendererView {
    match r.live {
        Some(live) => on_screen(
            r,
            content_set(
                screen(r),
                if pending.len() == 0 {
                    None
                } else {
                    Some(partial_line(r.color, style, pending, live.terminal_width as nat))
                },
            ),
        ),
        None => r,
    }
}

/// Writes the unfinished line of reasoning.
pub open spec fn reasoning_flushed(r: RendererView) -> RendererView {
    if r.reasoning_pending.len() == 0 {
        r
    } else {
        committed(
            partial_set(
                RendererView { reasoning_pending: Seq::empty(), ..r },
                reasoning_style(),
                Seq::empty(),
            ),
            whole_lines(r.color, reasoning_style(), r.reasoning_pending),
        )
    }
}

/// Writes the unfinished lines.
pub open spec fn pending_flushed(r: RendererView) -> RendererView {
    if !generating(r) {
        r
    } else {
        let a = reasoning_flushed(r);
        if a.assistant_buffer.len() == 0 {
            a
        } else {
            committed(
                partial_set(
                    RendererView { assistant_buffer: Seq::empty(), ..a },
                    answer_style(),
                    Seq::empty(),
                ),
                whole_lines(a.color, answer_style(), a.assistant_buffer),
            )
        }
    }
}

/// Ends what the model was saying.
pub open spec fn settled_lines(r: RendererView) -> RendererView {
    lines_ended(generation_ended(pending_flushed(r)))
}

/// Shows a part of the reasoning.
pub open spec fn reasoning_added(given: RendererView, delta: Seq<char>) -> RendererView {
    let r = RendererView { reasoning_buffer: given.reasoning_buffer + delta, ..given };
    if generating(r) {
        let a = generation_updated(reasoning_told(r), "thinking"@);
        if a.reasoning_visible {
            let (complete, rest) = complete_lines(a.reasoning_pending + delta);
            let b = partial_set(
                RendererView { reasoning_pending: rest, ..a },
                reasoning_style(),
                rest,
            );
            if complete.len() > 0 {
                committed(b, whole_lines(b.color, reasoning_style(), complete))
            } else {
                b
            }
        } else {
            a
        }
    } else {
        let a = if r.reasoning_announced {
            r
        } else {
            RendererView {
                reasoning_announced: true,
                ..wrote_line(
                    lines_ended(r),
                    reasoning_heading(r.reasoning_visible),
                    Tint::DarkGrey,
                    true,
                )
            }
        };
        if a.reasoning_visible {
            let (spans, at) = streamed(
                a.color,
                reasoning_style(),
                segments(delta),
                a.reasoning_at_line_start,
            );
            RendererView { reasoning_at_line_start: at, ..wrote(a, spans) }
        } else {
            a
        }
    }
}

/// Shows a part of the answer.
pub open spec fn answer_added(r: RendererView, delta: Seq<char>) -> RendererView {
    if generating(r) {
        let a = generation_updated(reasoning_flushed(r), "generating"@);
        let (complete, rest) = complete_lines(a.assistant_buffer + delta);
        let b = partial_set(
            RendererView { assistant_buffer: rest, ..a },
            answer_style(),
            rest,
        );
        if complete.len() > 0 {
            committed(b, whole_lines(b.color, answer_style(), complete))
        } else {
            b
        }
    } else {
        let a = if r.reasoning_at_line_start {
            r
        } else {
            RendererView { reasoning_at_line_start: true, ..wrote(r, seq![unstyled("\n"@)]) }
        };
        let (spans, at) = streamed(
            a.color,
            answer_style(),
            segments(delta),
            a.assistant_at_line_start,
        );
        RendererView { assistant_at_line_start: at, ..wrote(a, spans) }
    }
}

// ---------------------------------------------------------------------------
// Tool calls

/// The row of a call that is running.
pub open spec fn tool_row(r: RendererView, tool: ToolView) -> Seq<char> {
    let live = r.live->0;
    live_message(tool, live.visible_lines, live.terminal_width as nat, r.color)
}

/// Shows the row of a call.
pub open spec fn tool_started(r: RendererView, id: Seq<char>) -> RendererView {
    match entry_of(r.tools, id) {
        Some(tool) => if r.live is Some {
            let a = on_screen(r, reserve_tools(screen(r), r.tools.len()));
            on_screen(a, row_started(screen(a), id, tool_row(a, tool)))
        } else {
            r
        },
        None => r,
    }
}

/// Changes the row of a call.
pub open spec fn tool_updated(r: RendererView, id: Seq<char>) -> RendererView {
    match entry_of(r.tools, id) {
        Some(tool) => if r.live is Some {
            on_screen(r, row_updated(screen(r), id, tool_row(r, tool)))
        } else {
            r
        },
        None => r,
    }
}

/// What is written first of a call that has ended: what it was asked for.
pub open spec fn call_block(
    color: bool,
    limits: RenderLimits,
    tool: ToolView,
    failed: bool,
    summary: Seq<char>,
) -> Seq<SpanView> {
    let raw = tool.arguments.text;
    let args = value_read(raw);
    let input = limited(
        input_text(tool.name, raw, args, laid_out(raw)),
        limits.tool_input_max_bytes as nat,
        8,
        false,
    );
    if tool.name == "read"@ {
        let detail = read_text(args);
        tool_header(color, tool.name, detail).push(
            completion_line(color, failed, tool.name, detail + " · "@ + summary),
        )
    } else if tool.name == "apply_patch"@ {
        tool_header(color, tool.name, Seq::empty()).push(
            completion_line(color, failed, tool.name, summary),
        ) + patch_block(
            color,
            patch_in(args),
            limits.tool_input_max_bytes as nat,
            tool.arguments.truncated,
            limits.patch_diff_max_lines as nat,
        )
    } else if tool.name == "bash"@ {
        let line = match timeout_text(args) {
            Some(timeout) => summary + " · "@ + timeout,
            None => summary,
        };
        seq![completion_line(color, failed, tool.name, line)] + command_block(
            color,
            input,
            tool.arguments.truncated,
        )
    } else {
        tool_header(color, tool.name, Seq::empty()) + section(
            color,
            "input"@,
            input,
            tool.arguments.truncated,
        )
    }
}

/// What is shown of the output of a call.
pub open spec fn shown_output(limits: RenderLimits, tool: Option<ToolView>, output: Seq<char>) ->
    LimitedView {
    let max_bytes = limits.tool_output_max_bytes as nat;
    let max_lines = limits.tool_output_max_lines as nat;
    match tool {
        Some(tool) => if tool.output.dropped || tool.output.bytes.len() > 0 {
            tail_lines(tool.output, max_lines)
        } else if tool.name == "bash"@ {
            limited(
                joined(without_blanks(without_note(without_code(lines_of(output)))), "\n"@),
                max_bytes,
                max_lines,
                true,
            )
        } else {
            limited(output, max_bytes, max_lines, false)
        },
        None => limited(output, max_bytes, max_lines, false),
    }
}

/// What is written last of a call that has ended: what it gave back.
pub open spec fn result_block(
    color: bool,
    name: Seq<char>,
    output: LimitedView,
    is_error: bool,
    failed: bool,
    summary: Seq<char>,
) -> Seq<SpanView> {
    if name == "bash"@ {
        bash_block(color, output)
    } else if name == "read"@ {
        output_block(color, output, Tint::Reset)
    } else if name == "apply_patch"@ {
        if is_error {
            output_block(color, output, Tint::DarkRed)
        } else {
            Seq::empty()
        }
    } else {
        section(color, "output"@, output, output.truncated).push(
            completion_line(color, failed, name, summary),
        )
    }
}

/// Writes a call that has ended.
pub open spec fn result_rendered(r: RendererView, id: Seq<char>, result: ToolResultView) ->
    RendererView {
    let tool = entry_of(r.tools, id);
    let name = match tool {
        Some(tool) => tool.name,
        None => "tool"@,
    };
    let code = last_code(lines_of(result.output));
    let failed = has_failed(name, result.output, result.is_error, code);
    let summary = summary_of(name, result.output, result.is_error, code);
    let a = match tool {
        Some(tool) => wrote(
            lines_ended(r),
            call_block(r.color, r.limits, tool, failed, summary),
        ),
        None => r,
    };
    RendererView {
        tools: without_entry(r.tools, id),
        ..wrote(
            a,
            result_block(
                r.color,
                name,
                shown_output(r.limits, tool, result.output),
                result.is_error,
                failed,
                summary,
            ),
        )
    }
}

/// Takes the row of a call away and writes the call to the transcript.
pub open spec fn tool_completed(r: RendererView, id: Seq<char>, result: ToolResultView) ->
    RendererView {
    if r.live is Some {
        let a = result_rendered(
            on_screen(r, made_way(row_finished(screen(r), id))),
            id,
            result,
        );
        on_screen(a, resumed(screen(a)))
    } else {
        result_rendered(r, id, result)
    }
}

// ---------------------------------------------------------------------------
// Events

/// A renderer once something has happened.
pub open spec fn rendered(r: RendererView, event: EventView) -> RendererView {
    match event {
        EventView::GenerationStart => generation_started(r),
        EventView::ReasoningDelta { delta } => reasoning_added(r, delta),
        EventView::TextDelta { delta } => answer_added(r, delta),
        EventView::ToolCallStart { id, name } => {
            let a = generation_updated(pending_flushed(r), "generating  "@ + name);
            RendererView {
                tools: with_entry(
                    a.tools,
                    id,
                    fresh_tool(
                        name,
                        a.limits.tool_input_max_bytes as nat,
                        a.limits.tool_output_max_bytes as nat,
                    ),
                ),
                ..a
            }
        },
        EventView::ToolCallArgsDelta { id, delta } => match entry_of(r.tools, id) {
            Some(tool) => RendererView {
                tools: with_entry(
                    r.tools,
                    id,
                    ToolView { arguments: with_input(tool.arguments, delta), ..tool },
                ),
                ..r
            },
            None => r,
        },
        EventView::ToolCallEnd { .. } => r,
        EventView::ToolExecutionStart { id } => tool_started(r, id),
        EventView::ToolExecutionOutput { id, delta } => {
            let a = match entry_of(r.tools, id) {
                Some(tool) => RendererView {
                    tools: with_entry(
                        r.tools,
                        id,
                        ToolView {
                            output: with_output(tool.output, vstd::utf8::encode_utf8(delta)),
                            ..tool
                        },
                    ),
                    ..r
                },
                None => r,
            };
            tool_updated(a, id)
        },
        EventView::ToolExecutionEnd { id, result } => tool_completed(r, id, result),
        EventView::Error { message } => wrote_line(
            settled_lines(r),
            "× "@ + message + "\n"@,
            Tint::DarkRed,
            true,
        ),
        EventView::Done => RendererView {
            reasoning_announced: false,
            reasoning_buffer: Seq::empty(),
            reasoning_pending: Seq::empty(),
            assistant_buffer: Seq::empty(),
            ..settled_lines(r)
        },
        EventView::Usage(_) => r,
    }
}

/// A renderer at the start of a turn.
pub open spec fn turn_begun(r: RendererView) -> RendererView {
    let a = RendererView {
        reasoning_announced: false,
        reasoning_buffer: Seq::empty(),
        reasoning_pending: Seq::empty(),
        assistant_buffer: Seq::empty(),
        tools: Seq::empty(),
        ..lines_ended(r)
    };
    if a.live is Some {
        on_screen(a, rows_cleared(screen(a)))
    } else {
        a
    }
}

/// A renderer that has written a user message.
pub open spec fn user_rendered(r: RendererView, message: Seq<char>) -> RendererView {
    let a = turn_begun(r);
    wrote(a, user_block(a.color, message))
}

/// A renderer whose reasoning is shown or hidden.
pub open spec fn reasoning_toggled(r: RendererView) -> RendererView {
    let ended = lines_ended(r);
    let a = RendererView { reasoning_visible: !r.reasoning_visible, ..ended };
    if a.reasoning_visible && a.reasoning_buffer.len() > 0 {
        let b = wrote_line(a, reasoning_heading(true), Tint::DarkGrey, true);
        let (spans, at) = streamed(b.color, reasoning_style(), segments(b.reasoning_buffer), true);
        lines_ended(RendererView { reasoning_at_line_start: at, ..wrote(b, spans) })
    } else {
        a
    }
}

/// The events that tell a block of an answer again.
pub open spec fn replayed(block: BlockView) -> Seq<EventView> {
    match block {
        BlockView::Reasoning(delta) => seq![EventView::ReasoningDelta { delta }],
        BlockView::Text(delta) => seq![EventView::TextDelta { delta }],
        BlockView::ToolCall(call) => seq![
            EventView::ToolCallStart { id: call.id, name: call.name },
            EventView::ToolCallArgsDelta { id: call.id, delta: call.arguments },
            EventView::ToolCallEnd { id: call.id },
        ],
        BlockView::ToolResult(_) => Seq::empty(),
    }
}

/// The events that tell a block of results again.
pub open spec fn replayed_result(block: BlockView) -> Seq<EventView> {
    match block {
        BlockView::ToolResult(result) => seq![
            EventView::ToolExecutionEnd { id: result.call_id, result },
        ],
        _ => Seq::empty(),
    }
}

/// The events that tell blocks again.
pub open spec fn replayed_blocks(blocks: Seq<BlockView>, results: bool) -> Seq<EventView>
    decreases blocks.len(),
{
    if blocks.len() == 0 {
        Seq::empty()
    } else {
        replayed_blocks(blocks.drop_last(), results) + (if results {
            replayed_result(blocks.last())
        } else {
            replayed(blocks.last())
        })
    }
}

/// A renderer once things have happened one after another.
pub open spec fn rendered_all(r: RendererView, events: Seq<EventView>) -> RendererView
    decreases events.len(),
{
    if events.len() == 0 {
        r
    } else {
        rendered(rendered_all(r, events.drop_last()), events.last())
    }
}

/// A renderer that has written an entry of a conversation again.
pub open spec fn item_rendered(r: RendererView, item: ItemView) -> RendererView {
    match item.role {
        Role::User => {
            let text = without_scaffolding(joined(text_parts(item.blocks), "\n"@));
            if text.len() > 0 {
                user_rendered(r, text)
            } else {
                r
            }
        },
        Role::Assistant => rendered(
            rendered_all(turn_begun(r), replayed_blocks(item.blocks, false)),
            EventView::Done,
        ),
        Role::Tool => rendered_all(r, replayed_blocks(item.blocks, true)),
        Role::System => r,
    }
}

/// A renderer that has written entries of a conversation again.
pub open spec fn items_rendered(r: RendererView, items: Seq<ItemView>) -> RendererView
    decreases items.len(),
{
    if items.len() == 0 {
        r
    } else {
        item_rendered(items_rendered(r, items.drop_last()), items.last())
    }
}

/// A renderer that has written a conversation that is taken up again.
pub open spec fn history_rendered(r: RendererView, items: Seq<ItemView>) -> RendererView {
    items_rendered(
        wrote_line(
            turn_begun(r),
            "──────── Resumed conversation ────────\n"@,
            Tint::DarkGrey,
            true,
        ),
        items,
    )
}

// ---------------------------------------------------------------------------
// The renderer

fn reasoning_look() -> (r: StreamStyle)
    ensures
        r == reasoning_style(),
{
    StreamStyle { prefix: "  ", prefix_tint: Tint::DarkGrey, tint: Tint::DarkGrey }
}

fn answer_look() -> (r: StreamStyle)
    ensures
        r == answer_style(),
{
    StreamStyle { prefix: "│ ", prefix_tint: Tint::DarkGreen, tint: Tint::Reset }
}

impl InlineRenderer {
    /// A renderer that writes plain text, with or without colors.
    pub fn new(show_reasoning: bool, color: bool) -> (r: InlineRenderer)
        ensures
            r@ == fresh_renderer(show_reasoning, color, default_limits(), None),
    {
        InlineRenderer::new_with_limits(show_reasoning, color, RenderLimits::default())
    }

    /// A renderer that shows a given part of tool calls.
    pub fn new_with_limits(show_reasoning: bool, color: bool, limits: RenderLimits) -> (r:
        InlineRenderer)
        ensures
            r@ == fresh_renderer(show_reasoning, color, limits, None),
    {
        let r = InlineRenderer {
            color,
            limits,
            reasoning_visible: show_reasoning,
            reasoning_announced: false,
            reasoning_buffer: String::new(),
            reasoning_pending: String::new(),
            assistant_buffer: String::new(),
            reasoning_at_line_start: true,
            assistant_at_line_start: true,
            tools: Vec::new(),
            live: None,
            out: Vec::new(),
        };
        assert(pairs(r.tools@) =~= Seq::empty());
        assert(views(r.out@) =~= Seq::empty());
        assert(r.reasoning_buffer@ =~= Seq::empty());
        r
    }

    /// A renderer for the standard output: on a terminal, of a size if that is
    /// known, with colors unless they are unwanted, and with rows that change.
    pub fn stdout_with_limits(
        show_reasoning: bool,
        limits: RenderLimits,
        interactive: bool,
        colors_unwanted: bool,
        size: Option<(u16, u16)>,
    ) -> (r: InlineRenderer)
        ensures
            r@ == fresh_renderer(
                show_reasoning,
                interactive && !colors_unwanted,
                limits,
                if interactive {
                    Some(fresh_live(limits.tool_live_output_lines as nat, size))
                } else {
                    None
                },
            ),
    {
        let mut r = InlineRenderer::new_with_limits(
            show_reasoning,
            interactive && !colors_unwanted,
            limits,
        );
        if interactive {
            r.live = Some(LiveTools::new(limits.tool_live_output_lines, size));
        }
        r
    }

    /// Takes the steps on the terminal that were not taken yet.
    pub fn take_draws(&mut self) -> (r: Vec<Draw>)
        ensures
            views(r@) == old(self)@.out,
            final(self)@ == (RendererView { out: Seq::empty(), ..old(self)@ }),
    {
        let mut out: Vec<Draw> = Vec::new();
        assert(views(out@) =~= Seq::empty());
        std::mem::swap(&mut out, &mut self.out);
        out
    }

    /// Takes note of the size of the terminal.
    pub fn observe_terminal(&mut self, size: Option<(u16, u16)>)
        ensures
            final(self)@ == (RendererView {
                live: match old(self)@.live {
                    Some(live) => Some(observed(live, size)),
                    None => None,
                },
                ..old(self)@
            }),
    {
        if let Some(live) = &mut self.live {
            live.observe(size);
        }
    }

    /// Whether the reasoning is shown.
    pub fn shows_reasoning(&self) -> (r: bool)
        ensures
            r == self@.reasoning_visible,
    {
        self.reasoning_visible
    }

    fn is_generating(&self) -> (r: bool)
        ensures
            r == generating(self@),
    {
        match &self.live {
            Some(live) => live.generating(),
            None => false,
        }
    }

    fn write(&mut self, spans: &Vec<Span>)
        ensures
            final(self)@ == wrote(old(self)@, views(spans@)),
    {
        let ghost given = self@;
        let ghost all = views(spans@);
        let mut i: usize = 0;
        assert(given.out + writes(all).take(0) =~= given.out);
        while i < spans.len()
            invariant
                i <= spans.len(),
                all == views(spans@),
                self@ == (RendererView { out: given.out + writes(all).take(i as int), ..given }),
            decreases spans.len() - i,
        {
            assert(all[i as int] == spans@[i as int]@);
            push_draw(&mut self.out, Draw::Write(spans[i].clone()));
            assert(self@.out =~= given.out + writes(all).take(i + 1));
            i += 1;
        }
        assert(writes(all).take(all.len() as int) =~= writes(all));
    }

    fn write_line(&mut self, text: String, tint: Tint, bold: bool)
        ensures
            final(self)@ == wrote_line(old(self)@, text@, tint, bold),
    {
        let mut spans = no_spans();
        let ghost t = text@;
        push_styled(&mut spans, self.color, text, tint, bold);
        assert(views(spans@) =~= seq![styled(self.color, t, tint, bold)]);
        self.write(&spans);
    }

    fn end_line(&mut self)
        ensures
            final(self)@ == wrote(old(self)@, seq![unstyled("\n"@)]),
    {
        let mut spans = no_spans();
        push_plain(&mut spans, "\n");
        assert(views(spans@) =~= seq![unstyled("\n"@)]);
        self.write(&spans);
    }

    fn finish_open_lines(&mut self)
        ensures
            final(self)@ == lines_ended(old(self)@),
    {
        if !self.reasoning_at_line_start {
            self.end_line();
            self.reasoning_at_line_start = true;
        }
        if !self.assistant_at_line_start {
            self.end_line();
            self.assistant_at_line_start = true;
        }
    }

    fn start_generation(&mut self)
        ensures
            final(self)@ == generation_started(old(self)@),
    {
        self.finish_open_lines();
        if let Some(live) = &mut self.live {
            live.reserve_generation(&mut self.out);
            live.start(GENERATION_ID, "thinking".to_owned(), &mut self.out);
        }
    }

    fn finish_generation(&mut self)
        ensures
            final(self)@ == generation_ended(old(self)@),
    {
        if let Some(live) = &mut self.live {
            if live.generating() {
                live.finish(GENERATION_CONTENT_ID, &mut self.out);
                live.finish(GENERATION_ID, &mut self.out);
                live.restore_for_commit(&mut self.out);
            }
        }
    }

    fn update_generation_message(&mut self, message: String)
        ensures
            final(self)@ == generation_updated(old(self)@, message@),
    {
        if let Some(live) = &self.live {
            live.update(GENERATION_ID, message, &mut self.out);
        }
    }

    fn commit(&mut self, spans: &Vec<Span>)
        ensures
            final(self)@ == committed(old(self)@, views(spans@)),
    {
        let active = self.is_generating();
        if active {
            if let Some(live) = &mut self.live {
                live.restore_for_commit(&mut self.out);
            }
        }
        self.write(spans);
        if active {
            if let Some(live) = &mut self.live {
                live.resume_after_commit(&mut self.out);
            }
        }
    }

    fn announce_generation_reasoning(&mut self)
        ensures
            final(self)@ == reasoning_told(old(self)@),
    {
        if self.reasoning_announced {
            return;
        }
        self.reasoning_announced = true;
        let heading = if self.reasoning_visible {
            "▾ Reasoning\n"
        } else {
            "▸ Reasoning\n"
        };
        let mut spans = no_spans();
        push_styled(&mut spans, self.color, heading.to_owned(), Tint::DarkGrey, true);
        assert(views(spans@) =~= seq![
            styled(self.color, reasoning_heading(self.reasoning_visible), Tint::DarkGrey, true),
        ]);
        self.commit(&spans);
    }

    fn set_generation_partial(&mut self, style: StreamStyle, pending: &str)
        ensures
            final(self)@ == partial_set(old(self)@, style, pending@),
    {
        let color = self.color;
        if let Some(live) = &mut self.live {
            if pending.is_empty() {
                live.set_generation_content(None, &mut self.out);
                return;
            }
            let width: usize = live.terminal_width as usize;
            let available: usize = minus(width, width_of(style.prefix));
            let mut spans = no_spans();
            push_styled(&mut spans, color, style.prefix.to_owned(), style.prefix_tint, false);
            push_styled(&mut spans, color, fit_line(pending, available), style.tint, false);
            assert(views(spans@) =~= partial_line(color, style, pending@, width as nat));
            live.set_generation_content(Some(spans), &mut self.out);
        }
    }

    fn commit_generation_text(&mut self, style: StreamStyle, text: &str)
        ensures
            final(self)@ == committed(old(self)@, whole_lines(old(self)@.color, style, text@)),
    {
        let mut spans = no_spans();
        let ended = append_stream(&mut spans, self.color, style, text, true);
        assert(views(spans@) =~= streamed(self.color, style, segments(text@), true).0);
        if !ended {
            push_plain(&mut spans, "\n");
        }
        self.commit(&spans);
    }

    fn flush_generation_reasoning(&mut self)
        ensures
            final(self)@ == reasoning_flushed(old(self)@),
    {
        if self.reasoning_pending.as_str().is_empty() {
            return;
        }
        let mut pending = String::new();
        assert(pending@ =~= Seq::empty());
        std::mem::swap(&mut pending, &mut self.reasoning_pending);
        let nothing = String::new();
        assert(nothing@ =~= Seq::empty());
        self.set_generation_partial(reasoning_look(), &nothing);
        self.commit_generation_text(reasoning_look(), &pending);
    }

    fn flush_generation_pending(&mut self)
        ensures
            final(self)@ == pending_flushed(old(self)@),
    {
        if !self.is_generating() {
            return;
        }
        self.flush_generation_reasoning();
        if self.assistant_buffer.as_str().is_empty() {
            return;
        }
        let mut pending = String::new();
        assert(pending@ =~= Seq::empty());
        std::mem::swap(&mut pending, &mut self.assistant_buffer);
        let nothing = String::new();
        assert(nothing@ =~= Seq::empty());
        self.set_generation_partial(answer_look(), &nothing);
        self.commit_generation_text(answer_look(), &pending);
    }

    fn settle(&mut self)
        ensures
            final(self)@ == settled_lines(old(self)@),
    {
        self.flush_generation_pending();
        self.finish_generation();
        self.finish_open_lines();
    }

    fn reasoning_delta(&mut self, delta: &str)
        ensures
            final(self)@ == reasoning_added(old(self)@, delta@),
    {
        self.reasoning_buffer.append(delta);
        if self.is_generating() {
            self.announce_generation_reasoning();
            self.update_generation_message("thinking".to_owned());
            if self.reasoning_visible {
                self.reasoning_pending.append(delta);
                let complete = take_complete_lines(&mut self.reasoning_pending);
                let pending = self.reasoning_pending.clone();
                self.set_generation_partial(reasoning_look(), &pending);
                if !complete.as_str().is_empty() {
                    self.commit_generation_text(reasoning_look(), &complete);
                }
            }
            return;
        }
        if !self.reasoning_announced {
            self.finish_open_lines();
            let heading = if self.reasoning_visible {
                "▾ Reasoning\n"
            } else {
                "▸ Reasoning\n"
            };
            self.write_line(heading.to_owned(), Tint::DarkGrey, true);
            self.reasoning_announced = true;
        }
        if self.reasoning_visible {
            let mut spans = no_spans();
            let at = append_stream(
                &mut spans,
                self.color,
                reasoning_look(),
                delta,
                self.reasoning_at_line_start,
            );
            assert(views(spans@) =~= streamed(
                self.color,
                reasoning_style(),
                segments(delta@),
                self.reasoning_at_line_start,
            ).0);
            self.write(&spans);
            self.reasoning_at_line_start = at;
        }
    }

    fn assistant_delta(&mut self, delta: &str)
        ensures
            final(self)@ == answer_added(old(self)@, delta@),
    {
        if self.is_generating() {
            self.flush_generation_reasoning();
            self.update_generation_message("generating".to_owned());
            self.assistant_buffer.append(delta);
            let complete = take_complete_lines(&mut self.assistant_buffer);
            let pending = self.assistant_buffer.clone();
            self.set_generation_partial(answer_look(), &pending);
            if !complete.as_str().is_empty() {
                self.commit_generation_text(answer_look(), &complete);
            }
            return;
        }
        if !self.reasoning_at_line_start {
            self.end_line();
            self.reasoning_at_line_start = true;
        }
        let mut spans = no_spans();
        let at = append_stream(
            &mut spans,
            self.color,
            answer_look(),
            delta,
            self.assistant_at_line_start,
        );
        assert(views(spans@) =~= streamed(
            self.color,
            answer_style(),
            segments(delta@),
            self.assistant_at_line_start,
        ).0);
        self.write(&spans);
        self.assistant_at_line_start = at;
    }

    fn start_live_tool(&mut self, id: &str)
        ensures
            final(self)@ == tool_started(old(self)@, id@),
    {
        let count: usize = self.tools.len();
        assert(pairs(self.tools@).len() == count);
        let color = self.color;
        if let Some(i) = find_key(&self.tools, id) {
            assert(pairs(self.tools@)[i as int].1 == self.tools@[i as int].1@);
            if let Some(live) = &mut self.live {
                live.reserve(count, &mut self.out);
                let message = live_tool_message(
                    &self.tools[i].1,
                    live.visible_lines,
                    live.terminal_width as usize,
                    color,
                );
                live.start(id, message, &mut self.out);
            }
        }
    }

    fn update_live_tool(&mut self, id: &str)
        ensures
            final(self)@ == tool_updated(old(self)@, id@),
    {
        if let Some(i) = find_key(&self.tools, id) {
            assert(pairs(self.tools@)[i as int].1 == self.tools@[i as int].1@);
            if let Some(live) = &self.live {
                let message = live_tool_message(
                    &self.tools[i].1,
                    live.visible_lines,
                    live.terminal_width as usize,
                    self.color,
                );
                live.update(id, message, &mut self.out);
            }
        }
    }

    fn render_tool_result(&mut self, id: &str, result: &ToolResult)
        ensures
            final(self)@ == result_rendered(old(self)@, id@, result@),
    {
        let found = find_key(&self.tools, id);
        let name = match found {
            Some(i) => self.tools[i].1.name.clone(),
            None => "tool".to_owned(),
        };
        let exit_code = parse_exit_code(&result.output);
        let failed = is_failed(&name, &result.output, result.is_error, exit_code);
        let summary = tool_summary(&name, &result.output, result.is_error, exit_code);
        let mut spans = no_spans();
        let output = match found {
            Some(i) => {
                assert(pairs(self.tools@)[i as int].1 == self.tools@[i as int].1@);
                let block = render_tool_input(
                    self.color,
                    &self.limits,
                    &self.tools[i].1,
                    failed,
                    &summary,
                );
                let output = tool_output(&self.limits, Some(&self.tools[i].1), &result.output);
                self.finish_open_lines();
                self.write(&block);
                output
            },
            None => tool_output(&self.limits, None, &result.output),
        };
        render_result(
            &mut spans,
            self.color,
            &name,
            &output,
            result.is_error,
            failed,
            &summary,
        );
        self.write(&spans);
        remove_entries(&mut self.tools, id);
    }

    fn render_completed_tool(&mut self, id: &str, result: &ToolResult)
        ensures
            final(self)@ == tool_completed(old(self)@, id@, result@),
    {
        let has_live = self.live.is_some();
        if let Some(live) = &mut self.live {
            live.finish(id, &mut self.out);
            live.restore_for_commit(&mut self.out);
        }
        self.render_tool_result(id, result);
        if has_live {
            if let Some(live) = &mut self.live {
                live.resume_after_commit(&mut self.out);
            }
        }
    }
}

fn render_tool_input(
    color: bool,
    limits: &RenderLimits,
    tool: &ToolDisplay,
    failed: bool,
    summary: &str,
) -> (r: Vec<Span>)
    ensures
        views(r@) == call_block(color, *limits, tool@, failed, summary@),
{
    let mut spans = no_spans();
    let raw = &tool.arguments.text;
    let truncated = tool.arguments.truncated;
    let ghost whole = call_block(color, *limits, tool@, failed, summary@);
    if same(&tool.name, "read") {
        let detail = read_detail(raw);
        write_tool_header(&mut spans, color, &tool.name, &detail);
        write_tool_completion(
            &mut spans,
            color,
            failed,
            &tool.name,
            &detail.concat(" · ").concat(summary),
        );
    } else if same(&tool.name, "apply_patch") {
        let nothing = String::new();
        assert(nothing@ =~= Seq::empty());
        write_tool_header(&mut spans, color, &tool.name, &nothing);
        write_tool_completion(&mut spans, color, failed, &tool.name, summary);
        render_patch_operations(
            &mut spans,
            color,
            &patch_in_arguments(raw),
            limits.tool_input_max_bytes,
            truncated,
            limits.patch_diff_max_lines,
        );
    } else if same(&tool.name, "bash") {
        let line = match bash_timeout_label(raw) {
            Some(timeout) => summary.to_owned().concat(" · ").concat(&timeout),
            None => summary.to_owned(),
        };
        write_tool_completion(&mut spans, color, failed, &tool.name, &line);
        let input = limited_text(
            &format_tool_input(&tool.name, raw),
            limits.tool_input_max_bytes,
            8,
            false,
        );
        render_bash_command(&mut spans, color, &input, truncated);
    } else {
        let nothing = String::new();
        assert(nothing@ =~= Seq::empty());
        write_tool_header(&mut spans, color, &tool.name, &nothing);
        let input = limited_text(
            &format_tool_input(&tool.name, raw),
            limits.tool_input_max_bytes,
            8,
            false,
        );
        render_section(&mut spans, color, "input", &input, truncated);
    }
    assert(views(spans@) =~= whole);
    spans
}

/// The model of an optional reference to a call.
pub open spec fn seen_tool(tool: Option<&ToolDisplay>) -> Option<ToolView> {
    match tool {
        Some(tool) => Some(tool@),
        None => None,
    }
}

fn tool_output(limits: &RenderLimits, tool: Option<&ToolDisplay>, output: &str) -> (r: LimitedText)
    ensures
        r@ == shown_output(*limits, seen_tool(tool), output@),
{
    match tool {
        Some(tool) => if tool.output.is_written() {
            tool.output.limited(limits.tool_output_max_lines)
        } else if same(&tool.name, "bash") {
            limited_text(
                &bash_visible_output(output),
                limits.tool_output_max_bytes,
                limits.tool_output_max_lines,
                true,
            )
        } else {
            limited_text(
                output,
                limits.tool_output_max_bytes,
                limits.tool_output_max_lines,
                false,
            )
        },
        None => limited_text(
            output,
            limits.tool_output_max_bytes,
            limits.tool_output_max_lines,
            false,
        ),
    }
}

fn render_result(
    spans: &mut Vec<Span>,
    color: bool,
    name: &str,
    output: &LimitedText,
    is_error: bool,
    failed: bool,
    summary: &str,
)
    ensures
        views(final(spans)@) == views(old(spans)@) + result_block(
            color,
            name@,
            output@,
            is_error,
            failed,
            summary@,
        ),
{
    let ghost given = views(spans@);
    let ghost whole = result_block(color, name@, output@, is_error, failed, summary@);
    if same(name, "bash") {
        render_bash_output(spans, color, output);
    } else if same(name, "read") {
        render_direct_output(spans, color, output, Tint::Reset);
    } else if same(name, "apply_patch") {
        if is_error {
            render_direct_output(spans, color, output, Tint::DarkRed);
        }
    } else {
        render_section(spans, color, "output", output, output.truncated);
        write_tool_completion(spans, color, failed, name, summary);
    }
    assert(views(spans@) =~= given + whole);
}

impl InlineRenderer {
    /// Shows what has happened.
    pub fn render_event(&mut self, event: &StreamEvent)
        ensures
            final(self)@ == rendered(old(self)@, event@),
    {
        match event {
            StreamEvent::GenerationStart => self.start_generation(),
            StreamEvent::ReasoningDelta { delta } => self.reasoning_delta(delta),
            StreamEvent::TextDelta { delta } => self.assistant_delta(delta),
            StreamEvent::ToolCallStart { id, name } => {
                self.flush_generation_pending();
                self.update_generation_message("generating  ".to_owned().concat(name));
                let tool = ToolDisplay::new(
                    name,
                    self.limits.tool_input_max_bytes,
                    self.limits.tool_output_max_bytes,
                );
                set_entry(&mut self.tools, id, tool);
            },
            StreamEvent::ToolCallArgsDelta { id, delta } => {
                if let Some(i) = find_key(&self.tools, id) {
                    self.change_tool(i, id, delta, true);
                }
            },
            StreamEvent::ToolCallEnd { .. } => {},
            StreamEvent::ToolExecutionStart { id } => self.start_live_tool(id),
            StreamEvent::ToolExecutionOutput { id, delta } => {
                if let Some(i) = find_key(&self.tools, id) {
                    self.change_tool(i, id, delta, false);
                }
                self.update_live_tool(id);
            },
            StreamEvent::ToolExecutionEnd { id, result } => {
                self.render_completed_tool(id, result);
            },
            StreamEvent::Error { message } => {
                self.settle();
                self.write_line(
                    "× ".to_owned().concat(message).concat("\n"),
                    Tint::DarkRed,
                    true,
                );
            },
            StreamEvent::Done => {
                self.settle();
                self.reasoning_announced = false;
                self.forget_answer();
            },
            StreamEvent::Usage(_) => {},
        }
    }

    fn change_tool(&mut self, i: usize, id: &str, delta: &str, input: bool)
        requires
            key_at(old(self)@.tools, id@, 0) == Some(i as int),
            i < old(self)@.tools.len(),
        ensures
            ({
                let tool = old(self)@.tools[i as int].1;
                final(self)@ == (RendererView {
                    tools: with_entry(
                        old(self)@.tools,
                        id@,
                        if input {
                            ToolView { arguments: with_input(tool.arguments, delta@), ..tool }
                        } else {
                            ToolView {
                                output: with_output(
                                    tool.output,
                                    vstd::utf8::encode_utf8(delta@),
                                ),
                                ..tool
                            }
                        },
                    ),
                    ..old(self)@
                })
            }),
    {
        let ghost all = pairs(self.tools@);
        assert(all.len() == self.tools@.len());
        proof {
            lemma_key_at(all, id@, 0);
        }
        let (key, mut tool) = self.tools.remove(i);
        assert(all[i as int] == (key@, tool@));
        if input {
            tool.arguments.push(delta);
        } else {
            tool.output.push(delta.as_bytes());
        }
        let ghost changed = tool@;
        self.tools.insert(i, (key, tool));
        assert(pairs(self.tools@) =~= all.update(i as int, (id@, changed)));
    }

    fn forget_answer(&mut self)
        ensures
            final(self)@ == (RendererView {
                reasoning_buffer: Seq::empty(),
                reasoning_pending: Seq::empty(),
                assistant_buffer: Seq::empty(),
                ..old(self)@
            }),
    {
        self.reasoning_buffer = String::new();
        self.reasoning_pending = String::new();
        self.assistant_buffer = String::new();
        assert(self.reasoning_buffer@ =~= Seq::empty());
    }

    /// Begins a turn: nothing is left open or running.
    pub fn begin_turn(&mut self)
        ensures
            final(self)@ == turn_begun(old(self)@),
    {
        self.finish_open_lines();
        self.reasoning_announced = false;
        self.forget_answer();
        self.tools = Vec::new();
        assert(pairs(self.tools@) =~= Seq::empty());
        if let Some(live) = &mut self.live {
            live.clear(&mut self.out);
        }
    }

    /// Shows a user message.
    pub fn render_user(&mut self, message: &str)
        ensures
            final(self)@ == user_rendered(old(self)@, message@),
    {
        self.begin_turn();
        let mut spans = no_spans();
        write_user_block(&mut spans, self.color, message);
        assert(views(spans@) =~= user_block(self.color, message@));
        self.write(&spans);
    }

    /// Lists what a rewind would do to each file, one line per path, using the
    /// same colors as a patch block so the plan reads at a glance.
    pub fn render_revert_plan(&mut self, lines: &Vec<RevertLine>)
        ensures
            final(self)@ == wrote(
                settled_lines(old(self)@),
                revert_plan(old(self)@.color, views(lines@)),
            ),
    {
        self.settle();
        let mut spans = no_spans();
        write_revert_plan(&mut spans, self.color, lines);
        assert(views(spans@) =~= revert_plan(self.color, views(lines@)));
        proof {
            lemma_color_kept(old(self)@);
        }
        self.write(&spans);
    }

    /// Shows a message of the program itself.
    pub fn render_status(&mut self, message: &str)
        ensures
            final(self)@ == wrote_line(
                settled_lines(old(self)@),
                "· "@ + message@ + "\n"@,
                Tint::DarkGrey,
                false,
            ),
    {
        self.settle();
        self.write_line("· ".to_owned().concat(message).concat("\n"), Tint::DarkGrey, false);
    }

    /// Shows a labelled spinner while something is being awaited. It is the
    /// generation spinner, so nothing is drawn when the output is no terminal
    /// and nothing reaches the scrollback either way.
    pub fn begin_transient(&mut self, label: &str)
        ensures
            final(self)@ == generation_updated(generation_started(old(self)@), label@),
    {
        self.start_generation();
        self.update_generation_message(label.to_owned());
    }

    /// Takes that spinner away.
    pub fn end_transient(&mut self)
        ensures
            final(self)@ == generation_ended(old(self)@),
    {
        self.finish_generation();
    }

    /// Shows or hides the reasoning; says whether it is shown now.
    pub fn toggle_reasoning(&mut self) -> (r: bool)
        ensures
            final(self)@ == reasoning_toggled(old(self)@),
            r == !old(self)@.reasoning_visible,
    {
        self.finish_open_lines();
        self.reasoning_visible = !self.reasoning_visible;
        if self.reasoning_visible && !self.reasoning_buffer.as_str().is_empty() {
            self.write_line("▾ Reasoning\n".to_owned(), Tint::DarkGrey, true);
            let mut spans = no_spans();
            let at = append_stream(
                &mut spans,
                self.color,
                reasoning_look(),
                &self.reasoning_buffer,
                true,
            );
            assert(views(spans@) =~= streamed(
                self.color,
                reasoning_style(),
                segments(self.reasoning_buffer@),
                true,
            ).0);
            self.write(&spans);
            self.reasoning_at_line_start = at;
            self.finish_open_lines();
        }
        self.reasoning_visible
    }

    fn render_events(&mut self, events: &Vec<StreamEvent>)
        ensures
            final(self)@ == rendered_all(old(self)@, views(events@)),
    {
        let ghost given = self@;
        let ghost all = views(events@);
        let mut i: usize = 0;
        assert(all.take(0) =~= Seq::empty());
        while i < events.len()
            invariant
                i <= events.len(),
                all == views(events@),
                self@ == rendered_all(given, all.take(i as int)),
            decreases events.len() - i,
        {
            assert(all.take(i + 1).drop_last() =~= all.take(i as int));
            assert(all.take(i + 1).last() == events@[i as int]@);
            self.render_event(&events[i]);
            i += 1;
        }
        assert(all.take(all.len() as int) =~= all);
    }

    fn render_item(&mut self, item: &ConversationItem)
        ensures
            final(self)@ == item_rendered(old(self)@, item@),
    {
        match item.role {
            Role::User => {
                let text = without_request_scaffolding(&join(&texts_in(&item.blocks), "\n"));
                if !text.as_str().is_empty() {
                    self.render_user(&text);
                }
            },
            Role::Assistant => {
                self.begin_turn();
                self.render_events(&replay_blocks(&item.blocks, false));
                self.render_event(&StreamEvent::Done);
            },
            Role::Tool => self.render_events(&replay_blocks(&item.blocks, true)),
            Role::System => {},
        }
    }

    /// Shows a conversation that is taken up again.
    pub fn render_resumed_history(&mut self, items: &Vec<ConversationItem>)
        ensures
            final(self)@ == history_rendered(old(self)@, views(items@)),
    {
        self.begin_turn();
        self.write_line(
            "──────── Resumed conversation ────────\n".to_owned(),
            Tint::DarkGrey,
            true,
        );
        let ghost given = self@;
        let ghost all = views(items@);
        let mut i: usize = 0;
        assert(all.take(0) =~= Seq::empty());
        while i < items.len()
            invariant
                i <= items.len(),
                all == views(items@),
                self@ == items_rendered(given, all.take(i as int)),
            decreases items.len() - i,
        {
            assert(all.take(i + 1).drop_last() =~= all.take(i as int));
            assert(all.take(i + 1).last() == items@[i as int]@);
            self.render_item(&items[i]);
            i += 1;
        }
        assert(all.take(all.len() as int) =~= all);
    }
}

proof fn lemma_color_kept(r: RendererView)
    ensures
        settled_lines(r).color == r.color,
{
}

fn replay_block(events: &mut Vec<StreamEvent>, block: &ContentBlock, results: bool)
    ensures
        views(final(events)@) == views(old(events)@) + (if results {
            replayed_result(block@)
        } else {
            replayed(block@)
        }),
{
    broadcast use lemma_views_push;

    let ghost given = views(events@);
    match block {
        ContentBlock::Reasoning(delta) => {
            if !results {
                events.push(StreamEvent::ReasoningDelta { delta: delta.clone() });
            }
        },
        ContentBlock::Text(delta) => {
            if !results {
                events.push(StreamEvent::TextDelta { delta: delta.clone() });
            }
        },
        ContentBlock::ToolCall(call) => {
            if !results {
                events.push(
                    StreamEvent::ToolCallStart { id: call.id.clone(), name: call.name.clone() },
                );
                events.push(
                    StreamEvent::ToolCallArgsDelta {
                        id: call.id.clone(),
                        delta: call.arguments.clone(),
                    },
                );
                events.push(StreamEvent::ToolCallEnd { id: call.id.clone() });
            }
        },
        ContentBlock::ToolResult(result) => {
            if results {
                events.push(
                    StreamEvent::ToolExecutionEnd {
                        id: result.call_id.clone(),
                        result: result.clone(),
                    },
                );
            }
        },
    }
    assert(views(events@) =~= given + (if results {
        replayed_result(block@)
    } else {
        replayed(block@)
    }));
}

fn replay_blocks(blocks: &Vec<ContentBlock>, results: bool) -> (r: Vec<StreamEvent>)
    ensures
        views(r@) == replayed_blocks(views(blocks@), results),
{
    let ghost all = views(blocks@);
    let mut events: Vec<StreamEvent> = Vec::new();
    assert(views(events@) =~= Seq::empty());
    let mut i: usize = 0;
    assert(all.take(0) =~= Seq::empty());
    while i < blocks.len()
        invariant
            i <= blocks.len(),
            all == views(blocks@),
            views(events@) == replayed_blocks(all.take(i as int), results),
        decreases blocks.len() - i,
    {
        assert(all.take(i + 1).drop_last() =~= all.take(i as int));
        assert(all.take(i + 1).last() == blocks@[i as int]@);
        replay_block(&mut events, &blocks[i], results);
        i += 1;
    }
    assert(all.take(all.len() as int) =~= all);
    events
}

} // verus!
