//! What holds of the transcript whatever happens.
use vstd::prelude::*;

use crate::json::value_read;
use crate::model::{BlockView, EventView, ItemView, Role, ToolResultView, text_parts};
use crate::table::{entry_of, law_with_entry, law_without_entry};
use crate::text::{begins, ends, joined, lines_of};
use crate::tui::blocks::{
    StreamStyle, completion_line, law_stream_reads_as_its_text, segments, streamed, tool_header,
    user_block, woven,
};
use crate::tui::live::{
    DrawView, GENERATION_CONTENT_ID, GENERATION_ID, LiveView, Screen, ToolView, content_set,
    fresh_tool, made_way, reserve_rows, reserve_tools, resumed, row_finished, row_started,
    row_updated, rows_cleared, shared_lines, usable_rows, without_row,
};
use crate::tui::render::{
    RenderLimits, RendererView, answer_added, answer_style, call_block, committed, generating,
    generation_ended, generation_started, generation_updated, history_rendered, item_rendered,
    items_rendered, lines_ended, on_screen, partial_line, partial_set, pending_flushed,
    reasoning_added, reasoning_flushed, reasoning_heading, reasoning_style, reasoning_toggled,
    reasoning_told, rendered, rendered_all, replayed_blocks, result_block, result_rendered, screen,
    settled_lines, shown_output, tool_completed, tool_row, turn_begun, user_rendered, whole_lines,
    writes, wrote, wrote_line,
};
use crate::tui::style::{SpanView, Tint, spans_text, styled, unstyled};
use crate::tui::tool_text::{
    complete_lines, has_failed, last_code, law_complete_lines_end_with_a_line_feed, limited,
    read_text, summary_of, tail_lines, timeout_text, with_input, with_output, without_blanks,
    without_code, without_note, without_scaffolding,
};

verus! {

/// Whether steps go on from others: nothing that was done is undone or changed.
pub open spec fn goes_on(before: Seq<DrawView>, after: Seq<DrawView>) -> bool {
    &&& before.len() <= after.len()
    &&& forall|i: int| 0 <= i < before.len() ==> before[i] == #[trigger] after[i]
}

proof fn lemma_goes_on(a: Seq<DrawView>, b: Seq<DrawView>, c: Seq<DrawView>)
    requires
        goes_on(a, b),
        goes_on(b, c),
    ensures
        goes_on(a, c),
{
    assert forall|i: int| 0 <= i < a.len() implies a[i] == #[trigger] c[i] by {
        assert(b[i] == c[i]);
    }
}

proof fn lemma_reserved(s: Screen, rows: u16, tools: nat)
    ensures
        goes_on(s.out, reserve_rows(s, rows).out),
        goes_on(s.out, reserve_tools(s, tools).out),
{
}

proof fn lemma_rows(s: Screen, id: Seq<char>, message: Seq<char>)
    ensures
        goes_on(s.out, row_updated(s, id, message).out),
        goes_on(s.out, row_started(s, id, message).out),
        goes_on(s.out, row_finished(s, id).out),
        goes_on(s.out, made_way(s).out),
        goes_on(s.out, rows_cleared(s).out),
{
    let emptied = Screen {
        live: LiveView { entries: Seq::empty(), ..s.live },
        out: s.out.push(DrawView::StopAll),
    };
    assert(goes_on(s.out, emptied.out));
    assert(goes_on(emptied.out, made_way(emptied).out));
    lemma_goes_on(s.out, emptied.out, made_way(emptied).out);
}

proof fn lemma_resumed(s: Screen)
    ensures
        goes_on(s.out, resumed(s).out),
{
    lemma_reserved(s, 1, s.live.entries.len());
    lemma_reserved(s, 2, s.live.entries.len());
}

proof fn lemma_content(s: Screen, content: Option<Seq<SpanView>>)
    ensures
        goes_on(s.out, content_set(s, content).out),
{
    lemma_rows(s, GENERATION_CONTENT_ID@, Seq::empty());
    match content {
        Some(spans) => {
            let way = made_way(s);
            let shown = Screen {
                live: LiveView {
                    entries: way.live.entries.push(GENERATION_CONTENT_ID@),
                    ..way.live
                },
                out: way.out.push(DrawView::Content(spans)),
            };
            assert(goes_on(way.out, shown.out));
            lemma_goes_on(s.out, way.out, shown.out);
            lemma_resumed(shown);
            lemma_goes_on(s.out, shown.out, resumed(shown).out);
        },
        None => {
            let a = row_finished(s, GENERATION_CONTENT_ID@);
            lemma_rows(a, GENERATION_CONTENT_ID@, Seq::empty());
            lemma_goes_on(s.out, a.out, made_way(a).out);
            lemma_resumed(made_way(a));
            lemma_goes_on(s.out, made_way(a).out, resumed(made_way(a)).out);
        },
    }
}

proof fn lemma_wrote(r: RendererView, spans: Seq<SpanView>)
    ensures
        goes_on(r.out, wrote(r, spans).out),
{
}

proof fn lemma_lines_ended(r: RendererView)
    ensures
        goes_on(r.out, lines_ended(r).out),
{
    lemma_wrote(r, seq![unstyled("\n"@)]);
    let a = RendererView { reasoning_at_line_start: true, ..wrote(r, seq![unstyled("\n"@)]) };
    lemma_wrote(a, seq![unstyled("\n"@)]);
    lemma_goes_on(r.out, a.out, wrote(a, seq![unstyled("\n"@)]).out);
}

proof fn lemma_committed(r: RendererView, spans: Seq<SpanView>)
    ensures
        goes_on(r.out, committed(r, spans).out),
{
    lemma_wrote(r, spans);
    if generating(r) {
        let way = on_screen(r, made_way(screen(r)));
        lemma_rows(screen(r), Seq::empty(), Seq::empty());
        let a = wrote(way, spans);
        lemma_wrote(way, spans);
        lemma_goes_on(r.out, way.out, a.out);
        lemma_resumed(screen(a));
        lemma_goes_on(r.out, a.out, resumed(screen(a)).out);
    }
}

proof fn lemma_partial(r: RendererView, style: StreamStyle, pending: Seq<char>)
    ensures
        goes_on(r.out, partial_set(r, style, pending).out),
{
    if let Some(live) = r.live {
        lemma_content(
            screen(r),
            if pending.len() == 0 {
                None
            } else {
                Some(partial_line(r.color, style, pending, live.terminal_width as nat))
            },
        );
    }
}

proof fn lemma_generation(r: RendererView, message: Seq<char>)
    ensures
        goes_on(r.out, generation_started(r).out),
        goes_on(r.out, generation_ended(r).out),
        goes_on(r.out, generation_updated(r, message).out),
{
    let a = lines_ended(r);
    lemma_lines_ended(r);
    if a.live is Some {
        let b = reserve_rows(screen(a), 1);
        lemma_reserved(screen(a), 1, 0);
        lemma_rows(b, GENERATION_ID@, "thinking"@);
        lemma_goes_on(a.out, b.out, row_started(b, GENERATION_ID@, "thinking"@).out);
        lemma_goes_on(r.out, a.out, row_started(b, GENERATION_ID@, "thinking"@).out);
    }
    if generating(r) {
        let b = row_finished(screen(r), GENERATION_CONTENT_ID@);
        let c = row_finished(b, GENERATION_ID@);
        lemma_rows(screen(r), GENERATION_CONTENT_ID@, message);
        lemma_rows(b, GENERATION_ID@, message);
        lemma_rows(c, GENERATION_ID@, message);
        lemma_goes_on(r.out, b.out, c.out);
        lemma_goes_on(r.out, c.out, made_way(c).out);
    }
    if r.live is Some {
        lemma_rows(screen(r), GENERATION_ID@, message);
    }
}

proof fn lemma_flushed(r: RendererView)
    ensures
        goes_on(r.out, reasoning_flushed(r).out),
        goes_on(r.out, pending_flushed(r).out),
        goes_on(r.out, settled_lines(r).out),
{
    let empty = Seq::<char>::empty();
    let a = RendererView { reasoning_pending: empty, ..r };
    let b = partial_set(a, reasoning_style(), empty);
    let spans = whole_lines(r.color, reasoning_style(), r.reasoning_pending);
    lemma_partial(a, reasoning_style(), empty);
    lemma_committed(b, spans);
    lemma_goes_on(r.out, b.out, committed(b, spans).out);
    let c = reasoning_flushed(r);
    let d = RendererView { assistant_buffer: empty, ..c };
    let e = partial_set(d, answer_style(), empty);
    let more = whole_lines(c.color, answer_style(), c.assistant_buffer);
    lemma_partial(d, answer_style(), empty);
    lemma_committed(e, more);
    lemma_goes_on(c.out, e.out, committed(e, more).out);
    lemma_goes_on(r.out, c.out, committed(e, more).out);
    let f = pending_flushed(r);
    assert(goes_on(r.out, f.out));
    lemma_generation(f, empty);
    lemma_goes_on(r.out, f.out, generation_ended(f).out);
    lemma_lines_ended(generation_ended(f));
    lemma_goes_on(r.out, generation_ended(f).out, lines_ended(generation_ended(f)).out);
}

proof fn lemma_reasoning(given: RendererView, delta: Seq<char>)
    ensures
        goes_on(given.out, reasoning_added(given, delta).out),
{
    let r = RendererView { reasoning_buffer: given.reasoning_buffer + delta, ..given };
    if generating(r) {
        let told = reasoning_told(r);
        if !r.reasoning_announced {
            lemma_committed(
                RendererView { reasoning_announced: true, ..r },
                seq![
                    styled(r.color, reasoning_heading(r.reasoning_visible), Tint::DarkGrey, true),
                ],
            );
        }
        assert(goes_on(r.out, told.out));
        let a = generation_updated(told, "thinking"@);
        lemma_generation(told, "thinking"@);
        lemma_goes_on(r.out, told.out, a.out);
        if a.reasoning_visible {
            let (complete, rest) = complete_lines(a.reasoning_pending + delta);
            let held = RendererView { reasoning_pending: rest, ..a };
            let b = partial_set(held, reasoning_style(), rest);
            lemma_partial(held, reasoning_style(), rest);
            lemma_goes_on(r.out, a.out, b.out);
            let spans = whole_lines(b.color, reasoning_style(), complete);
            lemma_committed(b, spans);
            lemma_goes_on(r.out, b.out, committed(b, spans).out);
        }
    } else {
        let ended = lines_ended(r);
        let heading = reasoning_heading(r.reasoning_visible);
        let headed = wrote_line(ended, heading, Tint::DarkGrey, true);
        lemma_lines_ended(r);
        lemma_wrote(ended, seq![styled(ended.color, heading, Tint::DarkGrey, true)]);
        lemma_goes_on(r.out, ended.out, headed.out);
        let a = if r.reasoning_announced {
            r
        } else {
            RendererView { reasoning_announced: true, ..headed }
        };
        assert(goes_on(r.out, a.out));
        let (spans, at) = streamed(
            a.color,
            reasoning_style(),
            segments(delta),
            a.reasoning_at_line_start,
        );
        lemma_wrote(a, spans);
        lemma_goes_on(r.out, a.out, wrote(a, spans).out);
    }
}

proof fn lemma_answer(r: RendererView, delta: Seq<char>)
    ensures
        goes_on(r.out, answer_added(r, delta).out),
{
    if generating(r) {
        let flushed = reasoning_flushed(r);
        lemma_flushed(r);
        let a = generation_updated(flushed, "generating"@);
        lemma_generation(flushed, "generating"@);
        lemma_goes_on(r.out, flushed.out, a.out);
        let (complete, rest) = complete_lines(a.assistant_buffer + delta);
        let held = RendererView { assistant_buffer: rest, ..a };
        let b = partial_set(held, answer_style(), rest);
        lemma_partial(held, answer_style(), rest);
        lemma_goes_on(r.out, a.out, b.out);
        let spans = whole_lines(b.color, answer_style(), complete);
        lemma_committed(b, spans);
        lemma_goes_on(r.out, b.out, committed(b, spans).out);
    } else {
        lemma_wrote(r, seq![unstyled("\n"@)]);
        let a = if r.reasoning_at_line_start {
            r
        } else {
            RendererView { reasoning_at_line_start: true, ..wrote(r, seq![unstyled("\n"@)]) }
        };
        let (spans, at) = streamed(
            a.color,
            answer_style(),
            segments(delta),
            a.assistant_at_line_start,
        );
        lemma_wrote(a, spans);
        lemma_goes_on(r.out, a.out, wrote(a, spans).out);
    }
}

proof fn lemma_result(r: RendererView, id: Seq<char>, result: ToolResultView)
    ensures
        goes_on(r.out, result_rendered(r, id, result).out),
        result_rendered(r, id, result).live == r.live,
{
    let tool = entry_of(r.tools, id);
    let name = match tool {
        Some(tool) => tool.name,
        None => "tool"@,
    };
    let code = last_code(lines_of(result.output));
    let failed = has_failed(name, result.output, result.is_error, code);
    let summary = summary_of(name, result.output, result.is_error, code);
    lemma_lines_ended(r);
    let a = match tool {
        Some(tool) => {
            let block = call_block(r.color, r.limits, tool, failed, summary);
            lemma_wrote(lines_ended(r), block);
            lemma_goes_on(r.out, lines_ended(r).out, wrote(lines_ended(r), block).out);
            wrote(lines_ended(r), block)
        },
        None => r,
    };
    let output = shown_output(r.limits, tool, result.output);
    let block = result_block(r.color, name, output, result.is_error, failed, summary);
    lemma_wrote(a, block);
    lemma_goes_on(r.out, a.out, wrote(a, block).out);
}

proof fn lemma_completed(r: RendererView, id: Seq<char>, result: ToolResultView)
    ensures
        goes_on(r.out, tool_completed(r, id, result).out),
{
    if r.live is Some {
        let finished = row_finished(screen(r), id);
        let way = on_screen(r, made_way(finished));
        lemma_rows(screen(r), id, Seq::empty());
        lemma_rows(finished, id, Seq::empty());
        lemma_goes_on(r.out, finished.out, way.out);
        lemma_result(way, id, result);
        let a = result_rendered(way, id, result);
        lemma_goes_on(r.out, way.out, a.out);
        lemma_resumed(screen(a));
        lemma_goes_on(r.out, a.out, resumed(screen(a)).out);
    } else {
        lemma_result(r, id, result);
    }
}

/// The transcript is append-only: whatever happens, what was written stays as it
/// was, and only more is written behind it.
pub proof fn law_transcript_is_append_only(r: RendererView, event: EventView)
    ensures
        goes_on(r.out, rendered(r, event).out),
{
    match event {
        EventView::GenerationStart => lemma_generation(r, Seq::empty()),
        EventView::ReasoningDelta { delta } => lemma_reasoning(r, delta),
        EventView::TextDelta { delta } => lemma_answer(r, delta),
        EventView::ToolCallStart { id, name } => {
            lemma_flushed(r);
            let message = "generating  "@ + name;
            lemma_generation(pending_flushed(r), message);
            lemma_goes_on(
                r.out,
                pending_flushed(r).out,
                generation_updated(pending_flushed(r), message).out,
            );
        },
        EventView::ToolExecutionStart { id } => {
            if entry_of(r.tools, id) is Some && r.live is Some {
                let tool = entry_of(r.tools, id)->0;
                let a = on_screen(r, reserve_tools(screen(r), r.tools.len()));
                lemma_reserved(screen(r), 1, r.tools.len());
                lemma_rows(screen(a), id, tool_row(a, tool));
                lemma_goes_on(r.out, a.out, row_started(screen(a), id, tool_row(a, tool)).out);
            }
        },
        EventView::ToolExecutionOutput { id, delta } => {},
        EventView::ToolExecutionEnd { id, result } => lemma_completed(r, id, result),
        EventView::Error { message } => {
            lemma_flushed(r);
            let a = settled_lines(r);
            let text = "× "@ + message + "\n"@;
            lemma_wrote(a, seq![styled(a.color, text, Tint::DarkRed, true)]);
            lemma_goes_on(r.out, a.out, wrote_line(a, text, Tint::DarkRed, true).out);
        },
        EventView::Done => lemma_flushed(r),
        _ => {},
    }
}

proof fn lemma_without_row(entries: Seq<Seq<char>>, id: Seq<char>, other: Seq<char>)
    ensures
        !without_row(entries, id).contains(id),
        !entries.contains(other) ==> !without_row(entries, id).contains(other),
    decreases entries.len(),
{
    if entries.len() > 0 {
        let front = entries.drop_last();
        lemma_without_row(front, id, other);
        if !entries.contains(other) {
            assert forall|k: int| 0 <= k < front.len() implies front[k] != other by {
                assert(front[k] == entries[k]);
            }
            assert(entries.last() == entries[entries.len() - 1]);
        }
    }
}

/// Once an answer is done nothing of it is left open: its lines are ended, its
/// buffers are empty and its spinner is gone.
pub proof fn law_done_leaves_nothing_open(r: RendererView)
    ensures
        ({
            let after = rendered(r, EventView::Done);
            &&& after.reasoning_at_line_start
            &&& after.assistant_at_line_start
            &&& !after.reasoning_announced
            &&& after.reasoning_buffer.len() == 0
            &&& after.reasoning_pending.len() == 0
            &&& after.assistant_buffer.len() == 0
            &&& !generating(after)
        }),
{
    let f = pending_flushed(r);
    if generating(f) {
        let b = row_finished(screen(f), GENERATION_CONTENT_ID@);
        lemma_without_row(screen(f).live.entries, GENERATION_CONTENT_ID@, GENERATION_ID@);
        lemma_without_row(b.live.entries, GENERATION_ID@, GENERATION_ID@);
    }
}

/// A call that has ended is written once: it is not known any more.
pub proof fn law_ended_calls_are_forgotten(
    r: RendererView,
    id: Seq<char>,
    other: Seq<char>,
    result: ToolResultView,
)
    ensures
        ({
            let after = rendered(r, EventView::ToolExecutionEnd { id, result });
            &&& entry_of(after.tools, id) is None
            &&& other != id ==> entry_of(after.tools, other) == entry_of(r.tools, other)
        }),
{
    law_without_entry(r.tools, id, other);
}

// ---------------------------------------------------------------------------
// What the transcript says

/// The text that was written of the steps on the terminal.
pub open spec fn told(out: Seq<DrawView>) -> Seq<char>
    decreases out.len(),
{
    if out.len() == 0 {
        Seq::empty()
    } else {
        match out.last() {
            DrawView::Write(span) => told(out.drop_last()) + span.text,
            _ => told(out.drop_last()),
        }
    }
}

proof fn lemma_told_step(out: Seq<DrawView>, draw: DrawView)
    ensures
        draw is Write ==> told(out.push(draw)) == told(out) + draw->Write_0.text,
        !(draw is Write) ==> told(out.push(draw)) == told(out),
{
    assert(out.push(draw).drop_last() =~= out);
}

proof fn lemma_told_writes(out: Seq<DrawView>, spans: Seq<SpanView>)
    ensures
        told(out + writes(spans)) == told(out) + spans_text(spans),
    decreases spans.len(),
{
    if spans.len() == 0 {
        assert(out + writes(spans) =~= out);
        assert(told(out) + spans_text(spans) =~= told(out));
    } else {
        lemma_told_writes(out, spans.drop_last());
        let front = out + writes(spans.drop_last());
        assert(out + writes(spans) =~= front.push(DrawView::Write(spans.last())));
        lemma_told_step(front, DrawView::Write(spans.last()));
        assert(told(out + writes(spans)) =~= told(out) + spans_text(spans));
    }
}

proof fn lemma_told_reserved(s: Screen, rows: u16, tools: nat)
    ensures
        told(reserve_rows(s, rows).out) == told(s.out),
        told(reserve_tools(s, tools).out) == told(s.out),
{
    lemma_told_step(s.out, DrawView::Reserve(rows));
    if !s.live.reserved {
        let height = usable_rows(s.live.terminal_height);
        let visible = shared_lines(s.live.max_lines, height, tools);
        let desired = tools * (visible + 2);
        let n = (if desired < height {
            desired
        } else {
            height
        }) as u16;
        lemma_told_step(s.out, DrawView::Reserve(n));
    }
}

proof fn lemma_told_rows(s: Screen, id: Seq<char>, message: Seq<char>)
    ensures
        told(row_updated(s, id, message).out) == told(s.out),
        told(row_started(s, id, message).out) == told(s.out),
        told(row_finished(s, id).out) == told(s.out),
        told(made_way(s).out) == told(s.out),
{
    lemma_told_step(s.out, DrawView::Update { id, message });
    lemma_told_step(s.out, DrawView::Start { id, message });
    lemma_told_step(s.out, DrawView::Stop { id });
    lemma_told_step(s.out, DrawView::Clear);
    lemma_told_step(s.out.push(DrawView::Clear), DrawView::Restore);
}

proof fn lemma_told_resumed(s: Screen)
    ensures
        told(resumed(s).out) == told(s.out),
{
    lemma_told_reserved(s, 2, s.live.entries.len());
    lemma_told_reserved(s, 1, s.live.entries.len());
    lemma_told_step(reserve_rows(s, 2).out, DrawView::Redraw);
    lemma_told_step(reserve_rows(s, 1).out, DrawView::Redraw);
    lemma_told_step(reserve_tools(s, s.live.entries.len()).out, DrawView::Redraw);
}

proof fn lemma_told_content(s: Screen, content: Option<Seq<SpanView>>)
    ensures
        told(content_set(s, content).out) == told(s.out),
{
    match content {
        Some(spans) => {
            lemma_told_step(s.out, DrawView::UpdateContent(spans));
            lemma_told_rows(s, Seq::empty(), Seq::empty());
            let way = made_way(s);
            lemma_told_step(way.out, DrawView::Content(spans));
            let next = Screen {
                live: LiveView {
                    entries: way.live.entries.push(GENERATION_CONTENT_ID@),
                    ..way.live
                },
                out: way.out.push(DrawView::Content(spans)),
            };
            lemma_told_resumed(next);
        },
        None => {
            lemma_told_rows(s, GENERATION_CONTENT_ID@, Seq::empty());
            let a = row_finished(s, GENERATION_CONTENT_ID@);
            lemma_told_rows(a, Seq::empty(), Seq::empty());
            lemma_told_resumed(made_way(a));
        },
    }
}

proof fn lemma_told_committed(r: RendererView, spans: Seq<SpanView>)
    ensures
        told(committed(r, spans).out) == told(r.out) + spans_text(spans),
{
    lemma_told_writes(r.out, spans);
    if generating(r) {
        lemma_told_rows(screen(r), Seq::empty(), Seq::empty());
        let way = on_screen(r, made_way(screen(r)));
        lemma_told_writes(way.out, spans);
        lemma_told_resumed(screen(wrote(way, spans)));
    }
}

proof fn lemma_told_partial(r: RendererView, style: StreamStyle, pending: Seq<char>)
    ensures
        told(partial_set(r, style, pending).out) == told(r.out),
{
    if let Some(live) = r.live {
        lemma_told_content(screen(r), None);
        lemma_told_content(
            screen(r),
            Some(partial_line(r.color, style, pending, live.terminal_width as nat)),
        );
    }
}

/// What a text that is written whole says: each of its lines after the prefix, and
/// the last of them ended.
pub open spec fn written(text: Seq<char>, prefix: Seq<char>) -> Seq<char> {
    woven(text, prefix, true) + (if text.len() == 0 || text.last() == '\n' {
        Seq::empty()
    } else {
        seq!['\n']
    })
}

proof fn lemma_whole_lines(color: bool, style: StreamStyle, text: Seq<char>)
    ensures
        spans_text(whole_lines(color, style, text)) == written(text, style.prefix@),
{
    law_stream_reads_as_its_text(color, style, text, true);
    let (spans, ended) = streamed(color, style, segments(text), true);
    reveal_strlit("\n");
    assert(spans.push(unstyled("\n"@)).drop_last() =~= spans);
    assert("\n"@ =~= seq!['\n']);
    if ended {
        assert(spans_text(spans) =~= written(text, style.prefix@));
    } else {
        assert(spans_text(spans.push(unstyled("\n"@))) =~= written(text, style.prefix@));
    }
}

proof fn lemma_told_reasoning_flushed(r: RendererView)
    ensures
        told(reasoning_flushed(r).out) == told(r.out) + written(r.reasoning_pending, "  "@),
        reasoning_flushed(r).reasoning_pending.len() == 0,
        reasoning_flushed(r).assistant_buffer == r.assistant_buffer,
        reasoning_flushed(r).color == r.color,
{
    if r.reasoning_pending.len() > 0 {
        let a = RendererView { reasoning_pending: Seq::empty(), ..r };
        lemma_told_partial(a, reasoning_style(), Seq::empty());
        lemma_whole_lines(r.color, reasoning_style(), r.reasoning_pending);
        lemma_told_committed(
            partial_set(a, reasoning_style(), Seq::empty()),
            whole_lines(r.color, reasoning_style(), r.reasoning_pending),
        );
    } else {
        assert(told(r.out) + written(r.reasoning_pending, "  "@) =~= told(r.out));
    }
}

/// Without a terminal, what the model answers is written as it comes, each line
/// after a mark.
pub proof fn law_answers_are_written_as_they_come(r: RendererView, delta: Seq<char>)
    requires
        r.live is None,
    ensures
        ({
            let after = rendered(r, EventView::TextDelta { delta });
            &&& told(after.out) == told(r.out) + (if r.reasoning_at_line_start {
                Seq::empty()
            } else {
                seq!['\n']
            }) + woven(delta, "│ "@, r.assistant_at_line_start)
            &&& after.assistant_at_line_start == if delta.len() == 0 {
                r.assistant_at_line_start
            } else {
                delta.last() == '\n'
            }
            &&& after.reasoning_at_line_start
        }),
{
    reveal_strlit("\n");
    assert("\n"@ =~= seq!['\n']);
    let line = seq![unstyled("\n"@)];
    lemma_told_writes(r.out, line);
    assert(line.drop_last() =~= Seq::empty());
    assert(spans_text(line.drop_last()) =~= Seq::empty());
    assert(spans_text(line) =~= seq!['\n']);
    let a = if r.reasoning_at_line_start {
        r
    } else {
        RendererView { reasoning_at_line_start: true, ..wrote(r, line) }
    };
    law_stream_reads_as_its_text(a.color, answer_style(), delta, a.assistant_at_line_start);
    lemma_told_writes(
        a.out,
        streamed(a.color, answer_style(), segments(delta), a.assistant_at_line_start).0,
    );
    if r.reasoning_at_line_start {
        assert(told(r.out) + Seq::<char>::empty() =~= told(r.out));
    }
}

/// On a terminal, the lines of the answer are written once they are complete,
/// after what was left of the reasoning; the rest is kept until it is.
pub proof fn law_complete_lines_of_an_answer_are_written(r: RendererView, delta: Seq<char>)
    requires
        generating(r),
    ensures
        ({
            let after = rendered(r, EventView::TextDelta { delta });
            let all = r.assistant_buffer + delta;
            let n = all.len() - after.assistant_buffer.len();
            &&& 0 <= n
            &&& after.assistant_buffer == all.skip(n)
            &&& n > 0 ==> all[n - 1] == '\n'
            &&& forall|i: int| n <= i < all.len() ==> #[trigger] all[i] != '\n'
            &&& told(after.out) == told(r.out) + written(r.reasoning_pending, "  "@) + woven(
                all.take(n),
                "│ "@,
                true,
            )
            &&& after.reasoning_pending.len() == 0
        }),
{
    let flushed = reasoning_flushed(r);
    lemma_told_reasoning_flushed(r);
    let a = generation_updated(flushed, "generating"@);
    if flushed.live is Some {
        lemma_told_rows(screen(flushed), GENERATION_ID@, "generating"@);
    }
    let all = r.assistant_buffer + delta;
    law_complete_lines_end_with_a_line_feed(all);
    let (complete, rest) = complete_lines(all);
    let n = complete.len() as int;
    assert((complete + rest).take(n) =~= complete);
    assert((complete + rest).skip(n) =~= rest);
    assert forall|i: int| n <= i < all.len() implies #[trigger] all[i] != '\n' by {
        assert(all[i] == rest[i - n]);
    }
    let c = RendererView { assistant_buffer: rest, ..a };
    lemma_told_partial(c, answer_style(), rest);
    let b = partial_set(c, answer_style(), rest);
    if n > 0 {
        assert(all[n - 1] == complete.last());
        lemma_whole_lines(b.color, answer_style(), complete);
        lemma_told_committed(b, whole_lines(b.color, answer_style(), complete));
        assert(written(complete, "│ "@) =~= woven(complete, "│ "@, true));
    } else {
        assert(complete =~= Seq::empty());
        assert(told(b.out) + woven(complete, "│ "@, true) =~= told(b.out));
    }
}

/// Reasoning is kept whole, and its heading is written once. Where it is shown, it
/// is written as it comes without a terminal, and by complete lines on one; where
/// it is not, nothing of it is.
pub proof fn law_reasoning_is_written_where_it_is_shown(r: RendererView, delta: Seq<char>)
    requires
        r.reasoning_announced,
    ensures
        ({
            let after = rendered(r, EventView::ReasoningDelta { delta });
            let all = r.reasoning_pending + delta;
            let n = all.len() - after.reasoning_pending.len();
            &&& after.reasoning_buffer == r.reasoning_buffer + delta
            &&& after.reasoning_announced
            &&& !r.reasoning_visible ==> told(after.out) == told(r.out)
            &&& r.reasoning_visible && !generating(r) ==> told(after.out) == told(r.out) + woven(
                delta,
                "  "@,
                r.reasoning_at_line_start,
            )
            &&& r.reasoning_visible && generating(r) ==> {
                &&& 0 <= n
                &&& after.reasoning_pending == all.skip(n)
                &&& n > 0 ==> all[n - 1] == '\n'
                &&& forall|i: int| n <= i < all.len() ==> #[trigger] all[i] != '\n'
                &&& told(after.out) == told(r.out) + woven(all.take(n), "  "@, true)
            }
        }),
{
    let given = RendererView { reasoning_buffer: r.reasoning_buffer + delta, ..r };
    if generating(given) {
        let a = generation_updated(given, "thinking"@);
        lemma_told_rows(screen(given), GENERATION_ID@, "thinking"@);
        if a.reasoning_visible {
            let all = r.reasoning_pending + delta;
            law_complete_lines_end_with_a_line_feed(all);
            let (complete, rest) = complete_lines(all);
            let n = complete.len() as int;
            assert((complete + rest).take(n) =~= complete);
            assert((complete + rest).skip(n) =~= rest);
            assert forall|i: int| n <= i < all.len() implies #[trigger] all[i] != '\n' by {
                assert(all[i] == rest[i - n]);
            }
            let c = RendererView { reasoning_pending: rest, ..a };
            lemma_told_partial(c, reasoning_style(), rest);
            let b = partial_set(c, reasoning_style(), rest);
            if n > 0 {
                assert(all[n - 1] == complete.last());
                lemma_whole_lines(b.color, reasoning_style(), complete);
                lemma_told_committed(b, whole_lines(b.color, reasoning_style(), complete));
                assert(written(complete, "  "@) =~= woven(complete, "  "@, true));
            } else {
                assert(complete =~= Seq::empty());
                assert(told(b.out) + woven(complete, "  "@, true) =~= told(b.out));
            }
        }
    } else if r.reasoning_visible {
        law_stream_reads_as_its_text(r.color, reasoning_style(), delta, r.reasoning_at_line_start);
        lemma_told_writes(
            r.out,
            streamed(
                r.color,
                reasoning_style(),
                segments(delta),
                r.reasoning_at_line_start,
            ).0,
        );
    }
}

/// The heading of the reasoning is written before it, and says whether it is
/// shown.
pub proof fn law_reasoning_is_announced(r: RendererView, delta: Seq<char>)
    requires
        !r.reasoning_announced,
        r.live is None,
        r.reasoning_at_line_start,
        r.assistant_at_line_start,
    ensures
        ({
            let after = rendered(r, EventView::ReasoningDelta { delta });
            &&& after.reasoning_announced
            &&& r.reasoning_visible ==> told(after.out) == told(r.out) + "▾ Reasoning\n"@ + woven(
                delta,
                "  "@,
                true,
            )
            &&& !r.reasoning_visible ==> told(after.out) == told(r.out) + "▸ Reasoning\n"@
        }),
{
    let given = RendererView { reasoning_buffer: r.reasoning_buffer + delta, ..r };
    let heading = seq![styled(r.color, reasoning_heading(r.reasoning_visible), Tint::DarkGrey, true)];
    lemma_told_writes(r.out, heading);
    assert(heading.drop_last() =~= Seq::empty());
    assert(spans_text(heading.drop_last()) =~= Seq::empty());
    assert(spans_text(heading) =~= reasoning_heading(r.reasoning_visible));
    let a = wrote(given, heading);
    law_stream_reads_as_its_text(r.color, reasoning_style(), delta, true);
    lemma_told_writes(a.out, streamed(r.color, reasoning_style(), segments(delta), true).0);
}

/// An error is the last that is written, after what was open is ended.
pub proof fn law_errors_are_written(r: RendererView, message: Seq<char>)
    ensures
        ({
            let after = rendered(r, EventView::Error { message });
            &&& after.out.len() > 0
            &&& after.out.last() matches DrawView::Write(span) && span.text == "× "@ + message
                + "\n"@
            &&& !generating(after)
            &&& after.reasoning_at_line_start && after.assistant_at_line_start
        }),
{
    law_done_leaves_nothing_open(r);
    let a = settled_lines(r);
    let spans = seq![styled(a.color, "× "@ + message + "\n"@, Tint::DarkRed, true)];
    assert(a.out + writes(spans) =~= a.out.push(DrawView::Write(spans[0])));
}

/// When an answer is done, the lines that were open are ended.
pub proof fn law_done_ends_the_open_lines(r: RendererView)
    requires
        r.live is None,
    ensures
        told(rendered(r, EventView::Done).out) == told(r.out) + (if r.reasoning_at_line_start {
            Seq::empty()
        } else {
            seq!['\n']
        }) + (if r.assistant_at_line_start {
            Seq::empty()
        } else {
            seq!['\n']
        }),
{
    lemma_told_lines_ended(r);
}

proof fn lemma_told_lines_ended(r: RendererView)
    ensures
        told(lines_ended(r).out) == told(r.out) + (if r.reasoning_at_line_start {
            Seq::empty()
        } else {
            seq!['\n']
        }) + (if r.assistant_at_line_start {
            Seq::empty()
        } else {
            seq!['\n']
        }),
{
    reveal_strlit("\n");
    assert("\n"@ =~= seq!['\n']);
    let line = seq![unstyled("\n"@)];
    assert(line.drop_last() =~= Seq::empty());
    assert(spans_text(line.drop_last()) =~= Seq::empty());
    assert(spans_text(line) =~= seq!['\n']);
    let a = if r.reasoning_at_line_start {
        r
    } else {
        RendererView { reasoning_at_line_start: true, ..wrote(r, line) }
    };
    lemma_told_writes(r.out, line);
    lemma_told_writes(a.out, line);
    assert(told(lines_ended(r).out) =~= told(r.out) + (if r.reasoning_at_line_start {
        Seq::empty()
    } else {
        seq!['\n']
    }) + (if r.assistant_at_line_start {
        Seq::empty()
    } else {
        seq!['\n']
    }));
}

/// What is known of a call while it is made: its name from the start, then its
/// arguments and its output as they come. Other calls are left as they are, and
/// nothing is kept of a call that was not started.
pub proof fn law_calls_are_kept_as_they_come(
    r: RendererView,
    id: Seq<char>,
    name: Seq<char>,
    delta: Seq<char>,
    other: Seq<char>,
)
    requires
        r.live is None,
    ensures
        ({
            let started = rendered(r, EventView::ToolCallStart { id, name });
            let told_more = rendered(r, EventView::ToolCallArgsDelta { id, delta });
            let wrote_more = rendered(r, EventView::ToolExecutionOutput { id, delta });
            &&& entry_of(started.tools, id) matches Some(tool) && tool.name == name
                && tool.arguments.text.len() == 0 && tool.output.bytes.len() == 0
                && !tool.arguments.truncated && !tool.output.dropped
            &&& other != id ==> entry_of(started.tools, other) == entry_of(r.tools, other)
                && entry_of(told_more.tools, other) == entry_of(r.tools, other) && entry_of(
                wrote_more.tools,
                other,
            ) == entry_of(r.tools, other)
            &&& match entry_of(r.tools, id) {
                Some(tool) => {
                    &&& entry_of(told_more.tools, id) == Some(
                        ToolView { arguments: with_input(tool.arguments, delta), ..tool },
                    )
                    &&& entry_of(wrote_more.tools, id) == Some(
                        ToolView {
                            output: with_output(tool.output, vstd::utf8::encode_utf8(delta)),
                            ..tool
                        },
                    )
                },
                None => told_more == r && wrote_more == r,
            }
            &&& told_more.out == r.out && wrote_more.out == r.out
        }),
{
    law_with_entry(
        r.tools,
        id,
        fresh_tool(
            name,
            r.limits.tool_input_max_bytes as nat,
            r.limits.tool_output_max_bytes as nat,
        ),
        other,
    );
    if let Some(tool) = entry_of(r.tools, id) {
        law_with_entry(
            r.tools,
            id,
            ToolView { arguments: with_input(tool.arguments, delta), ..tool },
            other,
        );
        law_with_entry(
            r.tools,
            id,
            ToolView {
                output: with_output(tool.output, vstd::utf8::encode_utf8(delta)),
                ..tool
            },
            other,
        );
    }
}

/// Whether a step writes the line that says what came of a call.
pub open spec fn marks_outcome(
    draw: DrawView,
    failed: bool,
    name: Seq<char>,
    summary: Seq<char>,
) -> bool {
    draw matches DrawView::Write(span) && begins(
        span.text,
        (if failed {
            "× "@
        } else {
            "✓ "@
        }) + name + "  "@,
    ) && (ends(span.text, summary + "\n"@) || begins(
        span.text,
        (if failed {
            "× "@
        } else {
            "✓ "@
        }) + name + "  "@ + summary,
    ))
}

proof fn lemma_outcome_marked(
    color: bool,
    failed: bool,
    name: Seq<char>,
    before: Seq<char>,
    summary: Seq<char>,
    after: Seq<char>,
)
    requires
        before.len() == 0 || after.len() == 0,
    ensures
        marks_outcome(
            DrawView::Write(completion_line(color, failed, name, before + summary + after)),
            failed,
            name,
            summary,
        ),
{
    let text = completion_line(color, failed, name, before + summary + after).text;
    let start = (if failed {
        "× "@
    } else {
        "✓ "@
    }) + name + "  "@;
    assert(text =~= start + before + summary + after + "\n"@);
    assert(text.subrange(0, start.len() as int) =~= start);
    if before.len() == 0 {
        assert(text.subrange(0, (start + summary).len() as int) =~= start + summary);
    } else {
        let end = summary + "\n"@;
        assert(text.subrange(text.len() - end.len(), text.len() as int) =~= end);
    }
}

proof fn lemma_result_is_marked(r: RendererView, id: Seq<char>, result: ToolResultView) -> (k: int)
    requires
        entry_of(r.tools, id) is Some,
    ensures
        r.out.len() <= k < result_rendered(r, id, result).out.len(),
        ({
            let name = entry_of(r.tools, id)->Some_0.name;
            let code = last_code(lines_of(result.output));
            marks_outcome(
                result_rendered(r, id, result).out[k],
                has_failed(name, result.output, result.is_error, code),
                name,
                summary_of(name, result.output, result.is_error, code),
            )
        }),
{
    let tool = entry_of(r.tools, id)->Some_0;
    let name = tool.name;
    let code = last_code(lines_of(result.output));
    let failed = has_failed(name, result.output, result.is_error, code);
    let summary = summary_of(name, result.output, result.is_error, code);
    let none = Seq::<char>::empty();
    let first = lines_ended(r);
    lemma_lines_ended(r);
    let call = call_block(r.color, r.limits, tool, failed, summary);
    let a = wrote(first, call);
    let block = result_block(
        r.color,
        name,
        shown_output(r.limits, Some(tool), result.output),
        result.is_error,
        failed,
        summary,
    );
    let out = result_rendered(r, id, result).out;
    assert(out == a.out + writes(block));
    let args = value_read(tool.arguments.text);
    let n = first.out.len() as int;
    if name == "read"@ {
        let detail = read_text(args);
        let header = tool_header(r.color, name, detail);
        lemma_outcome_marked(r.color, failed, name, detail + " · "@, summary, none);
        assert(detail + " · "@ + summary + none =~= detail + " · "@ + summary);
        let k = n + header.len();
        assert(call[header.len() as int] == call.last());
        assert(out[k] == DrawView::Write(call[header.len() as int]));
        k
    } else if name == "apply_patch"@ {
        let header = tool_header(r.color, name, none);
        lemma_outcome_marked(r.color, failed, name, none, summary, none);
        assert(none + summary + none =~= summary);
        let k = n + header.len();
        assert(out[k] == DrawView::Write(call[header.len() as int]));
        k
    } else if name == "bash"@ {
        let more = match timeout_text(args) {
            Some(timeout) => " · "@ + timeout,
            None => none,
        };
        lemma_outcome_marked(r.color, failed, name, none, summary, more);
        assert(none + summary + more =~= match timeout_text(args) {
            Some(timeout) => summary + " · "@ + timeout,
            None => summary,
        });
        assert(out[n] == DrawView::Write(call[0]));
        n
    } else {
        lemma_outcome_marked(r.color, failed, name, none, summary, none);
        assert(none + summary + none =~= summary);
        let k = out.len() - 1;
        assert(out[k] == DrawView::Write(block.last()));
        k
    }
}

/// When a call has ended, a line is written that names it, says whether it failed
/// and what came of it.
pub proof fn law_ended_calls_are_told_of(r: RendererView, id: Seq<char>, result: ToolResultView)
    requires
        entry_of(r.tools, id) is Some,
    ensures
        ({
            let name = entry_of(r.tools, id)->Some_0.name;
            let code = last_code(lines_of(result.output));
            let after = rendered(r, EventView::ToolExecutionEnd { id, result });
            exists|k: int|
                r.out.len() <= k < after.out.len() && marks_outcome(
                    #[trigger] after.out[k],
                    has_failed(name, result.output, result.is_error, code),
                    name,
                    summary_of(name, result.output, result.is_error, code),
                )
        }),
{
    if r.live is Some {
        let s = row_finished(screen(r), id);
        lemma_rows(screen(r), id, Seq::empty());
        lemma_rows(s, id, Seq::empty());
        lemma_goes_on(r.out, s.out, made_way(s).out);
        let b = on_screen(r, made_way(s));
        let k = lemma_result_is_marked(b, id, result);
        let a = result_rendered(b, id, result);
        lemma_resumed(screen(a));
        let after = on_screen(a, resumed(screen(a)));
        assert(a.out[k] == after.out[k]);
    } else {
        let k = lemma_result_is_marked(r, id, result);
        assert(result_rendered(r, id, result).out[k] == rendered(
            r,
            EventView::ToolExecutionEnd { id, result },
        ).out[k]);
    }
}

/// What the user says is written after all else, and a new turn has begun: nothing
/// is left of the one before.
pub proof fn law_messages_begin_a_turn(r: RendererView, message: Seq<char>)
    ensures
        ({
            let after = user_rendered(r, message);
            let block = user_block(r.color, message);
            let n = after.out.len() - block.len();
            &&& 0 <= n
            &&& after.out.skip(n) == writes(block)
            &&& after.tools.len() == 0
            &&& !after.reasoning_announced
            &&& after.reasoning_buffer.len() == 0
            &&& after.reasoning_pending.len() == 0
            &&& after.assistant_buffer.len() == 0
            &&& after.reasoning_visible == r.reasoning_visible
        }),
{
    let a = turn_begun(r);
    let block = user_block(a.color, message);
    let after = user_rendered(r, message);
    assert(after.out.skip(a.out.len() as int) =~= writes(block));
}

/// Toggling shows the reasoning or hides it, and twice leaves it as it was; where
/// it is shown again all of it is written, under its heading.
pub proof fn law_reasoning_is_toggled(r: RendererView)
    requires
        r.reasoning_at_line_start,
        r.assistant_at_line_start,
    ensures
        ({
            let after = reasoning_toggled(r);
            &&& after.reasoning_visible == !r.reasoning_visible
            &&& reasoning_toggled(after).reasoning_visible == r.reasoning_visible
            &&& after.reasoning_buffer == r.reasoning_buffer
            &&& r.reasoning_visible || r.reasoning_buffer.len() == 0 ==> told(after.out) == told(
                r.out,
            )
            &&& !r.reasoning_visible && r.reasoning_buffer.len() > 0 ==> told(after.out) == told(
                r.out,
            ) + "▾ Reasoning\n"@ + written(r.reasoning_buffer, "  "@)
        }),
{
    if !r.reasoning_visible && r.reasoning_buffer.len() > 0 {
        let a = RendererView { reasoning_visible: true, ..r };
        let heading = seq![styled(a.color, reasoning_heading(true), Tint::DarkGrey, true)];
        lemma_told_writes(a.out, heading);
        assert(heading.drop_last() =~= Seq::empty());
        assert(spans_text(heading.drop_last()) =~= Seq::empty());
        assert(spans_text(heading) =~= reasoning_heading(true));
        let b = wrote(a, heading);
        law_stream_reads_as_its_text(b.color, reasoning_style(), b.reasoning_buffer, true);
        let (spans, at) = streamed(b.color, reasoning_style(), segments(b.reasoning_buffer), true);
        lemma_told_writes(b.out, spans);
        let c = RendererView { reasoning_at_line_start: at, ..wrote(b, spans) };
        lemma_told_lines_ended(c);
        assert(told(lines_ended(c).out) =~= told(r.out) + "▾ Reasoning\n"@ + written(
            r.reasoning_buffer,
            "  "@,
        ));
    }
}

proof fn lemma_items_rendered(r: RendererView, a: Seq<ItemView>, b: Seq<ItemView>)
    ensures
        items_rendered(r, a + b) == items_rendered(items_rendered(r, a), b),
    decreases b.len(),
{
    if b.len() == 0 {
        assert(a + b =~= a);
    } else {
        lemma_items_rendered(r, a, b.drop_last());
        assert((a + b).drop_last() =~= a + b.drop_last());
    }
}

proof fn lemma_rendered_all(r: RendererView, a: Seq<EventView>, b: Seq<EventView>)
    ensures
        rendered_all(r, a + b) == rendered_all(rendered_all(r, a), b),
    decreases b.len(),
{
    if b.len() == 0 {
        assert(a + b =~= a);
    } else {
        lemma_rendered_all(r, a, b.drop_last());
        assert((a + b).drop_last() =~= a + b.drop_last());
    }
}

/// Events are shown one after another.
pub proof fn law_events_are_shown_one_after_another(
    r: RendererView,
    a: Seq<EventView>,
    b: Seq<EventView>,
    event: EventView,
)
    ensures
        rendered_all(r, a + b) == rendered_all(rendered_all(r, a), b),
        rendered_all(r, seq![event]) == rendered(r, event),
        rendered_all(r, Seq::empty()) == r,
{
    lemma_rendered_all(r, a, b);
    assert(seq![event].drop_last() =~= Seq::empty());
    assert(rendered_all(r, seq![event].drop_last()) == r);
}

/// A conversation is shown again item by item, in order.
pub proof fn law_conversations_are_shown_in_order(
    r: RendererView,
    a: Seq<ItemView>,
    b: Seq<ItemView>,
    item: ItemView,
)
    ensures
        history_rendered(r, a + b) == items_rendered(history_rendered(r, a), b),
        history_rendered(r, a.push(item)) == item_rendered(history_rendered(r, a), item),
{
    let start = wrote_line(
        turn_begun(r),
        "──────── Resumed conversation ────────\n"@,
        Tint::DarkGrey,
        true,
    );
    lemma_items_rendered(start, a, b);
    assert(a.push(item).drop_last() =~= a);
}

/// The blocks of an item are shown again by the events that came with them: a call
/// with its start, its arguments and its end, and a result with the call it ends.
pub proof fn law_blocks_are_shown_as_they_came(blocks: Seq<BlockView>, block: BlockView)
    ensures
        replayed_blocks(blocks.push(block), false) == replayed_blocks(blocks, false) + (
        match block {
            BlockView::Text(delta) => seq![EventView::TextDelta { delta }],
            BlockView::Reasoning(delta) => seq![EventView::ReasoningDelta { delta }],
            BlockView::ToolCall(call) => seq![
                EventView::ToolCallStart { id: call.id, name: call.name },
                EventView::ToolCallArgsDelta { id: call.id, delta: call.arguments },
                EventView::ToolCallEnd { id: call.id },
            ],
            BlockView::ToolResult(_) => Seq::empty(),
        }),
        replayed_blocks(blocks.push(block), true) == replayed_blocks(blocks, true) + (match block {
            BlockView::ToolResult(result) => seq![
                EventView::ToolExecutionEnd { id: result.call_id, result },
            ],
            _ => Seq::empty(),
        }),
        replayed_blocks(Seq::empty(), true) == Seq::<EventView>::empty(),
        replayed_blocks(Seq::empty(), false) == Seq::<EventView>::empty(),
{
    assert(blocks.push(block).drop_last() =~= blocks);
}

/// What the model answered is shown as an answer of its own; what a tool gave is
/// shown with its call.
pub proof fn law_items_are_shown_by_their_role(r: RendererView, item: ItemView)
    ensures
        item.role == Role::Assistant ==> item_rendered(r, item) == rendered(
            rendered_all(turn_begun(r), replayed_blocks(item.blocks, false)),
            EventView::Done,
        ),
        item.role == Role::Tool ==> item_rendered(r, item) == rendered_all(
            r,
            replayed_blocks(item.blocks, true),
        ),
        item.role == Role::System ==> item_rendered(r, item) == r,
        item.role == Role::User && without_scaffolding(
            joined(text_parts(item.blocks), "\n"@),
        ).len() > 0 ==> item_rendered(r, item) == user_rendered(
            r,
            without_scaffolding(joined(text_parts(item.blocks), "\n"@)),
        ),
{
}

/// While the model answers it is shown that it does; a call is shown while it runs,
/// and not after it has ended.
pub proof fn law_what_runs_is_shown(r: RendererView, id: Seq<char>, result: ToolResultView)
    requires
        r.live is Some,
    ensures
        generating(rendered(r, EventView::GenerationStart)),
        entry_of(r.tools, id) is Some ==> (rendered(
            r,
            EventView::ToolExecutionStart { id },
        ).live matches Some(live) && live.entries.contains(id)),
        entry_of(r.tools, id) is None ==> rendered(r, EventView::ToolExecutionStart { id }) == r,
        rendered(r, EventView::ToolExecutionEnd { id, result }).live matches Some(live)
            && !live.entries.contains(id),
{
    let a = lines_ended(r);
    let reserved = reserve_rows(screen(a), 1);
    let entries = reserved.live.entries;
    if !entries.contains(GENERATION_ID@) {
        assert(entries.push(GENERATION_ID@).last() == GENERATION_ID@);
        assert(entries.push(GENERATION_ID@).contains(GENERATION_ID@));
    }
    let tools = reserve_tools(screen(r), r.tools.len());
    if !tools.live.entries.contains(id) {
        assert(tools.live.entries.push(id).last() == id);
        assert(tools.live.entries.push(id).contains(id));
    }
    lemma_row_is_gone(r.live->Some_0.entries, id);
}

proof fn lemma_row_is_gone(entries: Seq<Seq<char>>, id: Seq<char>)
    ensures
        !without_row(entries, id).contains(id),
    decreases entries.len(),
{
    if entries.len() > 0 {
        let front = entries.drop_last();
        lemma_row_is_gone(front, id);
        let rest = without_row(front, id);
        if entries.last() != id && rest.push(entries.last()).contains(id) {
            let k = choose|k: int|
                0 <= k < rest.push(entries.last()).len() && rest.push(entries.last())[k] == id;
            if k < rest.len() {
                assert(rest[k] == id);
                assert(rest.contains(id));
            }
        }
    }
}

/// What is shown of the output is what came while the call ran, its last lines,
/// and what the call gave in the end where nothing came.
pub proof fn law_the_output_is_shown(limits: RenderLimits, tool: ToolView, output: Seq<char>)
    ensures
        tool.output.bytes.len() > 0 || tool.output.dropped ==> shown_output(
            limits,
            Some(tool),
            output,
        ) == tail_lines(tool.output, limits.tool_output_max_lines as nat),
        (tool.output.bytes.len() == 0 && !tool.output.dropped && tool.name != "bash"@)
            ==> shown_output(limits, Some(tool), output) == limited(
            output,
            limits.tool_output_max_bytes as nat,
            limits.tool_output_max_lines as nat,
            false,
        ),
        (tool.output.bytes.len() == 0 && !tool.output.dropped && tool.name == "bash"@)
            ==> shown_output(limits, Some(tool), output) == limited(
            joined(without_blanks(without_note(without_code(lines_of(output)))), "\n"@),
            limits.tool_output_max_bytes as nat,
            limits.tool_output_max_lines as nat,
            true,
        ),
{
}

} // verus!
