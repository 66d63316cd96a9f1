//! The blocks of the transcript.
use vstd::prelude::*;
use vstd::string::*;

use crate::seqs::{lemma_picks_last, lemma_picks_nothing, picks};
use crate::text::{
    begins, byte_len, bytes_of, chars_of, cut_first, join, joined, lemma_views_push, lines,
    lines_of, repeat, repeated, same, split_once, starts_with, texts, views,
};
use crate::tui::style::{Emphasis, Span, SpanView, Style, Tint, spans_text, styled, unstyled};
use crate::tui::tool_text::{
    LimitedText, LimitedView, limited, limited_text, operation_lines, patch_operations, some_lines,
};

verus! {

/// Appends a text with a color and in bold, where colors are shown.
pub fn push_styled(spans: &mut Vec<Span>, color: bool, text: String, tint: Tint, bold: bool)
    ensures
        views(final(spans)@) == views(old(spans)@).push(styled(color, text@, tint, bold)),
{
    broadcast use lemma_views_push;

    let style = if !color {
        Style::Unstyled
    } else if bold {
        Style::Emphasized(tint, Emphasis::Bold)
    } else {
        Style::Tinted(tint)
    };
    spans.push(Span { text, style });
}

/// Appends a text as it is.
pub fn push_plain(spans: &mut Vec<Span>, text: &str)
    ensures
        views(final(spans)@) == views(old(spans)@).push(unstyled(text@)),
{
    broadcast use lemma_views_push;

    spans.push(Span { text: text.to_owned(), style: Style::Unstyled });
}

/// No spans.
pub fn no_spans() -> (r: Vec<Span>)
    ensures
        views(r@) == Seq::<SpanView>::empty(),
{
    let r: Vec<Span> = Vec::new();
    assert(views(r@) =~= Seq::empty());
    r
}

// ---------------------------------------------------------------------------
// Streams

/// The lines of a text with their line feeds.
pub open spec fn segments(s: Seq<char>) -> Seq<Seq<char>>
    decreases s.len(),
{
    if s.len() == 0 {
        Seq::empty()
    } else if s.len() == 1 || s[s.len() - 2] == '\n' {
        segments(s.drop_last()).push(seq![s.last()])
    } else {
        let before = segments(s.drop_last());
        before.drop_last().push(before.last().push(s.last()))
    }
}

/// Whether a text ends a line.
pub open spec fn ends_line(s: Seq<char>) -> bool {
    s.len() > 0 && s.last() == '\n'
}

/// How a stream of text looks: a prefix, its color and that of the text.
#[derive(Debug, Clone, Copy)]
pub struct StreamStyle {
    pub prefix: &'static str,
    pub prefix_tint: Tint,
    pub tint: Tint,
}

/// Lines of a stream, each behind the prefix unless it goes on with a line that
/// was begun; and whether the last one ended.
pub open spec fn streamed(
    color: bool,
    style: StreamStyle,
    segments: Seq<Seq<char>>,
    at_line_start: bool,
) -> (Seq<SpanView>, bool)
    decreases segments.len(),
{
    if segments.len() == 0 {
        (Seq::empty(), at_line_start)
    } else {
        let (spans, at) = streamed(color, style, segments.drop_last(), at_line_start);
        let begun = if at {
            spans.push(styled(color, style.prefix@, style.prefix_tint, false))
        } else {
            spans
        };
        (
            begun.push(styled(color, segments.last(), style.tint, false)),
            ends_line(segments.last()),
        )
    }
}

/// A text with a prefix before each line, the first only at the start of one.
pub open spec fn woven(s: Seq<char>, prefix: Seq<char>, at_line_start: bool) -> Seq<char>
    decreases s.len(),
{
    if s.len() == 0 {
        Seq::empty()
    } else {
        let before = woven(s.drop_last(), prefix, at_line_start);
        let at = if s.len() == 1 {
            at_line_start
        } else {
            s[s.len() - 2] == '\n'
        };
        (if at {
            before + prefix
        } else {
            before
        }).push(s.last())
    }
}

proof fn lemma_segments(s: Seq<char>)
    ensures
        s.len() > 0 ==> segments(s).len() > 0,
        s.len() > 0 ==> segments(s).last().len() > 0,
        s.len() > 0 ==> segments(s).last().last() == s.last(),
    decreases s.len(),
{
    if s.len() > 0 {
        lemma_segments(s.drop_last());
    }
}

/// What is written of a stream reads as its text with a prefix before each line.
pub proof fn law_stream_reads_as_its_text(
    color: bool,
    style: StreamStyle,
    s: Seq<char>,
    at_line_start: bool,
)
    ensures
        spans_text(streamed(color, style, segments(s), at_line_start).0) == woven(
            s,
            style.prefix@,
            at_line_start,
        ),
        streamed(color, style, segments(s), at_line_start).1 == (if s.len() == 0 {
            at_line_start
        } else {
            ends_line(s)
        }),
    decreases s.len(),
{
    if s.len() > 0 {
        let front = s.drop_last();
        law_stream_reads_as_its_text(color, style, front, at_line_start);
        lemma_segments(front);
        let all = segments(s);
        let (spans, at) = streamed(color, style, all.drop_last(), at_line_start);
        let mark = styled(color, style.prefix@, style.prefix_tint, false);
        let begun = if at {
            spans.push(mark)
        } else {
            spans
        };
        let last = styled(color, all.last(), style.tint, false);
        assert(begun.push(last).drop_last() =~= begun);
        assert(at ==> begun.drop_last() =~= spans);
        if s.len() == 1 || s[s.len() - 2] == '\n' {
            assert(all.drop_last() =~= segments(front));
            assert(all.last() =~= seq![s.last()]);
            if s.len() == 1 {
                assert(front =~= Seq::empty());
            } else {
                assert(front.last() == '\n');
            }
            let before = woven(front, style.prefix@, at_line_start);
            assert(spans_text(begun) == (if at {
                before + style.prefix@
            } else {
                before
            }));
            assert(spans_text(begun) + seq![s.last()] =~= spans_text(begun).push(s.last()));
        } else {
            let before = segments(front);
            assert(all.drop_last() =~= before.drop_last());
            assert(all.last() == before.last().push(s.last()));
            let older = styled(color, before.last(), style.tint, false);
            assert(begun.push(older).drop_last() =~= begun);
            assert(spans_text(begun.push(older)) == woven(front, style.prefix@, at_line_start));
            assert(spans_text(begun) + before.last().push(s.last()) =~= (spans_text(begun)
                + before.last()).push(s.last()));
        }
    }
}

/// However a text is cut into parts, its lines read the same.
pub proof fn law_stream_parts_join(a: Seq<char>, b: Seq<char>, prefix: Seq<char>, at: bool)
    ensures
        woven(a + b, prefix, at) == woven(a, prefix, at) + woven(
            b,
            prefix,
            if a.len() == 0 {
                at
            } else {
                ends_line(a)
            },
        ),
    decreases b.len(),
{
    let next = if a.len() == 0 {
        at
    } else {
        ends_line(a)
    };
    if b.len() == 0 {
        assert(a + b =~= a);
        assert(woven(a, prefix, at) + Seq::<char>::empty() =~= woven(a, prefix, at));
    } else {
        law_stream_parts_join(a, b.drop_last(), prefix, at);
        assert((a + b).drop_last() =~= a + b.drop_last());
        let before = woven(b.drop_last(), prefix, next);
        let all = woven(a, prefix, at);
        assert((all + before).push(b.last()) =~= all + before.push(b.last()));
        assert((all + before + prefix).push(b.last()) =~= all + (before + prefix).push(b.last()));
    }
}

fn split_segments(s: &str) -> (r: Vec<String>)
    ensures
        texts(r@) == segments(s@),
{
    let x = chars_of(s);
    let mut r: Vec<String> = Vec::new();
    assert(texts(r@) =~= Seq::empty());
    let mut open = String::new();
    let mut i: usize = 0;
    assert(x@.take(0) =~= Seq::empty());
    while i < x.len()
        invariant
            i <= x.len(),
            (open@.len() == 0) == (i == 0 || x@[i - 1] == '\n'),
            segments(x@.take(i as int)) == (if open@.len() == 0 {
                texts(r@)
            } else {
                texts(r@).push(open@)
            }),
        decreases x.len() - i,
    {
        let ghost front = x@.take(i as int);
        let ghost next = x@.take(i + 1);
        let ghost done = texts(r@);
        let ghost begun = open@;
        assert(next.drop_last() =~= front);
        assert(next.last() == x@[i as int]);
        proof {
            if begun.len() > 0 {
                assert(done.push(begun).drop_last() =~= done);
            } else {
                assert(begun.push(x@[i as int]) =~= seq![x@[i as int]]);
            }
        }
        open.push(x[i]);
        assert(segments(next) == done.push(open@));
        if x[i] == '\n' {
            let ended = open.clone();
            r.push(ended);
            assert(texts(r@) =~= done.push(ended@));
            open = String::new();
        }
        i += 1;
    }
    assert(x@.take(x@.len() as int) =~= x@);
    if !open.as_str().is_empty() {
        let ghost done = texts(r@);
        let ghost last = open@;
        r.push(open);
        assert(texts(r@) =~= done.push(last));
    }
    r
}

/// Writes a part of a stream; says whether it ended a line.
pub fn append_stream(
    spans: &mut Vec<Span>,
    color: bool,
    style: StreamStyle,
    delta: &str,
    at_line_start: bool,
) -> (r: bool)
    ensures
        (views(final(spans)@), r) == (
            views(old(spans)@) + streamed(color, style, segments(delta@), at_line_start).0,
            streamed(color, style, segments(delta@), at_line_start).1,
        ),
{
    let parts = split_segments(delta);
    let ghost all = texts(parts@);
    let ghost given = views(spans@);
    let mut at = at_line_start;
    let mut i: usize = 0;
    assert(all.take(0) =~= Seq::empty());
    assert(given + Seq::<SpanView>::empty() =~= given);
    while i < parts.len()
        invariant
            i <= parts.len(),
            all == texts(parts@),
            views(spans@) == given + streamed(
                color,
                style,
                all.take(i as int),
                at_line_start,
            ).0,
            at == streamed(color, style, all.take(i as int), at_line_start).1,
        decreases parts.len() - i,
    {
        let ghost before = streamed(color, style, all.take(i as int), at_line_start).0;
        assert(all.take(i + 1).drop_last() =~= all.take(i as int));
        assert(all.take(i + 1).last() == parts@[i as int]@);
        if at {
            push_styled(spans, color, style.prefix.to_owned(), style.prefix_tint, false);
        }
        push_styled(spans, color, parts[i].clone(), style.tint, false);
        let x = chars_of(&parts[i]);
        at = x.len() > 0 && x[x.len() - 1] == '\n';
        assert(views(spans@) =~= given + streamed(
            color,
            style,
            all.take(i + 1),
            at_line_start,
        ).0);
        i += 1;
    }
    assert(all.take(all.len() as int) =~= all);
    at
}

// ---------------------------------------------------------------------------
// Lines

/// How lines of a block look: the mark before the first, the mark before the
/// others, and how marks and lines are written.
#[derive(Debug, Clone, Copy)]
pub struct LineStyle {
    pub first_mark: &'static str,
    pub mark: &'static str,
    pub mark_tint: Tint,
    pub mark_bold: bool,
    pub tint: Tint,
}

/// Lines, each behind a mark.
pub open spec fn marked_lines(color: bool, style: LineStyle, lines: Seq<Seq<char>>) -> Seq<SpanView>
    decreases lines.len(),
{
    if lines.len() == 0 {
        Seq::empty()
    } else {
        marked_lines(color, style, lines.drop_last()).push(
            styled(
                color,
                if lines.len() == 1 {
                    style.first_mark@
                } else {
                    style.mark@
                },
                style.mark_tint,
                style.mark_bold,
            ),
        ).push(styled(color, lines.last() + "\n"@, style.tint, false))
    }
}

/// Writes lines, each behind a mark.
pub fn append_lines(spans: &mut Vec<Span>, color: bool, style: LineStyle, lines: &Vec<String>)
    ensures
        views(final(spans)@) == views(old(spans)@) + marked_lines(color, style, texts(lines@)),
{
    let ghost all = texts(lines@);
    let ghost given = views(spans@);
    let mut i: usize = 0;
    assert(all.take(0) =~= Seq::empty());
    assert(given + Seq::<SpanView>::empty() =~= given);
    while i < lines.len()
        invariant
            i <= lines.len(),
            all == texts(lines@),
            views(spans@) == given + marked_lines(color, style, all.take(i as int)),
        decreases lines.len() - i,
    {
        assert(all.take(i + 1).drop_last() =~= all.take(i as int));
        assert(all.take(i + 1).last() == lines@[i as int]@);
        let mark = if i == 0 {
            style.first_mark
        } else {
            style.mark
        };
        push_styled(spans, color, mark.to_owned(), style.mark_tint, style.mark_bold);
        push_styled(spans, color, lines[i].clone().concat("\n"), style.tint, false);
        assert(views(spans@) =~= given + marked_lines(color, style, all.take(i + 1)));
        i += 1;
    }
    assert(all.take(all.len() as int) =~= all);
}

/// A note on what is not shown, if anything is not.
pub open spec fn cut_note(color: bool, cut: bool, note: Seq<char>) -> Seq<SpanView> {
    if cut {
        seq![styled(color, note, Tint::DarkYellow, false)]
    } else {
        Seq::empty()
    }
}

fn append_note(spans: &mut Vec<Span>, color: bool, cut: bool, note: String)
    ensures
        views(final(spans)@) == views(old(spans)@) + cut_note(color, cut, note@),
{
    let ghost given = views(spans@);
    let ghost text = note@;
    if cut {
        push_styled(spans, color, note, Tint::DarkYellow, false);
    }
    assert(views(spans@) =~= given + cut_note(color, cut, text));
}

/// How lines of input and output look.
pub open spec fn quoted(tint: Tint) -> LineStyle {
    LineStyle {
        first_mark: "  │ ",
        mark: "  │ ",
        mark_tint: Tint::DarkGrey,
        mark_bold: false,
        tint,
    }
}

fn quoted_style(tint: Tint) -> (r: LineStyle)
    ensures
        r == quoted(tint),
{
    LineStyle {
        first_mark: "  │ ",
        mark: "  │ ",
        mark_tint: Tint::DarkGrey,
        mark_bold: false,
        tint,
    }
}

/// How lines of a command look.
pub open spec fn prompted() -> LineStyle {
    LineStyle {
        first_mark: "  $ ",
        mark: "  > ",
        mark_tint: Tint::DarkCyan,
        mark_bold: true,
        tint: Tint::Reset,
    }
}

/// A block with a heading.
pub open spec fn section(
    color: bool,
    label: Seq<char>,
    content: LimitedView,
    truncated: bool,
) -> Seq<SpanView> {
    seq![styled(color, "  "@ + label + "\n"@, Tint::DarkGrey, true)] + marked_lines(
        color,
        quoted(Tint::Reset),
        content.lines,
    ) + cut_note(color, truncated || content.truncated, "  … "@ + label + " truncated\n"@)
}

/// Writes a block with a heading.
pub fn render_section(
    spans: &mut Vec<Span>,
    color: bool,
    label: &str,
    content: &LimitedText,
    truncated: bool,
)
    ensures
        views(final(spans)@) == views(old(spans)@) + section(color, label@, content@, truncated),
{
    let ghost given = views(spans@);
    push_styled(
        spans,
        color,
        "  ".to_owned().concat(label).concat("\n"),
        Tint::DarkGrey,
        true,
    );
    append_lines(spans, color, quoted_style(Tint::Reset), &content.lines);
    append_note(
        spans,
        color,
        truncated || content.truncated,
        "  … ".to_owned().concat(label).concat(" truncated\n"),
    );
    assert(views(spans@) =~= given + section(color, label@, content@, truncated));
}

/// The block of a command.
pub open spec fn command_block(color: bool, content: LimitedView, truncated: bool) -> Seq<SpanView> {
    marked_lines(color, prompted(), content.lines) + cut_note(
        color,
        truncated || content.truncated,
        "  … command truncated\n"@,
    )
}

/// Writes the block of a command.
pub fn render_bash_command(
    spans: &mut Vec<Span>,
    color: bool,
    content: &LimitedText,
    truncated: bool,
)
    ensures
        views(final(spans)@) == views(old(spans)@) + command_block(color, content@, truncated),
{
    let ghost given = views(spans@);
    let style = LineStyle {
        first_mark: "  $ ",
        mark: "  > ",
        mark_tint: Tint::DarkCyan,
        mark_bold: true,
        tint: Tint::Reset,
    };
    append_lines(spans, color, style, &content.lines);
    append_note(
        spans,
        color,
        truncated || content.truncated,
        "  … command truncated\n".to_owned(),
    );
    assert(views(spans@) =~= given + command_block(color, content@, truncated));
}

/// The block of an output.
pub open spec fn output_block(color: bool, content: LimitedView, tint: Tint) -> Seq<SpanView> {
    marked_lines(color, quoted(tint), content.lines) + cut_note(
        color,
        content.truncated,
        "  … output truncated\n"@,
    )
}

/// Writes the block of an output.
pub fn render_direct_output(spans: &mut Vec<Span>, color: bool, content: &LimitedText, tint: Tint)
    ensures
        views(final(spans)@) == views(old(spans)@) + output_block(color, content@, tint),
{
    let ghost given = views(spans@);
    append_lines(spans, color, quoted_style(tint), &content.lines);
    append_note(spans, color, content.truncated, "  … output truncated\n".to_owned());
    assert(views(spans@) =~= given + output_block(color, content@, tint));
}

/// What stands for an output that is empty.
pub open spec fn no_output(color: bool) -> Seq<SpanView> {
    seq![
        styled(color, "  "@, Tint::DarkGrey, false),
        SpanView {
            text: "(no output)"@,
            style: if color {
                Style::Emphasized(Tint::DarkGrey, Emphasis::Italic)
            } else {
                Style::Unstyled
            },
        },
        unstyled("\n"@),
    ]
}

/// The block of the output of a command.
pub open spec fn bash_block(color: bool, content: LimitedView) -> Seq<SpanView> {
    (if content.lines.len() == 0 {
        no_output(color)
    } else {
        Seq::empty()
    }) + output_block(color, content, Tint::Reset)
}

/// Writes the block of the output of a command.
pub fn render_bash_output(spans: &mut Vec<Span>, color: bool, content: &LimitedText)
    ensures
        views(final(spans)@) == views(old(spans)@) + bash_block(color, content@),
{
    broadcast use lemma_views_push;

    let ghost given = views(spans@);
    assert(content@.lines.len() == content.lines@.len());
    if content.lines.len() == 0 {
        push_styled(spans, color, "  ".to_owned(), Tint::DarkGrey, false);
        let style = if color {
            Style::Emphasized(Tint::DarkGrey, Emphasis::Italic)
        } else {
            Style::Unstyled
        };
        spans.push(Span { text: "(no output)".to_owned(), style });
        push_plain(spans, "\n");
    }
    render_direct_output(spans, color, content, Tint::Reset);
    assert(views(spans@) =~= given + bash_block(color, content@));
}

// ---------------------------------------------------------------------------
// Tool calls

/// The line that names a call.
pub open spec fn tool_header(color: bool, name: Seq<char>, detail: Seq<char>) -> Seq<SpanView> {
    seq![styled(color, "● "@ + name, Tint::DarkYellow, true)] + (if detail.len() > 0 {
        seq![styled(color, "  "@ + detail, Tint::Reset, false)]
    } else {
        Seq::empty()
    }) + seq![unstyled("\n"@)]
}

/// Writes the line that names a call.
pub fn write_tool_header(spans: &mut Vec<Span>, color: bool, name: &str, detail: &str)
    ensures
        views(final(spans)@) == views(old(spans)@) + tool_header(color, name@, detail@),
{
    let ghost given = views(spans@);
    push_styled(spans, color, "● ".to_owned().concat(name), Tint::DarkYellow, true);
    if !detail.is_empty() {
        push_styled(spans, color, "  ".to_owned().concat(detail), Tint::Reset, false);
    }
    push_plain(spans, "\n");
    assert(views(spans@) =~= given + tool_header(color, name@, detail@));
}

/// The line that says what a call came to.
pub open spec fn completion_line(
    color: bool,
    failed: bool,
    name: Seq<char>,
    summary: Seq<char>,
) -> SpanView {
    styled(
        color,
        (if failed {
            "× "@
        } else {
            "✓ "@
        }) + name + "  "@ + summary + "\n"@,
        if failed {
            Tint::DarkRed
        } else {
            Tint::DarkGreen
        },
        true,
    )
}

/// Writes the line that says what a call came to.
pub fn write_tool_completion(
    spans: &mut Vec<Span>,
    color: bool,
    failed: bool,
    name: &str,
    summary: &str,
)
    ensures
        views(final(spans)@) == views(old(spans)@).push(
            completion_line(color, failed, name@, summary@),
        ),
{
    let symbol = if failed {
        "× "
    } else {
        "✓ "
    };
    let tint = if failed {
        Tint::DarkRed
    } else {
        Tint::DarkGreen
    };
    push_styled(
        spans,
        color,
        symbol.to_owned().concat(name).concat("  ").concat(summary).concat("\n"),
        tint,
        true,
    );
}

/// The letter and the path of a file operation.
pub open spec fn operation_parts(line: Seq<char>) -> (Seq<char>, Seq<char>) {
    match cut_first(line, " "@) {
        Some((letter, path)) => (letter, path),
        None => ("?"@, line),
    }
}

/// The color of a file operation.
pub open spec fn operation_tint(letter: Seq<char>) -> Tint {
    if letter == "A"@ {
        Tint::DarkGreen
    } else if letter == "M"@ {
        Tint::DarkYellow
    } else if letter == "D"@ {
        Tint::DarkRed
    } else {
        Tint::Reset
    }
}

/// The file operations of a patch.
pub open spec fn operation_rows(color: bool, lines: Seq<Seq<char>>) -> Seq<SpanView>
    decreases lines.len(),
{
    if lines.len() == 0 {
        Seq::empty()
    } else {
        let (letter, path) = operation_parts(lines.last());
        operation_rows(color, lines.drop_last()).push(
            styled(color, "  "@ + letter + " "@, operation_tint(letter), true),
        ).push(styled(color, path + "\n"@, Tint::Reset, false))
    }
}

/// The lines of a patch that are its diff.
pub open spec fn diff_lines(lines: Seq<Seq<char>>) -> Seq<Seq<char>>
    decreases lines.len(),
{
    if lines.len() == 0 {
        Seq::empty()
    } else if begins(lines.last(), "*** "@) {
        diff_lines(lines.drop_last())
    } else {
        diff_lines(lines.drop_last()).push(lines.last())
    }
}

/// The color of a line of a diff.
pub open spec fn diff_tint(line: Seq<char>) -> Tint {
    if begins(line, "+"@) {
        Tint::DarkGreen
    } else if begins(line, "-"@) {
        Tint::DarkRed
    } else if begins(line, "@"@) {
        Tint::DarkGrey
    } else {
        Tint::Reset
    }
}

/// The lines of a diff.
pub open spec fn diff_rows(color: bool, lines: Seq<Seq<char>>) -> Seq<SpanView> {
    Seq::new(
        lines.len(),
        |i: int| styled(color, "    "@ + lines[i] + "\n"@, diff_tint(lines[i]), false),
    )
}

/// The hunks of a patch, at most a number of lines. The patch text that the
/// model sent is the diff, so nothing can drift between what is shown and what
/// was written.
pub open spec fn diff_block(color: bool, patch: Seq<char>, max_lines: nat) -> Seq<SpanView> {
    let lines = diff_lines(lines_of(patch));
    if max_lines == 0 {
        Seq::empty()
    } else {
        diff_rows(color, some_lines(lines, max_lines, false)) + cut_note(
            color,
            lines.len() > max_lines,
            "    … diff truncated\n"@,
        )
    }
}

/// What is shown of a patch: the files it touches, and its hunks.
pub open spec fn patch_block(
    color: bool,
    patch: Seq<char>,
    max_bytes: nat,
    capture_truncated: bool,
    diff_max_lines: nat,
) -> Seq<SpanView> {
    let operations = limited(
        joined(operation_lines(lines_of(patch)), "\n"@),
        max_bytes,
        12,
        false,
    );
    operation_rows(color, operations.lines) + cut_note(
        color,
        capture_truncated || operations.truncated,
        "  … patch file list truncated\n"@,
    ) + diff_block(color, patch, diff_max_lines)
}

fn append_operations(spans: &mut Vec<Span>, color: bool, lines: &Vec<String>)
    ensures
        views(final(spans)@) == views(old(spans)@) + operation_rows(color, texts(lines@)),
{
    let ghost all = texts(lines@);
    let ghost given = views(spans@);
    let mut i: usize = 0;
    assert(all.take(0) =~= Seq::empty());
    assert(given + Seq::<SpanView>::empty() =~= given);
    while i < lines.len()
        invariant
            i <= lines.len(),
            all == texts(lines@),
            views(spans@) == given + operation_rows(color, all.take(i as int)),
        decreases lines.len() - i,
    {
        assert(all.take(i + 1).drop_last() =~= all.take(i as int));
        assert(all.take(i + 1).last() == lines@[i as int]@);
        let (letter, path) = match split_once(&lines[i], " ") {
            Some((letter, path)) => (letter, path),
            None => ("?".to_owned(), lines[i].clone()),
        };
        let tint = if same(&letter, "A") {
            Tint::DarkGreen
        } else if same(&letter, "M") {
            Tint::DarkYellow
        } else if same(&letter, "D") {
            Tint::DarkRed
        } else {
            Tint::Reset
        };
        push_styled(spans, color, "  ".to_owned().concat(&letter).concat(" "), tint, true);
        push_styled(spans, color, path.concat("\n"), Tint::Reset, false);
        assert(views(spans@) =~= given + operation_rows(color, all.take(i + 1)));
        i += 1;
    }
    assert(all.take(all.len() as int) =~= all);
}

fn take_diff_lines(patch: &str) -> (r: Vec<String>)
    ensures
        texts(r@) == diff_lines(lines_of(patch@)),
{
    let lines = lines(patch);
    let ghost all = texts(lines@);
    let mut r: Vec<String> = Vec::new();
    assert(texts(r@) =~= Seq::empty());
    assert(all.take(0) =~= Seq::empty());
    let mut i: usize = 0;
    while i < lines.len()
        invariant
            i <= lines.len(),
            all == texts(lines@),
            texts(r@) == diff_lines(all.take(i as int)),
        decreases lines.len() - i,
    {
        assert(all.take(i + 1).drop_last() =~= all.take(i as int));
        assert(all.take(i + 1).last() == lines@[i as int]@);
        if !starts_with(&lines[i], "*** ") {
            let ghost before = texts(r@);
            let line = lines[i].clone();
            r.push(line);
            assert(texts(r@) =~= before.push(line@));
        }
        i += 1;
    }
    assert(all.take(all.len() as int) =~= all);
    r
}

fn line_tint(line: &str) -> (r: Tint)
    ensures
        r == diff_tint(line@),
{
    if starts_with(line, "+") {
        Tint::DarkGreen
    } else if starts_with(line, "-") {
        Tint::DarkRed
    } else if starts_with(line, "@") {
        Tint::DarkGrey
    } else {
        Tint::Reset
    }
}

/// Writes the hunks of a patch.
pub fn render_patch_diff(spans: &mut Vec<Span>, color: bool, patch: &str, max_lines: usize)
    ensures
        views(final(spans)@) == views(old(spans)@) + diff_block(color, patch@, max_lines as nat),
{
    let ghost given = views(spans@);
    if max_lines == 0 {
        assert(views(spans@) =~= given + Seq::<SpanView>::empty());
        return;
    }
    let lines = take_diff_lines(patch);
    let ghost all = texts(lines@);
    assert(all.len() == lines@.len());
    let shown: usize = if lines.len() > max_lines {
        max_lines
    } else {
        lines.len()
    };
    let ghost rows = diff_rows(color, some_lines(all, max_lines as nat, false));
    let mut i: usize = 0;
    assert(given + rows.take(0) =~= given);
    while i < shown
        invariant
            i <= shown <= lines.len(),
            shown == rows.len(),
            shown == lines.len() || shown == max_lines,
            shown <= max_lines,
            all == texts(lines@),
            rows == diff_rows(color, some_lines(all, max_lines as nat, false)),
            views(spans@) == given + rows.take(i as int),
        decreases shown - i,
    {
        assert(all[i as int] == lines@[i as int]@);
        assert(some_lines(all, max_lines as nat, false)[i as int] == all[i as int]);
        let tint = line_tint(&lines[i]);
        push_styled(
            spans,
            color,
            "    ".to_owned().concat(&lines[i]).concat("\n"),
            tint,
            false,
        );
        assert(views(spans@) =~= given + rows.take(i + 1));
        i += 1;
    }
    assert(rows.take(shown as int) =~= rows);
    append_note(spans, color, lines.len() > max_lines, "    … diff truncated\n".to_owned());
    assert(views(spans@) =~= given + diff_block(color, patch@, max_lines as nat));
}

/// Writes the files that a patch touches, and its hunks.
pub fn render_patch_operations(
    spans: &mut Vec<Span>,
    color: bool,
    patch: &str,
    max_bytes: usize,
    capture_truncated: bool,
    diff_max_lines: usize,
)
    ensures
        views(final(spans)@) == views(old(spans)@) + patch_block(
            color,
            patch@,
            max_bytes as nat,
            capture_truncated,
            diff_max_lines as nat,
        ),
{
    let ghost given = views(spans@);
    let operations = limited_text(&join(&patch_operations(patch), "\n"), max_bytes, 12, false);
    append_operations(spans, color, &operations.lines);
    append_note(
        spans,
        color,
        capture_truncated || operations.truncated,
        "  … patch file list truncated\n".to_owned(),
    );
    render_patch_diff(spans, color, patch, diff_max_lines);
    assert(views(spans@) =~= given + patch_block(
        color,
        patch@,
        max_bytes as nat,
        capture_truncated,
        diff_max_lines as nat,
    ));
}

// ---------------------------------------------------------------------------
// Messages and plans

/// The lines of a user message.
pub open spec fn user_lines(color: bool, lines: Seq<Seq<char>>) -> Seq<SpanView>
    decreases lines.len(),
{
    if lines.len() == 0 {
        Seq::empty()
    } else {
        user_lines(color, lines.drop_last()).push(
            styled(color, "› "@, Tint::DarkCyan, true),
        ).push(styled(color, lines.last(), Tint::Reset, false)).push(unstyled("\n"@))
    }
}

/// A user message.
pub open spec fn user_block(color: bool, message: Seq<char>) -> Seq<SpanView> {
    if message.len() == 0 {
        seq![unstyled("\n"@)]
    } else {
        user_lines(color, lines_of(message))
    }
}

/// Writes a user message.
pub fn write_user_block(spans: &mut Vec<Span>, color: bool, message: &str)
    ensures
        views(final(spans)@) == views(old(spans)@) + user_block(color, message@),
{
    let ghost given = views(spans@);
    if message.is_empty() {
        push_plain(spans, "\n");
        assert(views(spans@) =~= given + user_block(color, message@));
        return;
    }
    let lines = lines(message);
    let ghost all = texts(lines@);
    let mut i: usize = 0;
    assert(all.take(0) =~= Seq::empty());
    assert(given + Seq::<SpanView>::empty() =~= given);
    while i < lines.len()
        invariant
            i <= lines.len(),
            all == texts(lines@),
            views(spans@) == given + user_lines(color, all.take(i as int)),
        decreases lines.len() - i,
    {
        assert(all.take(i + 1).drop_last() =~= all.take(i as int));
        assert(all.take(i + 1).last() == lines@[i as int]@);
        push_styled(spans, color, "› ".to_owned(), Tint::DarkCyan, true);
        push_styled(spans, color, lines[i].clone(), Tint::Reset, false);
        push_plain(spans, "\n");
        assert(views(spans@) =~= given + user_lines(color, all.take(i + 1)));
        i += 1;
    }
    assert(all.take(all.len() as int) =~= all);
}

/// One file in a rewind plan: what will happen to it, and why.
#[derive(Debug)]
pub struct RevertLine {
    /// Imperative verb, so the list reads as the plan it is rather than as
    /// history: `delete`, `restore`, `recreate`, `keep`.
    pub action: String,
    pub path: String,
    pub detail: String,
    pub blocked: bool,
}

/// The model of a [`RevertLine`].
pub struct RevertView {
    pub action: Seq<char>,
    pub path: Seq<char>,
    pub detail: Seq<char>,
    pub blocked: bool,
}

impl View for RevertLine {
    type V = RevertView;

    open spec fn view(&self) -> RevertView {
        RevertView {
            action: self.action@,
            path: self.path@,
            detail: self.detail@,
            blocked: self.blocked,
        }
    }
}

/// The color of what happens to a file.
pub open spec fn revert_tint(line: RevertView) -> Tint {
    if line.blocked {
        Tint::DarkGrey
    } else if line.action == "delete"@ {
        Tint::DarkRed
    } else if line.action == "recreate"@ {
        Tint::DarkGreen
    } else {
        Tint::DarkYellow
    }
}

/// The length of the longest verb of a plan, in bytes.
pub open spec fn action_width(lines: Seq<RevertView>) -> nat
    decreases lines.len(),
{
    if lines.len() == 0 {
        0
    } else {
        let before = action_width(lines.drop_last());
        let last = bytes_of(lines.last().action);
        if last > before {
            last
        } else {
            before
        }
    }
}

/// A line of a plan.
pub open spec fn revert_row(color: bool, line: RevertView, width: nat) -> Seq<SpanView> {
    seq![
        styled(color, "    "@, Tint::Reset, false),
        styled(color, line.action, revert_tint(line), true),
        styled(
            color,
            repeated(" "@, (width - bytes_of(line.action) + 1) as nat),
            Tint::Reset,
            false,
        ),
        styled(
            color,
            line.path,
            if line.blocked {
                Tint::DarkGrey
            } else {
                Tint::Reset
            },
            false,
        ),
        styled(color, "  "@ + line.detail + "\n"@, Tint::DarkGrey, false),
    ]
}

/// The lines of a plan, their paths below one another.
pub open spec fn revert_rows(color: bool, lines: Seq<RevertView>, width: nat) -> Seq<SpanView>
    decreases lines.len(),
{
    if lines.len() == 0 {
        Seq::empty()
    } else {
        revert_rows(color, lines.drop_last(), width) + revert_row(color, lines.last(), width)
    }
}

/// A plan: one line for each file.
pub open spec fn revert_plan(color: bool, lines: Seq<RevertView>) -> Seq<SpanView> {
    revert_rows(color, lines, action_width(lines))
}

proof fn lemma_action_width(lines: Seq<RevertView>, i: int)
    requires
        0 <= i < lines.len(),
    ensures
        bytes_of(lines[i].action) <= action_width(lines),
    decreases lines.len(),
{
    if i < lines.len() - 1 {
        lemma_action_width(lines.drop_last(), i);
    }
}

fn revert_width(lines: &Vec<RevertLine>) -> (r: usize)
    ensures
        r == action_width(views(lines@)),
{
    let ghost all = views(lines@);
    let mut width: usize = 0;
    let mut i: usize = 0;
    assert(all.take(0) =~= Seq::empty());
    while i < lines.len()
        invariant
            i <= lines.len(),
            all == views(lines@),
            width == action_width(all.take(i as int)),
        decreases lines.len() - i,
    {
        assert(all.take(i + 1).drop_last() =~= all.take(i as int));
        assert(all.take(i + 1).last() == lines@[i as int]@);
        let n: usize = byte_len(&lines[i].action);
        if n > width {
            width = n;
        }
        i += 1;
    }
    assert(all.take(all.len() as int) =~= all);
    width
}

impl RevertLine {
    /// The color of what happens to the file.
    pub fn tint(&self) -> (r: Tint)
        ensures
            r == revert_tint(self@),
    {
        if self.blocked {
            Tint::DarkGrey
        } else if same(&self.action, "delete") {
            Tint::DarkRed
        } else if same(&self.action, "recreate") {
            Tint::DarkGreen
        } else {
            Tint::DarkYellow
        }
    }
}

/// Writes a plan.
pub fn write_revert_plan(spans: &mut Vec<Span>, color: bool, lines: &Vec<RevertLine>)
    ensures
        views(final(spans)@) == views(old(spans)@) + revert_plan(color, views(lines@)),
{
    let ghost given = views(spans@);
    let ghost all = views(lines@);
    let width: usize = revert_width(lines);
    let mut i: usize = 0;
    assert(all.take(0) =~= Seq::empty());
    assert(given + Seq::<SpanView>::empty() =~= given);
    while i < lines.len()
        invariant
            i <= lines.len(),
            all == views(lines@),
            width == action_width(all),
            views(spans@) == given + revert_rows(color, all.take(i as int), width as nat),
        decreases lines.len() - i,
    {
        assert(all.take(i + 1).drop_last() =~= all.take(i as int));
        assert(all.take(i + 1).last() == lines@[i as int]@);
        proof {
            lemma_action_width(all, i as int);
        }
        let line = &lines[i];
        let room: usize = width - byte_len(&line.action);
        let gap = repeat(" ", room).concat(" ");
        assert(gap@ == repeated(" "@, (room + 1) as nat));
        push_styled(spans, color, "    ".to_owned(), Tint::Reset, false);
        push_styled(spans, color, line.action.clone(), line.tint(), true);
        push_styled(spans, color, gap, Tint::Reset, false);
        push_styled(
            spans,
            color,
            line.path.clone(),
            if line.blocked {
                Tint::DarkGrey
            } else {
                Tint::Reset
            },
            false,
        );
        push_styled(
            spans,
            color,
            "  ".to_owned().concat(&line.detail).concat("\n"),
            Tint::DarkGrey,
            false,
        );
        assert(views(spans@) =~= given + revert_rows(color, all.take(i + 1), width as nat));
        i += 1;
    }
    assert(all.take(all.len() as int) =~= all);
}

// ---------------------------------------------------------------------------
// What the blocks say

/// A text is streamed as its lines are, each with the prefix before it.
pub proof fn law_lines_are_streamed_with_their_prefix(
    line: Seq<char>,
    rest: Seq<char>,
    prefix: Seq<char>,
)
    requires
        forall|i: int| 0 <= i < line.len() ==> #[trigger] line[i] != '\n',
    ensures
        line.len() > 0 ==> woven(line, prefix, true) == prefix + line,
        woven(line, prefix, false) == line,
        woven(line.push('\n') + rest, prefix, true) == prefix + line.push('\n') + woven(
            rest,
            prefix,
            true,
        ),
    decreases line.len(),
{
    lemma_woven_line(line, prefix, true);
    lemma_woven_line(line, prefix, false);
    let whole = line.push('\n');
    law_stream_parts_join(whole, rest, prefix, true);
    assert(whole.drop_last() =~= line);
    if line.len() == 0 {
        assert(woven(line, prefix, true) =~= Seq::empty());
        assert((Seq::<char>::empty() + prefix).push('\n') =~= prefix + whole);
    } else {
        assert(whole[whole.len() - 2] == line[line.len() - 1]);
        assert((prefix + line).push('\n') =~= prefix + whole);
    }
}

proof fn lemma_woven_line(line: Seq<char>, prefix: Seq<char>, at: bool)
    requires
        forall|i: int| 0 <= i < line.len() ==> #[trigger] line[i] != '\n',
    ensures
        line.len() > 0 && at ==> woven(line, prefix, at) == prefix + line,
        !at ==> woven(line, prefix, at) == line,
    decreases line.len(),
{
    if line.len() > 0 {
        let front = line.drop_last();
        assert forall|i: int| 0 <= i < front.len() implies #[trigger] front[i] != '\n' by {
            assert(line[i] == front[i]);
        }
        lemma_woven_line(front, prefix, at);
        if line.len() == 1 {
            assert(woven(front, prefix, at) =~= Seq::empty());
            assert((Seq::<char>::empty() + prefix).push(line.last()) =~= prefix + line);
            assert(Seq::<char>::empty().push(line.last()) =~= line);
        } else {
            assert(line[line.len() - 2] != '\n');
            assert((prefix + front).push(line.last()) =~= prefix + line);
            assert(front.push(line.last()) =~= line);
        }
    } else {
        assert(line =~= Seq::empty());
    }
}

proof fn lemma_marked_lines(color: bool, style: LineStyle, lines: Seq<Seq<char>>)
    ensures
        marked_lines(color, style, lines).len() == 2 * lines.len(),
    decreases lines.len(),
{
    if lines.len() > 0 {
        lemma_marked_lines(color, style, lines.drop_last());
    }
}

/// Each line of a block stands after its mark, in order, and ends with a line
/// feed; only the first has a mark of its own.
pub proof fn law_lines_stand_after_their_marks(
    color: bool,
    style: LineStyle,
    lines: Seq<Seq<char>>,
    i: int,
)
    requires
        0 <= i < lines.len(),
    ensures
        marked_lines(color, style, lines).len() == 2 * lines.len(),
        i == 0 ==> marked_lines(color, style, lines)[2 * i].text == style.first_mark@,
        i > 0 ==> marked_lines(color, style, lines)[2 * i].text == style.mark@,
        marked_lines(color, style, lines)[2 * i + 1].text == lines[i] + "\n"@,
    decreases lines.len(),
{
    lemma_marked_lines(color, style, lines);
    lemma_marked_lines(color, style, lines.drop_last());
    if i < lines.len() - 1 {
        law_lines_stand_after_their_marks(color, style, lines.drop_last(), i);
    }
}

/// What is left out is told of, and only that.
pub proof fn law_what_is_left_out_is_told(color: bool, content: LimitedView, truncated: bool)
    ensures
        (truncated || content.truncated) ==> {
            &&& command_block(color, content, truncated).len() == 2 * content.lines.len() + 1
            &&& command_block(color, content, truncated).last().text == "  … command truncated\n"@
        },
        !(truncated || content.truncated) ==> command_block(color, content, truncated).len() == 2
            * content.lines.len(),
        content.truncated ==> {
            &&& output_block(color, content, Tint::Reset).len() == 2 * content.lines.len() + 1
            &&& output_block(color, content, Tint::Reset).last().text
                == "  … output truncated\n"@
        },
        !content.truncated ==> output_block(color, content, Tint::Reset).len() == 2
            * content.lines.len(),
        content.lines.len() == 0 ==> bash_block(color, content).len() >= 3 && bash_block(
            color,
            content,
        )[1].text == "(no output)"@,
        content.lines.len() > 0 ==> bash_block(color, content) == output_block(
            color,
            content,
            Tint::Reset,
        ),
        forall|i: int|
            0 <= i < 2 * content.lines.len() ==> #[trigger] command_block(
                color,
                content,
                truncated,
            )[i] == marked_lines(color, prompted(), content.lines)[i],
        forall|i: int|
            0 <= i < 2 * content.lines.len() ==> #[trigger] output_block(
                color,
                content,
                Tint::Reset,
            )[i] == marked_lines(color, quoted(Tint::Reset), content.lines)[i],
{
    lemma_marked_lines(color, prompted(), content.lines);
    lemma_marked_lines(color, quoted(Tint::Reset), content.lines);
    let block = output_block(color, content, Tint::Reset);
    assert(Seq::<SpanView>::empty() + block =~= block);
}

/// A call that failed is marked as such, and one that did not is not; the line
/// names the tool and says what came of it.
pub proof fn law_outcomes_are_marked(color: bool, name: Seq<char>, summary: Seq<char>)
    ensures
        completion_line(color, true, name, summary).text == "× "@ + name + "  "@ + summary
            + "\n"@,
        completion_line(color, false, name, summary).text == "✓ "@ + name + "  "@ + summary
            + "\n"@,
        completion_line(true, true, name, summary).style == Style::Emphasized(
            Tint::DarkRed,
            Emphasis::Bold,
        ),
        completion_line(true, false, name, summary).style == Style::Emphasized(
            Tint::DarkGreen,
            Emphasis::Bold,
        ),
        spans_text(tool_header(color, name, Seq::empty())) == "● "@ + name + "\n"@,
        summary.len() > 0 ==> spans_text(tool_header(color, name, summary)) == "● "@ + name
            + "  "@ + summary + "\n"@,
{
    reveal_with_fuel(spans_text, 4);
    let plain = tool_header(color, name, Seq::empty());
    assert(plain.drop_last().drop_last() =~= Seq::empty());
    assert(spans_text(plain) =~= "● "@ + name + "\n"@);
    let full = tool_header(color, name, summary);
    if summary.len() > 0 {
        assert(full.drop_last().drop_last().drop_last() =~= Seq::empty());
        assert(spans_text(full) =~= "● "@ + name + "  "@ + summary + "\n"@);
    }
}

/// What is shown of the lines of a patch: those that are no headings.
pub open spec fn shown_of_patch() -> spec_fn(Seq<char>) -> Option<Seq<char>> {
    |line: Seq<char>|
        if begins(line, "*** "@) {
            None
        } else {
            Some(line)
        }
}

/// The lines of a patch are shown in order but for its headings, the first as many
/// as there may be, each as it is; what is added is green, what is removed red.
pub proof fn law_diffs_are_shown(
    color: bool,
    patch: Seq<char>,
    max_lines: nat,
    line: Seq<char>,
)
    requires
        max_lines > 0,
    ensures
        picks(lines_of(patch), diff_lines(lines_of(patch)), shown_of_patch()),
        ({
            let lines = diff_lines(lines_of(patch));
            let n = if lines.len() < max_lines {
                lines.len()
            } else {
                max_lines
            };
            let block = diff_block(color, patch, max_lines);
            &&& block.len() == n + (if lines.len() > max_lines {
                1nat
            } else {
                0
            })
            &&& forall|i: int|
                0 <= i < n ==> (#[trigger] block[i]).text == "    "@ + lines[i] + "\n"@
            &&& lines.len() > max_lines ==> block.last().text == "    … diff truncated\n"@
        }),
        diff_block(color, patch, 0) == Seq::<SpanView>::empty(),
        diff_tint(seq!['+'] + line) == Tint::DarkGreen,
        diff_tint(seq!['-'] + line) == Tint::DarkRed,
        diff_tint(seq!['@'] + line) == Tint::DarkGrey,
        diff_tint(seq![' '] + line) == Tint::Reset,
{
    lemma_diff_lines(lines_of(patch));
    reveal_strlit("+");
    reveal_strlit("-");
    reveal_strlit("@");
    let a = seq!['+'] + line;
    let b = seq!['-'] + line;
    let c = seq!['@'] + line;
    let d = seq![' '] + line;
    assert(a.subrange(0, 1) =~= "+"@);
    assert(b.subrange(0, 1) =~= "-"@);
    assert(c.subrange(0, 1) =~= "@"@);
    assert(b.subrange(0, 1)[0] == '-');
    assert(c.subrange(0, 1)[0] == '@');
    assert(d.subrange(0, 1)[0] == ' ');
}

proof fn lemma_diff_lines(lines: Seq<Seq<char>>)
    ensures
        picks(lines, diff_lines(lines), shown_of_patch()),
    decreases lines.len(),
{
    if lines.len() == 0 {
        lemma_picks_nothing(lines, shown_of_patch());
    } else {
        lemma_diff_lines(lines.drop_last());
        lemma_picks_last(lines, diff_lines(lines.drop_last()), shown_of_patch());
    }
}

/// Each operation of a patch has a row with its letter and its path, in order.
pub proof fn law_operations_have_their_rows(color: bool, lines: Seq<Seq<char>>)
    ensures
        operation_rows(color, lines).len() == 2 * lines.len(),
        forall|i: int|
            #![trigger lines[i]]
            0 <= i < lines.len() ==> {
                let rows = operation_rows(color, lines);
                let letter = operation_parts(lines[i]).0;
                &&& rows[2 * i].text == "  "@ + letter + " "@
                &&& rows[2 * i + 1].text == operation_parts(lines[i]).1 + "\n"@
            },
    decreases lines.len(),
{
    if lines.len() > 0 {
        let front = lines.drop_last();
        law_operations_have_their_rows(color, front);
        let rows = operation_rows(color, lines);
        let before = operation_rows(color, front);
        assert forall|i: int| #![trigger lines[i]] 0 <= i < lines.len() implies {
            let letter = operation_parts(lines[i]).0;
            &&& rows[2 * i].text == "  "@ + letter + " "@
            &&& rows[2 * i + 1].text == operation_parts(lines[i]).1 + "\n"@
        } by {
            if i < front.len() {
                assert(front[i] == lines[i]);
                assert(rows[2 * i] == before[2 * i]);
                assert(rows[2 * i + 1] == before[2 * i + 1]);
            }
        }
    }
}

proof fn lemma_user_lines(color: bool, lines: Seq<Seq<char>>)
    ensures
        user_lines(color, lines).len() == 3 * lines.len(),
    decreases lines.len(),
{
    if lines.len() > 0 {
        lemma_user_lines(color, lines.drop_last());
    }
}

/// What the user says is shown line by line, each after its mark.
pub proof fn law_messages_are_shown_line_by_line(color: bool, message: Seq<char>, i: int)
    requires
        0 <= i < lines_of(message).len(),
        message.len() > 0,
    ensures
        user_block(color, message).len() == 3 * lines_of(message).len(),
        user_block(color, message)[3 * i].text == "› "@,
        user_block(color, message)[3 * i + 1].text == lines_of(message)[i],
        user_block(color, message)[3 * i + 2].text == "\n"@,
{
    lemma_user_line(color, lines_of(message), i);
}

proof fn lemma_user_line(color: bool, lines: Seq<Seq<char>>, i: int)
    requires
        0 <= i < lines.len(),
    ensures
        user_lines(color, lines).len() == 3 * lines.len(),
        user_lines(color, lines)[3 * i].text == "› "@,
        user_lines(color, lines)[3 * i + 1].text == lines[i],
        user_lines(color, lines)[3 * i + 2].text == "\n"@,
    decreases lines.len(),
{
    lemma_user_lines(color, lines);
    lemma_user_lines(color, lines.drop_last());
    if i < lines.len() - 1 {
        lemma_user_line(color, lines.drop_last(), i);
    }
}

/// The rows of a plan have their paths in one column: each action takes as much
/// room as the longest, and one space more.
pub proof fn law_plans_are_aligned(color: bool, lines: Seq<RevertView>, i: int)
    requires
        0 <= i < lines.len(),
    ensures
        revert_plan(color, lines).len() == 5 * lines.len(),
        bytes_of(lines[i].action) <= action_width(lines),
        revert_plan(color, lines)[5 * i].text == "    "@,
        revert_plan(color, lines)[5 * i + 1].text == lines[i].action,
        bytes_of(lines[i].action) + revert_plan(color, lines)[5 * i + 2].text.len()
            == action_width(lines) + 1,
        revert_plan(color, lines)[5 * i + 3].text == lines[i].path,
        revert_plan(color, lines)[5 * i + 4].text == "  "@ + lines[i].detail + "\n"@,
        exists|k: int|
            0 <= k < lines.len() && bytes_of((#[trigger] lines[k]).action) == action_width(lines),
{
    lemma_widest_action(lines);
    lemma_revert_rows(color, lines, action_width(lines), i);
}

proof fn lemma_widest_action(lines: Seq<RevertView>)
    ensures
        forall|i: int|
            0 <= i < lines.len() ==> bytes_of((#[trigger] lines[i]).action) <= action_width(lines),
        lines.len() > 0 ==> exists|i: int|
            0 <= i < lines.len() && bytes_of((#[trigger] lines[i]).action) == action_width(lines),
    decreases lines.len(),
{
    if lines.len() > 0 {
        let front = lines.drop_last();
        lemma_widest_action(front);
        assert forall|i: int| 0 <= i < lines.len() implies bytes_of((#[trigger] lines[i]).action)
            <= action_width(lines) by {
            if i < front.len() {
                assert(front[i] == lines[i]);
            }
        }
        let last = lines.len() - 1;
        if bytes_of(lines[last].action) == action_width(lines) {
        } else {
            let i = choose|i: int|
                0 <= i < front.len() && bytes_of((#[trigger] front[i]).action) == action_width(
                    front,
                );
            assert(lines[i] == front[i]);
        }
    }
}

proof fn lemma_revert_rows_count(color: bool, lines: Seq<RevertView>, width: nat)
    ensures
        revert_rows(color, lines, width).len() == 5 * lines.len(),
    decreases lines.len(),
{
    if lines.len() > 0 {
        lemma_revert_rows_count(color, lines.drop_last(), width);
    }
}

proof fn lemma_revert_rows(color: bool, lines: Seq<RevertView>, width: nat, i: int)
    requires
        0 <= i < lines.len(),
        bytes_of(lines[i].action) <= width,
    ensures
        revert_rows(color, lines, width).len() == 5 * lines.len(),
        revert_rows(color, lines, width)[5 * i].text == "    "@,
        revert_rows(color, lines, width)[5 * i + 1].text == lines[i].action,
        bytes_of(lines[i].action) + revert_rows(color, lines, width)[5 * i + 2].text.len() == width
            + 1,
        revert_rows(color, lines, width)[5 * i + 3].text == lines[i].path,
        revert_rows(color, lines, width)[5 * i + 4].text == "  "@ + lines[i].detail + "\n"@,
    decreases lines.len(),
{
    let front = lines.drop_last();
    lemma_revert_rows_count(color, lines, width);
    lemma_revert_rows_count(color, front, width);
    let rows = revert_rows(color, lines, width);
    let before = revert_rows(color, front, width);
    if i < front.len() {
        lemma_revert_rows(color, front, width, i);
        assert(rows[5 * i] == before[5 * i]);
        assert(rows[5 * i + 1] == before[5 * i + 1]);
        assert(rows[5 * i + 2] == before[5 * i + 2]);
        assert(rows[5 * i + 3] == before[5 * i + 3]);
        assert(rows[5 * i + 4] == before[5 * i + 4]);
    } else {
        let row = revert_row(color, lines.last(), width);
        lemma_spaces((width - bytes_of(lines.last().action) + 1) as nat);
        assert(rows[5 * i] == row[0]);
        assert(rows[5 * i + 1] == row[1]);
        assert(rows[5 * i + 2] == row[2]);
        assert(rows[5 * i + 3] == row[3]);
        assert(rows[5 * i + 4] == row[4]);
    }
}

proof fn lemma_spaces(n: nat)
    ensures
        repeated(" "@, n).len() == n,
    decreases n,
{
    reveal_strlit(" ");
    if n > 0 {
        lemma_spaces((n - 1) as nat);
    }
}

} // verus!
