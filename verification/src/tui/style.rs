//! Styled text.
use vstd::prelude::*;
use vstd::string::*;

use crate::text::{join, joined, texts, views};

verus! {

/// A color of the transcript.
#[derive(Debug, Clone, Copy, PartialEq, Eq, Structural)]
pub enum Tint {
    Reset,
    DarkGrey,
    DarkRed,
    DarkGreen,
    DarkYellow,
    DarkCyan,
}

/// How a text stands out.
#[derive(Debug, Clone, Copy, PartialEq, Eq, Structural)]
pub enum Emphasis {
    Bold,
    Italic,
}

/// How a text is written.
#[derive(Debug, Clone, Copy, PartialEq, Eq, Structural)]
pub enum Style {
    /// As it is.
    Unstyled,
    Tinted(Tint),
    Emphasized(Tint, Emphasis),
}

/// A text and how it is written.
#[derive(Debug)]
pub struct Span {
    pub text: String,
    pub style: Style,
}

/// The model of a [`Span`].
pub struct SpanView {
    pub text: Seq<char>,
    pub style: Style,
}

impl View for Span {
    type V = SpanView;

    open spec fn view(&self) -> SpanView {
        SpanView { text: self.text@, style: self.style }
    }
}

impl Clone for Span {
    fn clone(&self) -> (r: Span)
        ensures
            r@ == self@,
    {
        Span { text: self.text.clone(), style: self.style }
    }
}

/// A text that is written as it is.
pub open spec fn unstyled(text: Seq<char>) -> SpanView {
    SpanView { text, style: Style::Unstyled }
}

/// A text with a color and in bold, where colors are shown.
pub open spec fn styled(color: bool, text: Seq<char>, tint: Tint, bold: bool) -> SpanView {
    SpanView {
        text,
        style: if !color {
            Style::Unstyled
        } else if bold {
            Style::Emphasized(tint, Emphasis::Bold)
        } else {
            Style::Tinted(tint)
        },
    }
}

/// The texts of spans run together.
pub open spec fn spans_text(spans: Seq<SpanView>) -> Seq<char>
    decreases spans.len(),
{
    if spans.len() == 0 {
        Seq::empty()
    } else {
        spans_text(spans.drop_last()) + spans.last().text
    }
}

/// The parameters of the sequence that sets a color.
pub open spec fn tint_code(tint: Tint) -> Seq<char> {
    match tint {
        Tint::Reset => "39"@,
        Tint::DarkGrey => "38;5;8"@,
        Tint::DarkRed => "38;5;1"@,
        Tint::DarkGreen => "38;5;2"@,
        Tint::DarkYellow => "38;5;3"@,
        Tint::DarkCyan => "38;5;6"@,
    }
}

/// The parameter of the sequence that sets an emphasis.
pub open spec fn emphasis_code(emphasis: Emphasis) -> Seq<char> {
    match emphasis {
        Emphasis::Bold => "1"@,
        Emphasis::Italic => "3"@,
    }
}

/// A text in a color. The environment can ask for no colors at all; the
/// sequences then have no parameters.
pub open spec fn tinted_text(text: Seq<char>, tint: Tint, colors: bool) -> Seq<char> {
    if colors {
        "\x1b["@ + tint_code(tint) + "m"@ + text + "\x1b[39m"@
    } else {
        "\x1b[m"@ + text + "\x1b[m"@
    }
}

/// A text in a color and with an emphasis.
pub open spec fn emphasized_text(
    text: Seq<char>,
    tint: Tint,
    emphasis: Emphasis,
    colors: bool,
) -> Seq<char> {
    (if colors {
        "\x1b["@ + tint_code(tint) + "m"@
    } else {
        "\x1b[m"@
    }) + "\x1b["@ + emphasis_code(emphasis) + "m"@ + text + "\x1b[0m"@
}

/// Whether a text shows a span.
pub open spec fn shows(text: Seq<char>, span: SpanView) -> bool {
    match span.style {
        Style::Unstyled => text == span.text,
        Style::Tinted(tint) => text == tinted_text(span.text, tint, true) || text == tinted_text(
            span.text,
            tint,
            false,
        ),
        Style::Emphasized(tint, emphasis) => text == emphasized_text(
            span.text,
            tint,
            emphasis,
            true,
        ) || text == emphasized_text(span.text, tint, emphasis, false),
    }
}

/// Whether a text shows spans one after another.
pub open spec fn shows_all(text: Seq<char>, spans: Seq<SpanView>) -> bool {
    exists|parts: Seq<Seq<char>>| #[trigger] shown_parts(parts, spans) && text == joined(parts, ""@)
}

/// Whether texts show spans one for one.
pub open spec fn shown_parts(parts: Seq<Seq<char>>, spans: Seq<SpanView>) -> bool {
    &&& parts.len() == spans.len()
    &&& forall|i: int| 0 <= i < spans.len() ==> shows(#[trigger] parts[i], spans[i])
}

/// Displays `crossterm::style::Stylize::with` of a text: the sequence that sets
/// the color, the text, and the one that resets it. `crossterm` leaves out the
/// sequences' parameters where `NO_COLOR` asks it to, so either form can come
/// back. That is on terminals that take ANSI sequences.
#[verifier::external_body]
fn paint(text: &str, tint: Tint) -> (r: String)
    ensures
        r@ == tinted_text(text@, tint, true) || r@ == tinted_text(text@, tint, false),
{
    let color = match tint {
        Tint::Reset => crossterm::style::Color::Reset,
        Tint::DarkGrey => crossterm::style::Color::DarkGrey,
        Tint::DarkRed => crossterm::style::Color::DarkRed,
        Tint::DarkGreen => crossterm::style::Color::DarkGreen,
        Tint::DarkYellow => crossterm::style::Color::DarkYellow,
        Tint::DarkCyan => crossterm::style::Color::DarkCyan,
    };
    format!("{}", crossterm::style::Stylize::with(text, color))
}

/// Displays `crossterm::style::Stylize::attribute` of a text that has a color:
/// the sequences that set the color and the attribute, the text, and the one
/// that resets both. `crossterm` leaves out the color's parameters where
/// `NO_COLOR` asks it to, so either form can come back. That is on terminals
/// that take ANSI sequences.
#[verifier::external_body]
fn paint_emphasized(text: &str, tint: Tint, emphasis: Emphasis) -> (r: String)
    ensures
        r@ == emphasized_text(text@, tint, emphasis, true) || r@ == emphasized_text(
            text@,
            tint,
            emphasis,
            false,
        ),
{
    let color = match tint {
        Tint::Reset => crossterm::style::Color::Reset,
        Tint::DarkGrey => crossterm::style::Color::DarkGrey,
        Tint::DarkRed => crossterm::style::Color::DarkRed,
        Tint::DarkGreen => crossterm::style::Color::DarkGreen,
        Tint::DarkYellow => crossterm::style::Color::DarkYellow,
        Tint::DarkCyan => crossterm::style::Color::DarkCyan,
    };
    let attribute = match emphasis {
        Emphasis::Bold => crossterm::style::Attribute::Bold,
        Emphasis::Italic => crossterm::style::Attribute::Italic,
    };
    let styled = crossterm::style::Stylize::with(text, color);
    format!("{}", crossterm::style::Stylize::attribute(styled, attribute))
}

/// A span as it is written to a terminal.
pub fn show_span(span: &Span) -> (r: String)
    ensures
        shows(r@, span@),
{
    match span.style {
        Style::Unstyled => span.text.clone(),
        Style::Tinted(tint) => paint(&span.text, tint),
        Style::Emphasized(tint, emphasis) => paint_emphasized(&span.text, tint, emphasis),
    }
}

/// Spans as they are written to a terminal, one after another.
pub fn show_spans(spans: &Vec<Span>) -> (r: String)
    ensures
        shows_all(r@, views(spans@)),
{
    let ghost all = views(spans@);
    let mut parts: Vec<String> = Vec::new();
    let mut i: usize = 0;
    while i < spans.len()
        invariant
            i <= spans.len(),
            all == views(spans@),
            texts(parts@).len() == i,
            forall|k: int| 0 <= k < i ==> shows(#[trigger] texts(parts@)[k], all[k]),
        decreases spans.len() - i,
    {
        assert(all[i as int] == spans@[i as int]@);
        let ghost before = texts(parts@);
        let part = show_span(&spans[i]);
        parts.push(part);
        assert(texts(parts@) =~= before.push(part@));
        i += 1;
    }
    assert(shown_parts(texts(parts@), all));
    join(&parts, "")
}

} // verus!
