//! The line editor: what each key does, what is shown beside the line, and what
//! a finished line means.
use vstd::prelude::*;
use vstd::string::*;

use crate::text::{
    after_prefix, begins, byte_len, bytes_of, chars_of, ends, head_bytes, head_within,
    law_heads_are_as_long_as_fits, law_prefixes, lemma_bytes_grow, maybe, outcome, repeat,
    repeated, same, starts_with, strip_prefix, text_between, texts, trim, trimmed, views,
};
use crate::tui::input::{
    DirEntry, EntryView, PaletteKind, TokenView, after_mark, candidates, directory_of,
    palette_token, token_of, typed_directory, unescape_mention, unescape_state, unmarked,
};
use crate::tui::palette::{
    Direction, PaletteSelection, SelectionView, anchored, clamped, filtered, highlighted,
    navigated, requested, rows_for, show_palette, shown_palette,
};
use crate::tui::width::{columns, width_of};

verus! {

/// How often a line is answered.
#[derive(Debug, Clone, Copy, PartialEq, Eq, Structural)]
pub enum InputMode {
    Once,
    Multi,
}

/// What the user asks for.
#[derive(Debug, PartialEq, Eq)]
pub enum InputAction {
    Submit(String, InputMode),
    Rewind,
    ToggleReasoning,
    Interrupt,
    Eof,
}

/// The model of an [`InputAction`].
pub enum ActionView {
    Submit(Seq<char>, InputMode),
    Rewind,
    ToggleReasoning,
    Interrupt,
    Eof,
}

impl View for InputAction {
    type V = ActionView;

    open spec fn view(&self) -> ActionView {
        match self {
            InputAction::Submit(line, mode) => ActionView::Submit(line@, *mode),
            InputAction::Rewind => ActionView::Rewind,
            InputAction::ToggleReasoning => ActionView::ToggleReasoning,
            InputAction::Interrupt => ActionView::Interrupt,
            InputAction::Eof => ActionView::Eof,
        }
    }
}

impl Clone for InputAction {
    fn clone(&self) -> (r: InputAction)
        ensures
            r@ == self@,
    {
        match self {
            InputAction::Submit(line, mode) => InputAction::Submit(line.clone(), *mode),
            InputAction::Rewind => InputAction::Rewind,
            InputAction::ToggleReasoning => InputAction::ToggleReasoning,
            InputAction::Interrupt => InputAction::Interrupt,
            InputAction::Eof => InputAction::Eof,
        }
    }
}

/// How reading a line ended.
#[derive(Debug)]
pub enum ReadOutcome {
    Line(String),
    Interrupted,
    Eof,
}

/// The keys that mean something to the editor.
#[derive(Debug, Clone, Copy, PartialEq, Eq, Structural)]
pub enum Key {
    EscapeTwice,
    AltEscape,
    Escape,
    Control(char),
    Tab,
    Enter,
    Up,
    Down,
}

/// What a key does.
#[derive(Debug, Clone, Copy, PartialEq, Eq, Structural)]
pub enum KeyAction {
    Rewind,
    Abandon,
    Reasoning,
    Accept,
    Submit,
    Previous,
    Next,
}

/// What the line editor is told to do.
#[derive(Debug, Clone, Copy, PartialEq, Eq, Structural)]
pub enum KeyCommand {
    Interrupt,
    /// Throw away what is typed, keeping it for a later paste.
    Discard,
    Complete,
    Repaint,
}

/// The line editor.
#[derive(Debug)]
pub struct InputEditor {
    reasoning_key: char,
    multi: bool,
    palette: PaletteSelection,
    rewind_requested: bool,
    reasoning_requested: Option<(String, String)>,
    pending_initial: Option<(String, String)>,
}

/// The model of an [`InputEditor`].
pub struct EditorView {
    pub reasoning_key: char,
    pub multi: bool,
    pub palette: SelectionView,
    pub rewind_requested: bool,
    /// The line around the cursor when the reasoning key was pressed.
    pub reasoning_requested: Option<(Seq<char>, Seq<char>)>,
    /// The line around the cursor that the next read starts with.
    pub pending_initial: Option<(Seq<char>, Seq<char>)>,
}

/// The model of a line around a cursor.
pub open spec fn sides(o: Option<(String, String)>) -> Option<(Seq<char>, Seq<char>)> {
    match o {
        Some((left, right)) => Some((left@, right@)),
        None => None,
    }
}

impl View for InputEditor {
    type V = EditorView;

    closed spec fn view(&self) -> EditorView {
        EditorView {
            reasoning_key: self.reasoning_key,
            multi: self.multi,
            palette: self.palette@,
            rewind_requested: self.rewind_requested,
            reasoning_requested: sides(self.reasoning_requested),
            pending_initial: sides(self.pending_initial),
        }
    }
}

/// The key that a setting names: `ctrl-` and one character.
pub open spec fn toggle_key(value: Seq<char>) -> Option<char> {
    match after_prefix(value, "ctrl-"@) {
        Some(rest) => if rest.len() == 1 {
            Some(rest[0])
        } else {
            None
        },
        None => None,
    }
}

/// An editor before its first line.
pub open spec fn fresh_editor(reasoning_key: char) -> EditorView {
    EditorView {
        reasoning_key,
        multi: true,
        palette: anchored(Seq::empty(), 0),
        rewind_requested: false,
        reasoning_requested: None,
        pending_initial: None,
    }
}

/// The keys and what they do.
pub open spec fn key_table(reasoning_key: char) -> Seq<(Key, KeyAction)> {
    seq![
        (Key::EscapeTwice, KeyAction::Rewind),
        (Key::AltEscape, KeyAction::Rewind),
        (Key::Escape, KeyAction::Rewind),
        (Key::Control('c'), KeyAction::Abandon),
        (Key::Control(reasoning_key), KeyAction::Reasoning),
        (Key::Tab, KeyAction::Accept),
        (Key::Enter, KeyAction::Submit),
        (Key::Up, KeyAction::Previous),
        (Key::Down, KeyAction::Next),
    ]
}

/// A line around a cursor, whose position is in bytes.
pub open spec fn around(line: Seq<char>, position: nat) -> (Seq<char>, Seq<char>) {
    let left = head_within(line, position);
    (left, line.skip(left.len() as int))
}

/// An editor and what it does about a key, where the default is done for
/// `None`.
pub open spec fn key_effect(
    e: EditorView,
    action: KeyAction,
    line: Seq<char>,
    position: nat,
    entries: Seq<EntryView>,
) -> (EditorView, Option<KeyCommand>) {
    let token = token_of(line, position);
    match action {
        KeyAction::Rewind => (
            EditorView { rewind_requested: true, ..e },
            Some(KeyCommand::Interrupt),
        ),
        KeyAction::Abandon => (
            e,
            if line.len() == 0 {
                None
            } else {
                Some(KeyCommand::Discard)
            },
        ),
        KeyAction::Reasoning => (
            EditorView { reasoning_requested: Some(around(line, position)), ..e },
            Some(KeyCommand::Interrupt),
        ),
        KeyAction::Accept => match token {
            Some(token) => {
                let (palette, candidate) = highlighted(e.palette, token, entries);
                (
                    EditorView {
                        palette: match candidate {
                            Some(c) => requested(palette, token.text, c.completion, true),
                            None => palette,
                        },
                        ..e
                    },
                    Some(KeyCommand::Complete),
                )
            },
            None => (EditorView { multi: !e.multi, ..e }, Some(KeyCommand::Repaint)),
        },
        KeyAction::Submit => match token {
            Some(token) => {
                let (palette, candidate) = highlighted(e.palette, token, entries);
                match candidate {
                    Some(c) if c.completion != token.text => (
                        EditorView {
                            palette: requested(palette, token.text, c.completion, true),
                            ..e
                        },
                        Some(KeyCommand::Complete),
                    ),
                    _ => (EditorView { palette, ..e }, None),
                }
            },
            None => (e, None),
        },
        KeyAction::Previous => arrow_effect(e, token, entries, Direction::Up),
        KeyAction::Next => arrow_effect(e, token, entries, Direction::Down),
    }
}

/// An editor and what it does about an arrow key.
pub open spec fn arrow_effect(
    e: EditorView,
    token: Option<TokenView>,
    entries: Seq<EntryView>,
    direction: Direction,
) -> (EditorView, Option<KeyCommand>) {
    match token {
        Some(token) => {
            let (palette, candidate) = navigated(e.palette, token, entries, direction);
            match candidate {
                Some(c) => (
                    EditorView {
                        palette: requested(palette, token.text, c.completion, false),
                        ..e
                    },
                    Some(KeyCommand::Complete),
                ),
                None => (EditorView { palette, ..e }, None),
            }
        },
        None => (e, None),
    }
}

/// The label of a mode.
pub open spec fn mode_label(multi: bool) -> Seq<char> {
    if multi {
        "multi · tab"@
    } else {
        "once · tab"@
    }
}

/// The label of a mode at the right edge of the terminal, where there is room.
pub open spec fn mode_hint_text(
    multi: bool,
    line_width: nat,
    label_width: nat,
    terminal_width: nat,
) -> Option<Seq<char>> {
    let used = 3 + line_width + label_width;
    if terminal_width > used + 1 {
        Some(repeated(" "@, (terminal_width - used - 1) as nat) + mode_label(multi))
    } else {
        None
    }
}

/// An editor and what it shows beside a line.
pub open spec fn hint_effect(
    e: EditorView,
    line: Seq<char>,
    position: nat,
    entries: Seq<EntryView>,
    color: bool,
    terminal_width: nat,
) -> (EditorView, Option<Seq<char>>) {
    let cleared = EditorView { palette: anchored(Seq::empty(), 0), ..e };
    if position != bytes_of(line) {
        (cleared, None)
    } else {
        match token_of(line, position) {
            Some(token) => {
                let rows = rows_for(e.palette, token, entries);
                let palette = clamped(filtered(e.palette, token.text), rows.len());
                (
                    EditorView { palette, ..e },
                    Some(shown_palette(token.kind, rows, palette.index, color)),
                )
            },
            None => (
                cleared,
                mode_hint_text(
                    e.multi,
                    columns(line) as nat,
                    columns(mode_label(e.multi)) as nat,
                    terminal_width,
                ),
            ),
        }
    }
}

/// An editor and what the user asked for, once reading a line has ended.
pub open spec fn read_effect(e: EditorView, outcome: ReadOutcome) -> (EditorView, ActionView) {
    match outcome {
        ReadOutcome::Line(line) => (
            e,
            ActionView::Submit(
                line@,
                if e.multi {
                    InputMode::Multi
                } else {
                    InputMode::Once
                },
            ),
        ),
        ReadOutcome::Interrupted => if e.rewind_requested {
            (EditorView { rewind_requested: false, ..e }, ActionView::Rewind)
        } else if e.reasoning_requested is Some {
            (
                EditorView {
                    pending_initial: e.reasoning_requested,
                    reasoning_requested: None,
                    ..e
                },
                ActionView::ToggleReasoning,
            )
        } else {
            (e, ActionView::Interrupt)
        },
        ReadOutcome::Eof => (e, ActionView::Eof),
    }
}

proof fn lemma_head_within(s: Seq<char>, max: nat)
    ensures
        head_within(s, max).len() <= s.len(),
        head_within(s, max) == s.take(head_within(s, max).len() as int),
    decreases s.len(),
{
    if s.len() > 0 && bytes_of(s) > max {
        lemma_head_within(s.drop_last(), max);
        let n = head_within(s.drop_last(), max).len() as int;
        assert(s.drop_last().take(n) =~= s.take(n));
    } else {
        assert(s.take(s.len() as int) =~= s);
    }
}

/// Showing or hiding the reasoning loses nothing of the line being typed: the
/// next read starts with all of it.
pub proof fn law_toggling_keeps_the_line(
    e: EditorView,
    line: Seq<char>,
    position: nat,
    entries: Seq<EntryView>,
)
    requires
        !e.rewind_requested,
    ensures
        ({
            let pressed = key_effect(e, KeyAction::Reasoning, line, position, entries).0;
            let (after, action) = read_effect(pressed, ReadOutcome::Interrupted);
            &&& action == ActionView::ToggleReasoning
            &&& after.pending_initial matches Some((left, right)) && left + right == line
        }),
{
    lemma_head_within(line, position);
    let (left, right) = around(line, position);
    assert(left + right =~= line);
}

/// Enter never submits a line that the palette would complete to another: it
/// completes the line instead.
pub proof fn law_enter_completes_first(
    e: EditorView,
    line: Seq<char>,
    position: nat,
    entries: Seq<EntryView>,
)
    ensures
        ({
            let (after, command) = key_effect(e, KeyAction::Submit, line, position, entries);
            (command is None) == !(token_of(line, position) matches Some(token) && highlighted(
                e.palette,
                token,
                entries,
            ).1 matches Some(c) && c.completion != token.text)
        }),
{
}

/// The label of a mode at the right edge of the terminal, where there is room.
pub fn mode_hint(
    multi: bool,
    line_width: usize,
    label_width: usize,
    terminal_width: usize,
) -> (r: Option<String>)
    ensures
        maybe(r) == mode_hint_text(
            multi,
            line_width as nat,
            label_width as nat,
            terminal_width as nat,
        ),
{
    let used: u128 = 3 + line_width as u128 + label_width as u128;
    if terminal_width as u128 > used + 1 {
        let room: usize = terminal_width - used as usize - 1;
        let label = if multi {
            "multi · tab"
        } else {
            "once · tab"
        };
        Some(repeat(" ", room).concat(label))
    } else {
        None
    }
}

fn split_around(line: &str, position: usize) -> (r: (String, String))
    ensures
        (r.0@, r.1@) == around(line@, position as nat),
{
    let left = head_bytes(line, position);
    let x = chars_of(line);
    proof {
        lemma_head_within(line@, position as nat);
    }
    let n: usize = left.as_str().unicode_len();
    let right = text_between(&x, n, x.len());
    assert(right@ =~= line@.skip(n as int));
    (left, right)
}

/// Whether a line is kept in the history.
pub fn is_remembered(line: &str) -> (r: bool)
    ensures
        r == (trimmed(line@).len() > 0),
{
    let t = trim(line);
    t.as_str().unicode_len() > 0
}

impl InputEditor {
    /// An editor whose reasoning key a setting names. It answers many lines
    /// until it is told otherwise.
    pub fn with_reasoning_toggle(value: &str) -> (r: Result<InputEditor, String>)
        ensures
            outcome(r) == match toggle_key(value@) {
                Some(key) => Ok(fresh_editor(key)),
                None => Err("reasoning toggle must use ctrl-<character>"@),
            },
    {
        if let Some(rest) = strip_prefix(value, "ctrl-") {
            let x = chars_of(&rest);
            if x.len() == 1 {
                return Ok(
                    InputEditor {
                        reasoning_key: x[0],
                        multi: true,
                        palette: PaletteSelection::new(),
                        rewind_requested: false,
                        reasoning_requested: None,
                        pending_initial: None,
                    },
                );
            }
        }
        Err("reasoning toggle must use ctrl-<character>".to_owned())
    }

    /// The character that, with Ctrl, shows or hides the reasoning.
    pub fn reasoning_key(&self) -> (r: char)
        ensures
            r == self@.reasoning_key,
    {
        self.reasoning_key
    }

    /// Whether a key press shows or hides the reasoning: its character, if it
    /// is one, and whether Ctrl was held.
    pub fn is_reasoning_toggle(&self, character: Option<char>, control: bool) -> (r: bool)
        ensures
            r == (character == Some(self@.reasoning_key) && control),
    {
        match character {
            Some(c) => c == self.reasoning_key && control,
            None => false,
        }
    }

    /// The keys and what they do, in the order in which they are bound.
    pub fn bindings(&self) -> (r: Vec<(Key, KeyAction)>)
        ensures
            r@ == key_table(self@.reasoning_key),
    {
        let mut r: Vec<(Key, KeyAction)> = Vec::new();
        r.push((Key::EscapeTwice, KeyAction::Rewind));
        r.push((Key::AltEscape, KeyAction::Rewind));
        r.push((Key::Escape, KeyAction::Rewind));
        r.push((Key::Control('c'), KeyAction::Abandon));
        r.push((Key::Control(self.reasoning_key), KeyAction::Reasoning));
        r.push((Key::Tab, KeyAction::Accept));
        r.push((Key::Enter, KeyAction::Submit));
        r.push((Key::Up, KeyAction::Previous));
        r.push((Key::Down, KeyAction::Next));
        assert(r@ =~= key_table(self@.reasoning_key));
        r
    }

    /// The directory whose entries the palette offers for a line, if it offers
    /// paths.
    pub fn listed_directory(&self, line: &str, position: usize, cwd: &str) -> (r: Option<String>)
        ensures
            maybe(r) == match token_of(line@, position as nat) {
                Some(token) if token.kind == PaletteKind::Path => Some(
                    directory_of(
                        unescape_state(
                            after_mark(filtered(self@.palette, token.text).prefix),
                        ).0,
                        cwd@,
                    ),
                ),
                _ => None,
            },
    {
        let token = palette_token(line, position);
        match token {
            Some(token) => {
                if token.kind != PaletteKind::Path {
                    return None;
                }
                let mut palette = self.palette.copy();
                let filter = palette.filter_prefix(&token.text);
                Some(typed_directory(&unescape_mention(&unmarked(&filter)), cwd))
            },
            None => None,
        }
    }

    fn press_arrow(
        &mut self,
        line: &str,
        position: usize,
        entries: &Vec<DirEntry>,
        direction: Direction,
    ) -> (r: Option<KeyCommand>)
        ensures
            (final(self)@, r) == arrow_effect(
                old(self)@,
                token_of(line@, position as nat),
                views(entries@),
                direction,
            ),
    {
        match palette_token(line, position) {
            Some(token) => match self.palette.navigate(&token, entries, direction) {
                Some(candidate) => {
                    // Arrow navigation keeps the typed filter so siblings stay
                    // reachable.
                    self.palette.request_completion(&token.text, &candidate.completion, false);
                    Some(KeyCommand::Complete)
                },
                None => None,
            },
            None => None,
        }
    }

    /// What a key does to a line with the cursor at a position, in bytes.
    /// `entries` are those of [`InputEditor::listed_directory`]. For `None` the
    /// key does what it does by default.
    pub fn press(
        &mut self,
        action: KeyAction,
        line: &str,
        position: usize,
        entries: &Vec<DirEntry>,
    ) -> (r: Option<KeyCommand>)
        ensures
            (final(self)@, r) == key_effect(
                old(self)@,
                action,
                line@,
                position as nat,
                views(entries@),
            ),
    {
        match action {
            KeyAction::Rewind => {
                self.rewind_requested = true;
                Some(KeyCommand::Interrupt)
            },
            KeyAction::Abandon => {
                if line.unicode_len() == 0 {
                    // Nothing to discard, so the default interrupt exits.
                    None
                } else {
                    Some(KeyCommand::Discard)
                }
            },
            KeyAction::Reasoning => {
                self.reasoning_requested = Some(split_around(line, position));
                Some(KeyCommand::Interrupt)
            },
            KeyAction::Accept => {
                match palette_token(line, position) {
                    Some(token) => {
                        if let Some(candidate) = self.palette.highlighted(&token, entries) {
                            // Accepting re-anchors the filter, so completing to a
                            // directory lists that directory on the next keystroke.
                            self.palette.request_completion(
                                &token.text,
                                &candidate.completion,
                                true,
                            );
                        }
                        Some(KeyCommand::Complete)
                    },
                    None => {
                        self.multi = !self.multi;
                        Some(KeyCommand::Repaint)
                    },
                }
            },
            KeyAction::Submit => {
                match palette_token(line, position) {
                    Some(token) => match self.palette.highlighted(&token, entries) {
                        Some(candidate) => {
                            if same(&candidate.completion, &token.text) {
                                None
                            } else {
                                self.palette.request_completion(
                                    &token.text,
                                    &candidate.completion,
                                    true,
                                );
                                Some(KeyCommand::Complete)
                            }
                        },
                        None => None,
                    },
                    None => None,
                }
            },
            KeyAction::Previous => self.press_arrow(line, position, entries, Direction::Up),
            KeyAction::Next => self.press_arrow(line, position, entries, Direction::Down),
        }
    }

    /// Where a completion starts, in bytes, and what it writes.
    pub fn complete(&self, line: &str, position: usize) -> (r: (usize, Option<String>))
        ensures
            (r.0 as nat, maybe(r.1)) == match token_of(line@, position as nat) {
                Some(token) => (token.start, self@.palette.applied),
                None => (0nat, None),
            },
    {
        match palette_token(line, position) {
            Some(token) => (token.start, self.palette.pending_completion()),
            None => (0, None),
        }
    }

    /// What is shown beside a line: the palette below it, or the mode at the
    /// right edge of the terminal.
    pub fn hint(
        &mut self,
        line: &str,
        position: usize,
        entries: &Vec<DirEntry>,
        color: bool,
        terminal_width: usize,
    ) -> (r: Option<String>)
        ensures
            (final(self)@, maybe(r)) == hint_effect(
                old(self)@,
                line@,
                position as nat,
                views(entries@),
                color,
                terminal_width as nat,
            ),
    {
        if position != byte_len(line) {
            self.palette.clear();
            return None;
        }
        match palette_token(line, position) {
            Some(token) => {
                let filter = self.palette.filter_prefix(&token.text);
                let rows = candidates(token.kind, &filter, entries);
                assert(views(rows@).len() == rows@.len());
                let selected: usize = self.palette.selected(rows.len());
                Some(show_palette(token.kind, &rows, selected, color))
            },
            None => {
                self.palette.clear();
                let label = if self.multi {
                    "multi · tab"
                } else {
                    "once · tab"
                };
                mode_hint(self.multi, width_of(line), width_of(label), terminal_width)
            },
        }
    }

    /// A hint with its color.
    pub fn highlight_hint(&self, hint: &str) -> (r: String)
        ensures
            r@ == (if begins(hint@, "\n"@) {
                hint@
            } else if self@.multi {
                "\x1b[1;35m"@ + hint@ + "\x1b[0m"@
            } else {
                "\x1b[90m"@ + hint@ + "\x1b[0m"@
            }),
    {
        if starts_with(hint, "\n") {
            hint.to_owned()
        } else if self.multi {
            "\x1b[1;35m".to_owned().concat(hint).concat("\x1b[0m")
        } else {
            "\x1b[90m".to_owned().concat(hint).concat("\x1b[0m")
        }
    }

    /// The line around the cursor that a read starts with, if one was left.
    pub fn take_initial(&mut self) -> (r: Option<(String, String)>)
        ensures
            sides(r) == old(self)@.pending_initial,
            final(self)@ == (EditorView { pending_initial: None, ..old(self)@ }),
    {
        self.pending_initial.take()
    }

    /// What the user asked for, once reading a line has ended.
    pub fn conclude_read(&mut self, outcome: ReadOutcome) -> (r: InputAction)
        ensures
            (final(self)@, r@) == read_effect(old(self)@, outcome),
    {
        match outcome {
            ReadOutcome::Line(line) => {
                let mode = if self.multi {
                    InputMode::Multi
                } else {
                    InputMode::Once
                };
                InputAction::Submit(line, mode)
            },
            ReadOutcome::Interrupted => {
                if self.rewind_requested {
                    self.rewind_requested = false;
                    InputAction::Rewind
                } else if self.reasoning_requested.is_some() {
                    self.pending_initial = self.reasoning_requested.take();
                    InputAction::ToggleReasoning
                } else {
                    InputAction::Interrupt
                }
            },
            ReadOutcome::Eof => InputAction::Eof,
        }
    }
}

// ---------------------------------------------------------------------------
// Selectors

/// How many times a selector is drawn before giving up. A resize storm from a
/// dragged window edge produces a burst of signals, not an endless stream.
pub const RESIZE_RETRIES: usize = 32;

/// What a selector does next.
#[derive(Debug)]
pub enum SelectorStep {
    /// Ask, with this choice highlighted.
    Ask(usize),
    /// There is nothing to choose from.
    Nothing,
    Fail(String),
}

/// A selector that is being shown. A window resize interrupts it, and it is
/// drawn again.
#[derive(Debug)]
pub struct Selector {
    pub choices: usize,
    pub default: usize,
    pub drawn: usize,
}

impl Selector {
    /// A selector with a number of choices.
    pub fn new(choices: usize, default: usize) -> (r: Selector)
        ensures
            r == (Selector { choices, default, drawn: 0 }),
    {
        Selector { choices, default, drawn: 0 }
    }

    /// What the selector does next.
    pub fn step(&mut self) -> (r: SelectorStep)
        ensures
            ({
                let before = *old(self);
                if before.choices == 0 {
                    r is Nothing && *final(self) == before
                } else if before.drawn >= RESIZE_RETRIES {
                    r matches SelectorStep::Fail(m) && m@
                        == "the terminal kept interrupting the selection"@ && *final(self)
                        == before
                } else {
                    r == SelectorStep::Ask(
                        if before.default < before.choices {
                            before.default
                        } else {
                            (before.choices - 1) as usize
                        },
                    ) && *final(self) == (Selector {
                        drawn: (before.drawn + 1) as usize,
                        ..before
                    })
                }
            }),
    {
        if self.choices == 0 {
            return SelectorStep::Nothing;
        }
        if self.drawn >= RESIZE_RETRIES {
            return SelectorStep::Fail("the terminal kept interrupting the selection".to_owned());
        }
        self.drawn = self.drawn + 1;
        if self.default < self.choices {
            SelectorStep::Ask(self.default)
        } else {
            SelectorStep::Ask(self.choices - 1)
        }
    }

    /// How many lines are erased before the selector is drawn again, on a
    /// terminal with a number of rows: the prompt and the choices, as far as
    /// they can still be seen.
    pub fn erased_lines(&self, terminal_rows: usize) -> (r: usize)
        ensures
            r == ({
                let drawn = self.choices + 1;
                let seen: int = if terminal_rows > 2 {
                    terminal_rows - 1
                } else {
                    1
                };
                if drawn < seen {
                    drawn
                } else {
                    seen
                }
            }),
    {
        let seen: usize = if terminal_rows > 2 {
            terminal_rows - 1
        } else {
            1
        };
        if self.choices < seen {
            self.choices + 1
        } else {
            seen
        }
    }
}

/// The labels of checkpoints, each an id and a label, to select from.
pub fn checkpoint_labels(checkpoints: &Vec<(String, String)>) -> (r: Result<Vec<String>, String>)
    ensures
        match r {
            Ok(labels) => checkpoints.len() > 0 && texts(labels@) == Seq::new(
                checkpoints@.len(),
                |i: int| checkpoints@[i].1@,
            ),
            Err(message) => checkpoints.len() == 0 && message@ == "no user messages to rewind to"@,
        },
{
    if checkpoints.len() == 0 {
        return Err("no user messages to rewind to".to_owned());
    }
    let ghost all = Seq::new(checkpoints@.len(), |i: int| checkpoints@[i].1@);
    let mut labels: Vec<String> = Vec::new();
    assert(texts(labels@) =~= all.take(0));
    let mut i: usize = 0;
    while i < checkpoints.len()
        invariant
            i <= checkpoints.len(),
            all == Seq::new(checkpoints@.len(), |i: int| checkpoints@[i].1@),
            texts(labels@) == all.take(i as int),
        decreases checkpoints.len() - i,
    {
        let ghost before = texts(labels@);
        let label = checkpoints[i].1.clone();
        labels.push(label);
        assert(texts(labels@) =~= before.push(label@));
        assert(all.take(i + 1) =~= all.take(i as int).push(all[i as int]));
        i += 1;
    }
    assert(all.take(all.len() as int) =~= all);
    Ok(labels)
}

/// The id of the checkpoint that was selected.
pub fn select_checkpoint(checkpoints: &Vec<(String, String)>, choice: Option<usize>) -> (r: Option<
    String,
>)
    ensures
        maybe(r) == match choice {
            Some(i) if i < checkpoints.len() => Some(checkpoints@[i as int].0@),
            _ => None,
        },
{
    match choice {
        Some(i) => {
            if i < checkpoints.len() {
                Some(checkpoints[i].0.clone())
            } else {
                None
            }
        },
        None => None,
    }
}

/// Tab switches between lines of one kind and the other where there is nothing to
/// complete, and back again; what is entered then is of that kind.
pub proof fn law_tab_switches_the_mode(
    e: EditorView,
    line: Seq<char>,
    position: nat,
    entries: Seq<EntryView>,
    entered: String,
)
    requires
        token_of(line, position) is None,
    ensures
        ({
            let once = key_effect(e, KeyAction::Accept, line, position, entries);
            let twice = key_effect(once.0, KeyAction::Accept, line, position, entries);
            &&& once.1 == Some(KeyCommand::Repaint)
            &&& twice.0 == e
            &&& read_effect(e, ReadOutcome::Line(entered)) == (
                e,
                ActionView::Submit(
                    entered@,
                    if e.multi {
                        InputMode::Multi
                    } else {
                        InputMode::Once
                    },
                ),
            )
            &&& read_effect(once.0, ReadOutcome::Line(entered)).1 == ActionView::Submit(
                entered@,
                if e.multi {
                    InputMode::Once
                } else {
                    InputMode::Multi
                },
            )
        }),
{
}

/// A rewind that is asked for is what the interrupted line comes to, once; an
/// interruption that nothing asked for is one.
pub proof fn law_a_rewind_is_asked_for_once(
    e: EditorView,
    line: Seq<char>,
    position: nat,
    entries: Seq<EntryView>,
)
    requires
        !e.rewind_requested,
        e.reasoning_requested is None,
    ensures
        ({
            let (pressed, command) = key_effect(e, KeyAction::Rewind, line, position, entries);
            &&& command == Some(KeyCommand::Interrupt)
            &&& read_effect(pressed, ReadOutcome::Interrupted) == (e, ActionView::Rewind)
        }),
        read_effect(e, ReadOutcome::Interrupted) == (e, ActionView::Interrupt),
        read_effect(e, ReadOutcome::Eof) == (e, ActionView::Eof),
{
}

/// A line that is abandoned is discarded; with no line, the key goes on to what it
/// means without one.
pub proof fn law_lines_are_abandoned(
    e: EditorView,
    line: Seq<char>,
    position: nat,
    entries: Seq<EntryView>,
)
    ensures
        key_effect(e, KeyAction::Abandon, line, position, entries).0 == e,
        line.len() > 0 ==> key_effect(e, KeyAction::Abandon, line, position, entries).1 == Some(
            KeyCommand::Discard,
        ),
        line.len() == 0 ==> key_effect(e, KeyAction::Abandon, line, position, entries).1 is None,
{
}

/// When reasoning is toggled the line is kept as it is split by the cursor.
pub proof fn law_toggling_keeps_the_cursor(
    e: EditorView,
    line: Seq<char>,
    k: int,
    entries: Seq<EntryView>,
)
    requires
        0 <= k <= line.len(),
    ensures
        ({
            let position = bytes_of(line.take(k));
            let pressed = key_effect(e, KeyAction::Reasoning, line, position, entries).0;
            pressed.reasoning_requested == Some((line.take(k), line.skip(k)))
        }),
{
    let position = bytes_of(line.take(k));
    law_heads_are_as_long_as_fits(line, position);
    let left = head_within(line, position);
    if left.len() < k {
        assert(bytes_of(line.take(k)) > position);
    } else if left.len() > k {
        lemma_bytes_grow(line, k + 1, left.len() as int);
        assert(line.take(k + 1).drop_last() =~= line.take(k));
    }
    assert(left =~= line.take(k));
}

/// The hint for the mode stands at the right end of the terminal's line, one
/// column before it, where there is room for it.
pub proof fn law_hints_stand_at_the_end(
    multi: bool,
    line_width: nat,
    label_width: nat,
    terminal_width: nat,
)
    ensures
        mode_hint_text(multi, line_width, label_width, terminal_width) is Some <==> terminal_width
            > 4 + line_width + label_width,
        mode_hint_text(multi, line_width, label_width, terminal_width) matches Some(hint) ==> {
            let label = if multi {
                "multi · tab"@
            } else {
                "once · tab"@
            };
            &&& ends(hint, label)
            &&& 3 + line_width + (hint.len() - label.len()) + label_width == terminal_width - 1
            &&& forall|i: int| 0 <= i < hint.len() - label.len() ==> #[trigger] hint[i] == ' '
        },
{
    let used = 3 + line_width + label_width;
    if terminal_width > used + 1 {
        let n = (terminal_width - used - 1) as nat;
        lemma_repeated_spaces(n);
        let hint = repeated(" "@, n) + mode_label(multi);
        assert(hint.subrange(hint.len() - mode_label(multi).len(), hint.len() as int)
            =~= mode_label(multi));
    }
}

proof fn lemma_repeated_spaces(n: nat)
    ensures
        repeated(" "@, n).len() == n,
        forall|i: int| 0 <= i < n ==> #[trigger] repeated(" "@, n)[i] == ' ',
    decreases n,
{
    reveal_strlit(" ");
    if n > 0 {
        lemma_repeated_spaces((n - 1) as nat);
    }
}

/// Each key does what it is for, and the key for reasoning is the one that is
/// configured.
pub proof fn law_keys_do_what_they_are_for(reasoning_key: char, i: int)
    requires
        0 <= i < key_table(reasoning_key).len(),
    ensures
        match key_table(reasoning_key)[i].1 {
            KeyAction::Rewind => key_table(reasoning_key)[i].0 == Key::Escape || key_table(
                reasoning_key,
            )[i].0 == Key::EscapeTwice || key_table(reasoning_key)[i].0 == Key::AltEscape,
            KeyAction::Abandon => key_table(reasoning_key)[i].0 == Key::Control('c'),
            KeyAction::Reasoning => key_table(reasoning_key)[i].0 == Key::Control(reasoning_key),
            KeyAction::Accept => key_table(reasoning_key)[i].0 == Key::Tab,
            KeyAction::Submit => key_table(reasoning_key)[i].0 == Key::Enter,
            KeyAction::Previous => key_table(reasoning_key)[i].0 == Key::Up,
            KeyAction::Next => key_table(reasoning_key)[i].0 == Key::Down,
        },
        key_table(reasoning_key).len() == 9,
        forall|a: int, b: int|
            0 <= a < b < 9 && reasoning_key != 'c' ==> (#[trigger] key_table(reasoning_key)[a]).0
                != (#[trigger] key_table(reasoning_key)[b]).0,
{
}

/// The key that toggles reasoning is configured by its letter.
pub proof fn law_the_toggle_key_is_configured(c: char, value: Seq<char>)
    ensures
        toggle_key("ctrl-"@.push(c)) == Some(c),
        toggle_key(value) is Some ==> value == "ctrl-"@.push(toggle_key(value)->Some_0),
{
    let p = "ctrl-"@;
    law_prefixes(p.push(c), p);
    assert(p.push(c) =~= p + seq![c]);
    assert(after_prefix(p + seq![c], p) == Some(seq![c]));
    law_prefixes(value, p);
    if toggle_key(value) is Some {
        let rest = after_prefix(value, p)->Some_0;
        assert(rest =~= seq![rest[0]]);
        assert(p + rest =~= p.push(rest[0]));
    }
}

/// What is highlighted is what is completed: by tab and by enter for good, by the
/// arrows for as long as they are used.
pub proof fn law_what_is_highlighted_is_completed(
    e: EditorView,
    line: Seq<char>,
    position: nat,
    entries: Seq<EntryView>,
    token: TokenView,
)
    requires
        token_of(line, position) == Some(token),
    ensures
        ({
            let row = highlighted(e.palette, token, entries).1;
            let (tabbed, command) = key_effect(e, KeyAction::Accept, line, position, entries);
            let entered = key_effect(e, KeyAction::Submit, line, position, entries);
            let (down, step) = key_effect(e, KeyAction::Next, line, position, entries);
            let next = navigated(e.palette, token, entries, Direction::Down).1;
            let before = navigated(e.palette, token, entries, Direction::Up).1;
            let (up, back) = key_effect(e, KeyAction::Previous, line, position, entries);
            &&& command == Some(KeyCommand::Complete)
            &&& row matches Some(c) ==> tabbed.palette.applied == Some(c.completion)
                && tabbed.palette.from == Some(token.text) && tabbed.palette.re_anchor
            &&& row matches Some(c) ==> (c.completion != token.text ==> entered == (
                tabbed,
                command,
            ))
            &&& next matches Some(c) ==> step == Some(KeyCommand::Complete)
                && down.palette.applied == Some(c.completion) && !down.palette.re_anchor
            &&& before matches Some(c) ==> back == Some(KeyCommand::Complete)
                && up.palette.applied == Some(c.completion) && !up.palette.re_anchor
            &&& next is None ==> step is None
            &&& before is None ==> back is None
            &&& tabbed.multi == e.multi && entered.0.multi == e.multi
        }),
{
}

/// The hint shows what can be completed where the cursor is at the end of the
/// line, and the mode where nothing can; elsewhere it shows nothing.
pub proof fn law_hints_show_what_can_be_completed(
    e: EditorView,
    line: Seq<char>,
    position: nat,
    entries: Seq<EntryView>,
    color: bool,
    width: nat,
)
    ensures
        position != bytes_of(line) ==> hint_effect(e, line, position, entries, color, width).1
            is None,
        position == bytes_of(line) ==> match token_of(line, position) {
            Some(token) => hint_effect(e, line, position, entries, color, width).1 == Some(
                shown_palette(
                    token.kind,
                    rows_for(e.palette, token, entries),
                    highlighted(e.palette, token, entries).0.index,
                    color,
                ),
            ) && hint_effect(e, line, position, entries, color, width).0.palette == highlighted(
                e.palette,
                token,
                entries,
            ).0,
            None => hint_effect(e, line, position, entries, color, width).1 == mode_hint_text(
                e.multi,
                columns(line) as nat,
                columns(
                    if e.multi {
                        "multi · tab"@
                    } else {
                        "once · tab"@
                    },
                ) as nat,
                width,
            ),
        },
        hint_effect(e, line, position, entries, color, width).0.multi == e.multi,
{
}

} // verus!
