//! The palette: which row is highlighted, and how the rows are shown.
use vstd::prelude::*;
use vstd::string::*;

use crate::text::{
    begins, copy_maybe, ends, has, join, joined, lemma_first_at, maybe, maybe_view, occurs_at,
    repeat, repeated, same, texts, views,
};
use crate::tui::input::{
    Candidate, CandidateView, DirEntry, EntryView, PaletteKind, PaletteToken, TokenView,
    candidates, candidates_for,
};

verus! {

/// What the palette filters on and which row is highlighted.
#[derive(Debug)]
pub struct PaletteSelection {
    /// What the user typed.
    pub prefix: String,
    /// What a requested completion replaces.
    pub from: Option<String>,
    /// What a requested completion writes.
    pub applied: Option<String>,
    /// Whether the filter moves on to what a completion wrote.
    pub re_anchor: bool,
    /// The highlighted row.
    pub index: usize,
}

/// The model of a [`PaletteSelection`].
pub struct SelectionView {
    pub prefix: Seq<char>,
    pub from: Option<Seq<char>>,
    pub applied: Option<Seq<char>>,
    pub re_anchor: bool,
    pub index: nat,
}

impl View for PaletteSelection {
    type V = SelectionView;

    open spec fn view(&self) -> SelectionView {
        SelectionView {
            prefix: self.prefix@,
            from: maybe(self.from),
            applied: maybe(self.applied),
            re_anchor: self.re_anchor,
            index: self.index as nat,
        }
    }
}

/// Which way an arrow key moves the selection.
#[derive(Debug, Clone, Copy, PartialEq, Eq, Structural)]
pub enum Direction {
    Up,
    Down,
}

/// A selection that filters on a text.
pub open spec fn anchored(prefix: Seq<char>, index: nat) -> SelectionView {
    SelectionView { prefix, from: None, applied: None, re_anchor: false, index }
}

/// A selection once it has seen the token in the input. What the user typed is
/// kept while the input holds either side of a completion that the palette
/// requested, and is refreshed as soon as the user edits the token. Accepting a
/// completion moves the filter on to the accepted text.
pub open spec fn filtered(s: SelectionView, token: Seq<char>) -> SelectionView {
    if s.applied is Some && (s.applied == Some(token) || s.from == Some(token)) {
        if s.re_anchor && s.applied == Some(token) {
            anchored(token, 0)
        } else {
            s
        }
    } else if s.prefix == token {
        anchored(token, s.index)
    } else {
        anchored(token, 0)
    }
}

/// A selection among a number of rows.
pub open spec fn clamped(s: SelectionView, count: nat) -> SelectionView {
    if s.index < count {
        s
    } else {
        SelectionView {
            index: if count == 0 {
                0
            } else {
                (count - 1) as nat
            },
            ..s
        }
    }
}

/// A selection after an arrow key: it goes round at both ends.
pub open spec fn moved(s: SelectionView, count: nat, direction: Direction) -> SelectionView {
    if count == 0 {
        s
    } else {
        SelectionView {
            index: ((s.index + (if direction == Direction::Down {
                1int
            } else {
                -1
            })) % count as int) as nat,
            ..s
        }
    }
}

/// A selection that asks for a completion.
pub open spec fn requested(
    s: SelectionView,
    from: Seq<char>,
    to: Seq<char>,
    re_anchor: bool,
) -> SelectionView {
    SelectionView { from: Some(from), applied: Some(to), re_anchor, ..s }
}

/// The row at an index, if there is one.
pub open spec fn row_at(rows: Seq<CandidateView>, index: nat) -> Option<CandidateView> {
    if index < rows.len() {
        Some(rows[index as int])
    } else {
        None
    }
}

/// The rows for a token, resolved against what the user typed.
pub open spec fn rows_for(
    s: SelectionView,
    token: TokenView,
    entries: Seq<EntryView>,
) -> Seq<CandidateView> {
    candidates_for(token.kind, filtered(s, token.text).prefix, entries)
}

/// The selection and the highlighted candidate for a token.
pub open spec fn highlighted(
    s: SelectionView,
    token: TokenView,
    entries: Seq<EntryView>,
) -> (SelectionView, Option<CandidateView>) {
    let rows = rows_for(s, token, entries);
    let after = clamped(filtered(s, token.text), rows.len());
    (after, row_at(rows, after.index))
}

/// The selection after an arrow key, and the candidate that it highlights.
pub open spec fn navigated(
    s: SelectionView,
    token: TokenView,
    entries: Seq<EntryView>,
    direction: Direction,
) -> (SelectionView, Option<CandidateView>) {
    let rows = rows_for(s, token, entries);
    let after = moved(filtered(s, token.text), rows.len(), direction);
    (
        after,
        row_at(
            rows,
            if rows.len() == 0 {
                0
            } else {
                after.index
            },
        ),
    )
}

/// Arrow keys keep the filter: once the input holds what an arrow key wrote, the
/// palette still filters on what the user typed, and no row moves.
pub proof fn law_arrows_keep_the_filter(s: SelectionView, token: Seq<char>, to: Seq<char>)
    ensures
        ({
            let after = requested(filtered(s, token), token, to, false);
            &&& filtered(after, to) == after
            &&& filtered(after, token) == after
            &&& after.prefix == filtered(s, token).prefix
        }),
{
}

/// Accepting a completion moves the filter on to the accepted text, and starts
/// at its first row.
pub proof fn law_accepting_moves_the_filter(s: SelectionView, token: Seq<char>, to: Seq<char>)
    ensures
        filtered(requested(s, token, to, true), to) == anchored(to, 0),
{
}

/// Looking at a token twice is looking at it once.
pub proof fn law_filter_settles(s: SelectionView, token: Seq<char>)
    ensures
        filtered(filtered(s, token), token) == filtered(s, token),
{
}

/// What one arrow key does the other undoes.
pub proof fn law_arrows_undo_each_other(s: SelectionView, count: nat, direction: Direction)
    requires
        s.index < count,
    ensures
        ({
            let back = if direction == Direction::Down {
                Direction::Up
            } else {
                Direction::Down
            };
            &&& moved(s, count, direction).index < count
            &&& moved(moved(s, count, direction), count, back) == s
        }),
{
    let n = count as int;
    let i = s.index as int;
    if i + 1 < n {
        vstd::arithmetic::div_mod::lemma_small_mod((i + 1) as nat, count);
    } else {
        assert(n % n == 0) by {
            vstd::arithmetic::div_mod::lemma_mod_self_0(n);
        }
    }
    vstd::arithmetic::div_mod::lemma_small_mod(i as nat, count);
    if i > 0 {
        vstd::arithmetic::div_mod::lemma_small_mod((i - 1) as nat, count);
    }
    vstd::arithmetic::div_mod::lemma_small_mod((n - 1) as nat, count);
    assert((-1int) % n == n - 1) by {
        vstd::arithmetic::div_mod::lemma_mod_add_multiples_vanish(-1, n);
    }
    vstd::arithmetic::div_mod::lemma_mod_self_0(n);
}

impl PaletteSelection {
    /// A palette that has seen nothing.
    pub fn new() -> (r: PaletteSelection)
        ensures
            r@ == anchored(Seq::empty(), 0),
    {
        PaletteSelection {
            prefix: String::new(),
            from: None,
            applied: None,
            re_anchor: false,
            index: 0,
        }
    }

    /// A copy of the palette.
    pub fn copy(&self) -> (r: PaletteSelection)
        ensures
            r@ == self@,
    {
        PaletteSelection {
            prefix: self.prefix.clone(),
            from: copy_maybe(&self.from),
            applied: copy_maybe(&self.applied),
            re_anchor: self.re_anchor,
            index: self.index,
        }
    }

    /// The text the palette filters on. Navigation writes the highlighted entry
    /// into the input, so the input alone cannot be the filter: once it holds a
    /// full entry the list would collapse to that one row.
    pub fn filter_prefix(&mut self, token: &str) -> (r: String)
        ensures
            final(self)@ == filtered(old(self)@, token@),
            r@ == final(self)@.prefix,
    {
        let is_applied = match &self.applied {
            Some(applied) => same(applied, token),
            None => false,
        };
        let is_from = match &self.from {
            Some(from) => same(from, token),
            None => false,
        };
        if self.applied.is_some() && (is_applied || is_from) {
            if self.re_anchor && is_applied {
                self.prefix = token.to_owned();
                self.re_anchor = false;
                self.from = None;
                self.applied = None;
                self.index = 0;
            }
            return self.prefix.clone();
        }
        if !same(&self.prefix, token) {
            self.prefix = token.to_owned();
            self.index = 0;
        }
        self.from = None;
        self.applied = None;
        self.re_anchor = false;
        self.prefix.clone()
    }

    /// The highlighted row of a number of rows.
    pub fn selected(&mut self, count: usize) -> (r: usize)
        ensures
            final(self)@ == clamped(old(self)@, count as nat),
            r == final(self)@.index,
    {
        if self.index >= count {
            self.index = if count == 0 {
                0
            } else {
                count - 1
            };
        }
        self.index
    }

    /// Moves the selection among a number of rows.
    pub fn move_selection(&mut self, count: usize, direction: Direction) -> (r: usize)
        ensures
            final(self)@ == moved(old(self)@, count as nat, direction),
            r == (if count == 0 {
                0
            } else {
                final(self)@.index
            }),
    {
        if count == 0 {
            return 0;
        }
        let index: usize = self.index;
        let at: usize = index % count;
        proof {
            lemma_step(index as int, count as int);
        }
        self.index = if direction == Direction::Down {
            if at == count - 1 {
                0
            } else {
                at + 1
            }
        } else if at == 0 {
            count - 1
        } else {
            at - 1
        };
        self.index
    }

    /// Asks for a completion of the token in the input.
    pub fn request_completion(&mut self, from: &str, to: &str, re_anchor: bool)
        ensures
            final(self)@ == requested(old(self)@, from@, to@, re_anchor),
    {
        self.from = Some(from.to_owned());
        self.applied = Some(to.to_owned());
        self.re_anchor = re_anchor;
    }

    /// The text that a key asked to complete to.
    pub fn pending_completion(&self) -> (r: Option<String>)
        ensures
            maybe(r) == self@.applied,
    {
        copy_maybe(&self.applied)
    }

    /// The highlighted candidate for a token, resolved against what the user
    /// typed.
    pub fn highlighted(&mut self, token: &PaletteToken, entries: &Vec<DirEntry>) -> (r: Option<
        Candidate,
    >)
        ensures
            (final(self)@, maybe_view(r)) == highlighted(old(self)@, token@, views(entries@)),
    {
        let filter = self.filter_prefix(&token.text);
        let rows = candidates(token.kind, &filter, entries);
        assert(views(rows@).len() == rows@.len());
        let selected: usize = self.selected(rows.len());
        if selected < rows.len() {
            assert(views(rows@)[selected as int] == rows@[selected as int]@);
            Some(rows[selected].clone())
        } else {
            None
        }
    }

    /// Moves the selection and returns the newly highlighted candidate.
    pub fn navigate(
        &mut self,
        token: &PaletteToken,
        entries: &Vec<DirEntry>,
        direction: Direction,
    ) -> (r: Option<Candidate>)
        ensures
            (final(self)@, maybe_view(r)) == navigated(
                old(self)@,
                token@,
                views(entries@),
                direction,
            ),
    {
        let filter = self.filter_prefix(&token.text);
        let rows = candidates(token.kind, &filter, entries);
        assert(views(rows@).len() == rows@.len());
        let selected: usize = self.move_selection(rows.len(), direction);
        if selected < rows.len() {
            assert(views(rows@)[selected as int] == rows@[selected as int]@);
            Some(rows[selected].clone())
        } else {
            None
        }
    }

    /// Forgets what was typed and what was asked for.
    pub fn clear(&mut self)
        ensures
            final(self)@ == anchored(Seq::empty(), 0),
    {
        self.prefix = String::new();
        self.from = None;
        self.applied = None;
        self.re_anchor = false;
        self.index = 0;
    }
}

proof fn lemma_step(index: int, count: int)
    requires
        0 <= index,
        0 < count,
    ensures
        (index + 1) % count == (if index % count == count - 1 {
            0
        } else {
            index % count + 1
        }),
        (index - 1) % count == (if index % count == 0 {
            count - 1
        } else {
            index % count - 1
        }),
{
    let q = index / count;
    let r = index % count;
    vstd::arithmetic::div_mod::lemma_fundamental_div_mod(index, count);
    assert(index == q * count + r) by (nonlinear_arith)
        requires
            index == count * q + r,
    ;
    if r == count - 1 {
        assert(index + 1 == (q + 1) * count + 0) by (nonlinear_arith)
            requires
                index == q * count + r,
                r == count - 1,
        ;
        vstd::arithmetic::div_mod::lemma_fundamental_div_mod_converse(
            index + 1,
            count,
            q + 1,
            0,
        );
    } else {
        vstd::arithmetic::div_mod::lemma_fundamental_div_mod_converse(
            index + 1,
            count,
            q,
            r + 1,
        );
    }
    if r == 0 {
        assert(index - 1 == (q - 1) * count + (count - 1)) by (nonlinear_arith)
            requires
                index == q * count + r,
                r == 0,
        ;
        vstd::arithmetic::div_mod::lemma_fundamental_div_mod_converse(
            index - 1,
            count,
            q - 1,
            count - 1,
        );
    } else {
        vstd::arithmetic::div_mod::lemma_fundamental_div_mod_converse(
            index - 1,
            count,
            q,
            r - 1,
        );
    }
}

// ---------------------------------------------------------------------------
// How rows are shown

/// How wide the label of a row is at least, in characters.
pub const LABEL_WIDTH: usize = 22;

/// A text with blanks after it, up to a number of characters.
pub open spec fn padded(s: Seq<char>, width: nat) -> Seq<char> {
    if s.len() < width {
        s + repeated(" "@, (width - s.len()) as nat)
    } else {
        s
    }
}

/// A row as it is shown.
pub open spec fn shown_row(c: CandidateView, selected: bool, color: bool) -> Seq<char> {
    let row = (if selected {
        "› "@
    } else {
        "  "@
    }) + padded(c.label, LABEL_WIDTH as nat) + " "@ + c.detail;
    if !color {
        row
    } else if selected {
        "\x1b[1;36m"@ + row + "\x1b[0m"@
    } else {
        "\x1b[90m"@ + row + "\x1b[0m"@
    }
}

/// The rows as they are shown.
pub open spec fn shown_rows(rows: Seq<CandidateView>, selected: nat, color: bool) -> Seq<Seq<char>> {
    Seq::new(rows.len(), |i: int| shown_row(rows[i], i == selected, color))
}

/// What the palette shows below the input.
pub open spec fn shown_palette(
    kind: PaletteKind,
    rows: Seq<CandidateView>,
    selected: nat,
    color: bool,
) -> Seq<char> {
    if rows.len() > 0 {
        "\n"@ + joined(shown_rows(rows, selected, color), "\n"@)
    } else if kind == PaletteKind::Slash {
        "\n  No matching commands"@
    } else {
        "\n  No matching paths"@
    }
}

/// A text with blanks after it, up to a number of characters.
pub fn pad(s: &str, width: usize) -> (r: String)
    ensures
        r@ == padded(s@, width as nat),
{
    let n: usize = s.unicode_len();
    if n < width {
        s.to_owned().concat(&repeat(" ", width - n))
    } else {
        s.to_owned()
    }
}

/// A row as it is shown.
pub fn candidate_row(candidate: &Candidate, selected: bool, color: bool) -> (r: String)
    ensures
        r@ == shown_row(candidate@, selected, color),
{
    let marker = if selected {
        "› "
    } else {
        "  "
    };
    let row = marker.to_owned().concat(&pad(&candidate.label, LABEL_WIDTH)).concat(" ").concat(
        &candidate.detail,
    );
    if !color {
        row
    } else if selected {
        "\x1b[1;36m".to_owned().concat(&row).concat("\x1b[0m")
    } else {
        "\x1b[90m".to_owned().concat(&row).concat("\x1b[0m")
    }
}

/// What the palette shows below the input.
pub fn show_palette(
    kind: PaletteKind,
    rows: &Vec<Candidate>,
    selected: usize,
    color: bool,
) -> (r: String)
    ensures
        r@ == shown_palette(kind, views(rows@), selected as nat, color),
{
    assert(views(rows@).len() == rows@.len());
    if rows.len() == 0 {
        return if kind == PaletteKind::Slash {
            "\n  No matching commands".to_owned()
        } else {
            "\n  No matching paths".to_owned()
        };
    }
    let ghost all = shown_rows(views(rows@), selected as nat, color);
    let mut shown: Vec<String> = Vec::new();
    assert(texts(shown@) =~= all.take(0));
    let mut i: usize = 0;
    while i < rows.len()
        invariant
            i <= rows.len(),
            all == shown_rows(views(rows@), selected as nat, color),
            texts(shown@) == all.take(i as int),
        decreases rows.len() - i,
    {
        assert(views(rows@)[i as int] == rows@[i as int]@);
        let ghost before = texts(shown@);
        let row = candidate_row(&rows[i], i == selected, color);
        shown.push(row);
        assert(texts(shown@) =~= before.push(row@));
        assert(all.take(i + 1) =~= all.take(i as int).push(all[i as int]));
        i += 1;
    }
    assert(all.take(all.len() as int) =~= all);
    "\n".to_owned().concat(&join(&shown, "\n"))
}

/// Going down highlights the next row, and after the last the first; going up the
/// one before, and before the first the last. What is typed anew is highlighted
/// from the first row on.
pub proof fn law_arrows_go_round(s: SelectionView, count: nat, token: Seq<char>)
    requires
        s.index < count,
    ensures
        moved(s, count, Direction::Down).index == if s.index == count - 1 {
            0
        } else {
            s.index + 1
        },
        moved(s, count, Direction::Up).index == if s.index == 0 {
            count - 1
        } else {
            s.index - 1
        },
        clamped(s, count) == s,
        s.applied is None && s.prefix != token ==> filtered(s, token).index == 0 && filtered(
            s,
            token,
        ).prefix == token,
        s.applied is None && s.prefix == token ==> filtered(s, token).index == s.index && filtered(
            s,
            token,
        ).prefix == token,
{
    let n = count as int;
    let i = s.index as int;
    assert((i + 1) % n == if i == n - 1 {
        0
    } else {
        i + 1
    }) by (nonlinear_arith)
        requires
            0 <= i < n,
    ;
    assert((i - 1) % n == if i == 0 {
        n - 1
    } else {
        i - 1
    }) by (nonlinear_arith)
        requires
            0 <= i < n,
    ;
}

/// A row that is highlighted is the one that is accepted: it is among the rows,
/// and where there is a row one is highlighted.
pub proof fn law_a_row_is_highlighted(
    s: SelectionView,
    token: TokenView,
    entries: Seq<EntryView>,
)
    ensures
        ({
            let rows = rows_for(s, token, entries);
            let (after, row) = highlighted(s, token, entries);
            &&& rows.len() > 0 ==> after.index < rows.len() && row == Some(rows[after.index as int])
            &&& rows.len() == 0 ==> row is None
            &&& filtered(s, token.text).index < rows.len() ==> after.index == filtered(
                s,
                token.text,
            ).index
        }),
{
}

/// A row shows its label, padded, and its detail; only the one that is selected is
/// marked.
pub proof fn law_rows_are_shown(rows: Seq<CandidateView>, selected: nat, i: int)
    requires
        0 <= i < rows.len(),
    ensures
        shown_rows(rows, selected, false).len() == rows.len(),
        ({
            let row = shown_rows(rows, selected, false)[i];
            &&& i == selected ==> begins(row, "› "@ + rows[i].label)
            &&& i != selected ==> begins(row, "  "@ + rows[i].label)
            &&& ends(row, " "@ + rows[i].detail)
            &&& rows[i].label.len() >= LABEL_WIDTH ==> row.len() == 2 + rows[i].label.len() + 1
                + rows[i].detail.len()
            &&& rows[i].label.len() < LABEL_WIDTH ==> row.len() == 2 + LABEL_WIDTH + 1
                + rows[i].detail.len()
            &&& has(shown_rows(rows, selected, true)[i], row)
        }),
        LABEL_WIDTH == 22,
{
    reveal_strlit("› ");
    reveal_strlit("  ");
    reveal_strlit(" ");
    let label = rows[i].label;
    let row = shown_rows(rows, selected, false)[i];
    if label.len() < LABEL_WIDTH {
        lemma_padding((LABEL_WIDTH - label.len()) as nat);
    }
    let mark = if i == selected {
        "› "@
    } else {
        "  "@
    };
    assert(row.subrange(0, 2 + label.len() as int) =~= mark + label);
    let end = " "@ + rows[i].detail;
    assert(row.subrange(row.len() - end.len(), row.len() as int) =~= end);
    let shown = shown_rows(rows, selected, true)[i];
    let start = if i == selected {
        "\x1b[1;36m"@
    } else {
        "\x1b[90m"@
    };
    let k = start.len() as int;
    assert(shown =~= start + row + "\x1b[0m"@);
    assert(shown.subrange(k, k + row.len()) =~= row);
    assert(occurs_at(shown, row, k));
    lemma_first_at(shown, row, 0);
}

proof fn lemma_padding(n: nat)
    ensures
        repeated(" "@, n).len() == n,
    decreases n,
{
    reveal_strlit(" ");
    if n > 0 {
        lemma_padding((n - 1) as nat);
    }
}

} // verus!
