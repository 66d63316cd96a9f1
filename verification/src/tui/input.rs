//! What is typed: completion, mentions and keys.
use vstd::prelude::*;
use vstd::string::*;

use crate::seqs::{lemma_picks_last, lemma_picks_nothing, picks};
use crate::text::{
    before, begins, byte_len, bytes_of, chars_of, cut_last, ends, is_white_space, last_at,
    lemma_precedes_total, lemma_precedes_transitive, lemma_views_push, maybe_view, precedes,
    rsplit_once, same, starts_with, text_between, texts, views, white_space,
};
use crate::tools::path::{join_path, path_in};

verus! {

// ---------------------------------------------------------------------------
// Tokens and mentions

/// What the palette completes.
#[derive(Debug, Clone, Copy, PartialEq, Eq, Structural)]
pub enum PaletteKind {
    Slash,
    Path,
}

/// The token under the cursor that the palette can complete.
#[derive(Debug)]
pub struct PaletteToken {
    /// Where it starts in the line, in bytes.
    pub start: usize,
    pub text: String,
    pub kind: PaletteKind,
}

/// The model of a [`PaletteToken`].
pub struct TokenView {
    pub start: nat,
    pub text: Seq<char>,
    pub kind: PaletteKind,
}

impl View for PaletteToken {
    type V = TokenView;

    open spec fn view(&self) -> TokenView {
        TokenView { start: self.start as nat, text: self.text@, kind: self.kind }
    }
}

/// Where the last token of a text starts, in characters, and whether the next
/// character is escaped. White space after a backslash is part of its token.
pub open spec fn token_state(s: Seq<char>) -> (int, bool)
    decreases s.len(),
{
    if s.len() == 0 {
        (0, false)
    } else {
        let (start, escaped) = token_state(s.drop_last());
        (
            if white_space(s.last()) && !escaped {
                s.len() as int
            } else {
                start
            },
            s.last() == '\\' && !escaped,
        )
    }
}

/// The token that the palette can complete: a slash command at the start of the
/// line, or an `@path` anywhere in it, with the cursor at the end of the line.
pub open spec fn token_of(line: Seq<char>, position: nat) -> Option<TokenView> {
    let start = token_state(line).0;
    let text = line.skip(start);
    if position != bytes_of(line) || text.len() == 0 {
        None
    } else if text[0] == '/' && start == 0 {
        Some(TokenView { start: 0, text, kind: PaletteKind::Slash })
    } else if text[0] == '@' {
        Some(TokenView { start: bytes_of(line.take(start)), text, kind: PaletteKind::Path })
    } else {
        None
    }
}

/// What a mention ends before.
pub open spec fn is_punctuation(c: char) -> bool {
    c == ',' || c == '.' || c == ';' || c == ':' || c == ')'
}

/// A text without punctuation at its end.
pub open spec fn unpunctuated(s: Seq<char>) -> Seq<char>
    decreases s.len(),
{
    if s.len() > 0 && is_punctuation(s.last()) {
        unpunctuated(s.drop_last())
    } else {
        s
    }
}

/// The path that a token mentions.
pub open spec fn mention_of(token: Seq<char>) -> Option<Seq<char>> {
    if token.len() > 0 && token[0] == '@' && unpunctuated(token.skip(1)).len() > 0 {
        Some(unpunctuated(token.skip(1)))
    } else {
        None
    }
}

/// Mentions with one more, if a token is one.
pub open spec fn with_mention(mentions: Seq<Seq<char>>, token: Seq<char>) -> Seq<Seq<char>> {
    match mention_of(token) {
        Some(m) => mentions.push(m),
        None => mentions,
    }
}

/// A line that is being searched for mentions.
pub struct MentionView {
    pub mentions: Seq<Seq<char>>,
    pub token: Seq<char>,
    pub escaped: bool,
}

/// The mentions of a text, its last token apart.
pub open spec fn mention_state(s: Seq<char>) -> MentionView
    decreases s.len(),
{
    if s.len() == 0 {
        MentionView { mentions: Seq::empty(), token: Seq::empty(), escaped: false }
    } else {
        let before = mention_state(s.drop_last());
        let c = s.last();
        if before.escaped {
            MentionView { token: before.token.push(c), escaped: false, ..before }
        } else if c == '\\' {
            MentionView { escaped: true, ..before }
        } else if white_space(c) {
            MentionView {
                mentions: with_mention(before.mentions, before.token),
                token: Seq::empty(),
                escaped: false,
            }
        } else {
            MentionView { token: before.token.push(c), ..before }
        }
    }
}

/// The paths that a line mentions.
pub open spec fn mentions_of(line: Seq<char>) -> Seq<Seq<char>> {
    let end = mention_state(line);
    with_mention(end.mentions, end.token)
}

/// A text with its escapes removed, and whether it ends in an escape.
pub open spec fn unescape_state(s: Seq<char>) -> (Seq<char>, bool)
    decreases s.len(),
{
    if s.len() == 0 {
        (Seq::empty(), false)
    } else {
        let (out, escaped) = unescape_state(s.drop_last());
        if escaped {
            (out.push(s.last()), false)
        } else if s.last() == '\\' {
            (out, true)
        } else {
            (out.push(s.last()), false)
        }
    }
}

/// A path with white space and backslashes escaped.
pub open spec fn escaped_path(path: Seq<char>) -> Seq<char>
    decreases path.len(),
{
    if path.len() == 0 {
        Seq::empty()
    } else {
        let before = escaped_path(path.drop_last());
        if white_space(path.last()) || path.last() == '\\' {
            before.push('\\').push(path.last())
        } else {
            before.push(path.last())
        }
    }
}

/// What is escaped is read back.
pub proof fn law_escapes_are_read_back(path: Seq<char>)
    ensures
        unescape_state(escaped_path(path)) == (path, false),
    decreases path.len(),
{
    if path.len() > 0 {
        law_escapes_are_read_back(path.drop_last());
        let before = escaped_path(path.drop_last());
        let c = path.last();
        assert(path.drop_last().push(c) =~= path);
        if white_space(c) || c == '\\' {
            let mid = before.push('\\');
            assert(mid.drop_last() =~= before);
            assert(unescape_state(mid) == (path.drop_last(), true));
            assert(mid.push(c).drop_last() =~= mid);
        } else {
            assert(before.push(c).drop_last() =~= before);
        }
    } else {
        assert(path =~= Seq::empty());
    }
}

/// The escaped form of a path is one token, with the path as its text.
proof fn lemma_escaped_token(front: Seq<char>, path: Seq<char>)
    requires
        mention_state(front).token.len() == 0,
        !mention_state(front).escaped,
        !token_state(front).1,
        token_state(front).0 == front.len(),
    ensures
        ({
            let line = front.push('@') + escaped_path(path);
            &&& mention_state(line) == (MentionView {
                mentions: mention_state(front).mentions,
                token: seq!['@'] + path,
                escaped: false,
            })
            &&& token_state(line) == (front.len() as int, false)
        }),
    decreases path.len(),
{
    let opened = front.push('@');
    assert(opened.drop_last() =~= front);
    if path.len() == 0 {
        assert(opened + escaped_path(path) =~= opened);
        assert(mention_state(front).token.push('@') =~= seq!['@'] + path);
    } else {
        let before = escaped_path(path.drop_last());
        let c = path.last();
        lemma_escaped_token(front, path.drop_last());
        let line = opened + before;
        assert((seq!['@'] + path.drop_last()).push(c) =~= seq!['@'] + path);
        if white_space(c) || c == '\\' {
            let mid = line.push('\\');
            assert(mid.drop_last() =~= line);
            assert(mention_state(mid).escaped);
            assert(token_state(mid) == (front.len() as int, true));
            assert(mid.push(c).drop_last() =~= mid);
            assert(opened + escaped_path(path) =~= mid.push(c));
        } else {
            assert(line.push(c).drop_last() =~= line);
            assert(opened + escaped_path(path) =~= line.push(c));
        }
    }
}

/// A mention that completion wrote after white space, or at the start of a
/// line, is one token, and resolves to the path that it was written for, unless
/// the path ends in punctuation.
pub proof fn law_completed_mentions_resolve(front: Seq<char>, path: Seq<char>)
    requires
        mention_state(front).token.len() == 0,
        !mention_state(front).escaped,
        !token_state(front).1,
        token_state(front).0 == front.len(),
        path.len() > 0,
        !is_punctuation(path.last()),
    ensures
        ({
            let line = front.push('@') + escaped_path(path);
            &&& mentions_of(line) == mention_state(front).mentions.push(path)
            &&& token_of(line, bytes_of(line)) == Some(
                TokenView {
                    start: bytes_of(front),
                    text: seq!['@'] + escaped_path(path),
                    kind: PaletteKind::Path,
                },
            )
        }),
{
    lemma_escaped_token(front, path);
    let line = front.push('@') + escaped_path(path);
    assert((seq!['@'] + path).skip(1) =~= path);
    assert(line.skip(front.len() as int) =~= seq!['@'] + escaped_path(path));
    assert(line.take(front.len() as int) =~= front);
}

fn token_start(x: &Vec<char>) -> (r: usize)
    ensures
        r == token_state(x@).0,
        r <= x.len(),
{
    let mut start: usize = 0;
    let mut escaped = false;
    let mut i: usize = 0;
    assert(x@.take(0) =~= Seq::empty());
    while i < x.len()
        invariant
            i <= x.len(),
            start <= i,
            (start as int, escaped) == token_state(x@.take(i as int)),
        decreases x.len() - i,
    {
        assert(x@.take(i + 1).drop_last() =~= x@.take(i as int));
        let c = x[i];
        if is_white_space(c) && !escaped {
            start = i + 1;
        }
        escaped = c == '\\' && !escaped;
        i += 1;
    }
    assert(x@.take(x@.len() as int) =~= x@);
    start
}

/// The token under the cursor that the palette can complete. `position` is that
/// of the cursor, in bytes.
pub fn palette_token(line: &str, position: usize) -> (r: Option<PaletteToken>)
    ensures
        maybe_view(r) == token_of(line@, position as nat),
{
    if position != byte_len(line) {
        return None;
    }
    let x = chars_of(line);
    let start: usize = token_start(&x);
    let n: usize = x.len();
    let text = text_between(&x, start, n);
    assert(text@ =~= line@.skip(start as int));
    if start == n {
        return None;
    }
    assert(text@[0] == x@[start as int]);
    let front = text_between(&x, 0, start);
    assert(front@ =~= line@.take(start as int));
    if x[start] == '/' && start == 0 {
        Some(PaletteToken { start: 0, text, kind: PaletteKind::Slash })
    } else if x[start] == '@' {
        Some(PaletteToken { start: byte_len(&front), text, kind: PaletteKind::Path })
    } else {
        None
    }
}

fn push_mention(mentions: &mut Vec<String>, token: &Vec<char>)
    ensures
        texts(final(mentions)@) == with_mention(texts(old(mentions)@), token@),
{
    if token.len() == 0 || token[0] != '@' {
        return;
    }
    let ghost rest = token@.skip(1);
    let mut n: usize = token.len();
    assert(token@.subrange(1, n as int) =~= rest);
    while n > 1 && (token[n - 1] == ',' || token[n - 1] == '.' || token[n - 1] == ';' || token[n
        - 1] == ':' || token[n - 1] == ')')
        invariant
            1 <= n <= token.len(),
            unpunctuated(rest) == unpunctuated(token@.subrange(1, n as int)),
        decreases n,
    {
        assert(token@.subrange(1, n as int).drop_last() =~= token@.subrange(1, n - 1));
        n -= 1;
    }
    assert(n > 1 ==> token@.subrange(1, n as int).last() == token@[n - 1]);
    if n > 1 {
        let ghost before = texts(mentions@);
        let mention = text_between(token, 1, n);
        mentions.push(mention);
        assert(texts(mentions@) =~= before.push(mention@));
    }
}

/// Splits a line the same way as the palette, then keeps the `@` mentions with
/// their escapes removed, so completion and resolution agree on where a mention
/// ends.
pub fn mention_paths(line: &str) -> (r: Vec<String>)
    ensures
        texts(r@) == mentions_of(line@),
{
    let x = chars_of(line);
    let mut mentions: Vec<String> = Vec::new();
    let mut token: Vec<char> = Vec::new();
    let mut escaped = false;
    assert(texts(mentions@) =~= Seq::empty());
    assert(x@.take(0) =~= Seq::empty());
    let mut i: usize = 0;
    while i < x.len()
        invariant
            i <= x.len(),
            mention_state(x@.take(i as int)) == (MentionView {
                mentions: texts(mentions@),
                token: token@,
                escaped,
            }),
        decreases x.len() - i,
    {
        assert(x@.take(i + 1).drop_last() =~= x@.take(i as int));
        let c = x[i];
        if escaped {
            token.push(c);
            escaped = false;
        } else if c == '\\' {
            escaped = true;
        } else if is_white_space(c) {
            push_mention(&mut mentions, &token);
            token = Vec::new();
        } else {
            token.push(c);
        }
        i += 1;
    }
    assert(x@.take(x@.len() as int) =~= x@);
    push_mention(&mut mentions, &token);
    mentions
}

/// A mention with its escapes removed.
pub fn unescape_mention(text: &str) -> (r: String)
    ensures
        r@ == unescape_state(text@).0,
{
    let x = chars_of(text);
    let mut out = String::new();
    let mut escaped = false;
    assert(x@.take(0) =~= Seq::empty());
    let mut i: usize = 0;
    while i < x.len()
        invariant
            i <= x.len(),
            unescape_state(x@.take(i as int)) == (out@, escaped),
        decreases x.len() - i,
    {
        assert(x@.take(i + 1).drop_last() =~= x@.take(i as int));
        if escaped {
            out.push(x[i]);
            escaped = false;
        } else if x[i] == '\\' {
            escaped = true;
        } else {
            out.push(x[i]);
        }
        i += 1;
    }
    assert(x@.take(x@.len() as int) =~= x@);
    out
}

/// A path with white space and backslashes escaped.
pub fn escape_mention(path: &str) -> (r: String)
    ensures
        r@ == escaped_path(path@),
{
    let x = chars_of(path);
    let mut out = String::new();
    assert(x@.take(0) =~= Seq::empty());
    let mut i: usize = 0;
    while i < x.len()
        invariant
            i <= x.len(),
            out@ == escaped_path(x@.take(i as int)),
        decreases x.len() - i,
    {
        assert(x@.take(i + 1).drop_last() =~= x@.take(i as int));
        if is_white_space(x[i]) || x[i] == '\\' {
            out.push('\\');
        }
        out.push(x[i]);
        i += 1;
    }
    assert(x@.take(x@.len() as int) =~= x@);
    out
}

// ---------------------------------------------------------------------------
// Candidates

/// A palette row: the text a completion writes, plus how it is displayed.
#[derive(Debug)]
pub struct Candidate {
    pub completion: String,
    pub label: String,
    pub detail: String,
}

/// The model of a [`Candidate`].
pub struct CandidateView {
    pub completion: Seq<char>,
    pub label: Seq<char>,
    pub detail: Seq<char>,
}

impl View for Candidate {
    type V = CandidateView;

    open spec fn view(&self) -> CandidateView {
        CandidateView { completion: self.completion@, label: self.label@, detail: self.detail@ }
    }
}

impl Clone for Candidate {
    fn clone(&self) -> (r: Candidate)
        ensures
            r@ == self@,
    {
        Candidate {
            completion: self.completion.clone(),
            label: self.label.clone(),
            detail: self.detail.clone(),
        }
    }
}

/// The commands, each with its usage and what it does.
pub open spec fn slash_commands() -> Seq<CandidateView> {
    seq![
        CandidateView {
            completion: "/model"@,
            label: "/model [profile]"@,
            detail: "Switch model profile"@,
        },
        CandidateView {
            completion: "/effort"@,
            label: "/effort [level]"@,
            detail: "Set reasoning effort"@,
        },
        CandidateView {
            completion: "/thinking"@,
            label: "/thinking"@,
            detail: "Toggle reasoning visibility"@,
        },
        CandidateView {
            completion: "/status"@,
            label: "/status"@,
            detail: "Show session and model status"@,
        },
        CandidateView {
            completion: "/clear"@,
            label: "/clear"@,
            detail: "Clear the current conversation"@,
        },
        CandidateView {
            completion: "/compact"@,
            label: "/compact"@,
            detail: "Summarize the current conversation"@,
        },
        CandidateView {
            completion: "/resume"@,
            label: "/resume [session-id]"@,
            detail: "Resume a session in this cwd"@,
        },
        CandidateView {
            completion: "/help"@,
            label: "/help"@,
            detail: "Show available commands"@,
        },
    ]
}

fn candidate(completion: &str, label: &str, detail: &str) -> (r: Candidate)
    ensures
        r@ == (CandidateView { completion: completion@, label: label@, detail: detail@ }),
{
    Candidate {
        completion: completion.to_owned(),
        label: label.to_owned(),
        detail: detail.to_owned(),
    }
}

/// The commands, each with its usage and what it does.
pub fn all_commands() -> (r: Vec<Candidate>)
    ensures
        views(r@) == slash_commands(),
{
    let mut r: Vec<Candidate> = Vec::new();
    r.push(candidate("/model", "/model [profile]", "Switch model profile"));
    r.push(candidate("/effort", "/effort [level]", "Set reasoning effort"));
    r.push(candidate("/thinking", "/thinking", "Toggle reasoning visibility"));
    r.push(candidate("/status", "/status", "Show session and model status"));
    r.push(candidate("/clear", "/clear", "Clear the current conversation"));
    r.push(candidate("/compact", "/compact", "Summarize the current conversation"));
    r.push(candidate("/resume", "/resume [session-id]", "Resume a session in this cwd"));
    r.push(candidate("/help", "/help", "Show available commands"));
    assert(views(r@) =~= slash_commands());
    r
}

/// The candidates whose completion begins with a text.
pub open spec fn beginning_with(rows: Seq<CandidateView>, text: Seq<char>) -> Seq<CandidateView>
    decreases rows.len(),
{
    if rows.len() == 0 {
        Seq::empty()
    } else if begins(rows.last().completion, text) {
        beginning_with(rows.drop_last(), text).push(rows.last())
    } else {
        beginning_with(rows.drop_last(), text)
    }
}

/// An entry of a directory.
#[derive(Debug)]
pub struct DirEntry {
    pub name: String,
    pub is_directory: bool,
}

/// The model of a [`DirEntry`].
pub struct EntryView {
    pub name: Seq<char>,
    pub is_directory: bool,
}

impl View for DirEntry {
    type V = EntryView;

    open spec fn view(&self) -> EntryView {
        EntryView { name: self.name@, is_directory: self.is_directory }
    }
}

impl Clone for DirEntry {
    fn clone(&self) -> (r: DirEntry)
        ensures
            r@ == self@,
    {
        DirEntry { name: self.name.clone(), is_directory: self.is_directory }
    }
}

/// How many paths are offered.
pub const PATH_ROWS: usize = 12;

/// The directory and the beginning of a name in what was typed.
pub open spec fn split_typed(typed: Seq<char>) -> (Seq<char>, Seq<char>) {
    match cut_last(typed, "/"@) {
        Some((parent, name)) => (parent, name),
        None => (Seq::empty(), typed),
    }
}

/// Whether a name is never worth completing into.
pub open spec fn is_noise(name: Seq<char>) -> bool {
    name == ".git"@ || name == "node_modules"@ || name == "target"@
}

/// Whether an entry is offered for the beginning of a name: hidden ones only
/// once a dot was typed, and never directories that are noise.
pub open spec fn offers(entry: EntryView, name: Seq<char>) -> bool {
    &&& begins(entry.name, name)
    &&& begins(entry.name, "."@) ==> begins(name, "."@)
    &&& !(entry.is_directory && is_noise(entry.name))
}

/// The order in which entries are offered: directories first, then by name.
pub open spec fn offered_before(a: EntryView, b: EntryView) -> bool {
    if a.is_directory != b.is_directory {
        a.is_directory
    } else {
        precedes(a.name, b.name)
    }
}

/// Where an entry goes among entries that are in order.
pub open spec fn offer_place(rows: Seq<EntryView>, entry: EntryView, from: int) -> int
    decreases rows.len() - from,
{
    if from >= rows.len() {
        rows.len() as int
    } else if offered_before(entry, rows[from]) {
        from
    } else {
        offer_place(rows, entry, from + 1)
    }
}

/// The entries that are offered, in order.
pub open spec fn offered_entries(entries: Seq<EntryView>, name: Seq<char>) -> Seq<EntryView>
    decreases entries.len(),
{
    if entries.len() == 0 {
        Seq::empty()
    } else {
        let before = offered_entries(entries.drop_last(), name);
        if offers(entries.last(), name) {
            before.insert(offer_place(before, entries.last(), 0), entries.last())
        } else {
            before
        }
    }
}

/// How an entry is offered below a directory.
pub open spec fn path_row(parent: Seq<char>, entry: EntryView) -> CandidateView {
    let relative = if parent.len() == 0 {
        entry.name
    } else {
        parent + "/"@ + entry.name
    };
    let suffix = if entry.is_directory {
        "/"@
    } else {
        ""@
    };
    CandidateView {
        completion: "@"@ + escaped_path(relative) + suffix,
        label: relative + suffix,
        detail: if entry.is_directory {
            "directory"@
        } else {
            "file"@
        },
    }
}

/// The paths that are offered for what was typed.
pub open spec fn path_rows(typed: Seq<char>, entries: Seq<EntryView>) -> Seq<CandidateView> {
    let (parent, name) = split_typed(typed);
    let rows = offered_entries(entries, name);
    Seq::new(
        if rows.len() > PATH_ROWS {
            PATH_ROWS as nat
        } else {
            rows.len()
        },
        |i: int| path_row(parent, rows[i]),
    )
}

/// A token without the mark that it begins with.
pub open spec fn after_mark(text: Seq<char>) -> Seq<char> {
    if text.len() > 0 {
        text.skip(1)
    } else {
        text
    }
}

/// What is offered for a token. `entries` are those of the directory that the
/// token names.
pub open spec fn candidates_for(
    kind: PaletteKind,
    text: Seq<char>,
    entries: Seq<EntryView>,
) -> Seq<CandidateView> {
    match kind {
        PaletteKind::Slash => beginning_with(slash_commands(), text),
        PaletteKind::Path => path_rows(unescape_state(after_mark(text)).0, entries),
    }
}

/// Whether entries are in the order in which they are offered.
pub open spec fn in_offer_order(rows: Seq<EntryView>) -> bool {
    forall|i: int, j: int|
        0 <= i < j < rows.len() ==> !offered_before(#[trigger] rows[j], #[trigger] rows[i])
}

proof fn lemma_offered_before(a: EntryView, b: EntryView, c: EntryView)
    ensures
        !(offered_before(a, b) && offered_before(b, a)),
        offered_before(a, b) && !offered_before(c, b) ==> !offered_before(c, a),
{
    lemma_precedes_total(a.name, b.name);
    if offered_before(a, b) && offered_before(c, a) {
        if a.is_directory == b.is_directory && c.is_directory == a.is_directory {
            lemma_precedes_transitive(c.name, a.name, b.name);
        }
    }
}

proof fn lemma_offer_place(rows: Seq<EntryView>, entry: EntryView, from: int)
    requires
        0 <= from <= rows.len(),
    ensures
        from <= offer_place(rows, entry, from) <= rows.len(),
        forall|k: int|
            from <= k < offer_place(rows, entry, from) ==> !offered_before(
                entry,
                #[trigger] rows[k],
            ),
        offer_place(rows, entry, from) < rows.len() ==> offered_before(
            entry,
            rows[offer_place(rows, entry, from)],
        ),
    decreases rows.len() - from,
{
    if from < rows.len() && !offered_before(entry, rows[from]) {
        lemma_offer_place(rows, entry, from + 1);
    }
}

/// Directories are offered before files, and each by name, whatever the order
/// in which the directory lists them.
pub proof fn law_offers_are_in_order(entries: Seq<EntryView>, name: Seq<char>)
    ensures
        in_offer_order(offered_entries(entries, name)),
    decreases entries.len(),
{
    if entries.len() > 0 {
        law_offers_are_in_order(entries.drop_last(), name);
        let before = offered_entries(entries.drop_last(), name);
        let entry = entries.last();
        lemma_offer_place(before, entry, 0);
        if offers(entry, name) {
            let at = offer_place(before, entry, 0);
            let after = before.insert(at, entry);
            assert forall|i: int, j: int| 0 <= i < j < after.len() implies !offered_before(
                #[trigger] after[j],
                #[trigger] after[i],
            ) by {
                let a = if i < at {
                    i
                } else {
                    i - 1
                };
                let b = if j < at {
                    j
                } else {
                    j - 1
                };
                if i != at {
                    assert(after[i] == before[a]);
                }
                if j != at {
                    assert(after[j] == before[b]);
                }
                if i == at {
                    lemma_offered_before(entry, before[at], before[b]);
                    if b > at {
                        assert(!offered_before(before[b], before[at]));
                    } else {
                        lemma_offered_before(entry, before[b], before[b]);
                    }
                }
            }
        }
    }
}

fn matching_commands(text: &str) -> (r: Vec<Candidate>)
    ensures
        views(r@) == beginning_with(slash_commands(), text@),
{
    broadcast use lemma_views_push;

    let commands = all_commands();
    let ghost all = slash_commands();
    let mut r: Vec<Candidate> = Vec::new();
    assert(views(r@) =~= Seq::empty());
    assert(all.take(0) =~= Seq::empty());
    assert(views(commands@).len() == commands@.len());
    let mut i: usize = 0;
    while i < commands.len()
        invariant
            i <= commands.len(),
            all == views(commands@),
            views(r@) == beginning_with(all.take(i as int), text@),
        decreases commands.len() - i,
    {
        assert(all.take(i + 1).drop_last() =~= all.take(i as int));
        assert(all.take(i + 1).last() == commands@[i as int]@);
        if starts_with(&commands[i].completion, text) {
            r.push(commands[i].clone());
        }
        i += 1;
    }
    assert(all.take(all.len() as int) =~= all);
    r
}

fn is_offered(entry: &DirEntry, name: &str) -> (r: bool)
    ensures
        r == offers(entry@, name@),
{
    if !starts_with(&entry.name, name) {
        return false;
    }
    if starts_with(&entry.name, ".") && !starts_with(name, ".") {
        return false;
    }
    !(entry.is_directory && (same(&entry.name, ".git") || same(&entry.name, "node_modules")
        || same(&entry.name, "target")))
}

fn goes_first(a: &DirEntry, b: &DirEntry) -> (r: bool)
    ensures
        r == offered_before(a@, b@),
{
    if a.is_directory != b.is_directory {
        a.is_directory
    } else {
        before(&a.name, &b.name)
    }
}

fn offer_entries(entries: &Vec<DirEntry>, name: &str) -> (r: Vec<DirEntry>)
    ensures
        views(r@) == offered_entries(views(entries@), name@),
{
    let ghost all = views(entries@);
    let mut rows: Vec<DirEntry> = Vec::new();
    assert(views(rows@) =~= Seq::empty());
    assert(all.take(0) =~= Seq::empty());
    let mut i: usize = 0;
    while i < entries.len()
        invariant
            i <= entries.len(),
            all == views(entries@),
            views(rows@) == offered_entries(all.take(i as int), name@),
        decreases entries.len() - i,
    {
        assert(all.take(i + 1).drop_last() =~= all.take(i as int));
        assert(all.take(i + 1).last() == entries@[i as int]@);
        let entry = &entries[i];
        if is_offered(entry, name) {
            let ghost before = views(rows@);
            let mut at: usize = 0;
            while at < rows.len() && !goes_first(entry, &rows[at])
                invariant
                    at <= rows.len(),
                    before == views(rows@),
                    offer_place(before, entry@, 0) == offer_place(before, entry@, at as int),
                decreases rows.len() - at,
            {
                assert(before[at as int] == rows@[at as int]@);
                at += 1;
            }
            assert(at < rows.len() ==> before[at as int] == rows@[at as int]@);
            rows.insert(at, entry.clone());
            assert(views(rows@) =~= before.insert(at as int, entry@));
        }
        i += 1;
    }
    assert(all.take(all.len() as int) =~= all);
    rows
}

fn make_row(parent: &str, entry: &DirEntry) -> (r: Candidate)
    ensures
        r@ == path_row(parent@, entry@),
{
    let relative = if parent.is_empty() {
        entry.name.clone()
    } else {
        parent.to_owned().concat("/").concat(&entry.name)
    };
    let suffix = if entry.is_directory {
        "/"
    } else {
        ""
    };
    Candidate {
        // White space is escaped so the mention survives the split that
        // resolves it into a target.
        completion: "@".to_owned().concat(&escape_mention(&relative)).concat(suffix),
        label: relative.concat(suffix),
        detail: if entry.is_directory {
            "directory".to_owned()
        } else {
            "file".to_owned()
        },
    }
}

/// The paths that are offered for what was typed. `entries` are those of
/// [`typed_directory`].
pub fn path_candidates(typed: &str, entries: &Vec<DirEntry>) -> (r: Vec<Candidate>)
    ensures
        views(r@) == path_rows(typed@, views(entries@)),
{
    broadcast use lemma_views_push;

    let (parent, name) = match rsplit_once(typed, "/") {
        Some((parent, name)) => (parent, name),
        None => (String::new(), typed.to_owned()),
    };
    let rows = offer_entries(entries, &name);
    let ghost all = path_rows(typed@, views(entries@));
    assert(views(rows@).len() == rows@.len());
    let n: usize = if rows.len() > PATH_ROWS {
        PATH_ROWS
    } else {
        rows.len()
    };
    let mut r: Vec<Candidate> = Vec::new();
    assert(views(r@) =~= all.take(0));
    let mut i: usize = 0;
    while i < n
        invariant
            i <= n <= rows.len(),
            n == all.len(),
            (parent@, name@) == split_typed(typed@),
            views(rows@) == offered_entries(views(entries@), name@),
            all == path_rows(typed@, views(entries@)),
            views(r@) == all.take(i as int),
        decreases n - i,
    {
        assert(views(rows@)[i as int] == rows@[i as int]@);
        r.push(make_row(&parent, &rows[i]));
        assert(all.take(i + 1) =~= all.take(i as int).push(all[i as int]));
        i += 1;
    }
    assert(all.take(all.len() as int) =~= all);
    r
}

/// The directory whose entries are offered for what was typed.
pub open spec fn directory_of(typed: Seq<char>, cwd: Seq<char>) -> Seq<char> {
    if split_typed(typed).0.len() == 0 {
        cwd
    } else {
        path_in(cwd, split_typed(typed).0)
    }
}

/// The directory whose entries are offered for what was typed.
pub fn typed_directory(typed: &str, cwd: &str) -> (r: String)
    ensures
        r@ == directory_of(typed@, cwd@),
{
    match rsplit_once(typed, "/") {
        Some((parent, _)) => {
            if parent.as_str().is_empty() {
                cwd.to_owned()
            } else {
                join_path(cwd, &parent)
            }
        },
        None => cwd.to_owned(),
    }
}

pub(crate) fn unmarked(text: &str) -> (r: String)
    ensures
        r@ == after_mark(text@),
{
    let x = chars_of(text);
    if x.len() > 0 {
        let r = text_between(&x, 1, x.len());
        assert(r@ =~= text@.skip(1));
        r
    } else {
        text.to_owned()
    }
}

/// What is offered for a token. `entries` are those of the directory that the
/// token names.
pub fn candidates(kind: PaletteKind, text: &str, entries: &Vec<DirEntry>) -> (r: Vec<Candidate>)
    ensures
        views(r@) == candidates_for(kind, text@, views(entries@)),
{
    match kind {
        PaletteKind::Slash => matching_commands(text),
        PaletteKind::Path => {
            let rest = unmarked(text);
            path_candidates(&unescape_mention(&rest), entries)
        },
    }
}

// ---------------------------------------------------------------------------
// What a line mentions, and what is offered

proof fn lemma_mentions_go_on(front: Seq<char>, rest: Seq<char>)
    requires
        front.len() > 0,
        white_space(front.last()),
        front.last() != '\\',
        !mention_state(front.drop_last()).escaped,
    ensures
        mention_state(front + rest) == (MentionView {
            mentions: mentions_of(front.drop_last()) + mention_state(rest).mentions,
            token: mention_state(rest).token,
            escaped: mention_state(rest).escaped,
        }),
    decreases rest.len(),
{
    if rest.len() == 0 {
        assert(front + rest =~= front);
        let m = mentions_of(front.drop_last());
        assert(m + Seq::empty() =~= m);
    } else {
        lemma_mentions_go_on(front, rest.drop_last());
        assert((front + rest).drop_last() =~= front + rest.drop_last());
        let m = mentions_of(front.drop_last());
        let before = mention_state(rest.drop_last());
        if mention_of(before.token) is Some {
            let x = mention_of(before.token)->Some_0;
            assert((m + before.mentions).push(x) =~= m + before.mentions.push(x));
        }
    }
}

/// What two lines mention, one after the other with white space between them, is
/// what the first mentions and then what the second does, unless the white space
/// is escaped.
pub proof fn law_mentions_come_one_after_another(a: Seq<char>, space: char, b: Seq<char>)
    requires
        white_space(space),
        space != '\\',
        !mention_state(a).escaped,
    ensures
        mentions_of(a.push(space) + b) == mentions_of(a) + mentions_of(b),
{
    assert(a.push(space).drop_last() =~= a);
    lemma_mentions_go_on(a.push(space), b);
    let m = mentions_of(a);
    let end = mention_state(b);
    if mention_of(end.token) is Some {
        let x = mention_of(end.token)->Some_0;
        assert((m + end.mentions).push(x) =~= m + end.mentions.push(x));
    }
}

proof fn lemma_word_state(word: Seq<char>)
    requires
        forall|i: int| 0 <= i < word.len() ==> !white_space(#[trigger] word[i]) && word[i] != '\\',
    ensures
        mention_state(word) == (MentionView {
            mentions: Seq::empty(),
            token: word,
            escaped: false,
        }),
    decreases word.len(),
{
    if word.len() > 0 {
        let front = word.drop_last();
        assert forall|i: int| 0 <= i < front.len() implies !white_space(#[trigger] front[i])
            && front[i] != '\\' by {
            assert(word[i] == front[i]);
        }
        lemma_word_state(front);
        assert(word.last() == word[word.len() - 1]);
        assert(front.push(word.last()) =~= word);
    } else {
        assert(word =~= Seq::empty());
    }
}

/// A word mentions a path where it begins with an at sign, without the punctuation
/// that ends it; another word mentions nothing.
pub proof fn law_words_mention_paths(path: Seq<char>, end: Seq<char>)
    requires
        forall|i: int| 0 <= i < path.len() ==> !white_space(#[trigger] path[i]) && path[i] != '\\',
        path.len() > 0,
        !is_punctuation(path.last()),
        forall|i: int|
            0 <= i < end.len() ==> (#[trigger] end[i] == ',' || end[i] == '.' || end[i] == ';'
                || end[i] == ':' || end[i] == ')') && !white_space(end[i]),
        !white_space('@'),
    ensures
        mentions_of(seq!['@'] + path + end) == seq![path],
        path[0] != '@' ==> mentions_of(path + end) == Seq::<Seq<char>>::empty(),
{
    let word = seq!['@'] + path + end;
    let other = path + end;
    assert forall|i: int| 0 <= i < word.len() implies !white_space(#[trigger] word[i])
        && word[i] != '\\' by {
        if 1 <= i < 1 + path.len() {
            assert(word[i] == path[i - 1]);
        } else if i > 0 {
            assert(word[i] == end[i - 1 - path.len()]);
        }
    }
    assert forall|i: int| 0 <= i < other.len() implies !white_space(#[trigger] other[i])
        && other[i] != '\\' by {
        if i < path.len() {
            assert(other[i] == path[i]);
        } else {
            assert(other[i] == end[i - path.len()]);
        }
    }
    lemma_word_state(word);
    lemma_word_state(other);
    assert(word.skip(1) =~= path + end);
    lemma_unpunctuated(path, end);
    assert(Seq::<Seq<char>>::empty().push(path) =~= seq![path]);
    assert(other[0] == path[0]);
}

proof fn lemma_unpunctuated(text: Seq<char>, end: Seq<char>)
    requires
        text.len() > 0,
        !is_punctuation(text.last()),
        forall|i: int| 0 <= i < end.len() ==> is_punctuation(#[trigger] end[i]),
    ensures
        unpunctuated(text + end) == text,
    decreases end.len(),
{
    if end.len() == 0 {
        assert(text + end =~= text);
    } else {
        let front = end.drop_last();
        assert forall|i: int| 0 <= i < front.len() implies is_punctuation(#[trigger] front[i]) by {
            assert(front[i] == end[i]);
        }
        assert((text + end).drop_last() =~= text + front);
        assert((text + end).last() == end[end.len() - 1]);
        lemma_unpunctuated(text, front);
    }
}

/// One more entry is put among those that are offered where it continues what was
/// typed, unless it is hidden and nothing hidden was asked for, or is a directory
/// that nobody looks into; the others stay as they are.
pub proof fn law_entries_are_offered(
    entries: Seq<EntryView>,
    entry: EntryView,
    name: Seq<char>,
)
    ensures
        ({
            let before = offered_entries(entries, name);
            let after = offered_entries(entries.push(entry), name);
            let hidden = begins(entry.name, "."@) && !begins(name, "."@);
            let noise = entry.is_directory && (entry.name == ".git"@ || entry.name
                == "node_modules"@ || entry.name == "target"@);
            &&& begins(entry.name, name) && !hidden && !noise ==> exists|k: int|
                0 <= k <= before.len() && after == #[trigger] before.insert(k, entry)
            &&& !(begins(entry.name, name) && !hidden && !noise) ==> after == before
        }),
        offered_entries(Seq::empty(), name) == Seq::<EntryView>::empty(),
{
    let more = entries.push(entry);
    assert(more.drop_last() =~= entries);
    let before = offered_entries(entries, name);
    lemma_offer_place(before, entry, 0);
    if offers(entry, name) {
        let k = offer_place(before, entry, 0);
        assert(offered_entries(more, name) == before.insert(k, entry));
    }
}

/// A row for a path shows what its completion stands for, says whether that is a
/// directory, and has the name of an entry that is offered; the rows come in the
/// order of the entries, and there are at most twelve.
pub proof fn law_rows_show_what_they_complete(typed: Seq<char>, entries: Seq<EntryView>, i: int)
    requires
        0 <= i < path_rows(typed, entries).len(),
    ensures
        ({
            let row = path_rows(typed, entries)[i];
            let entry = offered_entries(entries, split_typed(typed).1)[i];
            &&& row.completion.len() > 0 && row.completion[0] == '@'
            &&& unescape_state(row.completion.skip(1)) == (row.label, false)
            &&& entry.is_directory ==> row.detail == "directory"@ && ends(
                row.label,
                entry.name + "/"@,
            )
            &&& !entry.is_directory ==> row.detail == "file"@ && ends(row.label, entry.name)
            &&& split_typed(typed).0.len() > 0 ==> begins(
                row.label,
                split_typed(typed).0 + "/"@ + entry.name,
            )
            &&& split_typed(typed).0.len() == 0 ==> begins(row.label, entry.name)
        }),
        path_rows(typed, entries).len() == (if offered_entries(entries, split_typed(typed).1).len()
            > 12 {
            12
        } else {
            offered_entries(entries, split_typed(typed).1).len()
        }),
{
    let (parent, name) = split_typed(typed);
    let entry = offered_entries(entries, name)[i];
    let row = path_rows(typed, entries)[i];
    reveal_strlit("@");
    reveal_strlit("/");
    reveal_strlit("");
    let relative = if parent.len() == 0 {
        entry.name
    } else {
        parent + "/"@ + entry.name
    };
    law_escapes_are_read_back(relative);
    assert(row == path_row(parent, entry));
    if entry.is_directory {
        assert(row.completion.skip(1) =~= escaped_path(relative).push('/'));
        assert(escaped_path(relative).push('/').drop_last() =~= escaped_path(relative));
        assert(row.label =~= relative.push('/'));
        assert(row.label.subrange(
            row.label.len() - (entry.name + "/"@).len(),
            row.label.len() as int,
        ) =~= entry.name + "/"@);
    } else {
        assert(row.completion.skip(1) =~= escaped_path(relative));
        assert(row.label =~= relative);
        assert(row.label.subrange(row.label.len() - entry.name.len(), row.label.len() as int)
            =~= entry.name);
    }
    assert(row.label.subrange(0, relative.len() as int) =~= relative);
}

/// What is chosen of the commands.
pub open spec fn beginning(text: Seq<char>) -> spec_fn(CandidateView) -> Option<CandidateView> {
    |row: CandidateView|
        if begins(row.completion, text) {
            Some(row)
        } else {
            None
        }
}

/// The commands that are offered are those that begin with what was typed.
pub proof fn law_commands_are_offered(text: Seq<char>, entries: Seq<EntryView>)
    ensures
        picks(
            slash_commands(),
            candidates_for(PaletteKind::Slash, text, entries),
            beginning(text),
        ),
{
    lemma_beginning_with(slash_commands(), text);
}

proof fn lemma_beginning_with(rows: Seq<CandidateView>, text: Seq<char>)
    ensures
        picks(rows, beginning_with(rows, text), beginning(text)),
    decreases rows.len(),
{
    if rows.len() == 0 {
        lemma_picks_nothing(rows, beginning(text));
    } else {
        lemma_beginning_with(rows.drop_last(), text);
        lemma_picks_last(rows, beginning_with(rows.drop_last(), text), beginning(text));
    }
}

/// What is typed is looked for in the directory that it names before its last
/// slash, and in the working directory without one.
pub proof fn law_typed_paths_are_looked_for(
    directory: Seq<char>,
    name: Seq<char>,
    cwd: Seq<char>,
)
    requires
        forall|i: int| 0 <= i < name.len() ==> #[trigger] name[i] != '/',
    ensures
        split_typed(name) == (Seq::<char>::empty(), name),
        split_typed(directory.push('/') + name) == (directory, name),
        directory_of(name, cwd) == cwd,
        directory.len() > 0 ==> directory_of(directory.push('/') + name, cwd) == path_in(
            cwd,
            directory,
        ),
{
    reveal_strlit("/");
    let typed = directory.push('/') + name;
    let n = directory.len() as int;
    lemma_no_slash_from(name, 0, name.len() as int);
    assert forall|i: int| n + 1 <= i < typed.len() implies #[trigger] typed[i] != '/' by {
        assert(typed[i] == name[i - n - 1]);
    }
    lemma_no_slash_from(typed, n + 1, typed.len() as int);
    assert(typed.subrange(n, n + 1) =~= "/"@);
    assert(last_at(typed, "/"@, n) == Some(n));
    assert(typed.take(n) =~= directory);
    assert(typed.skip(n + 1) =~= name);
}

proof fn lemma_no_slash_from(s: Seq<char>, from: int, upto: int)
    requires
        0 <= from <= upto + 1,
        upto <= s.len(),
        forall|i: int| from <= i < s.len() ==> #[trigger] s[i] != '/',
        "/"@.len() == 1,
        "/"@[0] == '/',
    ensures
        from > 0 ==> last_at(s, "/"@, upto) == last_at(s, "/"@, from - 1),
        from == 0 ==> last_at(s, "/"@, upto) is None,
    decreases upto + 1 - from,
{
    if upto >= from {
        if upto < s.len() {
            assert(s.subrange(upto, upto + 1)[0] == s[upto]);
        }
        lemma_no_slash_from(s, from, upto - 1);
    }
}

/// Directories are offered before files, and each in the order of their names.
pub proof fn law_directories_are_offered_first(
    entries: Seq<EntryView>,
    name: Seq<char>,
    i: int,
    j: int,
)
    requires
        0 <= i < j < offered_entries(entries, name).len(),
    ensures
        ({
            let rows = offered_entries(entries, name);
            &&& rows[j].is_directory ==> rows[i].is_directory
            &&& rows[i].is_directory == rows[j].is_directory ==> !precedes(
                rows[j].name,
                rows[i].name,
            )
        }),
{
    law_offers_are_in_order(entries, name);
    let rows = offered_entries(entries, name);
    assert(!offered_before(rows[j], rows[i]));
}

} // verus!
