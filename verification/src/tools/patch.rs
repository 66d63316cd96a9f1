//! Patches: what they say, what they do to files, and how to undo them.
use vstd::prelude::*;
use vstd::string::*;

use crate::seqs::{law_picks_are_unique, lemma_picks_last, lemma_picks_nothing, picks};
use crate::text::{
    after_prefix, begins, byte_len, bytes_of, chars_of, contains, copy_maybe, ends_with, has,
    increasing, insert_text, is_line, join, joined, law_lines_are_read_back,
    law_lines_come_one_after_another, law_prefixes, law_trimming_takes_away_white_space,
    lemma_texts_push, lemma_views_push, lines, lines_of, maybe, maybe_view, outcome, outcomes,
    same, starts_with, strip_prefix, text_between, texts, trim, trimmed, views, white_space,
};

verus! {

// ---------------------------------------------------------------------------
// What a patch says

/// What one line of a hunk asks for.
#[derive(Debug, Clone, Copy, PartialEq, Eq, Structural)]
pub enum LineKind {
    Context,
    Add,
    Remove,
}

/// One line of a hunk.
#[derive(Debug)]
pub struct HunkLine {
    pub kind: LineKind,
    pub text: String,
}

impl View for HunkLine {
    type V = (LineKind, Seq<char>);

    open spec fn view(&self) -> (LineKind, Seq<char>) {
        (self.kind, self.text@)
    }
}

/// One place of a file that an update changes.
#[derive(Debug)]
pub struct Hunk {
    pub anchor: Option<String>,
    pub lines: Vec<HunkLine>,
}

/// The model of a [`Hunk`].
pub struct HunkView {
    pub anchor: Option<Seq<char>>,
    pub lines: Seq<(LineKind, Seq<char>)>,
}

impl View for Hunk {
    type V = HunkView;

    open spec fn view(&self) -> HunkView {
        HunkView { anchor: maybe(self.anchor), lines: views(self.lines@) }
    }
}

/// What a patch asks for one file.
#[derive(Debug)]
pub enum Operation {
    Add { path: String, content: String },
    Delete { path: String },
    Update { path: String, hunks: Vec<Hunk> },
}

/// The model of an [`Operation`].
pub enum OperationView {
    Add { path: Seq<char>, content: Seq<char> },
    Delete { path: Seq<char> },
    Update { path: Seq<char>, hunks: Seq<HunkView> },
}

impl View for Operation {
    type V = OperationView;

    open spec fn view(&self) -> OperationView {
        match self {
            Operation::Add { path, content } => OperationView::Add {
                path: path@,
                content: content@,
            },
            Operation::Delete { path } => OperationView::Delete { path: path@ },
            Operation::Update { path, hunks } => OperationView::Update {
                path: path@,
                hunks: views(hunks@),
            },
        }
    }
}

impl OperationView {
    /// The path as the patch writes it.
    pub open spec fn path(self) -> Seq<char> {
        match self {
            OperationView::Add { path, .. } => path,
            OperationView::Delete { path } => path,
            OperationView::Update { path, .. } => path,
        }
    }
}

impl Operation {
    /// The path as the patch writes it.
    pub fn path(&self) -> (r: &String)
        ensures
            r@ == self@.path(),
    {
        match self {
            Operation::Add { path, .. } => path,
            Operation::Delete { path } => path,
            Operation::Update { path, .. } => path,
        }
    }
}

/// The operation whose lines are being read.
pub enum Section {
    Between,
    Adding { path: String, content: Vec<String> },
    Updating { path: String, hunks: Vec<Hunk>, open: Option<Hunk> },
}

/// The model of a [`Section`].
pub enum SectionView {
    Between,
    Adding { path: Seq<char>, content: Seq<Seq<char>> },
    Updating { path: Seq<char>, hunks: Seq<HunkView>, open: Option<HunkView> },
}

impl View for Section {
    type V = SectionView;

    open spec fn view(&self) -> SectionView {
        match self {
            Section::Between => SectionView::Between,
            Section::Adding { path, content } => SectionView::Adding {
                path: path@,
                content: texts(content@),
            },
            Section::Updating { path, hunks, open } => SectionView::Updating {
                path: path@,
                hunks: views(hunks@),
                open: match open {
                    Some(h) => Some(h@),
                    None => None,
                },
            },
        }
    }
}

/// The operations read so far and the one being read.
pub struct ReadingView {
    pub done: Seq<OperationView>,
    pub section: SectionView,
}

/// The text of a new file with the given lines.
pub open spec fn added_content(lines: Seq<Seq<char>>) -> Seq<char> {
    let content = joined(lines, seq!['\n']);
    if content.len() == 0 {
        content
    } else {
        content.push('\n')
    }
}

/// A path is accepted unless it is blank.
pub open spec fn acceptable_path(path: Seq<char>) -> bool {
    trimmed(path).len() > 0
}

/// The hunks of an update once a hunk that is open has been ended.
pub open spec fn end_hunk(
    path: Seq<char>,
    hunks: Seq<HunkView>,
    open: Option<HunkView>,
) -> Result<Seq<HunkView>, Seq<char>> {
    match open {
        None => Ok(hunks),
        Some(h) => if h.lines.len() == 0 {
            Err("empty update hunk for "@ + path)
        } else {
            Ok(hunks.push(h))
        },
    }
}

/// The operations once the one being read has been ended.
pub open spec fn end_section(r: ReadingView) -> Result<Seq<OperationView>, Seq<char>> {
    match r.section {
        SectionView::Between => Ok(r.done),
        SectionView::Adding { path, content } => Ok(
            r.done.push(OperationView::Add { path, content: added_content(content) }),
        ),
        SectionView::Updating { path, hunks, open } => match end_hunk(path, hunks, open) {
            Err(e) => Err(e),
            Ok(hunks) => if hunks.len() == 0 {
                Err("update operation has no hunks: "@ + path)
            } else {
                Ok(r.done.push(OperationView::Update { path, hunks }))
            },
        },
    }
}

/// What a line that starts an operation begins.
pub open spec fn begin_section(done: Seq<OperationView>, line: Seq<char>) -> Result<
    ReadingView,
    Seq<char>,
> {
    if let Some(path) = after_prefix(line, "*** Add File: "@) {
        if acceptable_path(path) {
            Ok(
                ReadingView {
                    done,
                    section: SectionView::Adding { path, content: Seq::empty() },
                },
            )
        } else {
            Err("patch path must not be empty"@)
        }
    } else if let Some(path) = after_prefix(line, "*** Delete File: "@) {
        if acceptable_path(path) {
            Ok(
                ReadingView {
                    done: done.push(OperationView::Delete { path }),
                    section: SectionView::Between,
                },
            )
        } else {
            Err("patch path must not be empty"@)
        }
    } else if let Some(path) = after_prefix(line, "*** Update File: "@) {
        if acceptable_path(path) {
            Ok(
                ReadingView {
                    done,
                    section: SectionView::Updating { path, hunks: Seq::empty(), open: None },
                },
            )
        } else {
            Err("patch path must not be empty"@)
        }
    } else {
        Err("unknown patch operation: "@ + line)
    }
}

/// The anchor that a hunk header names after `@@`.
pub open spec fn anchor_of(header: Seq<char>) -> Option<Seq<char>> {
    if trimmed(header).len() == 0 {
        None
    } else {
        Some(trimmed(header))
    }
}

/// A line inside a hunk.
pub open spec fn hunk_line(line: Seq<char>) -> Option<(LineKind, Seq<char>)> {
    if line.len() == 0 {
        None
    } else if line[0] == ' ' {
        Some((LineKind::Context, line.skip(1)))
    } else if line[0] == '+' {
        Some((LineKind::Add, line.skip(1)))
    } else if line[0] == '-' {
        Some((LineKind::Remove, line.skip(1)))
    } else {
        None
    }
}

/// Reading one more line.
pub open spec fn read_line(r: ReadingView, line: Seq<char>) -> Result<ReadingView, Seq<char>> {
    if r.section is Between || begins(line, "*** "@) {
        match end_section(r) {
            Err(e) => Err(e),
            Ok(done) => begin_section(done, line),
        }
    } else {
        match r.section {
            SectionView::Between => Ok(r),
            SectionView::Adding { path, content } => match after_prefix(line, "+"@) {
                Some(value) => Ok(
                    ReadingView {
                        done: r.done,
                        section: SectionView::Adding { path, content: content.push(value) },
                    },
                ),
                None => Err("add-file line must start with '+': "@ + line),
            },
            SectionView::Updating { path, hunks, open } => match after_prefix(line, "@@"@) {
                Some(header) => match end_hunk(path, hunks, open) {
                    Err(e) => Err(e),
                    Ok(hunks) => Ok(
                        ReadingView {
                            done: r.done,
                            section: SectionView::Updating {
                                path,
                                hunks,
                                open: Some(
                                    HunkView { anchor: anchor_of(header), lines: Seq::empty() },
                                ),
                            },
                        },
                    ),
                },
                None => match open {
                    None => Err("expected hunk header, found: "@ + line),
                    Some(h) => match hunk_line(line) {
                        None => Err("hunk line must start with ' ', '+' or '-': "@ + line),
                        Some(l) => Ok(
                            ReadingView {
                                done: r.done,
                                section: SectionView::Updating {
                                    path,
                                    hunks,
                                    open: Some(
                                        HunkView { anchor: h.anchor, lines: h.lines.push(l) },
                                    ),
                                },
                            },
                        ),
                    },
                },
            },
        }
    }
}

/// Reading lines one after another; the first error ends it.
pub open spec fn read_lines(lines: Seq<Seq<char>>) -> Result<ReadingView, Seq<char>>
    decreases lines.len(),
{
    if lines.len() == 0 {
        Ok(ReadingView { done: Seq::empty(), section: SectionView::Between })
    } else {
        match read_lines(lines.drop_last()) {
            Err(e) => Err(e),
            Ok(r) => read_line(r, lines.last()),
        }
    }
}

/// Whether the lines of a patch are framed by its first and last line.
pub open spec fn framed(lines: Seq<Seq<char>>) -> bool {
    lines.len() > 0 && lines.first() == "*** Begin Patch"@ && lines.last() == "*** End Patch"@
}

/// What is said of a patch that is not framed.
pub open spec fn frame_error() -> Seq<char> {
    "patch must start with '*** Begin Patch' and end with '*** End Patch'"@
}

/// The operations of a patch.
pub open spec fn operations_of(patch: Seq<char>) -> Result<Seq<OperationView>, Seq<char>> {
    let lines = lines_of(patch);
    if !framed(lines) {
        Err(frame_error())
    } else {
        match read_lines(lines.subrange(1, lines.len() - 1)) {
            Err(e) => Err(e),
            Ok(r) => match end_section(r) {
                Err(e) => Err(e),
                Ok(operations) => if operations.len() == 0 {
                    Err("patch contains no operations"@)
                } else {
                    Ok(operations)
                },
            },
        }
    }
}

/// A first line and a different last line are two lines.
proof fn lemma_framed(lines: Seq<Seq<char>>)
    requires
        framed(lines),
    ensures
        lines.len() >= 2,
{
    reveal_strlit("*** Begin Patch");
    reveal_strlit("*** End Patch");
    if lines.len() == 1 {
        assert("*** Begin Patch"@.len() == 15);
        assert("*** End Patch"@.len() == 13);
    }
}

fn validate_patch_path(path: &str) -> (r: Result<(), String>)
    ensures
        r is Ok <==> acceptable_path(path@),
        r matches Err(e) ==> e@ == "patch path must not be empty"@,
{
    if trim(path).as_str().is_empty() {
        Err("patch path must not be empty".to_owned())
    } else {
        Ok(())
    }
}

/// Whether the lines are framed.
fn is_framed(lines: &Vec<String>) -> (r: bool)
    ensures
        r == framed(texts(lines@)),
{
    if lines.len() == 0 {
        return false;
    }
    assert(texts(lines@).first() == lines@[0]@);
    assert(texts(lines@).last() == lines@[lines@.len() - 1]@);
    same(&lines[0], "*** Begin Patch") && same(&lines[lines.len() - 1], "*** End Patch")
}

fn finish_hunk(path: &str, hunks: Vec<Hunk>, open: Option<Hunk>) -> (r: Result<
    Vec<Hunk>,
    String,
>)
    ensures
        outcomes(r) == end_hunk(path@, views(hunks@), maybe_view(open)),
{
    broadcast use lemma_views_push;

    match open {
        None => Ok(hunks),
        Some(h) => {
            if h.lines.len() == 0 {
                Err("empty update hunk for ".to_owned().concat(path))
            } else {
                let mut hunks = hunks;
                hunks.push(h);
                Ok(hunks)
            }
        },
    }
}

/// The operations read so far and the one being read.
struct Reading {
    done: Vec<Operation>,
    section: Section,
}

impl View for Reading {
    type V = ReadingView;

    closed spec fn view(&self) -> ReadingView {
        ReadingView { done: views(self.done@), section: self.section@ }
    }
}

fn finish_section(r: Reading) -> (res: Result<Vec<Operation>, String>)
    ensures
        outcomes(res) == end_section(r@),
{
    broadcast use lemma_views_push;

    let mut done = r.done;
    match r.section {
        Section::Between => Ok(done),
        Section::Adding { path, content } => {
            proof {
                reveal_strlit("\n");
                assert("\n"@ =~= seq!['\n']);
            }
            let mut text = join(&content, "\n");
            if !text.as_str().is_empty() {
                text.push('\n');
            }
            done.push(Operation::Add { path, content: text });
            Ok(done)
        },
        Section::Updating { path, hunks, open } => match finish_hunk(&path, hunks, open) {
            Err(e) => Err(e),
            Ok(hunks) => {
                if hunks.len() == 0 {
                    Err("update operation has no hunks: ".to_owned().concat(&path))
                } else {
                    done.push(Operation::Update { path, hunks });
                    Ok(done)
                }
            },
        },
    }
}

fn start_section(done: Vec<Operation>, line: &str) -> (r: Result<Reading, String>)
    ensures
        outcome(r) == begin_section(views(done@), line@),
{
    broadcast use lemma_views_push;

    if let Some(path) = strip_prefix(line, "*** Add File: ") {
        match validate_patch_path(&path) {
            Err(e) => Err(e),
            Ok(()) => {
                let content: Vec<String> = Vec::new();
                assert(texts(content@) =~= Seq::empty());
                Ok(Reading { done, section: Section::Adding { path, content } })
            },
        }
    } else if let Some(path) = strip_prefix(line, "*** Delete File: ") {
        match validate_patch_path(&path) {
            Err(e) => Err(e),
            Ok(()) => {
                let mut done = done;
                done.push(Operation::Delete { path });
                Ok(Reading { done, section: Section::Between })
            },
        }
    } else if let Some(path) = strip_prefix(line, "*** Update File: ") {
        match validate_patch_path(&path) {
            Err(e) => Err(e),
            Ok(()) => {
                let hunks: Vec<Hunk> = Vec::new();
                assert(views(hunks@) =~= Seq::empty());
                Ok(Reading { done, section: Section::Updating { path, hunks, open: None } })
            },
        }
    } else {
        Err("unknown patch operation: ".to_owned().concat(line))
    }
}

fn scan_hunk_line(line: &str) -> (r: Option<HunkLine>)
    ensures
        maybe_view(r) == hunk_line(line@),
{
    let x = chars_of(line);
    if x.len() == 0 {
        return None;
    }
    let kind = if x[0] == ' ' {
        LineKind::Context
    } else if x[0] == '+' {
        LineKind::Add
    } else if x[0] == '-' {
        LineKind::Remove
    } else {
        return None;
    };
    assert(x@.subrange(1, x@.len() as int) =~= line@.skip(1));
    Some(HunkLine { kind, text: text_between(&x, 1, x.len()) })
}

fn scan_line(r: Reading, line: &str) -> (res: Result<Reading, String>)
    ensures
        outcome(res) == read_line(r@, line@),
{
    broadcast use {lemma_views_push, lemma_texts_push};

    let between = match &r.section {
        Section::Between => true,
        _ => false,
    };
    if between || starts_with(line, "*** ") {
        return match finish_section(r) {
            Err(e) => Err(e),
            Ok(done) => start_section(done, line),
        };
    }
    let done = r.done;
    match r.section {
        Section::Between => Ok(Reading { done, section: Section::Between }),
        Section::Adding { path, content } => match strip_prefix(line, "+") {
            Some(value) => {
                let mut content = content;
                content.push(value);
                Ok(Reading { done, section: Section::Adding { path, content } })
            },
            None => Err("add-file line must start with '+': ".to_owned().concat(line)),
        },
        Section::Updating { path, hunks, open } => match strip_prefix(line, "@@") {
            Some(header) => match finish_hunk(&path, hunks, open) {
                Err(e) => Err(e),
                Ok(hunks) => {
                    let name = trim(&header);
                    let anchor = if name.as_str().is_empty() {
                        None
                    } else {
                        Some(name)
                    };
                    let lines: Vec<HunkLine> = Vec::new();
                    assert(views(lines@) =~= Seq::empty());
                    Ok(
                        Reading {
                            done,
                            section: Section::Updating {
                                path,
                                hunks,
                                open: Some(Hunk { anchor, lines }),
                            },
                        },
                    )
                },
            },
            None => match open {
                None => Err("expected hunk header, found: ".to_owned().concat(line)),
                Some(h) => match scan_hunk_line(line) {
                    None => Err(
                        "hunk line must start with ' ', '+' or '-': ".to_owned().concat(line),
                    ),
                    Some(l) => {
                        let mut h = h;
                        h.lines.push(l);
                        Ok(
                            Reading {
                                done,
                                section: Section::Updating { path, hunks, open: Some(h) },
                            },
                        )
                    },
                },
            },
        },
    }
}

/// Reads a patch into its operations.
pub fn parse_patch(patch: &str) -> (r: Result<Vec<Operation>, String>)
    ensures
        outcomes(r) == operations_of(patch@),
{
    let lines = lines(patch);
    if !is_framed(&lines) {
        return Err(
            "patch must start with '*** Begin Patch' and end with '*** End Patch'".to_owned(),
        );
    }
    let ghost all = lines_of(patch@);
    proof {
        lemma_framed(all);
        assert(texts(lines@).len() == lines@.len());
    }
    let n: usize = lines.len() - 1;
    let ghost body = all.subrange(1, all.len() - 1);
    let first: Vec<Operation> = Vec::new();
    assert(views(first@) =~= Seq::empty());
    assert(body.take(0) =~= Seq::empty());
    let mut reading = Reading { done: first, section: Section::Between };
    let mut i: usize = 1;
    while i < n
        invariant
            1 <= i <= n,
            n + 1 == lines.len(),
            texts(lines@) == all,
            body == all.subrange(1, all.len() - 1),
            read_lines(body.take(i - 1)) == Ok::<ReadingView, Seq<char>>(reading@),
            operations_of(patch@) == (match read_lines(body) {
                Err(e) => Err(e),
                Ok(r) => match end_section(r) {
                    Err(e) => Err(e),
                    Ok(operations) => if operations.len() == 0 {
                        Err("patch contains no operations"@)
                    } else {
                        Ok(operations)
                    },
                },
            }),
        decreases n - i,
    {
        assert(body.take(i as int).drop_last() =~= body.take(i - 1));
        assert(body.take(i as int).last() == lines@[i as int]@);
        match scan_line(reading, &lines[i]) {
            Ok(next) => {
                reading = next;
            },
            Err(e) => {
                proof {
                    lemma_read_error(body, i as int);
                }
                return Err(e);
            },
        }
        i += 1;
    }
    assert(body.take(n - 1) =~= body);
    match finish_section(reading) {
        Err(e) => Err(e),
        Ok(operations) => {
            if operations.len() == 0 {
                Err("patch contains no operations".to_owned())
            } else {
                Ok(operations)
            }
        },
    }
}

/// An error while reading ends the reading.
proof fn lemma_read_error(lines: Seq<Seq<char>>, i: int)
    requires
        0 <= i <= lines.len(),
        read_lines(lines.take(i)) is Err,
    ensures
        read_lines(lines) == read_lines(lines.take(i)),
    decreases lines.len(),
{
    if i == lines.len() {
        assert(lines.take(i) =~= lines);
    } else {
        assert(lines.drop_last().take(i) =~= lines.take(i));
        lemma_read_error(lines.drop_last(), i);
    }
}

// ---------------------------------------------------------------------------
// The paths of a patch

/// The path that a line names, if it starts an operation.
pub open spec fn named_path(line: Seq<char>) -> Option<Seq<char>> {
    if let Some(path) = after_prefix(line, "*** Add File: "@) {
        Some(path)
    } else if let Some(path) = after_prefix(line, "*** Delete File: "@) {
        Some(path)
    } else {
        after_prefix(line, "*** Update File: "@)
    }
}

/// Whether some line names a path.
pub open spec fn names(lines: Seq<Seq<char>>, path: Seq<char>) -> bool {
    exists|i: int| 0 <= i < lines.len() && named_path(#[trigger] lines[i]) == Some(path)
}

/// The paths that a patch names, each once and in order.
pub fn affected_paths(patch: &str) -> (r: Result<Vec<String>, String>)
    ensures
        match r {
            Ok(paths) => {
                &&& framed(lines_of(patch@))
                &&& increasing(texts(paths@))
                &&& forall|p: Seq<char>| #[trigger]
                    texts(paths@).contains(p) <==> names(lines_of(patch@), p)
                &&& forall|p: Seq<char>| #[trigger]
                    names(lines_of(patch@), p) ==> acceptable_path(p)
            },
            Err(e) => if framed(lines_of(patch@)) {
                e@ == "patch path must not be empty"@ && exists|p: Seq<char>| #[trigger]
                    names(lines_of(patch@), p) && !acceptable_path(p)
            } else {
                e@ == frame_error()
            },
        },
{
    let lines = lines(patch);
    if !is_framed(&lines) {
        return Err(
            "patch must start with '*** Begin Patch' and end with '*** End Patch'".to_owned(),
        );
    }
    let ghost all = lines_of(patch@);
    let mut paths: Vec<String> = Vec::new();
    let mut i: usize = 0;
    while i < lines.len()
        invariant
            i <= lines.len(),
            texts(lines@) == all,
            increasing(texts(paths@)),
            forall|p: Seq<char>| #[trigger] texts(paths@).contains(p) <==> names(all.take(i as int), p),
            forall|p: Seq<char>| #[trigger] names(all.take(i as int), p) ==> acceptable_path(p),
            framed(all),
            all == lines_of(patch@),
        decreases lines.len() - i,
    {
        let line = &lines[i];
        assert(line@ == all[i as int]);
        let path = match strip_prefix(line, "*** Add File: ") {
            Some(path) => Some(path),
            None => match strip_prefix(line, "*** Delete File: ") {
                Some(path) => Some(path),
                None => strip_prefix(line, "*** Update File: "),
            },
        };
        assert(maybe(path) == named_path(line@));
        proof {
            assert forall|p: Seq<char>| #[trigger]
                names(all.take(i + 1), p) <==> (names(all.take(i as int), p) || named_path(line@)
                == Some(p)) by {
                if names(all.take(i as int), p) {
                    let k = choose|k: int|
                        0 <= k < i && named_path(#[trigger] all.take(i as int)[k]) == Some(p);
                    assert(all.take(i + 1)[k] == all.take(i as int)[k]);
                }
                if named_path(line@) == Some(p) {
                    assert(all.take(i + 1)[i as int] == line@);
                }
                if names(all.take(i + 1), p) {
                    let k = choose|k: int|
                        0 <= k < i + 1 && named_path(#[trigger] all.take(i + 1)[k]) == Some(p);
                    if k < i {
                        assert(all.take(i as int)[k] == all.take(i + 1)[k]);
                    }
                }
            }
        }
        if let Some(path) = path {
            match validate_patch_path(&path) {
                Ok(()) => {
                    insert_text(&mut paths, path);
                },
                Err(e) => {
                    assert(named_path(all[i as int]) == Some(path@));
                    assert(names(all, path@));
                    return Err(e);
                },
            }
        }
        i += 1;
    }
    assert(all.take(all.len() as int) =~= all);
    Ok(paths)
}

/// The paths that lines name, in the order of the lines.
pub open spec fn headers(lines: Seq<Seq<char>>) -> Seq<Seq<char>>
    decreases lines.len(),
{
    if lines.len() == 0 {
        Seq::empty()
    } else {
        match named_path(lines.last()) {
            Some(path) => headers(lines.drop_last()).push(path),
            None => headers(lines.drop_last()),
        }
    }
}

/// The paths of operations.
pub open spec fn operation_paths(operations: Seq<OperationView>) -> Seq<Seq<char>> {
    Seq::new(operations.len(), |i: int| operations[i].path())
}

/// Whether every hunk holds a line.
pub open spec fn filled(hunks: Seq<HunkView>) -> bool {
    forall|i: int| 0 <= i < hunks.len() ==> (#[trigger] hunks[i]).lines.len() > 0
}

/// Whether an operation asks for something: an update has a hunk, and every hunk
/// holds a line.
pub open spec fn is_complete(operation: OperationView) -> bool {
    operation matches OperationView::Update { hunks, .. } ==> hunks.len() > 0 && filled(hunks)
}

/// The path of the operation that is being read.
spec fn section_paths(section: SectionView) -> Seq<Seq<char>> {
    match section {
        SectionView::Between => Seq::empty(),
        SectionView::Adding { path, .. } => seq![path],
        SectionView::Updating { path, .. } => seq![path],
    }
}

/// Whether what has been read is complete, but for the hunk that is open.
spec fn is_whole(r: ReadingView) -> bool {
    &&& forall|i: int| 0 <= i < r.done.len() ==> is_complete(#[trigger] r.done[i])
    &&& r.section matches SectionView::Updating { hunks, .. } ==> filled(hunks)
}

/// Whether all of some paths are accepted.
spec fn all_acceptable(paths: Seq<Seq<char>>) -> bool {
    forall|i: int| 0 <= i < paths.len() ==> acceptable_path(#[trigger] paths[i])
}

/// A line that names a path starts an operation.
proof fn lemma_named_begins(line: Seq<char>)
    ensures
        named_path(line) is Some ==> begins(line, "*** "@),
{
    reveal_strlit("*** ");
    reveal_strlit("*** Add File: ");
    reveal_strlit("*** Delete File: ");
    reveal_strlit("*** Update File: ");
    assert("*** Add File: "@.take(4) =~= "*** "@);
    assert("*** Delete File: "@.take(4) =~= "*** "@);
    assert("*** Update File: "@.take(4) =~= "*** "@);
    if named_path(line) is Some {
        if after_prefix(line, "*** Add File: "@) is Some {
            assert(line.take(4) =~= "*** Add File: "@.take(4));
        } else if after_prefix(line, "*** Delete File: "@) is Some {
            assert(line.take(4) =~= "*** Delete File: "@.take(4));
        } else {
            assert(line.take(4) =~= "*** Update File: "@.take(4));
        }
        assert(line.take(4) == "*** "@);
    }
}

/// Ending an operation adds its path to those of the others.
proof fn lemma_section_ended(r: ReadingView)
    requires
        is_whole(r),
    ensures
        end_section(r) matches Ok(done) ==> operation_paths(done) == operation_paths(r.done)
            + section_paths(r.section) && is_whole(
            ReadingView { done, section: SectionView::Between },
        ),
{
    if let Ok(done) = end_section(r) {
        assert(operation_paths(done) =~= operation_paths(r.done) + section_paths(r.section));
        assert forall|i: int| 0 <= i < done.len() implies is_complete(#[trigger] done[i]) by {
            if i < r.done.len() {
                assert(done[i] == r.done[i]);
            }
        }
    }
}

/// Reading lines gives an operation for each path that they name, in order.
proof fn lemma_read_headers(lines: Seq<Seq<char>>)
    ensures
        read_lines(lines) matches Ok(r) ==> operation_paths(r.done) + section_paths(r.section)
            == headers(lines) && is_whole(r) && all_acceptable(headers(lines)),
    decreases lines.len(),
{
    if lines.len() == 0 {
        assert(operation_paths(Seq::empty()) + Seq::empty() =~= Seq::<Seq<char>>::empty());
    } else {
        let line = lines.last();
        lemma_read_headers(lines.drop_last());
        lemma_named_begins(line);
        if let Ok(r) = read_lines(lines.drop_last()) {
            lemma_section_ended(r);
            if let Ok(next) = read_line(r, line) {
                if r.section is Between || begins(line, "*** "@) {
                    let done = end_section(r)->Ok_0;
                    assert(named_path(line) is Some);
                    assert(operation_paths(next.done) + section_paths(next.section)
                        =~= operation_paths(done).push(named_path(line)->Some_0));
                    assert forall|i: int| 0 <= i < next.done.len() implies is_complete(
                        #[trigger] next.done[i],
                    ) by {
                        if i < done.len() {
                            assert(next.done[i] == done[i]);
                        }
                    }
                } else {
                    assert(named_path(line) is None);
                    assert(next.done == r.done);
                    assert(section_paths(next.section) == section_paths(r.section));
                }
            }
        }
    }
}

/// The paths of lines one after another.
proof fn lemma_headers_joined(a: Seq<Seq<char>>, b: Seq<Seq<char>>)
    ensures
        headers(a + b) == headers(a) + headers(b),
    decreases b.len(),
{
    if b.len() == 0 {
        assert(a + b =~= a);
        assert(headers(a) + headers(b) =~= headers(a));
    } else {
        lemma_headers_joined(a, b.drop_last());
        assert((a + b).drop_last() =~= a + b.drop_last());
        assert((a + b).last() == b.last());
        assert(headers(a + b) =~= headers(a) + headers(b));
    }
}

/// What lines name is among their paths.
proof fn lemma_headers_named(lines: Seq<Seq<char>>, path: Seq<char>)
    ensures
        names(lines, path) <==> headers(lines).contains(path),
    decreases lines.len(),
{
    if lines.len() > 0 {
        let front = lines.drop_last();
        lemma_headers_named(front, path);
        let before = headers(front);
        let after = headers(lines);
        if names(lines, path) {
            let k = choose|k: int|
                0 <= k < lines.len() && named_path(#[trigger] lines[k]) == Some(path);
            if k < front.len() {
                assert(named_path(front[k]) == Some(path));
                let m = choose|m: int| 0 <= m < before.len() && before[m] == path;
                assert(after[m] == path);
            } else {
                assert(after[before.len() as int] == path);
            }
        }
        if after.contains(path) {
            let m = choose|m: int| 0 <= m < after.len() && after[m] == path;
            if m < before.len() {
                assert(before[m] == path);
                let k = choose|k: int|
                    0 <= k < front.len() && named_path(#[trigger] front[k]) == Some(path);
                assert(named_path(lines[k]) == Some(path));
            } else {
                assert(named_path(lines[lines.len() - 1]) == Some(path));
            }
        }
    }
}

/// The lines around a patch name no path.
proof fn lemma_frame_unnamed()
    ensures
        named_path("*** Begin Patch"@) is None,
        named_path("*** End Patch"@) is None,
        "*** Begin Patch"@ != "*** End Patch"@,
{
    reveal_strlit("*** Begin Patch");
    reveal_strlit("*** End Patch");
    reveal_strlit("*** Add File: ");
    reveal_strlit("*** Delete File: ");
    reveal_strlit("*** Update File: ");
    let first = "*** Begin Patch"@;
    let last = "*** End Patch"@;
    assert(first[4] == 'B' && last[4] == 'E');
    assert("*** Add File: "@[4] == 'A');
    assert("*** Delete File: "@[4] == 'D');
    assert("*** Update File: "@[4] == 'U');
    assert(begins(first, "*** Add File: "@) ==> first.take(14)[4] == 'A');
    assert(begins(last, "*** Add File: "@) ==> last.take(14)[4] == 'A');
    assert(begins(first, "*** Delete File: "@) ==> first.take(17)[4] == 'D');
    assert(begins(last, "*** Delete File: "@) ==> last.take(17)[4] == 'D');
    assert(begins(first, "*** Update File: "@) ==> first.take(17)[4] == 'U');
    assert(begins(last, "*** Update File: "@) ==> last.take(17)[4] == 'U');
}

/// A patch that can be read has an operation, and one for each path that it
/// names, in the order of its lines; each asks for something. The paths that it
/// is said to affect are those of its operations and no others.
pub proof fn law_operations_are_those_named(patch: Seq<char>)
    ensures
        operations_of(patch) matches Ok(operations) ==> {
            &&& operations.len() > 0
            &&& operation_paths(operations) == headers(lines_of(patch))
            &&& forall|i: int|
                0 <= i < operations.len() ==> is_complete(#[trigger] operations[i])
                    && acceptable_path(operations[i].path())
            &&& framed(lines_of(patch))
            &&& forall|p: Seq<char>| #[trigger]
                names(lines_of(patch), p) <==> operation_paths(operations).contains(p)
            &&& forall|p: Seq<char>| #[trigger]
                names(lines_of(patch), p) ==> acceptable_path(p)
        },
{
    if let Ok(operations) = operations_of(patch) {
        let lines = lines_of(patch);
        let n = lines.len() as int;
        lemma_frame_unnamed();
        assert(n >= 2);
        let first = lines.take(1);
        let body = lines.subrange(1, n - 1);
        let last = lines.skip(n - 1);
        assert(lines =~= first + body + last);
        lemma_headers_joined(first, body);
        lemma_headers_joined(first + body, last);
        assert(first.drop_last() =~= Seq::empty());
        assert(last.drop_last() =~= Seq::empty());
        assert(headers(first.drop_last()) == Seq::<Seq<char>>::empty());
        assert(headers(last.drop_last()) == Seq::<Seq<char>>::empty());
        assert(first.last() == lines.first() && last.last() == lines.last());
        assert(headers(lines) =~= headers(body));
        lemma_read_headers(body);
        let r = read_lines(body)->Ok_0;
        lemma_section_ended(r);
        assert forall|i: int| 0 <= i < operations.len() implies is_complete(
            #[trigger] operations[i],
        ) && acceptable_path(operations[i].path()) by {
            assert(headers(lines)[i] == operations[i].path());
        }
        assert forall|p: Seq<char>| #[trigger]
            names(lines, p) <==> operation_paths(operations).contains(p) by {
            lemma_headers_named(lines, p);
        }
        assert forall|p: Seq<char>| #[trigger] names(lines, p) implies acceptable_path(p) by {
            lemma_headers_named(lines, p);
            let k = choose|k: int| 0 <= k < headers(lines).len() && headers(lines)[k] == p;
            assert(acceptable_path(headers(lines)[k]));
        }
    }
}

// ---------------------------------------------------------------------------
// Patches that are written and read

/// The line that starts a hunk.
pub open spec fn written_header(anchor: Option<Seq<char>>) -> Seq<char> {
    match anchor {
        Some(name) => "@@ "@ + name,
        None => "@@"@,
    }
}

/// The character before a line of a hunk.
pub open spec fn line_mark(kind: LineKind) -> char {
    match kind {
        LineKind::Context => ' ',
        LineKind::Add => '+',
        LineKind::Remove => '-',
    }
}

/// The lines of a hunk, each after its mark.
pub open spec fn written_lines(lines: Seq<(LineKind, Seq<char>)>) -> Seq<Seq<char>> {
    Seq::new(lines.len(), |i: int| seq![line_mark(lines[i].0)] + lines[i].1)
}

/// The lines that write hunks.
pub open spec fn written_hunks(hunks: Seq<HunkView>) -> Seq<Seq<char>>
    decreases hunks.len(),
{
    if hunks.len() == 0 {
        Seq::empty()
    } else {
        written_hunks(hunks.drop_last()) + seq![written_header(hunks.last().anchor)]
            + written_lines(hunks.last().lines)
    }
}

/// The lines of a new file as a patch writes them.
pub open spec fn written_content(lines: Seq<Seq<char>>) -> Seq<Seq<char>> {
    Seq::new(lines.len(), |i: int| seq!['+'] + lines[i])
}

/// The lines that write an operation.
pub open spec fn written_operation(operation: OperationView) -> Seq<Seq<char>> {
    match operation {
        OperationView::Add { path, content } => seq!["*** Add File: "@ + path] + written_content(
            lines_of(content),
        ),
        OperationView::Delete { path } => seq!["*** Delete File: "@ + path],
        OperationView::Update { path, hunks } => seq!["*** Update File: "@ + path] + written_hunks(
            hunks,
        ),
    }
}

/// The lines that write operations.
pub open spec fn written_operations(operations: Seq<OperationView>) -> Seq<Seq<char>>
    decreases operations.len(),
{
    if operations.len() == 0 {
        Seq::empty()
    } else {
        written_operations(operations.drop_last()) + written_operation(operations.last())
    }
}

/// The lines of a patch with some operations.
pub open spec fn written_patch(operations: Seq<OperationView>) -> Seq<Seq<char>> {
    seq!["*** Begin Patch"@] + written_operations(operations) + seq!["*** End Patch"@]
}

/// Whether a hunk can be written: it holds a line, and its anchor has no white
/// space around it.
pub open spec fn is_writable_hunk(h: HunkView) -> bool {
    &&& h.lines.len() > 0
    &&& h.anchor matches Some(name) ==> name.len() > 0 && !white_space(name[0]) && !white_space(
        name.last(),
    )
}

/// Whether an operation can be written: its path is not blank, a new file ends
/// with a line feed unless it is empty, and an update has hunks.
pub open spec fn is_writable(operation: OperationView) -> bool {
    &&& trimmed(operation.path()).len() > 0
    &&& operation matches OperationView::Add { content, .. } ==> content.len() == 0 || (
    content.len() > 1 && content == joined(lines_of(content), seq!['\n']).push('\n'))
    &&& operation matches OperationView::Update { hunks, .. } ==> hunks.len() > 0 && forall|i: int|
        0 <= i < hunks.len() ==> is_writable_hunk(#[trigger] hunks[i])
}

proof fn lemma_read_push(lines: Seq<Seq<char>>, line: Seq<char>)
    ensures
        read_lines(lines.push(line)) == (match read_lines(lines) {
            Err(e) => Err(e),
            Ok(r) => read_line(r, line),
        }),
{
    assert(lines.push(line).drop_last() =~= lines);
}

/// A line that starts an operation is read as such.
proof fn lemma_read_starts(done: Seq<OperationView>, path: Seq<char>)
    requires
        acceptable_path(path),
    ensures
        begin_section(done, "*** Add File: "@ + path) == Ok::<ReadingView, Seq<char>>(
            ReadingView { done, section: SectionView::Adding { path, content: Seq::empty() } },
        ),
        begin_section(done, "*** Delete File: "@ + path) == Ok::<ReadingView, Seq<char>>(
            ReadingView {
                done: done.push(OperationView::Delete { path }),
                section: SectionView::Between,
            },
        ),
        begin_section(done, "*** Update File: "@ + path) == Ok::<ReadingView, Seq<char>>(
            ReadingView {
                done,
                section: SectionView::Updating { path, hunks: Seq::empty(), open: None },
            },
        ),
        begins("*** Add File: "@ + path, "*** "@),
        begins("*** Delete File: "@ + path, "*** "@),
        begins("*** Update File: "@ + path, "*** "@),
{
    let add = "*** Add File: "@;
    let delete = "*** Delete File: "@;
    let update = "*** Update File: "@;
    law_prefixes(add + path, add);
    law_prefixes(delete + path, delete);
    law_prefixes(update + path, update);
    lemma_named_begins(add + path);
    lemma_named_begins(delete + path);
    lemma_named_begins(update + path);
    reveal_strlit("*** Add File: ");
    reveal_strlit("*** Delete File: ");
    reveal_strlit("*** Update File: ");
    assert((delete + path)[4] == 'D');
    assert((update + path)[4] == 'U');
    assert(begins(delete + path, add) ==> (delete + path).take(14)[4] == add[4]);
    assert(begins(update + path, add) ==> (update + path).take(14)[4] == add[4]);
    assert(begins(update + path, delete) ==> (update + path).take(17)[4] == delete[4]);
    assert(after_prefix(add + path, add) == Some(path));
    assert(after_prefix(delete + path, delete) == Some(path));
    assert(after_prefix(update + path, update) == Some(path));
}

/// A line with a mark of its own starts nothing.
proof fn lemma_marked(mark: char, text: Seq<char>)
    requires
        mark == ' ' || mark == '+' || mark == '-',
    ensures
        !begins(seq![mark] + text, "*** "@),
        after_prefix(seq![mark] + text, "@@"@) is None,
        mark == '+' ==> after_prefix(seq![mark] + text, "+"@) == Some(text),
        (seq![mark] + text).len() > 0,
        (seq![mark] + text)[0] == mark,
        (seq![mark] + text).skip(1) == text,
{
    reveal_strlit("*** ");
    reveal_strlit("@@");
    reveal_strlit("+");
    let line = seq![mark] + text;
    assert(begins(line, "*** "@) ==> line.subrange(0, 4)[0] == '*');
    assert(begins(line, "@@"@) ==> line.subrange(0, 2)[0] == '@');
    assert("+"@ =~= seq!['+']);
    if mark == '+' {
        law_prefixes(line, "+"@);
        assert(line =~= "+"@ + text);
        assert(after_prefix("+"@ + text, "+"@) == Some(text));
    }
    assert(line.skip(1) =~= text);
}

proof fn lemma_read_content(
    front: Seq<Seq<char>>,
    done: Seq<OperationView>,
    path: Seq<char>,
    lines: Seq<Seq<char>>,
    k: int,
)
    requires
        0 <= k <= lines.len(),
        read_lines(front) == Ok::<ReadingView, Seq<char>>(
            ReadingView { done, section: SectionView::Adding { path, content: Seq::empty() } },
        ),
    ensures
        read_lines(front + written_content(lines).take(k)) == Ok::<ReadingView, Seq<char>>(
            ReadingView { done, section: SectionView::Adding { path, content: lines.take(k) } },
        ),
    decreases k,
{
    let all = written_content(lines);
    if k == 0 {
        assert(front + all.take(0) =~= front);
        assert(lines.take(0) =~= Seq::empty());
    } else {
        lemma_read_content(front, done, path, lines, k - 1);
        assert(front + all.take(k) =~= (front + all.take(k - 1)).push(all[k - 1]));
        lemma_read_push(front + all.take(k - 1), all[k - 1]);
        lemma_marked('+', lines[k - 1]);
        assert(lines.take(k) =~= lines.take(k - 1).push(lines[k - 1]));
    }
}

proof fn lemma_read_hunk_lines(
    front: Seq<Seq<char>>,
    done: Seq<OperationView>,
    path: Seq<char>,
    hunks: Seq<HunkView>,
    h: HunkView,
    k: int,
)
    requires
        0 <= k <= h.lines.len(),
        read_lines(front) == Ok::<ReadingView, Seq<char>>(
            ReadingView {
                done,
                section: SectionView::Updating {
                    path,
                    hunks,
                    open: Some(HunkView { anchor: h.anchor, lines: Seq::empty() }),
                },
            },
        ),
    ensures
        read_lines(front + written_lines(h.lines).take(k)) == Ok::<ReadingView, Seq<char>>(
            ReadingView {
                done,
                section: SectionView::Updating {
                    path,
                    hunks,
                    open: Some(HunkView { anchor: h.anchor, lines: h.lines.take(k) }),
                },
            },
        ),
    decreases k,
{
    let all = written_lines(h.lines);
    if k == 0 {
        assert(front + all.take(0) =~= front);
        assert(h.lines.take(0) =~= Seq::empty());
    } else {
        lemma_read_hunk_lines(front, done, path, hunks, h, k - 1);
        assert(front + all.take(k) =~= (front + all.take(k - 1)).push(all[k - 1]));
        lemma_read_push(front + all.take(k - 1), all[k - 1]);
        let line = h.lines[k - 1];
        lemma_marked(line_mark(line.0), line.1);
        assert(hunk_line(all[k - 1]) == Some(line));
        assert(h.lines.take(k) =~= h.lines.take(k - 1).push(line));
    }
}

proof fn lemma_read_header(anchor: Option<Seq<char>>)
    requires
        anchor matches Some(name) ==> name.len() > 0 && !white_space(name[0]) && !white_space(
            name.last(),
        ),
    ensures
        !begins(written_header(anchor), "*** "@),
        after_prefix(written_header(anchor), "@@"@) is Some,
        anchor_of(after_prefix(written_header(anchor), "@@"@)->Some_0) == anchor,
{
    reveal_strlit("*** ");
    reveal_strlit("@@");
    reveal_strlit("@@ ");
    let line = written_header(anchor);
    assert(line[0] == '@');
    assert(begins(line, "*** "@) ==> line.subrange(0, 4)[0] == '*');
    match anchor {
        Some(name) => {
            let rest = seq![' '] + name;
            assert(line =~= "@@"@ + rest);
            law_prefixes(line, "@@"@);
            assert(after_prefix("@@"@ + rest, "@@"@) == Some(rest));
            law_trimming_takes_away_white_space(seq![' '], name, Seq::empty());
            assert(seq![' '] + name + Seq::empty() =~= rest);
        },
        None => {
            assert(line =~= "@@"@ + Seq::empty());
            law_prefixes(line, "@@"@);
            assert(after_prefix("@@"@ + Seq::<char>::empty(), "@@"@) == Some(Seq::<char>::empty()));
        },
    }
}

proof fn lemma_read_hunks(
    front: Seq<Seq<char>>,
    done: Seq<OperationView>,
    path: Seq<char>,
    hunks: Seq<HunkView>,
)
    requires
        read_lines(front) == Ok::<ReadingView, Seq<char>>(
            ReadingView {
                done,
                section: SectionView::Updating { path, hunks: Seq::empty(), open: None },
            },
        ),
        forall|i: int| 0 <= i < hunks.len() ==> is_writable_hunk(#[trigger] hunks[i]),
    ensures
        read_lines(front + written_hunks(hunks)) matches Ok(r) && r.done == done && (
        r.section matches SectionView::Updating { path: to, hunks: whole, open } && to == path
            && end_hunk(path, whole, open) == Ok::<Seq<HunkView>, Seq<char>>(hunks)),
    decreases hunks.len(),
{
    if hunks.len() == 0 {
        assert(front + written_hunks(hunks) =~= front);
        assert(hunks =~= Seq::empty());
    } else {
        let before = hunks.drop_last();
        let h = hunks[hunks.len() - 1];
        assert forall|i: int| 0 <= i < before.len() implies is_writable_hunk(
            #[trigger] before[i],
        ) by {
            assert(is_writable_hunk(hunks[i]));
        }
        lemma_read_hunks(front, done, path, before);
        let start = front + written_hunks(before);
        lemma_read_header(h.anchor);
        lemma_read_push(start, written_header(h.anchor));
        let opened = start.push(written_header(h.anchor));
        lemma_read_hunk_lines(opened, done, path, before, h, h.lines.len() as int);
        let all = written_lines(h.lines);
        assert(all.take(h.lines.len() as int) =~= all);
        assert(h.lines.take(h.lines.len() as int) =~= h.lines);
        assert(opened + all =~= front + written_hunks(hunks));
        assert(before.push(h) =~= hunks);
    }
}

proof fn lemma_read_operations(operations: Seq<OperationView>)
    requires
        forall|i: int| 0 <= i < operations.len() ==> is_writable(#[trigger] operations[i]),
    ensures
        read_lines(written_operations(operations)) matches Ok(r) && end_section(r) == Ok::<
            Seq<OperationView>,
            Seq<char>,
        >(operations),
    decreases operations.len(),
{
    if operations.len() == 0 {
        assert(operations =~= Seq::empty());
    } else {
        let before = operations.drop_last();
        let o = operations[operations.len() - 1];
        assert forall|i: int| 0 <= i < before.len() implies is_writable(#[trigger] before[i]) by {
            assert(is_writable(operations[i]));
        }
        lemma_read_operations(before);
        let front = written_operations(before);
        let path = o.path();
        lemma_read_starts(before, path);
        match o {
            OperationView::Add { content, .. } => {
                let line = "*** Add File: "@ + path;
                lemma_read_push(front, line);
                let lines = lines_of(content);
                lemma_read_content(front.push(line), before, path, lines, lines.len() as int);
                let all = written_content(lines);
                assert(all.take(lines.len() as int) =~= all);
                assert(lines.take(lines.len() as int) =~= lines);
                assert(front.push(line) + all =~= written_operations(operations));
                law_lines_come_one_after_another(content, content);
                if content.len() == 0 {
                    assert(content =~= Seq::empty());
                }
                assert(added_content(lines) == content);
            },
            OperationView::Delete { .. } => {
                let line = "*** Delete File: "@ + path;
                lemma_read_push(front, line);
                assert(front.push(line) =~= written_operations(operations));
            },
            OperationView::Update { hunks, .. } => {
                let line = "*** Update File: "@ + path;
                lemma_read_push(front, line);
                lemma_read_hunks(front.push(line), before, path, hunks);
                assert(front.push(line) + written_hunks(hunks) =~= written_operations(operations));
            },
        }
        assert(before.push(o) =~= operations);
    }
}

/// A patch that is written is read back: with the operations in their order, each
/// with its path, its content or its hunks, and every hunk with its anchor and
/// its lines.
pub proof fn law_patches_are_read_back(operations: Seq<OperationView>)
    requires
        operations.len() > 0,
        forall|i: int| 0 <= i < operations.len() ==> is_writable(#[trigger] operations[i]),
        forall|i: int|
            0 <= i < written_patch(operations).len() ==> is_line(
                #[trigger] written_patch(operations)[i],
            ),
    ensures
        operations_of(joined(written_patch(operations), seq!['\n'])) == Ok::<
            Seq<OperationView>,
            Seq<char>,
        >(operations),
{
    let lines = written_patch(operations);
    reveal_strlit("*** End Patch");
    assert(lines.last() == "*** End Patch"@);
    law_lines_are_read_back(lines);
    assert(lines.subrange(1, lines.len() - 1) =~= written_operations(operations));
    lemma_read_operations(operations);
}

// ---------------------------------------------------------------------------
// What an update does to a text

/// The lines that a hunk expects to find.
pub open spec fn old_side(lines: Seq<(LineKind, Seq<char>)>) -> Seq<Seq<char>>
    decreases lines.len(),
{
    if lines.len() == 0 {
        Seq::empty()
    } else if lines.last().0 == LineKind::Add {
        old_side(lines.drop_last())
    } else {
        old_side(lines.drop_last()).push(lines.last().1)
    }
}

/// The lines that a hunk leaves behind.
pub open spec fn new_side(lines: Seq<(LineKind, Seq<char>)>) -> Seq<Seq<char>>
    decreases lines.len(),
{
    if lines.len() == 0 {
        Seq::empty()
    } else if lines.last().0 == LineKind::Remove {
        new_side(lines.drop_last())
    } else {
        new_side(lines.drop_last()).push(lines.last().1)
    }
}

/// How many lines are of a kind.
pub open spec fn count_kind(lines: Seq<(LineKind, Seq<char>)>, kind: LineKind) -> nat
    decreases lines.len(),
{
    if lines.len() == 0 {
        0
    } else {
        count_kind(lines.drop_last(), kind) + if lines.last().0 == kind {
            1nat
        } else {
            0nat
        }
    }
}

/// The first line from `from` on that contains a text.
pub open spec fn first_with(lines: Seq<Seq<char>>, part: Seq<char>, from: int) -> Option<int>
    decreases lines.len() - from,
{
    if from >= lines.len() {
        None
    } else if has(lines[from], part) {
        Some(from)
    } else {
        first_with(lines, part, from + 1)
    }
}

/// Whether `needle` stands in `lines` at `at`.
pub open spec fn matches_at(lines: Seq<Seq<char>>, needle: Seq<Seq<char>>, at: int) -> bool {
    at + needle.len() <= lines.len() && lines.subrange(at, at + needle.len()) == needle
}

/// The first position from `from` on where `needle` stands in `lines`.
pub open spec fn find_lines(
    lines: Seq<Seq<char>>,
    needle: Seq<Seq<char>>,
    from: int,
) -> Option<int>
    decreases lines.len() - from + 1,
{
    if from + needle.len() > lines.len() {
        None
    } else if matches_at(lines, needle, from) {
        Some(from)
    } else {
        find_lines(lines, needle, from + 1)
    }
}

/// A text being updated: its lines, where the search goes on, and how many
/// lines have been added and removed.
pub struct EditView {
    pub lines: Seq<Seq<char>>,
    pub cursor: int,
    pub added: nat,
    pub removed: nat,
}

/// Where a hunk applies.
pub open spec fn hunk_position(e: EditView, h: HunkView) -> Option<int> {
    let start = match h.anchor {
        Some(anchor) => match first_with(e.lines, anchor, e.cursor) {
            Some(i) => i,
            None => e.cursor,
        },
        None => e.cursor,
    };
    if old_side(h.lines).len() == 0 {
        Some(start)
    } else {
        find_lines(e.lines, old_side(h.lines), start)
    }
}

/// The effect of one hunk.
pub open spec fn apply_hunk(e: EditView, h: HunkView) -> Option<EditView> {
    let old = old_side(h.lines);
    let new = new_side(h.lines);
    match hunk_position(e, h) {
        None => None,
        Some(at) => Some(
            EditView {
                lines: e.lines.take(at) + new + e.lines.skip(at + old.len()),
                cursor: at + new.len(),
                added: e.added + count_kind(h.lines, LineKind::Add),
                removed: e.removed + count_kind(h.lines, LineKind::Remove),
            },
        ),
    }
}

/// The effect of hunks one after another.
pub open spec fn run_hunks(lines: Seq<Seq<char>>, hunks: Seq<HunkView>) -> Option<EditView>
    decreases hunks.len(),
{
    if hunks.len() == 0 {
        Some(EditView { lines, cursor: 0, added: 0, removed: 0 })
    } else {
        match run_hunks(lines, hunks.drop_last()) {
            None => None,
            Some(e) => apply_hunk(e, hunks.last()),
        }
    }
}

/// The text made of lines, with a final line feed where there was one before.
pub open spec fn rejoined(lines: Seq<Seq<char>>, ended: bool) -> Seq<char> {
    if ended {
        joined(lines, seq!['\n']).push('\n')
    } else {
        joined(lines, seq!['\n'])
    }
}

/// Whether a text ends with a line feed.
pub open spec fn line_feed_last(s: Seq<char>) -> bool {
    s.len() > 0 && s.last() == '\n'
}

/// An updated text with the numbers of lines added and removed; nothing if
/// some hunk finds no place.
pub open spec fn updated(source: Seq<char>, hunks: Seq<HunkView>) -> Option<
    (Seq<char>, nat, nat),
> {
    match run_hunks(lines_of(source), hunks) {
        None => None,
        Some(e) => Some((rejoined(e.lines, line_feed_last(source)), e.added, e.removed)),
    }
}

/// A position found lies in the lines, not before the start.
proof fn lemma_find_lines(lines: Seq<Seq<char>>, needle: Seq<Seq<char>>, from: int)
    requires
        0 <= from,
    ensures
        find_lines(lines, needle, from) matches Some(i) ==> from <= i && matches_at(
            lines,
            needle,
            i,
        ),
    decreases lines.len() - from + 1,
{
    if from + needle.len() <= lines.len() && !matches_at(lines, needle, from) {
        lemma_find_lines(lines, needle, from + 1);
    }
}

/// The two sides of a hunk and its numbers of added and removed lines.
proof fn lemma_sides(lines: Seq<(LineKind, Seq<char>)>)
    ensures
        old_side(lines).len() + count_kind(lines, LineKind::Add) == lines.len(),
        new_side(lines).len() + count_kind(lines, LineKind::Remove) == lines.len(),
        count_kind(lines, LineKind::Add) <= new_side(lines).len(),
        count_kind(lines, LineKind::Remove) <= old_side(lines).len(),
    decreases lines.len(),
{
    if lines.len() > 0 {
        lemma_sides(lines.drop_last());
    }
}

proof fn lemma_first_with_place(lines: Seq<Seq<char>>, part: Seq<char>, from: int)
    ensures
        first_with(lines, part, from) matches Some(i) ==> from <= i < lines.len(),
    decreases lines.len() - from,
{
    if from < lines.len() {
        lemma_first_with_place(lines, part, from + 1);
    }
}

/// A hunk applies where the lines that it expects stand.
proof fn lemma_hunk_place(e: EditView, h: HunkView)
    requires
        0 <= e.cursor <= e.lines.len(),
    ensures
        hunk_position(e, h) matches Some(at) ==> 0 <= at && matches_at(
            e.lines,
            old_side(h.lines),
            at,
        ),
{
    if let Some(anchor) = h.anchor {
        lemma_first_with_place(e.lines, anchor, e.cursor);
    }
    if let Some(at) = hunk_position(e, h) {
        if old_side(h.lines).len() == 0 {
            assert(e.lines.subrange(at, at) =~= old_side(h.lines));
        } else {
            let start = match h.anchor {
                Some(anchor) => match first_with(e.lines, anchor, e.cursor) {
                    Some(i) => i,
                    None => e.cursor,
                },
                None => e.cursor,
            };
            lemma_find_lines(e.lines, old_side(h.lines), start);
        }
    }
}

/// An update adds and removes as many lines as it counts, and goes on within
/// the text.
pub proof fn law_line_counts_balance(lines: Seq<Seq<char>>, hunks: Seq<HunkView>)
    ensures
        run_hunks(lines, hunks) matches Some(e) ==> e.lines.len() + e.removed == lines.len()
            + e.added && 0 <= e.cursor <= e.lines.len(),
    decreases hunks.len(),
{
    if hunks.len() > 0 {
        law_line_counts_balance(lines, hunks.drop_last());
        if let Some(e) = run_hunks(lines, hunks.drop_last()) {
            lemma_hunk_place(e, hunks.last());
            lemma_sides(hunks.last().lines);
        }
    }
}

/// Whether a hunk holds nothing but context.
pub open spec fn only_context(h: HunkView) -> bool {
    forall|i: int| 0 <= i < h.lines.len() ==> (#[trigger] h.lines[i]).0 == LineKind::Context
}

proof fn lemma_context_sides(lines: Seq<(LineKind, Seq<char>)>)
    requires
        forall|i: int| 0 <= i < lines.len() ==> (#[trigger] lines[i]).0 == LineKind::Context,
    ensures
        old_side(lines) == new_side(lines),
        count_kind(lines, LineKind::Add) == 0,
        count_kind(lines, LineKind::Remove) == 0,
    decreases lines.len(),
{
    if lines.len() > 0 {
        assert forall|i: int| 0 <= i < lines.drop_last().len() implies (
        #[trigger] lines.drop_last()[i]).0 == LineKind::Context by {
            assert(lines[i].0 == LineKind::Context);
        }
        assert(lines.last() == lines[lines.len() - 1]);
        lemma_context_sides(lines.drop_last());
    }
}

/// Hunks that hold nothing but context leave a text as it was, wherever they
/// apply.
pub proof fn law_context_changes_nothing(lines: Seq<Seq<char>>, hunks: Seq<HunkView>)
    requires
        forall|i: int| 0 <= i < hunks.len() ==> only_context(#[trigger] hunks[i]),
    ensures
        run_hunks(lines, hunks) matches Some(e) ==> e.lines == lines && e.added == 0 && e.removed
            == 0,
    decreases hunks.len(),
{
    if hunks.len() > 0 {
        let before = hunks.drop_last();
        assert forall|i: int| 0 <= i < before.len() implies only_context(#[trigger] before[i]) by {
            assert(only_context(hunks[i]));
        }
        law_context_changes_nothing(lines, before);
        law_line_counts_balance(lines, before);
        if let Some(e) = run_hunks(lines, before) {
            let h = hunks.last();
            assert(only_context(hunks[hunks.len() - 1]));
            lemma_hunk_place(e, h);
            lemma_context_sides(h.lines);
            if let Some(at) = hunk_position(e, h) {
                let old = old_side(h.lines);
                assert(e.lines.take(at) + old + e.lines.skip(at + old.len()) =~= e.lines) by {
                    assert(e.lines.subrange(at, at + old.len()) == old);
                    assert forall|k: int| at <= k < at + old.len() implies e.lines[k] == old[k
                        - at] by {
                        assert(e.lines.subrange(at, at + old.len())[k - at] == e.lines[k]);
                    }
                }
            }
        }
    }
}

fn position_with(lines: &Vec<String>, part: &str, from: usize) -> (r: Option<usize>)
    requires
        from <= lines.len(),
    ensures
        match r {
            Some(i) => first_with(texts(lines@), part@, from as int) == Some(i as int) && from <= i
                < lines.len(),
            None => first_with(texts(lines@), part@, from as int) is None,
        },
{
    let mut i: usize = from;
    while i < lines.len()
        invariant
            from <= i <= lines.len(),
            first_with(texts(lines@), part@, from as int) == first_with(
                texts(lines@),
                part@,
                i as int,
            ),
        decreases lines.len() - i,
    {
        assert(texts(lines@)[i as int] == lines@[i as int]@);
        if contains(&lines[i], part) {
            return Some(i);
        }
        i += 1;
    }
    None
}

fn lines_match(lines: &Vec<String>, needle: &Vec<String>, at: usize) -> (r: bool)
    requires
        at + needle.len() <= lines.len(),
    ensures
        r == matches_at(texts(lines@), texts(needle@), at as int),
{
    let ghost a = texts(lines@).subrange(at as int, at + needle@.len());
    let ghost b = texts(needle@);
    let mut i: usize = 0;
    while i < needle.len()
        invariant
            i <= needle.len(),
            at + needle.len() <= lines.len(),
            a == texts(lines@).subrange(at as int, at + needle@.len()),
            b == texts(needle@),
            forall|k: int| 0 <= k < i ==> a[k] == b[k],
        decreases needle.len() - i,
    {
        assert(a[i as int] == lines@[at + i]@);
        assert(b[i as int] == needle@[i as int]@);
        if !same(&lines[at + i], &needle[i]) {
            return false;
        }
        i += 1;
    }
    assert(a =~= b);
    true
}

fn find_sequence(lines: &Vec<String>, needle: &Vec<String>, start: usize) -> (r: Option<usize>)
    requires
        start <= lines.len(),
    ensures
        match r {
            Some(i) => find_lines(texts(lines@), texts(needle@), start as int) == Some(i as int),
            None => find_lines(texts(lines@), texts(needle@), start as int) is None,
        },
{
    let mut i: usize = start;
    while needle.len() <= lines.len() - i
        invariant
            start <= i <= lines.len(),
            find_lines(texts(lines@), texts(needle@), start as int) == find_lines(
                texts(lines@),
                texts(needle@),
                i as int,
            ),
        decreases lines.len() - i,
    {
        if lines_match(lines, needle, i) {
            return Some(i);
        }
        if i == lines.len() {
            assert(find_lines(texts(lines@), texts(needle@), i + 1) is None);
            return None;
        }
        i += 1;
    }
    None
}

/// The two sides of a hunk and the numbers of lines it adds and removes.
fn sides(h: &Hunk) -> (r: (Vec<String>, Vec<String>, usize, usize))
    ensures
        texts(r.0@) == old_side(h@.lines),
        texts(r.1@) == new_side(h@.lines),
        r.2 == count_kind(h@.lines, LineKind::Add),
        r.3 == count_kind(h@.lines, LineKind::Remove),
{
    broadcast use lemma_texts_push;

    let mut old: Vec<String> = Vec::new();
    let mut new: Vec<String> = Vec::new();
    let mut added: usize = 0;
    let mut removed: usize = 0;
    let ghost all = h@.lines;
    assert(texts(old@) =~= Seq::empty());
    assert(texts(new@) =~= Seq::empty());
    let mut i: usize = 0;
    while i < h.lines.len()
        invariant
            i <= h.lines.len(),
            all == h@.lines,
            texts(old@) == old_side(all.take(i as int)),
            texts(new@) == new_side(all.take(i as int)),
            added == count_kind(all.take(i as int), LineKind::Add),
            removed == count_kind(all.take(i as int), LineKind::Remove),
            added <= i,
            removed <= i,
        decreases h.lines.len() - i,
    {
        assert(all.take(i + 1).drop_last() =~= all.take(i as int));
        assert(all.take(i + 1).last() == h.lines@[i as int]@);
        let text = h.lines[i].text.clone();
        match h.lines[i].kind {
            LineKind::Context => {
                old.push(text.clone());
                new.push(text);
            },
            LineKind::Add => {
                added += 1;
                new.push(text);
            },
            LineKind::Remove => {
                removed += 1;
                old.push(text);
            },
        }
        i += 1;
    }
    assert(all.take(all.len() as int) =~= all);
    (old, new, added, removed)
}

/// The lines with those from `at` on, as many as `len`, replaced.
fn splice(lines: &Vec<String>, at: usize, len: usize, new: &Vec<String>) -> (r: Vec<String>)
    requires
        at + len <= lines.len(),
    ensures
        texts(r@) == texts(lines@).take(at as int) + texts(new@) + texts(lines@).skip(at + len),
{
    broadcast use lemma_texts_push;

    let ghost a = texts(lines@);
    let ghost b = texts(new@);
    let mut r: Vec<String> = Vec::new();
    assert(texts(r@) =~= a.take(0));
    let mut i: usize = 0;
    while i < at
        invariant
            i <= at <= lines.len(),
            a == texts(lines@),
            texts(r@) == a.take(i as int),
        decreases at - i,
    {
        r.push(lines[i].clone());
        assert(a.take(i + 1) =~= a.take(i as int).push(a[i as int]));
        i += 1;
    }
    assert(texts(r@) =~= a.take(at as int) + b.take(0));
    i = 0;
    while i < new.len()
        invariant
            i <= new.len(),
            b == texts(new@),
            texts(r@) == a.take(at as int) + b.take(i as int),
        decreases new.len() - i,
    {
        r.push(new[i].clone());
        assert(a.take(at as int) + b.take(i + 1) =~= (a.take(at as int) + b.take(i as int)).push(
            b[i as int],
        ));
        i += 1;
    }
    let ghost front = a.take(at as int) + b;
    assert(b.take(b.len() as int) =~= b);
    i = at + len;
    assert(texts(r@) =~= front + a.subrange(at + len, at + len));
    while i < lines.len()
        invariant
            at + len <= i <= lines.len(),
            a == texts(lines@),
            texts(r@) == front + a.subrange(at + len, i as int),
        decreases lines.len() - i,
    {
        r.push(lines[i].clone());
        assert(front + a.subrange(at + len, i + 1) =~= (front + a.subrange(
            at + len,
            i as int,
        )).push(a[i as int]));
        i += 1;
    }
    assert(a.subrange(at + len, a.len() as int) =~= a.skip(at + len));
    r
}

/// Updates a text, hunk after hunk; each hunk applies at or after the end of
/// the one before it.
pub fn apply_hunks(source: &str, hunks: &Vec<Hunk>, path: &str) -> (r: Result<
    (String, usize, usize),
    String,
>)
    ensures
        match r {
            Ok((content, added, removed)) => updated(source@, views(hunks@)) == Some(
                (content@, added as nat, removed as nat),
            ),
            Err(e) => updated(source@, views(hunks@)) is None && e@ == "context not found in "@
                + path@,
        },
{
    let mut lines = lines(source);
    let ghost first = lines_of(source@);
    let ghost all = views(hunks@);
    let had_newline = ends_with(source, "\n");
    proof {
        reveal_strlit("\n");
        assert("\n"@ =~= seq!['\n']);
        if source@.len() > 0 {
            assert(source@.subrange(source@.len() - 1, source@.len() as int)
                =~= seq![source@.last()]);
            assert(source@.last() == seq![source@.last()][0]);
        }
        assert(had_newline == line_feed_last(source@));
    }
    let mut cursor: usize = 0;
    let mut added: usize = 0;
    let mut removed: usize = 0;
    let mut i: usize = 0;
    assert(all.take(0) =~= Seq::empty());
    let ghost whole: nat = first.len();
    assert(texts(lines@).len() == lines.len());
    while i < hunks.len()
        invariant
            i <= hunks.len(),
            all == views(hunks@),
            first == lines_of(source@),
            run_hunks(first, all.take(i as int)) == Some(
                EditView {
                    lines: texts(lines@),
                    cursor: cursor as int,
                    added: added as nat,
                    removed: removed as nat,
                },
            ),
            added <= cursor <= lines.len(),
            removed + (lines.len() - cursor) <= whole,
            whole <= usize::MAX,
        decreases hunks.len() - i,
    {
        assert(all.take(i + 1).drop_last() =~= all.take(i as int));
        assert(all.take(i + 1).last() == hunks@[i as int]@);
        let hunk = &hunks[i];
        let ghost e = EditView {
            lines: texts(lines@),
            cursor: cursor as int,
            added: added as nat,
            removed: removed as nat,
        };
        let start: usize = match &hunk.anchor {
            Some(anchor) => match position_with(&lines, anchor, cursor) {
                Some(at) => at,
                None => cursor,
            },
            None => cursor,
        };
        let (old, new, more, fewer) = sides(hunk);
        proof {
            lemma_sides(hunk@.lines);
            lemma_find_lines(texts(lines@), texts(old@), start as int);
            assert(texts(old@).len() == old@.len());
            assert(texts(new@).len() == new@.len());
        }
        let at: usize = if old.len() == 0 {
            start
        } else {
            match find_sequence(&lines, &old, start) {
                Some(at) => at,
                None => {
                    proof {
                        assert(apply_hunk(e, hunk@) is None);
                        lemma_run_error(first, all, i + 1);
                    }
                    return Err("context not found in ".to_owned().concat(path));
                },
            }
        };
        assert(hunk_position(e, hunk@) == Some(at as int));
        let ghost before = lines@.len();
        lines = splice(&lines, at, old.len(), &new);
        assert(texts(lines@).len() == lines@.len());
        assert(lines@.len() == before - old@.len() + new@.len());
        assert(lines.len() <= usize::MAX && more <= new.len() && at + new.len() <= lines.len());
        added += more;
        removed += fewer;
        cursor = at + new.len();
        i += 1;
    }
    assert(all.take(all.len() as int) =~= all);
    let mut result = join(&lines, "\n");
    if had_newline {
        result.push('\n');
    }
    Ok((result, added, removed))
}

/// A hunk without a place ends the update.
proof fn lemma_run_error(lines: Seq<Seq<char>>, hunks: Seq<HunkView>, i: int)
    requires
        0 <= i <= hunks.len(),
        run_hunks(lines, hunks.take(i)) is None,
    ensures
        run_hunks(lines, hunks) is None,
    decreases hunks.len(),
{
    if i == hunks.len() {
        assert(hunks.take(i) =~= hunks);
    } else {
        assert(hunks.drop_last().take(i) =~= hunks.take(i));
        lemma_run_error(lines, hunks.drop_last(), i);
    }
}

// ---------------------------------------------------------------------------
// Where hunks apply

/// What a hunk line expects to find.
pub open spec fn expected_line() -> spec_fn((LineKind, Seq<char>)) -> Option<Seq<char>> {
    |l: (LineKind, Seq<char>)|
        if l.0 == LineKind::Add {
            None
        } else {
            Some(l.1)
        }
}

/// What a hunk line leaves behind.
pub open spec fn resulting_line() -> spec_fn((LineKind, Seq<char>)) -> Option<Seq<char>> {
    |l: (LineKind, Seq<char>)|
        if l.0 == LineKind::Remove {
            None
        } else {
            Some(l.1)
        }
}

/// Whether lines stand among others at a place.
pub open spec fn stands(lines: Seq<Seq<char>>, part: Seq<Seq<char>>, at: int) -> bool {
    &&& 0 <= at && at + part.len() <= lines.len()
    &&& forall|k: int| 0 <= k < part.len() ==> lines[at + k] == #[trigger] part[k]
}

/// A hunk at a place: the lines that it is applied to, the end of the hunk before
/// it, the place, and the lines that it takes away and puts there.
pub struct PlacedView {
    pub before: Seq<Seq<char>>,
    pub from: int,
    pub at: int,
    pub old: Seq<Seq<char>>,
    pub new: Seq<Seq<char>>,
}

impl PlacedView {
    /// The lines once the hunk has been applied.
    pub open spec fn after(self) -> Seq<Seq<char>> {
        self.before.take(self.at) + self.new + self.before.skip(self.at + self.old.len())
    }
}

/// Whether the first line from `from` on that contains a text is at `i`.
pub open spec fn is_first_with(lines: Seq<Seq<char>>, part: Seq<char>, from: int, i: int) -> bool {
    &&& from <= i < lines.len()
    &&& has(lines[i], part)
    &&& forall|j: int| from <= j < i ==> !(#[trigger] has(lines[j], part))
}

/// Whether a hunk is where it belongs: not before the end of the one before it,
/// nor before the first line with its anchor where there is one, and at the first
/// place from there on with the lines that it expects.
#[verifier::opaque]
pub open spec fn rightly_placed(p: PlacedView, h: HunkView) -> bool {
    &&& picks(h.lines, p.old, expected_line())
    &&& picks(h.lines, p.new, resulting_line())
    &&& p.from <= p.at
    &&& stands(p.before, p.old, p.at)
    &&& h.anchor matches Some(anchor) ==> forall|i: int|
        #![trigger is_first_with(p.before, anchor, p.from, i)]
        is_first_with(p.before, anchor, p.from, i) ==> i <= p.at && forall|q: int|
            i <= q < p.at ==> !#[trigger] stands(p.before, p.old, q)
    &&& (h.anchor matches Some(anchor) ==> forall|j: int|
        p.from <= j < p.before.len() ==> !(#[trigger] has(p.before[j], anchor))) ==> forall|q: int|
        p.from <= q < p.at ==> !#[trigger] stands(p.before, p.old, q)
}

/// Whether hunks are placed one after another, each in what the one before it
/// left.
pub open spec fn is_trail(
    lines: Seq<Seq<char>>,
    hunks: Seq<HunkView>,
    steps: Seq<PlacedView>,
) -> bool {
    &&& steps.len() == hunks.len()
    &&& forall|k: int| 0 <= k < steps.len() ==> rightly_placed(#[trigger] steps[k], hunks[k])
    &&& steps.len() > 0 ==> steps[0].before == lines && steps[0].from == 0
    &&& forall|k: int|
        0 < k < steps.len() ==> (#[trigger] steps[k]).before == steps[k - 1].after()
            && steps[k].from == steps[k - 1].at + steps[k - 1].new.len()
}

/// What placed hunks leave, and where the last of them ends.
pub open spec fn left_by(lines: Seq<Seq<char>>, steps: Seq<PlacedView>) -> (
    Seq<Seq<char>>,
    int,
) {
    if steps.len() == 0 {
        (lines, 0)
    } else {
        (steps.last().after(), steps.last().at + steps.last().new.len())
    }
}

proof fn lemma_sides_picked(lines: Seq<(LineKind, Seq<char>)>)
    ensures
        picks(lines, old_side(lines), expected_line()),
        picks(lines, new_side(lines), resulting_line()),
    decreases lines.len(),
{
    if lines.len() == 0 {
        lemma_picks_nothing(lines, expected_line());
        lemma_picks_nothing(lines, resulting_line());
    } else {
        lemma_sides_picked(lines.drop_last());
        lemma_picks_last(lines, old_side(lines.drop_last()), expected_line());
        lemma_picks_last(lines, new_side(lines.drop_last()), resulting_line());
    }
}

proof fn lemma_stands(lines: Seq<Seq<char>>, part: Seq<Seq<char>>, at: int)
    requires
        0 <= at,
    ensures
        matches_at(lines, part, at) <==> stands(lines, part, at),
{
    if at + part.len() <= lines.len() {
        let there = lines.subrange(at, at + part.len());
        if stands(lines, part, at) {
            assert(there =~= part);
        }
        if matches_at(lines, part, at) {
            assert forall|k: int| 0 <= k < part.len() implies lines[at + k] == #[trigger] part[k] by {
                assert(there[k] == lines[at + k]);
            }
        }
    }
}

proof fn lemma_lines_found(lines: Seq<Seq<char>>, part: Seq<Seq<char>>, from: int)
    requires
        0 <= from,
    ensures
        match find_lines(lines, part, from) {
            Some(at) => from <= at && stands(lines, part, at) && forall|q: int|
                from <= q < at ==> !#[trigger] stands(lines, part, q),
            None => forall|q: int| from <= q ==> !#[trigger] stands(lines, part, q),
        },
    decreases lines.len() - from + 1,
{
    if from + part.len() <= lines.len() {
        lemma_stands(lines, part, from);
        if !matches_at(lines, part, from) {
            lemma_lines_found(lines, part, from + 1);
        }
    }
}

proof fn lemma_first_with(lines: Seq<Seq<char>>, part: Seq<char>, from: int)
    ensures
        match first_with(lines, part, from) {
            Some(i) => is_first_with(lines, part, from, i),
            None => forall|j: int| from <= j < lines.len() ==> !(#[trigger] has(lines[j], part)),
        },
    decreases lines.len() - from,
{
    if from < lines.len() && !(has(lines[from], part)) {
        lemma_first_with(lines, part, from + 1);
    }
}

/// One hunk is applied where it belongs, and is not applied only where there is
/// no such place.
proof fn lemma_hunk_placed(e: EditView, h: HunkView)
    requires
        0 <= e.cursor <= e.lines.len(),
    ensures
        match hunk_position(e, h) {
            Some(at) => rightly_placed(
                PlacedView {
                    before: e.lines,
                    from: e.cursor,
                    at,
                    old: old_side(h.lines),
                    new: new_side(h.lines),
                },
                h,
            ),
            None => forall|p: PlacedView|
                p.before == e.lines && p.from == e.cursor ==> !#[trigger] rightly_placed(p, h),
        },
{
    reveal(rightly_placed);
    let old = old_side(h.lines);
    lemma_sides_picked(h.lines);
    let start = match h.anchor {
        Some(anchor) => match first_with(e.lines, anchor, e.cursor) {
            Some(i) => i,
            None => e.cursor,
        },
        None => e.cursor,
    };
    if let Some(anchor) = h.anchor {
        lemma_first_with(e.lines, anchor, e.cursor);
        assert forall|i: int| is_first_with(e.lines, anchor, e.cursor, i) implies i == start by {
            if i < start {
                assert(has(e.lines[i], anchor));
            } else if start < i {
                assert(has(e.lines[start], anchor));
            }
        }
    }
    lemma_lines_found(e.lines, old, start);
    if hunk_position(e, h) is None {
        assert forall|p: PlacedView| p.before == e.lines && p.from == e.cursor implies
            !#[trigger] rightly_placed(p, h) by {
            if rightly_placed(p, h) {
                law_picks_are_unique(h.lines, p.old, old, expected_line());
                if let Some(anchor) = h.anchor {
                    if first_with(e.lines, anchor, e.cursor) is Some {
                        assert(is_first_with(p.before, anchor, p.from, start));
                    }
                }
                assert(start <= p.at);
                assert(stands(e.lines, old, p.at));
            }
        }
    }
}

spec fn traced(
    lines: Seq<Seq<char>>,
    hunks: Seq<HunkView>,
    steps: Seq<PlacedView>,
    e: EditView,
) -> bool {
    is_trail(lines, hunks, steps) && left_by(lines, steps) == (e.lines, e.cursor)
}

/// Whether the hunks up to some one of them are placed, and that one has no
/// place.
pub open spec fn is_stuck(
    lines: Seq<Seq<char>>,
    hunks: Seq<HunkView>,
    n: int,
    steps: Seq<PlacedView>,
) -> bool {
    &&& 0 <= n < hunks.len()
    &&& is_trail(lines, hunks.take(n), steps)
    &&& forall|p: PlacedView|
        p.before == left_by(lines, steps).0 && p.from == left_by(lines, steps).1
            ==> !#[trigger] rightly_placed(p, hunks[n])
}

/// Where hunks are placed, and which of them has no place.
proof fn lemma_traced(lines: Seq<Seq<char>>, hunks: Seq<HunkView>) -> (r: (Seq<PlacedView>, int))
    ensures
        match run_hunks(lines, hunks) {
            Some(e) => traced(lines, hunks, r.0, e),
            None => is_stuck(lines, hunks, r.1, r.0),
        },
    decreases hunks.len(),
{
    if hunks.len() == 0 {
        (Seq::empty(), 0)
    } else {
        let front = hunks.drop_last();
        let h = hunks.last();
        let last = hunks.len() - 1;
        assert(hunks.take(last) =~= front);
        let (steps, n) = lemma_traced(lines, front);
        law_line_counts_balance(lines, front);
        match run_hunks(lines, front) {
            Some(e) => {
                lemma_hunk_placed(e, h);
                match hunk_position(e, h) {
                    Some(at) => {
                        let p = PlacedView {
                            before: e.lines,
                            from: e.cursor,
                            at,
                            old: old_side(h.lines),
                            new: new_side(h.lines),
                        };
                        let more = steps.push(p);
                        assert forall|k: int| 0 <= k < more.len() implies rightly_placed(
                            #[trigger] more[k],
                            hunks[k],
                        ) by {
                            if k < steps.len() {
                                assert(more[k] == steps[k] && front[k] == hunks[k]);
                            }
                        }
                        assert forall|k: int| 0 < k < more.len() implies (
                        #[trigger] more[k]).before == more[k - 1].after() && more[k].from == more[k
                            - 1].at + more[k - 1].new.len() by {
                            assert(more[k - 1] == steps[k - 1]);
                            if k < steps.len() {
                                assert(more[k] == steps[k]);
                            } else {
                                assert(steps.last() == steps[k - 1]);
                            }
                        }
                        assert(more.last() == p);
                        (more, 0)
                    },
                    None => (steps, last),
                }
            },
            None => {
                assert(front.take(n) =~= hunks.take(n));
                assert(front[n] == hunks[n]);
                (steps, n)
            },
        }
    }
}

/// An update applies every hunk where it belongs, one after another, and what
/// they leave is the new text, ended as the old one was. It fails only where some
/// hunk has no place among what those before it left.
pub proof fn law_hunks_apply_where_they_belong(source: Seq<char>, hunks: Seq<HunkView>)
    ensures
        match updated(source, hunks) {
            Some((content, _, _)) => exists|steps: Seq<PlacedView>|
                {
                    &&& #[trigger] is_trail(lines_of(source), hunks, steps)
                    &&& content == joined(left_by(lines_of(source), steps).0, seq!['\n']) + (
                    if source.len() > 0 && source.last() == '\n' {
                        seq!['\n']
                    } else {
                        Seq::empty()
                    })
                },
            None => exists|n: int, steps: Seq<PlacedView>|
                #[trigger] is_stuck(lines_of(source), hunks, n, steps),
        },
{
    let lines = lines_of(source);
    let (steps, n) = lemma_traced(lines, hunks);
    if let Some(e) = run_hunks(lines, hunks) {
        let text = joined(e.lines, seq!['\n']);
        let content = updated(source, hunks)->Some_0.0;
        assert(text + seq!['\n'] =~= text.push('\n'));
        assert(text + Seq::empty() =~= text);
        assert(is_trail(lines, hunks, steps));
    } else {
        assert(is_stuck(lines, hunks, n, steps));
    }
}

proof fn lemma_kind_counted(lines: Seq<(LineKind, Seq<char>)>, kind: LineKind)
    ensures
        count_kind(lines, kind) == lines.filter(|l: (LineKind, Seq<char>)| l.0 == kind).len(),
    decreases lines.len(),
{
    reveal(Seq::filter);
    if lines.len() > 0 {
        lemma_kind_counted(lines.drop_last(), kind);
    }
}

/// One more hunk adds to the numbers of added and removed lines as many as it
/// holds of each.
pub proof fn law_hunks_count_their_lines(
    source: Seq<char>,
    hunks: Seq<HunkView>,
    h: HunkView,
)
    ensures
        updated(source, hunks.push(h)) matches Some((_, added, removed)) ==> (updated(
            source,
            hunks,
        ) matches Some((_, before, gone)) && {
            &&& added == before + h.lines.filter(
                |l: (LineKind, Seq<char>)| l.0 == LineKind::Add,
            ).len()
            &&& removed == gone + h.lines.filter(
                |l: (LineKind, Seq<char>)| l.0 == LineKind::Remove,
            ).len()
        }),
        updated(source, Seq::<HunkView>::empty()) matches Some((_, added, removed)) && added == 0
            && removed == 0,
{
    assert(hunks.push(h).drop_last() =~= hunks);
    lemma_kind_counted(h.lines, LineKind::Add);
    lemma_kind_counted(h.lines, LineKind::Remove);
}

// ---------------------------------------------------------------------------
// What a patch does to files

/// How a patch changed a file.
#[derive(Debug, Clone, Copy, PartialEq, Eq, Structural)]
pub enum FileChange {
    Added,
    Modified,
    Deleted,
}

impl FileChange {
    /// The name under which a change is kept.
    pub open spec fn name(self) -> Seq<char> {
        match self {
            FileChange::Added => "added"@,
            FileChange::Modified => "modified"@,
            FileChange::Deleted => "deleted"@,
        }
    }

    pub fn as_str(self) -> (r: &'static str)
        ensures
            r@ == self.name(),
    {
        match self {
            FileChange::Added => "added",
            FileChange::Modified => "modified",
            FileChange::Deleted => "deleted",
        }
    }

    pub fn parse(value: &str) -> (r: Option<FileChange>)
        ensures
            r matches Some(c) ==> c.name() == value@,
            r is None ==> forall|c: FileChange| #[trigger] c.name() != value@,
    {
        if same(value, "added") {
            Some(FileChange::Added)
        } else if same(value, "modified") {
            Some(FileChange::Modified)
        } else if same(value, "deleted") {
            Some(FileChange::Deleted)
        } else {
            None
        }
    }
}

/// Different changes have different names, so that a name read back gives the
/// change it was written for.
pub proof fn law_change_names(a: FileChange, b: FileChange)
    requires
        a.name() == b.name(),
    ensures
        a == b,
{
    reveal_strlit("added");
    reveal_strlit("modified");
    reveal_strlit("deleted");
    assert("added"@[0] == 'a');
    assert("modified"@[0] == 'm');
    assert("deleted"@[0] == 'd');
}

/// What a patch did to one file, in lines.
#[derive(Debug, PartialEq, Eq)]
pub struct PatchFileSummary {
    pub path: String,
    pub added: usize,
    pub removed: usize,
}

/// The model of a [`PatchFileSummary`].
pub struct FileSummaryView {
    pub path: Seq<char>,
    pub added: nat,
    pub removed: nat,
}

impl View for PatchFileSummary {
    type V = FileSummaryView;

    open spec fn view(&self) -> FileSummaryView {
        FileSummaryView {
            path: self.path@,
            added: self.added as nat,
            removed: self.removed as nat,
        }
    }
}

/// One file as it was before a patch touched it, with a fingerprint of what the
/// patch left behind so a later restore can tell whether anything else has
/// changed the file since.
#[derive(Debug, PartialEq, Eq)]
pub struct FileSnapshot {
    pub path: String,
    pub change: FileChange,
    pub before: Option<String>,
    pub after_len: u64,
    pub after_hash: u64,
    pub added: usize,
    pub removed: usize,
    /// False when the previous contents were too large to keep, which is
    /// reported rather than silently truncated.
    pub restorable: bool,
}

/// The model of a [`FileSnapshot`].
pub struct SnapshotView {
    pub path: Seq<char>,
    pub change: FileChange,
    pub before: Option<Seq<char>>,
    pub after_len: u64,
    pub after_hash: u64,
    pub added: nat,
    pub removed: nat,
    pub restorable: bool,
}

impl View for FileSnapshot {
    type V = SnapshotView;

    open spec fn view(&self) -> SnapshotView {
        SnapshotView {
            path: self.path@,
            change: self.change,
            before: maybe(self.before),
            after_len: self.after_len,
            after_hash: self.after_hash,
            added: self.added as nat,
            removed: self.removed as nat,
            restorable: self.restorable,
        }
    }
}

impl Clone for FileSnapshot {
    fn clone(&self) -> (r: FileSnapshot)
        ensures
            r@ == self@,
    {
        FileSnapshot {
            path: self.path.clone(),
            change: self.change,
            before: copy_maybe(&self.before),
            after_len: self.after_len,
            after_hash: self.after_hash,
            added: self.added,
            removed: self.removed,
            restorable: self.restorable,
        }
    }
}

/// What a patch did.
#[derive(Debug, PartialEq, Eq)]
pub struct PatchSummary {
    pub files: Vec<PatchFileSummary>,
    /// What each touched file looked like beforehand, so the change can be
    /// undone. Without its contents for files too large to keep.
    pub snapshots: Vec<FileSnapshot>,
}

/// A change to make to one file.
#[derive(Debug, PartialEq, Eq)]
pub enum FileWrite {
    /// Make a file that must not exist yet, and the directories above it.
    Create { path: String, content: String },
    /// Replace the contents of a file that exists, keeping the file itself.
    Overwrite { path: String, content: String },
    /// Remove a file.
    Remove { path: String },
    /// Write a file whether it exists or not, and the directories above it.
    Restore { path: String, content: String },
}

/// The model of a [`FileWrite`].
pub enum WriteView {
    Create { path: Seq<char>, content: Seq<char> },
    Overwrite { path: Seq<char>, content: Seq<char> },
    Remove { path: Seq<char> },
    Restore { path: Seq<char>, content: Seq<char> },
}

impl View for FileWrite {
    type V = WriteView;

    open spec fn view(&self) -> WriteView {
        match self {
            FileWrite::Create { path, content } => WriteView::Create {
                path: path@,
                content: content@,
            },
            FileWrite::Overwrite { path, content } => WriteView::Overwrite {
                path: path@,
                content: content@,
            },
            FileWrite::Remove { path } => WriteView::Remove { path: path@ },
            FileWrite::Restore { path, content } => WriteView::Restore {
                path: path@,
                content: content@,
            },
        }
    }
}

impl WriteView {
    /// The file that is written.
    pub open spec fn path(self) -> Seq<char> {
        match self {
            WriteView::Create { path, .. } => path,
            WriteView::Overwrite { path, .. } => path,
            WriteView::Remove { path } => path,
            WriteView::Restore { path, .. } => path,
        }
    }

    /// The text of the file once it has been written; nothing if it is gone.
    pub open spec fn left(self) -> Option<Seq<char>> {
        match self {
            WriteView::Create { content, .. } => Some(content),
            WriteView::Overwrite { content, .. } => Some(content),
            WriteView::Remove { .. } => None,
            WriteView::Restore { content, .. } => Some(content),
        }
    }
}

/// What stands at the path that an operation names.
#[derive(Debug)]
pub struct Located {
    /// The path made absolute.
    pub path: String,
    pub exists: bool,
    /// The text of the file, if it can be read as text.
    pub content: Option<String>,
}

/// The model of a [`Located`].
pub struct LocatedView {
    pub path: Seq<char>,
    pub exists: bool,
    pub content: Option<Seq<char>>,
}

impl View for Located {
    type V = LocatedView;

    open spec fn view(&self) -> LocatedView {
        LocatedView { path: self.path@, exists: self.exists, content: maybe(self.content) }
    }
}

/// What a patch comes to: what it reports and what is to be written, file by
/// file and in order.
#[derive(Debug)]
pub struct PatchPlan {
    pub summary: PatchSummary,
    pub writes: Vec<FileWrite>,
}

/// The model of a [`PatchPlan`].
pub struct PlanView {
    pub files: Seq<FileSummaryView>,
    pub snapshots: Seq<SnapshotView>,
    pub writes: Seq<WriteView>,
}

impl View for PatchPlan {
    type V = PlanView;

    open spec fn view(&self) -> PlanView {
        PlanView {
            files: views(self.summary.files@),
            snapshots: views(self.summary.snapshots@),
            writes: views(self.writes@),
        }
    }
}

/// The fingerprint of a text.
pub uninterp spec fn fingerprint(content: Seq<char>) -> u64;

/// The hash that `BuildHasher::hash_one` gives for a text with the standard
/// library's `DefaultHasher`, made by `default`: all hashers made so are the
/// same, so one text always has one hash. Nothing else is said of its value.
#[verifier::external_body]
fn hash_text(content: &str) -> (r: u64)
    ensures
        r == fingerprint(content@),
{
    std::hash::BuildHasher::hash_one(
        &std::hash::BuildHasherDefault::<std::collections::hash_map::DefaultHasher>::default(),
        content,
    )
}

/// Cheap content fingerprint. Only ever compared against another fingerprint
/// this program produced, so a non-cryptographic hash is enough.
pub fn content_hash(content: &str) -> (r: u64)
    ensures
        r == fingerprint(content@),
{
    hash_text(content)
}

/// What is kept of a file's previous contents: all of it up to `max` bytes,
/// otherwise nothing.
pub open spec fn kept_before(before: Seq<char>, max: nat) -> Option<Seq<char>> {
    if bytes_of(before) <= max {
        Some(before)
    } else {
        None
    }
}

/// The snapshot of a file whose text was replaced or removed.
pub open spec fn changed_snapshot(
    path: Seq<char>,
    change: FileChange,
    before: Seq<char>,
    after: Seq<char>,
    file: FileSummaryView,
    max: nat,
) -> SnapshotView {
    SnapshotView {
        path,
        change,
        before: kept_before(before, max),
        after_len: bytes_of(after) as u64,
        after_hash: fingerprint(after),
        added: file.added,
        removed: file.removed,
        restorable: bytes_of(before) <= max,
    }
}

/// What one operation comes to.
pub struct StepView {
    pub file: FileSummaryView,
    pub snapshot: SnapshotView,
    pub write: WriteView,
}

/// What one operation does, given what stands at its path.
pub open spec fn plan_step(
    operation: OperationView,
    found: Result<LocatedView, Seq<char>>,
    max: nat,
) -> Result<StepView, Seq<char>> {
    match found {
        Err(e) => Err(e),
        Ok(l) => match operation {
            OperationView::Add { path, content } => if l.exists {
                Err("cannot add existing file: "@ + path)
            } else {
                let file = FileSummaryView { path, added: lines_of(content).len(), removed: 0 };
                Ok(
                    StepView {
                        file,
                        snapshot: SnapshotView {
                            path: l.path,
                            change: FileChange::Added,
                            before: None,
                            after_len: bytes_of(content) as u64,
                            after_hash: fingerprint(content),
                            added: file.added,
                            removed: 0,
                            restorable: true,
                        },
                        write: WriteView::Create { path: l.path, content },
                    },
                )
            },
            OperationView::Delete { path } => match l.content {
                None => Err("read file before delete: "@ + path),
                Some(source) => {
                    let file = FileSummaryView { path, added: 0, removed: lines_of(source).len() };
                    Ok(
                        StepView {
                            file,
                            snapshot: changed_snapshot(
                                l.path,
                                FileChange::Deleted,
                                source,
                                ""@,
                                file,
                                max,
                            ),
                            write: WriteView::Remove { path: l.path },
                        },
                    )
                },
            },
            OperationView::Update { path, hunks } => match l.content {
                None => Err("read file before update: "@ + path),
                Some(source) => match updated(source, hunks) {
                    None => Err("context not found in "@ + path),
                    Some((content, added, removed)) => {
                        let file = FileSummaryView { path, added, removed };
                        Ok(
                            StepView {
                                file,
                                snapshot: changed_snapshot(
                                    l.path,
                                    FileChange::Modified,
                                    source,
                                    content,
                                    file,
                                    max,
                                ),
                                write: WriteView::Overwrite { path: l.path, content },
                            },
                        )
                    },
                },
            },
        },
    }
}

/// Whether an operation of the list is for a path.
pub open spec fn has_operation(operations: Seq<OperationView>, path: Seq<char>) -> bool {
    exists|i: int| 0 <= i < operations.len() && (#[trigger] operations[i]).path() == path
}

/// What operations come to, one after another. Nothing is written before all
/// of them are known to apply.
pub open spec fn plan_of(
    operations: Seq<OperationView>,
    found: Seq<Result<LocatedView, Seq<char>>>,
    max: nat,
) -> Result<PlanView, Seq<char>>
    decreases operations.len(),
{
    if operations.len() == 0 {
        Ok(PlanView { files: Seq::empty(), snapshots: Seq::empty(), writes: Seq::empty() })
    } else {
        let rest = operations.drop_last();
        match plan_of(rest, found, max) {
            Err(e) => Err(e),
            Ok(plan) => if has_operation(rest, operations.last().path()) {
                Err("patch contains multiple operations for "@ + operations.last().path())
            } else {
                match plan_step(operations.last(), found[operations.len() - 1], max) {
                    Err(e) => Err(e),
                    Ok(step) => Ok(
                        PlanView {
                            files: plan.files.push(step.file),
                            snapshots: plan.snapshots.push(step.snapshot),
                            writes: plan.writes.push(step.write),
                        },
                    ),
                }
            },
        }
    }
}

/// The models of what was found.
pub open spec fn found_views(found: Seq<Result<Located, String>>) -> Seq<
    Result<LocatedView, Seq<char>>,
> {
    Seq::new(found.len(), |i: int| outcome(found[i]))
}

fn snapshot_change(
    path: &str,
    change: FileChange,
    before: String,
    after: &str,
    file: &PatchFileSummary,
    max: usize,
) -> (r: FileSnapshot)
    ensures
        r@ == changed_snapshot(path@, change, before@, after@, file@, max as nat),
{
    let restorable = byte_len(&before) <= max;
    FileSnapshot {
        path: path.to_owned(),
        change,
        before: if restorable {
            Some(before)
        } else {
            None
        },
        after_len: byte_len(after) as u64,
        after_hash: content_hash(after),
        added: file.added,
        removed: file.removed,
        restorable,
    }
}

fn plan_operation(operation: &Operation, found: &Result<Located, String>, max: usize) -> (r: Result<
    (PatchFileSummary, FileSnapshot, FileWrite),
    String,
>)
    ensures
        match r {
            Ok((file, snapshot, write)) => plan_step(operation@, outcome(*found), max as nat)
                == Ok::<StepView, Seq<char>>(
                StepView { file: file@, snapshot: snapshot@, write: write@ },
            ),
            Err(e) => plan_step(operation@, outcome(*found), max as nat) == Err::<
                StepView,
                Seq<char>,
            >(e@),
        },
{
    match found {
        Err(e) => Err(e.clone()),
        Ok(l) => match operation {
            Operation::Add { path, content } => {
                if l.exists {
                    return Err("cannot add existing file: ".to_owned().concat(path));
                }
                let lines = lines(content);
                assert(texts(lines@).len() == lines.len());
                let file = PatchFileSummary { path: path.clone(), added: lines.len(), removed: 0 };
                let snapshot = FileSnapshot {
                    path: l.path.clone(),
                    change: FileChange::Added,
                    before: None,
                    after_len: byte_len(content) as u64,
                    after_hash: content_hash(content),
                    added: file.added,
                    removed: 0,
                    restorable: true,
                };
                let write = FileWrite::Create { path: l.path.clone(), content: content.clone() };
                Ok((file, snapshot, write))
            },
            Operation::Delete { path } => match &l.content {
                None => Err("read file before delete: ".to_owned().concat(path)),
                Some(source) => {
                    let lines = lines(source);
                    assert(texts(lines@).len() == lines.len());
                    let file = PatchFileSummary {
                        path: path.clone(),
                        added: 0,
                        removed: lines.len(),
                    };
                    let snapshot = snapshot_change(
                        &l.path,
                        FileChange::Deleted,
                        source.clone(),
                        "",
                        &file,
                        max,
                    );
                    Ok((file, snapshot, FileWrite::Remove { path: l.path.clone() }))
                },
            },
            Operation::Update { path, hunks } => match &l.content {
                None => Err("read file before update: ".to_owned().concat(path)),
                Some(source) => match apply_hunks(source, hunks, path) {
                    Err(e) => Err(e),
                    Ok((content, added, removed)) => {
                        let file = PatchFileSummary { path: path.clone(), added, removed };
                        let snapshot = snapshot_change(
                            &l.path,
                            FileChange::Modified,
                            source.clone(),
                            &content,
                            &file,
                            max,
                        );
                        Ok((file, snapshot, FileWrite::Overwrite { path: l.path.clone(), content }))
                    },
                },
            },
        },
    }
}

fn already_named(operations: &Vec<Operation>, upto: usize, path: &str) -> (r: bool)
    requires
        upto <= operations.len(),
    ensures
        r == has_operation(views(operations@).take(upto as int), path@),
{
    let ghost all = views(operations@).take(upto as int);
    let mut i: usize = 0;
    while i < upto
        invariant
            i <= upto <= operations.len(),
            all == views(operations@).take(upto as int),
            forall|k: int| 0 <= k < i ==> (#[trigger] all[k]).path() != path@,
        decreases upto - i,
    {
        assert(all[i as int] == operations@[i as int]@);
        if same(operations[i].path(), path) {
            return true;
        }
        i += 1;
    }
    false
}

/// What a list of operations comes to, given what stands at the path of each.
///
/// `snapshot_max_bytes` caps how much of a file's previous contents is kept for
/// undo; anything larger is recorded as unrestorable instead of truncated, since
/// a partial restore would corrupt the file.
pub fn plan_operations(
    operations: &Vec<Operation>,
    found: &Vec<Result<Located, String>>,
    snapshot_max_bytes: usize,
) -> (r: Result<PatchPlan, String>)
    requires
        found.len() == operations.len(),
    ensures
        outcome(r) == plan_of(views(operations@), found_views(found@), snapshot_max_bytes as nat),
{
    broadcast use lemma_views_push;

    let ghost all = views(operations@);
    let ghost seen = found_views(found@);
    let ghost max = snapshot_max_bytes as nat;
    let mut files: Vec<PatchFileSummary> = Vec::new();
    let mut snapshots: Vec<FileSnapshot> = Vec::new();
    let mut writes: Vec<FileWrite> = Vec::new();
    assert(views(files@) =~= Seq::empty());
    assert(views(snapshots@) =~= Seq::empty());
    assert(views(writes@) =~= Seq::empty());
    assert(all.take(0) =~= Seq::empty());
    let mut i: usize = 0;
    while i < operations.len()
        invariant
            i <= operations.len(),
            found.len() == operations.len(),
            all == views(operations@),
            seen == found_views(found@),
            max == snapshot_max_bytes as nat,
            plan_of(all.take(i as int), seen, max) == Ok::<PlanView, Seq<char>>(
                PlanView {
                    files: views(files@),
                    snapshots: views(snapshots@),
                    writes: views(writes@),
                },
            ),
        decreases operations.len() - i,
    {
        assert(all.take(i + 1).drop_last() =~= all.take(i as int));
        assert(all.take(i + 1).last() == operations@[i as int]@);
        assert(seen[i as int] == outcome(found@[i as int]));
        let path = operations[i].path();
        if already_named(operations, i, path) {
            proof {
                lemma_plan_error(all, seen, max, i + 1);
            }
            return Err("patch contains multiple operations for ".to_owned().concat(path));
        }
        match plan_operation(&operations[i], &found[i], snapshot_max_bytes) {
            Err(e) => {
                proof {
                    lemma_plan_error(all, seen, max, i + 1);
                }
                return Err(e);
            },
            Ok((file, snapshot, write)) => {
                let ghost plan = PlanView {
                    files: views(files@).push(file@),
                    snapshots: views(snapshots@).push(snapshot@),
                    writes: views(writes@).push(write@),
                };
                assert(plan_of(all.take(i + 1), seen, max) == Ok::<PlanView, Seq<char>>(plan));
                files.push(file);
                snapshots.push(snapshot);
                writes.push(write);
                assert(views(files@) == plan.files);
                assert(views(snapshots@) == plan.snapshots);
                assert(views(writes@) == plan.writes);
            },
        }
        i += 1;
    }
    assert(all.take(all.len() as int) =~= all);
    Ok(PatchPlan { summary: PatchSummary { files, snapshots }, writes })
}

/// An operation that does not apply ends the plan.
proof fn lemma_plan_error(
    operations: Seq<OperationView>,
    found: Seq<Result<LocatedView, Seq<char>>>,
    max: nat,
    i: int,
)
    requires
        0 <= i <= operations.len(),
        plan_of(operations.take(i), found, max) is Err,
    ensures
        plan_of(operations, found, max) == plan_of(operations.take(i), found, max),
    decreases operations.len(),
{
    if i == operations.len() {
        assert(operations.take(i) =~= operations);
    } else {
        assert(operations.drop_last().take(i) =~= operations.take(i));
        lemma_plan_error(operations.drop_last(), found, max, i);
    }
}

/// What a patch comes to, given what stands at the path of each of its
/// operations.
pub fn apply_patch_with_snapshots(
    patch: &str,
    found: &Vec<Result<Located, String>>,
    snapshot_max_bytes: usize,
) -> (r: Result<PatchPlan, String>)
    requires
        operations_of(patch@) matches Ok(operations) ==> operations.len() == found.len(),
    ensures
        outcome(r) == (match operations_of(patch@) {
            Err(e) => Err(e),
            Ok(operations) => plan_of(
                operations,
                found_views(found@),
                snapshot_max_bytes as nat,
            ),
        }),
{
    match parse_patch(patch) {
        Err(e) => Err(e),
        Ok(operations) => {
            assert(views(operations@).len() == operations.len());
            plan_operations(&operations, found, snapshot_max_bytes)
        },
    }
}

/// What a patch comes to when the previous contents of every file are kept.
pub fn apply_patch(patch: &str, found: &Vec<Result<Located, String>>) -> (r: Result<
    PatchPlan,
    String,
>)
    requires
        operations_of(patch@) matches Ok(operations) ==> operations.len() == found.len(),
    ensures
        outcome(r) == (match operations_of(patch@) {
            Err(e) => Err(e),
            Ok(operations) => plan_of(operations, found_views(found@), usize::MAX as nat),
        }),
{
    apply_patch_with_snapshots(patch, found, usize::MAX)
}

/// Whether an operation can be carried out on what stands at its path.
pub open spec fn is_possible(
    operation: OperationView,
    found: Result<LocatedView, Seq<char>>,
) -> bool {
    found matches Ok(l) && match operation {
        OperationView::Add { .. } => !l.exists,
        OperationView::Delete { .. } => l.content is Some,
        OperationView::Update { hunks, .. } => l.content matches Some(source) && updated(
            source,
            hunks,
        ) is Some,
    }
}

/// Whether a step does what an operation asks for: it writes the file at the
/// path that was found, counts the lines under the path that the patch names, and
/// keeps what the file was.
pub open spec fn does_as_asked(
    operation: OperationView,
    l: LocatedView,
    max: nat,
    file: FileSummaryView,
    snapshot: SnapshotView,
    write: WriteView,
) -> bool {
    &&& file.path == operation.path()
    &&& snapshot.path == l.path
    &&& snapshot.added == file.added
    &&& snapshot.removed == file.removed
    &&& match operation {
        OperationView::Add { content, .. } => {
            &&& write == WriteView::Create { path: l.path, content }
            &&& file.added == lines_of(content).len()
            &&& file.removed == 0
            &&& snapshot.change == FileChange::Added
            &&& snapshot.before is None
            &&& snapshot.restorable
            &&& snapshot.after_hash == fingerprint(content)
            &&& bytes_of(content) <= u64::MAX ==> snapshot.after_len == bytes_of(content)
        },
        OperationView::Delete { .. } => {
            &&& write == WriteView::Remove { path: l.path }
            &&& file.added == 0
            &&& file.removed == lines_of(l.content->Some_0).len()
            &&& snapshot.change == FileChange::Deleted
            &&& snapshot.restorable <==> bytes_of(l.content->Some_0) <= max
            &&& snapshot.restorable ==> snapshot.before == l.content
            &&& !snapshot.restorable ==> snapshot.before is None
        },
        OperationView::Update { hunks, .. } => updated(
            l.content->Some_0,
            hunks,
        ) matches Some((content, added, removed)) && {
            &&& write == WriteView::Overwrite { path: l.path, content }
            &&& file.added == added
            &&& file.removed == removed
            &&& snapshot.change == FileChange::Modified
            &&& snapshot.restorable <==> bytes_of(l.content->Some_0) <= max
            &&& snapshot.restorable ==> snapshot.before == l.content
            &&& !snapshot.restorable ==> snapshot.before is None
            &&& snapshot.after_hash == fingerprint(content)
            &&& bytes_of(content) <= u64::MAX ==> snapshot.after_len == bytes_of(content)
        },
    }
}

/// A plan comes about exactly where all operations are for different paths and
/// each can be carried out, and it does what each of them asks for, in their
/// order.
pub proof fn law_plans_follow_the_operations(
    operations: Seq<OperationView>,
    found: Seq<Result<LocatedView, Seq<char>>>,
    max: nat,
)
    requires
        found.len() >= operations.len(),
    ensures
        plan_of(operations, found, max) is Ok <==> {
            &&& forall|i: int|
                0 <= i < operations.len() ==> is_possible(#[trigger] operations[i], found[i])
            &&& forall|i: int, j: int|
                0 <= i < j < operations.len() ==> (#[trigger] operations[i]).path() != (
                #[trigger] operations[j]).path()
        },
        plan_of(operations, found, max) matches Ok(plan) ==> {
            &&& plan.files.len() == operations.len()
            &&& plan.snapshots.len() == operations.len()
            &&& plan.writes.len() == operations.len()
            &&& forall|i: int|
                0 <= i < operations.len() ==> does_as_asked(
                    #[trigger] operations[i],
                    found[i]->Ok_0,
                    max,
                    plan.files[i],
                    plan.snapshots[i],
                    plan.writes[i],
                )
        },
    decreases operations.len(),
{
    if operations.len() > 0 {
        let rest = operations.drop_last();
        let n = operations.len() - 1;
        let last = operations[n];
        law_plans_follow_the_operations(rest, found, max);
        assert forall|i: int| 0 <= i < rest.len() implies #[trigger] rest[i] == operations[i] by {}
        let possible = forall|i: int|
            0 <= i < operations.len() ==> is_possible(#[trigger] operations[i], found[i]);
        let distinct = forall|i: int, j: int|
            0 <= i < j < operations.len() ==> (#[trigger] operations[i]).path() != (
            #[trigger] operations[j]).path();
        if possible && distinct {
            assert forall|i: int| 0 <= i < rest.len() implies is_possible(
                #[trigger] rest[i],
                found[i],
            ) by {
                assert(is_possible(operations[i], found[i]));
            }
            assert forall|i: int, j: int| 0 <= i < j < rest.len() implies (
            #[trigger] rest[i]).path() != (#[trigger] rest[j]).path() by {
                assert(operations[i].path() != operations[j].path());
            }
            assert(is_possible(operations[n], found[n]));
            if has_operation(rest, last.path()) {
                let k = choose|k: int|
                    0 <= k < rest.len() && (#[trigger] rest[k]).path() == last.path();
                assert(operations[k].path() != operations[n].path());
            }
            assert(plan_of(operations, found, max) is Ok);
        }
        if let Ok(plan) = plan_of(operations, found, max) {
            let before = plan_of(rest, found, max)->Ok_0;
            assert(is_possible(operations[n], found[n]));
            assert forall|i: int| 0 <= i < operations.len() implies is_possible(
                #[trigger] operations[i],
                found[i],
            ) && does_as_asked(
                operations[i],
                found[i]->Ok_0,
                max,
                plan.files[i],
                plan.snapshots[i],
                plan.writes[i],
            ) by {
                if i < n {
                    assert(rest[i] == operations[i]);
                    assert(is_possible(rest[i], found[i]));
                    assert(plan.files[i] == before.files[i]);
                    assert(plan.snapshots[i] == before.snapshots[i]);
                    assert(plan.writes[i] == before.writes[i]);
                }
            }
            assert forall|i: int, j: int| 0 <= i < j < operations.len() implies (
            #[trigger] operations[i]).path() != (#[trigger] operations[j]).path() by {
                assert(rest[i] == operations[i]);
                if j < n {
                    assert(rest[j] == operations[j]);
                }
            }
        }
    }
}

// ---------------------------------------------------------------------------
// Undoing a patch

/// Why a snapshot cannot be put back over what the file holds now.
pub open spec fn blocker_of(s: SnapshotView, current: Result<Seq<char>, Seq<char>>) -> Option<
    Seq<char>,
> {
    if !s.restorable {
        Some("the previous contents were too large to keep"@)
    } else {
        match s.change {
            FileChange::Deleted => match current {
                Ok(_) => Some("something recreated this file"@),
                Err(_) => None,
            },
            _ => match current {
                Ok(text) => if bytes_of(text) == s.after_len && fingerprint(text) == s.after_hash {
                    None
                } else {
                    Some("changed since the agent last wrote it"@)
                },
                Err(error) => Some("unreadable: "@ + error),
            },
        }
    }
}

/// What puts a file back as it was.
pub open spec fn restoration_of(s: SnapshotView) -> Result<WriteView, Seq<char>> {
    match s.change {
        FileChange::Added => Ok(WriteView::Remove { path: s.path }),
        _ => match s.before {
            Some(content) => Ok(WriteView::Restore { path: s.path, content }),
            None => Err("snapshot kept no previous contents"@),
        },
    }
}

impl FileSnapshot {
    /// Why this snapshot cannot be put back over the current contents of the
    /// file, or `None` when it can. A file the agent wrote and something else
    /// then edited is left alone: reverting it would throw away the other edit.
    pub fn restore_blocker(&self, current: &Result<String, String>) -> (r: Option<String>)
        ensures
            maybe(r) == blocker_of(self@, outcome(*current)),
    {
        if !self.restorable {
            return Some("the previous contents were too large to keep".to_owned());
        }
        match self.change {
            FileChange::Deleted => match current {
                Ok(_) => Some("something recreated this file".to_owned()),
                Err(_) => None,
            },
            _ => match current {
                Ok(text) => {
                    if byte_len(text) as u64 == self.after_len && content_hash(text)
                        == self.after_hash {
                        None
                    } else {
                        Some("changed since the agent last wrote it".to_owned())
                    }
                },
                Err(error) => Some("unreadable: ".to_owned().concat(error)),
            },
        }
    }

    /// What puts the file back as it was. Callers are expected to have checked
    /// [`Self::restore_blocker`] first.
    pub fn restore(&self) -> (r: Result<FileWrite, String>)
        ensures
            outcome(r) == restoration_of(self@),
    {
        match self.change {
            FileChange::Added => Ok(FileWrite::Remove { path: self.path.clone() }),
            _ => match &self.before {
                Some(content) => Ok(
                    FileWrite::Restore { path: self.path.clone(), content: content.clone() },
                ),
                None => Err("snapshot kept no previous contents".to_owned()),
            },
        }
    }
}

/// Whether a snapshot tells of a file that went from one state to another; a
/// state is the text of the file, or nothing where there is no file.
pub open spec fn describes(
    s: SnapshotView,
    before: Option<Seq<char>>,
    after: Option<Seq<char>>,
) -> bool {
    &&& s.change == FileChange::Added <==> before is None
    &&& s.change == FileChange::Deleted <==> before is Some && after is None
    &&& before is Some || after is Some
    &&& s.restorable && before is Some ==> s.before == before
    &&& after matches Some(text) ==> s.after_len == bytes_of(text) && s.after_hash == fingerprint(
        text,
    )
}

/// A patch step writes the file that its snapshot names, and the snapshot tells
/// what the step did to it.
pub proof fn law_snapshot_describes_step(operation: OperationView, found: LocatedView, max: nat)
    requires
        plan_step(operation, Ok(found), max) is Ok,
        found.exists <==> found.content is Some,
        plan_step(operation, Ok(found), max)->Ok_0.write.left() matches Some(text) ==> bytes_of(
            text,
        ) <= u64::MAX,
    ensures
        ({
            let step = plan_step(operation, Ok(found), max)->Ok_0;
            &&& step.snapshot.path == found.path
            &&& step.write.path() == found.path
            &&& describes(step.snapshot, found.content, step.write.left())
        }),
{
}

/// A restorable snapshot puts the file back as it was, and nothing blocks it
/// while the file is as the patch left it.
pub proof fn law_restore_undoes(
    s: SnapshotView,
    before: Option<Seq<char>>,
    after: Option<Seq<char>>,
    error: Seq<char>,
)
    requires
        describes(s, before, after),
        s.restorable,
    ensures
        restoration_of(s) matches Ok(write) && write.path() == s.path && write.left() == before,
        blocker_of(
            s,
            match after {
                Some(text) => Ok(text),
                None => Err(error),
            },
        ) is None,
{
}

/// A file that differs from what the patch left, in length or fingerprint, or
/// that has come back or gone since, is not restored over.
pub proof fn law_edits_are_kept(
    s: SnapshotView,
    before: Option<Seq<char>>,
    after: Option<Seq<char>>,
    current: Result<Seq<char>, Seq<char>>,
)
    requires
        describes(s, before, after),
        match after {
            Some(text) => match current {
                Ok(now) => bytes_of(now) != bytes_of(text) || fingerprint(now) != fingerprint(text),
                Err(_) => true,
            },
            None => current is Ok,
        },
    ensures
        blocker_of(s, current) is Some,
{
}

// ---------------------------------------------------------------------------
// Undoing a range of patches

/// The lines added to a path by snapshots.
pub open spec fn added_to(s: Seq<SnapshotView>, path: Seq<char>) -> nat
    decreases s.len(),
{
    if s.len() == 0 {
        0
    } else {
        added_to(s.drop_last(), path) + if s.last().path == path {
            s.last().added
        } else {
            0
        }
    }
}

/// The lines removed from a path by snapshots.
pub open spec fn removed_from(s: Seq<SnapshotView>, path: Seq<char>) -> nat
    decreases s.len(),
{
    if s.len() == 0 {
        0
    } else {
        removed_from(s.drop_last(), path) + if s.last().path == path {
            s.last().removed
        } else {
            0
        }
    }
}

/// The snapshots of one path in a range: the newest, and the oldest with the
/// lines added and removed over the whole range.
pub struct RangeView {
    pub newest: SnapshotView,
    pub oldest: SnapshotView,
}

/// The position of the range of a path.
pub open spec fn range_at(ranges: Seq<RangeView>, path: Seq<char>, from: int) -> Option<int>
    decreases ranges.len() - from,
{
    if from >= ranges.len() {
        None
    } else if ranges[from].newest.path == path {
        Some(from)
    } else {
        range_at(ranges, path, from + 1)
    }
}

/// Taking in one more snapshot, older than those before it.
pub open spec fn extend_ranges(ranges: Seq<RangeView>, s: SnapshotView) -> Seq<RangeView> {
    match range_at(ranges, s.path, 0) {
        Some(i) => ranges.update(
            i,
            RangeView {
                newest: ranges[i].newest,
                oldest: SnapshotView {
                    added: ranges[i].oldest.added + s.added,
                    removed: ranges[i].oldest.removed + s.removed,
                    ..s
                },
            },
        ),
        None => ranges.push(RangeView { newest: s, oldest: s }),
    }
}

/// The ranges of all paths, in the order in which the paths first come up.
pub open spec fn ranges_of(s: Seq<SnapshotView>) -> Seq<RangeView>
    decreases s.len(),
{
    if s.len() == 0 {
        Seq::empty()
    } else {
        extend_ranges(ranges_of(s.drop_last()), s.last())
    }
}

/// One entry for a whole range; nothing for a file that was created in it and
/// removed again.
pub open spec fn net_change(r: RangeView) -> Option<SnapshotView> {
    let existed_before = r.oldest.change != FileChange::Added;
    let exists_after = r.newest.change != FileChange::Deleted;
    if !existed_before && !exists_after {
        None
    } else {
        Some(
            SnapshotView {
                change: if !existed_before {
                    FileChange::Added
                } else if !exists_after {
                    FileChange::Deleted
                } else {
                    FileChange::Modified
                },
                after_len: r.newest.after_len,
                after_hash: r.newest.after_hash,
                ..r.oldest
            },
        )
    }
}

/// The entries of ranges that left something behind.
pub open spec fn net_changes(ranges: Seq<RangeView>) -> Seq<SnapshotView>
    decreases ranges.len(),
{
    if ranges.len() == 0 {
        Seq::empty()
    } else {
        match net_change(ranges.last()) {
            Some(s) => net_changes(ranges.drop_last()).push(s),
            None => net_changes(ranges.drop_last()),
        }
    }
}

/// Snapshots, newest first, collapsed into one entry for each path.
pub open spec fn coalesced(newest_first: Seq<SnapshotView>) -> Seq<SnapshotView> {
    net_changes(ranges_of(newest_first))
}

proof fn lemma_range_at(ranges: Seq<RangeView>, path: Seq<char>, from: int)
    requires
        0 <= from,
    ensures
        range_at(ranges, path, from) matches Some(i) ==> from <= i < ranges.len()
            && ranges[i].newest.path == path,
        range_at(ranges, path, from) is None ==> forall|k: int|
            from <= k < ranges.len() ==> (#[trigger] ranges[k]).newest.path != path,
    decreases ranges.len() - from,
{
    if from < ranges.len() && ranges[from].newest.path != path {
        lemma_range_at(ranges, path, from + 1);
    }
}

/// Whether `i` is the first place in `s` with its path.
pub open spec fn first_of_path(s: Seq<SnapshotView>, i: int) -> bool {
    0 <= i < s.len() && forall|k: int| 0 <= k < i ==> (#[trigger] s[k]).path != s[i].path
}

/// Whether `i` is the last place in `s` with its path.
pub open spec fn last_of_path(s: Seq<SnapshotView>, i: int) -> bool {
    0 <= i < s.len() && forall|k: int| i < k < s.len() ==> (#[trigger] s[k]).path != s[i].path
}

/// Whether a range is that of the snapshots from `i` to `j`.
pub open spec fn spans(s: Seq<SnapshotView>, r: RangeView, i: int, j: int) -> bool {
    &&& first_of_path(s, i)
    &&& last_of_path(s, j)
    &&& s[i].path == s[j].path
    &&& r.newest == s[i]
    &&& r.oldest == (SnapshotView {
        added: added_to(s, s[i].path),
        removed: removed_from(s, s[i].path),
        ..s[j]
    })
}

/// Whether a range is that of the snapshots between two places.
pub open spec fn spanned(s: Seq<SnapshotView>, r: RangeView) -> bool {
    exists|i: int, j: int| spans(s, r, i, j)
}

proof fn lemma_added_none(s: Seq<SnapshotView>, path: Seq<char>)
    requires
        forall|k: int| 0 <= k < s.len() ==> (#[trigger] s[k]).path != path,
    ensures
        added_to(s, path) == 0,
        removed_from(s, path) == 0,
    decreases s.len(),
{
    if s.len() > 0 {
        assert(s.last() == s[s.len() - 1]);
        assert forall|k: int| 0 <= k < s.drop_last().len() implies (#[trigger] s.drop_last()[k]).path
            != path by {
            assert(s.drop_last()[k] == s[k]);
        }
        lemma_added_none(s.drop_last(), path);
    }
}

/// The ranges are those of the paths that come up, each once.
proof fn lemma_ranges(s: Seq<SnapshotView>)
    ensures
        forall|k: int|
            0 <= k < ranges_of(s).len() ==> spanned(s, #[trigger] ranges_of(s)[k]),
        forall|a: int, b: int|
            0 <= a < b < ranges_of(s).len() ==> (#[trigger] ranges_of(s)[a]).newest.path != (
            #[trigger] ranges_of(s)[b]).newest.path,
        forall|m: int|
            0 <= m < s.len() ==> range_at(ranges_of(s), (#[trigger] s[m]).path, 0) is Some,
    decreases s.len(),
{
    if s.len() > 0 {
        let rest = s.drop_last();
        let x = s.last();
        let old = ranges_of(rest);
        let new = ranges_of(s);
        lemma_ranges(rest);
        lemma_range_at(old, x.path, 0);
        assert(new == extend_ranges(old, x));
        assert forall|k: int| 0 <= k < new.len() implies spanned(
            s,
            #[trigger] new[k],
        ) by {
            if k < old.len() {
                assert(spanned(rest, old[k]));
                let (i, j) = choose|i: int, j: int| spans(rest, old[k], i, j);
                assert(rest[i] == s[i] && rest[j] == s[j]);
                assert forall|m: int| 0 <= m < i implies (#[trigger] s[m]).path != s[i].path by {
                    assert(rest[m] == s[m]);
                }
                if s[i].path == x.path {
                    assert(range_at(old, x.path, 0) == Some(k));
                    assert(s[s.len() - 1] == x);
                    assert(spans(s, new[k], i, s.len() - 1));
                } else {
                    assert(new[k] == old[k]);
                    assert forall|m: int| j < m < s.len() implies (#[trigger] s[m]).path
                        != s[j].path by {
                        if m < rest.len() {
                            assert(rest[m] == s[m]);
                        }
                    }
                    assert(spans(s, new[k], i, j));
                }
            } else {
                assert(range_at(old, x.path, 0) is None);
                let n = s.len() - 1;
                assert(s[n] == x);
                assert forall|m: int| 0 <= m < n implies (#[trigger] s[m]).path != x.path by {
                    assert(rest[m] == s[m]);
                    if s[m].path == x.path {
                        assert(range_at(old, rest[m].path, 0) is Some);
                    }
                }
                assert forall|m: int| 0 <= m < rest.len() implies (#[trigger] rest[m]).path
                    != x.path by {
                    assert(rest[m] == s[m]);
                }
                lemma_added_none(rest, x.path);
                assert(spans(s, new[k], n, n));
            }
        }
        assert forall|m: int| 0 <= m < s.len() implies range_at(
            new,
            (#[trigger] s[m]).path,
            0,
        ) is Some by {
            lemma_range_at(new, s[m].path, 0);
            if m < rest.len() {
                assert(rest[m] == s[m]);
                lemma_range_at(old, rest[m].path, 0);
                let i = range_at(old, rest[m].path, 0)->Some_0;
                assert(new[i].newest.path == s[m].path);
            } else {
                match range_at(old, x.path, 0) {
                    Some(i) => {
                        assert(new[i].newest.path == x.path);
                    },
                    None => {
                        assert(new[old.len() as int].newest.path == x.path);
                    },
                }
            }
        }
    }
}

/// Whether an entry is the net change of some range.
pub open spec fn net_of_some(ranges: Seq<RangeView>, entry: SnapshotView) -> bool {
    exists|m: int| 0 <= m < ranges.len() && net_change(#[trigger] ranges[m]) == Some(entry)
}

proof fn lemma_net_changes(ranges: Seq<RangeView>)
    requires
        forall|m: int|
            0 <= m < ranges.len() ==> (#[trigger] ranges[m]).oldest.path == ranges[m].newest.path,
        forall|a: int, b: int|
            0 <= a < b < ranges.len() ==> (#[trigger] ranges[a]).newest.path != (
            #[trigger] ranges[b]).newest.path,
    ensures
        forall|k: int|
            0 <= k < net_changes(ranges).len() ==> net_of_some(
                ranges,
                #[trigger] net_changes(ranges)[k],
            ),
        forall|m: int|
            0 <= m < ranges.len() ==> (net_change(#[trigger] ranges[m]) matches Some(entry)
                ==> net_changes(ranges).contains(entry)),
        forall|a: int, b: int|
            0 <= a < b < net_changes(ranges).len() ==> (#[trigger] net_changes(ranges)[a]).path != (
            #[trigger] net_changes(ranges)[b]).path,
    decreases ranges.len(),
{
    if ranges.len() > 0 {
        let rest = ranges.drop_last();
        let old = net_changes(rest);
        let new = net_changes(ranges);
        lemma_net_changes(rest);
        assert(ranges.last() == ranges[ranges.len() - 1]);
        assert forall|k: int| 0 <= k < new.len() implies net_of_some(ranges, #[trigger] new[k]) by {
            if k < old.len() {
                assert(net_of_some(rest, old[k]));
                let m = choose|m: int|
                    0 <= m < rest.len() && net_change(#[trigger] rest[m]) == Some(old[k]);
                assert(ranges[m] == rest[m]);
            }
        }
        assert forall|m: int| 0 <= m < ranges.len() implies (net_change(
            #[trigger] ranges[m],
        ) matches Some(entry) ==> new.contains(entry)) by {
            if net_change(ranges[m]) is Some {
                let entry = net_change(ranges[m])->Some_0;
                if m < rest.len() {
                    assert(rest[m] == ranges[m]);
                    let k = choose|k: int| 0 <= k < old.len() && old[k] == entry;
                    assert(new[k] == entry);
                } else {
                    assert(new[old.len() as int] == entry);
                }
            }
        }
        assert forall|a: int, b: int| 0 <= a < b < new.len() implies (#[trigger] new[a]).path != (
        #[trigger] new[b]).path by {
            if b == old.len() {
                assert(net_of_some(rest, old[a]));
                let m = choose|m: int|
                    0 <= m < rest.len() && net_change(#[trigger] rest[m]) == Some(old[a]);
                assert(ranges[m] == rest[m]);
            }
        }
    }
}

/// Every path is named once, and each entry is the net change over the
/// snapshots of its path, from the oldest to the newest.
pub proof fn law_one_entry_per_path(newest_first: Seq<SnapshotView>)
    ensures
        forall|a: int, b: int|
            0 <= a < b < coalesced(newest_first).len() ==> (#[trigger] coalesced(
                newest_first,
            )[a]).path != (#[trigger] coalesced(newest_first)[b]).path,
        forall|k: int|
            0 <= k < coalesced(newest_first).len() ==> exists|r: RangeView| #[trigger]
                spanned(newest_first, r) && net_change(r) == Some(
                    #[trigger] coalesced(newest_first)[k],
                ),
{
    let ranges = ranges_of(newest_first);
    lemma_ranges(newest_first);
    lemma_spanned_paths(newest_first);
    lemma_net_changes(ranges);
    assert forall|k: int| 0 <= k < coalesced(newest_first).len() implies exists|r: RangeView|
     #[trigger]
        spanned(newest_first, r) && net_change(r) == Some(
            #[trigger] coalesced(newest_first)[k],
        ) by {
        assert(net_of_some(ranges, coalesced(newest_first)[k]));
        let m = choose|m: int|
            0 <= m < ranges.len() && net_change(#[trigger] ranges[m]) == Some(
                coalesced(newest_first)[k],
            );
        assert(spanned(newest_first, ranges[m]));
    }
}

proof fn lemma_spanned_paths(s: Seq<SnapshotView>)
    ensures
        forall|m: int|
            0 <= m < ranges_of(s).len() ==> (#[trigger] ranges_of(s)[m]).oldest.path == ranges_of(
                s,
            )[m].newest.path,
{
    lemma_ranges(s);
    assert forall|m: int| 0 <= m < ranges_of(s).len() implies (#[trigger] ranges_of(
        s,
    )[m]).oldest.path == ranges_of(s)[m].newest.path by {
        assert(spanned(s, ranges_of(s)[m]));
    }
}

/// No path is left out but one that the range created and removed again.
pub proof fn law_no_path_is_lost(newest_first: Seq<SnapshotView>, i: int, j: int)
    requires
        first_of_path(newest_first, i),
        last_of_path(newest_first, j),
        newest_first[i].path == newest_first[j].path,
    ensures
        (exists|k: int|
            0 <= k < coalesced(newest_first).len() && (#[trigger] coalesced(newest_first)[k]).path
                == newest_first[i].path) <==> !(newest_first[j].change == FileChange::Added
            && newest_first[i].change == FileChange::Deleted),
{
    let s = newest_first;
    let ranges = ranges_of(s);
    lemma_ranges(s);
    lemma_spanned_paths(s);
    lemma_net_changes(ranges);
    lemma_range_at(ranges, s[i].path, 0);
    assert(range_at(ranges, s[i].path, 0) is Some);
    let m = range_at(ranges, s[i].path, 0)->Some_0;
    assert(spanned(s, ranges[m]));
    let (a, b) = choose|a: int, b: int| spans(s, ranges[m], a, b);
    assert(a == i) by {
        if a < i {
            assert(s[a].path != s[i].path);
        } else if i < a {
            assert(s[i].path != s[a].path);
        }
    }
    assert(b == j) by {
        if b < j {
            assert(s[j].path != s[b].path);
        } else if j < b {
            assert(s[b].path != s[j].path);
        }
    }
    let lost = s[j].change == FileChange::Added && s[i].change == FileChange::Deleted;
    if !lost {
        let entry = net_change(ranges[m])->Some_0;
        let k = choose|k: int| 0 <= k < coalesced(s).len() && coalesced(s)[k] == entry;
        assert(coalesced(s)[k].path == s[i].path);
    } else {
        assert forall|k: int| 0 <= k < coalesced(s).len() implies (#[trigger] coalesced(s)[k]).path
            != s[i].path by {
            assert(net_of_some(ranges, coalesced(s)[k]));
            let n = choose|n: int|
                0 <= n < ranges.len() && net_change(#[trigger] ranges[n]) == Some(coalesced(s)[k]);
            assert(n != m);
            if n < m {
                assert(ranges[n].newest.path != ranges[m].newest.path);
            } else {
                assert(ranges[m].newest.path != ranges[n].newest.path);
            }
        }
    }
}

/// The net change of a range tells of the file from the state before the
/// oldest snapshot to the state after the newest; there is none only where the
/// file was absent at both ends.
pub proof fn law_net_change_describes(
    r: RangeView,
    first: Option<Seq<char>>,
    second: Option<Seq<char>>,
    third: Option<Seq<char>>,
    last: Option<Seq<char>>,
)
    requires
        describes(r.oldest, first, second),
        describes(r.newest, third, last),
    ensures
        match net_change(r) {
            None => first is None && last is None,
            Some(entry) => describes(entry, first, last),
        },
{
}

/// The snapshots of one path in a range.
struct Range {
    newest: FileSnapshot,
    oldest: FileSnapshot,
}

impl View for Range {
    type V = RangeView;

    closed spec fn view(&self) -> RangeView {
        RangeView { newest: self.newest@, oldest: self.oldest@ }
    }
}

fn find_range(ranges: &Vec<Range>, path: &str) -> (r: Option<usize>)
    ensures
        match r {
            Some(i) => range_at(views(ranges@), path@, 0) == Some(i as int),
            None => range_at(views(ranges@), path@, 0) is None,
        },
{
    let ghost all = views(ranges@);
    let mut i: usize = 0;
    while i < ranges.len()
        invariant
            i <= ranges.len(),
            all == views(ranges@),
            range_at(all, path@, 0) == range_at(all, path@, i as int),
        decreases ranges.len() - i,
    {
        assert(all[i as int] == ranges@[i as int]@);
        if same(&ranges[i].newest.path, path) {
            return Some(i);
        }
        i += 1;
    }
    None
}

proof fn lemma_totals_grow(s: Seq<SnapshotView>, i: int, path: Seq<char>)
    requires
        0 <= i <= s.len(),
    ensures
        added_to(s.take(i), path) <= added_to(s, path),
        removed_from(s.take(i), path) <= removed_from(s, path),
    decreases s.len(),
{
    if i == s.len() {
        assert(s.take(i) =~= s);
    } else {
        assert(s.drop_last().take(i) =~= s.take(i));
        lemma_totals_grow(s.drop_last(), i, path);
    }
}

/// Collapses a rewind range into one entry per path, describing the whole range
/// rather than each patch in it.
///
/// A path the agent touched more than once has one snapshot per patch, and each
/// one's `after_*` describes only that patch. Checking them individually calls
/// every snapshot but the last "changed after the agent wrote it", which is both
/// useless and untrue: the agent's own later edit is what changed it. What
/// matters is the state at the start of the range and the state the agent last
/// left the file in.
///
/// `newest_first` must be ordered newest to oldest, as the store returns it.
pub fn coalesce_snapshots(newest_first: Vec<FileSnapshot>) -> (r: Vec<FileSnapshot>)
    requires
        forall|path: Seq<char>|
            #![trigger added_to(views(newest_first@), path)]
            #![trigger removed_from(views(newest_first@), path)]
            added_to(views(newest_first@), path) <= usize::MAX && removed_from(
                views(newest_first@),
                path,
            ) <= usize::MAX,
    ensures
        views(r@) == coalesced(views(newest_first@)),
{
    broadcast use lemma_views_push;

    let ghost all = views(newest_first@);
    let mut ranges: Vec<Range> = Vec::new();
    assert(views(ranges@) =~= Seq::empty());
    assert(all.take(0) =~= Seq::empty());
    let mut i: usize = 0;
    while i < newest_first.len()
        invariant
            i <= newest_first.len(),
            all == views(newest_first@),
            views(ranges@) == ranges_of(all.take(i as int)),
            forall|path: Seq<char>|
                #![trigger added_to(all, path)]
                #![trigger removed_from(all, path)]
                added_to(all, path) <= usize::MAX && removed_from(all, path) <= usize::MAX,
        decreases newest_first.len() - i,
    {
        let snapshot = &newest_first[i];
        assert(all.take(i + 1).drop_last() =~= all.take(i as int));
        assert(all.take(i + 1).last() == snapshot@);
        match find_range(&ranges, &snapshot.path) {
            Some(at) => {
                proof {
                    let prefix = all.take(i as int);
                    lemma_range_at(views(ranges@), snapshot.path@, 0);
                    lemma_ranges(prefix);
                    assert(spanned(prefix, ranges_of(prefix)[at as int]));
                    lemma_totals_grow(all, i + 1, snapshot.path@);
                    assert(views(ranges@)[at as int] == ranges@[at as int]@);
                }
                let added: usize = ranges[at].oldest.added + snapshot.added;
                let removed: usize = ranges[at].oldest.removed + snapshot.removed;
                let mut oldest = snapshot.clone();
                oldest.added = added;
                oldest.removed = removed;
                let newest = ranges[at].newest.clone();
                let ghost before = views(ranges@);
                let ghost entry = RangeView { newest: newest@, oldest: oldest@ };
                ranges.set(at, Range { newest, oldest });
                assert(views(ranges@) =~= before.update(at as int, entry));
            },
            None => {
                ranges.push(Range { newest: snapshot.clone(), oldest: snapshot.clone() });
            },
        }
        i += 1;
    }
    assert(all.take(all.len() as int) =~= all);
    let ghost groups = views(ranges@);
    let mut result: Vec<FileSnapshot> = Vec::new();
    assert(views(result@) =~= Seq::empty());
    assert(groups.take(0) =~= Seq::empty());
    i = 0;
    while i < ranges.len()
        invariant
            i <= ranges.len(),
            groups == views(ranges@),
            views(result@) == net_changes(groups.take(i as int)),
        decreases ranges.len() - i,
    {
        assert(groups.take(i + 1).drop_last() =~= groups.take(i as int));
        assert(groups.take(i + 1).last() == ranges@[i as int]@);
        let oldest = &ranges[i].oldest;
        let newest = &ranges[i].newest;
        let existed_before = oldest.change != FileChange::Added;
        let exists_after = newest.change != FileChange::Deleted;
        if existed_before || exists_after {
            let mut entry = oldest.clone();
            entry.change = if !existed_before {
                FileChange::Added
            } else if !exists_after {
                FileChange::Deleted
            } else {
                FileChange::Modified
            };
            entry.after_len = newest.after_len;
            entry.after_hash = newest.after_hash;
            result.push(entry);
        }
        i += 1;
    }
    assert(groups.take(groups.len() as int) =~= groups);
    result
}

/// The lines that were added to a file and removed from it add up over its
/// snapshots; those of other files do not count.
pub proof fn law_lines_add_up_by_path(s: Seq<SnapshotView>, x: SnapshotView, path: Seq<char>)
    ensures
        x.path == path ==> added_to(s.push(x), path) == added_to(s, path) + x.added && removed_from(
            s.push(x),
            path,
        ) == removed_from(s, path) + x.removed,
        x.path != path ==> added_to(s.push(x), path) == added_to(s, path) && removed_from(
            s.push(x),
            path,
        ) == removed_from(s, path),
        added_to(Seq::empty(), path) == 0,
        removed_from(Seq::empty(), path) == 0,
{
    assert(s.push(x).drop_last() =~= s);
}

/// The entry of a path runs from its oldest snapshot to its newest: it holds what
/// was there before the one, tells what was there after the other, and counts the
/// lines of all.
pub proof fn law_entries_run_from_the_oldest_to_the_newest(
    newest_first: Seq<SnapshotView>,
    i: int,
    j: int,
    k: int,
)
    requires
        first_of_path(newest_first, i),
        last_of_path(newest_first, j),
        newest_first[i].path == newest_first[j].path,
        0 <= k < coalesced(newest_first).len(),
        coalesced(newest_first)[k].path == newest_first[i].path,
    ensures
        ({
            let entry = coalesced(newest_first)[k];
            let newest = newest_first[i];
            let oldest = newest_first[j];
            &&& entry.before == oldest.before
            &&& entry.restorable == oldest.restorable
            &&& entry.after_len == newest.after_len
            &&& entry.after_hash == newest.after_hash
            &&& entry.added == added_to(newest_first, entry.path)
            &&& entry.removed == removed_from(newest_first, entry.path)
            &&& entry.change == if oldest.change == FileChange::Added {
                FileChange::Added
            } else if newest.change == FileChange::Deleted {
                FileChange::Deleted
            } else {
                FileChange::Modified
            }
        }),
{
    law_one_entry_per_path(newest_first);
    let entry = coalesced(newest_first)[k];
    let r = choose|r: RangeView| #[trigger]
        spanned(newest_first, r) && net_change(r) == Some(entry);
    let (a, b) = choose|a: int, b: int| spans(newest_first, r, a, b);
    assert(spans(newest_first, r, a, b));
    assert(newest_first[a].path == entry.path);
    if a < i {
        assert(newest_first[a].path != newest_first[i].path);
    } else if i < a {
        assert(newest_first[i].path != newest_first[a].path);
    }
    if b < j {
        assert(newest_first[j].path != newest_first[b].path);
    } else if j < b {
        assert(newest_first[b].path != newest_first[j].path);
    }
}

} // verus!
