//! Skills: what they are and where they are found.
use vstd::prelude::*;
use vstd::string::*;
use vstd::utf8::*;

use crate::table::{
    Table, entry_of, find_key, keys_of, law_put, law_with_entry, lemma_pairs_push, lemma_place,
    lookup, ordered, pairs, place, put, set_entry, with_entry,
};
use crate::text::{
    after_prefix, begins, chars_of, cut_first, join, joined, law_cut_at_the_first,
    law_lines_come_one_after_another, law_prefixes, law_trimming_takes_away_white_space,
    lemma_texts_push, lemma_views_push, lines, lines_of, maybe, occurs_at, outcome, precedes, same,
    split_once, starts_with, strip_prefix, text_between, texts, trim, trim_end, trimmed,
    trimmed_end, views, white_space,
};
use crate::tools::read::decode;
use crate::tools::path::{join_path, parts_of, path_in, split_path};

verus! {

/// How many bytes of a skill are read for its metadata.
pub const METADATA_LIMIT: usize = 8192;

/// What is known of a skill without reading all of it.
#[derive(Debug, PartialEq, Eq)]
pub struct SkillMetadata {
    pub name: String,
    pub description: String,
    pub path: String,
}

/// The model of a [`SkillMetadata`].
pub struct SkillView {
    pub name: Seq<char>,
    pub description: Seq<char>,
    pub path: Seq<char>,
}

impl View for SkillMetadata {
    type V = SkillView;

    open spec fn view(&self) -> SkillView {
        SkillView { name: self.name@, description: self.description@, path: self.path@ }
    }
}

impl Clone for SkillMetadata {
    fn clone(&self) -> (r: SkillMetadata)
        ensures
            r@ == self@,
    {
        SkillMetadata {
            name: self.name.clone(),
            description: self.description.clone(),
            path: self.path.clone(),
        }
    }
}

/// Directories scanned for Agent Skills, lowest precedence first.
///
/// The Agent Skills specification defines what a skill directory contains but
/// not where it lives. Only the shared `.agents/skills` convention is used, so a
/// skill installed by any compliant client is visible here and vice versa. The
/// user scope is scanned before the project scope, so a project skill takes
/// precedence over a user skill with the same name.
pub fn skill_roots(home: &str, project_root: &str) -> (r: Vec<String>)
    ensures
        texts(r@) == seq![
            path_in(home@, ".agents/skills"@),
            path_in(project_root@, ".agents/skills"@),
        ],
{
    let mut r: Vec<String> = Vec::new();
    r.push(join_path(home, ".agents/skills"));
    r.push(join_path(project_root, ".agents/skills"));
    assert(texts(r@) =~= seq![
        path_in(home@, ".agents/skills"@),
        path_in(project_root@, ".agents/skills"@),
    ]);
    r
}

// ---------------------------------------------------------------------------
// Front matter

/// The first line from `from` on that ends the front matter.
pub open spec fn matter_end(lines: Seq<Seq<char>>, from: int) -> Option<int>
    decreases lines.len() - from,
{
    if from >= lines.len() {
        None
    } else if trimmed_end(lines[from]) == "---"@ {
        Some(from)
    } else {
        matter_end(lines, from + 1)
    }
}

/// What follows the line that opens the front matter.
pub open spec fn after_opening(source: Seq<char>) -> Option<Seq<char>> {
    if let Some(rest) = after_prefix(source, "---\n"@) {
        Some(rest)
    } else {
        after_prefix(source, "---\r\n"@)
    }
}

/// The lines of the front matter, if there is one.
pub open spec fn front_matter(source: Seq<char>) -> Option<Seq<Seq<char>>> {
    match after_opening(source) {
        None => None,
        Some(rest) => match matter_end(lines_of(rest), 0) {
            None => None,
            Some(n) => Some(lines_of(rest).take(n)),
        },
    }
}

/// Whether a line is indented.
pub open spec fn indented(line: Seq<char>) -> bool {
    line.len() > 0 && (line[0] == ' ' || line[0] == '\t')
}

/// Whether a line holds only white space.
pub open spec fn blank(line: Seq<char>) -> bool {
    trimmed(line).len() == 0
}

/// Whether a value announces a block of lines.
pub open spec fn announces_block(value: Seq<char>) -> bool {
    value == "|"@ || value == "|-"@ || value == "|+"@ || value == ">"@ || value == ">-"@ || value
        == ">+"@
}

/// Where a block of lines ends: at the first line that is neither indented nor
/// blank.
pub open spec fn block_end(lines: Seq<Seq<char>>, from: int) -> int
    decreases lines.len() - from,
{
    if from >= lines.len() {
        lines.len() as int
    } else if indented(lines[from]) || blank(lines[from]) {
        block_end(lines, from + 1)
    } else {
        from
    }
}

/// A block of lines ends among the lines.
pub proof fn lemma_block_end(lines: Seq<Seq<char>>, from: int)
    requires
        from <= lines.len(),
    ensures
        from <= block_end(lines, from) <= lines.len(),
    decreases lines.len() - from,
{
    if from < lines.len() && (indented(lines[from]) || blank(lines[from])) {
        lemma_block_end(lines, from + 1);
    }
}

/// Lines without the white space around them.
pub open spec fn trimmed_lines(lines: Seq<Seq<char>>) -> Seq<Seq<char>> {
    Seq::new(lines.len(), |i: int| trimmed(lines[i]))
}

/// Lines without the blank ones at their end.
pub open spec fn unpadded(lines: Seq<Seq<char>>) -> Seq<Seq<char>>
    decreases lines.len(),
{
    if lines.len() > 0 && lines.last().len() == 0 {
        unpadded(lines.drop_last())
    } else {
        lines
    }
}

/// The value of a block of lines: folded into one line after `>`, kept apart
/// after `|`.
pub open spec fn block_value(lines: Seq<Seq<char>>, mark: Seq<char>) -> Seq<char> {
    let parts = unpadded(trimmed_lines(lines));
    if begins(mark, ">"@) {
        joined(parts, " "@)
    } else {
        joined(parts, "\n"@)
    }
}

/// Whether a value stands between two of the same quotes.
pub open spec fn quoted_by(value: Seq<char>, quote: char) -> bool {
    value.len() >= 2 && value[0] == quote && value.last() == quote
}

/// A value without its quotes.
pub open spec fn unquoted(value: Seq<char>) -> Seq<char> {
    if quoted_by(value, '"') || quoted_by(value, '\'') {
        value.subrange(1, value.len() - 1)
    } else {
        value
    }
}

/// The top-level fields of the lines from a place on. An indented line belongs
/// to the value above it and is never a field of its own.
pub open spec fn fields_from(
    lines: Seq<Seq<char>>,
    from: int,
    fields: Seq<(Seq<char>, Seq<char>)>,
) -> Seq<(Seq<char>, Seq<char>)>
    decreases lines.len() - from,
{
    if from >= lines.len() {
        fields
    } else if indented(lines[from]) || blank(lines[from]) {
        fields_from(lines, from + 1, fields)
    } else {
        match cut_first(lines[from], ":"@) {
            None => fields_from(lines, from + 1, fields),
            Some((key, rest)) => {
                let value = trimmed(rest);
                if announces_block(value) {
                    let end = block_end(lines, from + 1);
                    proof {
                        lemma_block_end(lines, from + 1);
                    }
                    fields_from(
                        lines,
                        end,
                        with_entry(
                            fields,
                            trimmed(key),
                            block_value(lines.subrange(from + 1, end), value),
                        ),
                    )
                } else {
                    fields_from(
                        lines,
                        from + 1,
                        with_entry(fields, trimmed(key), unquoted(value)),
                    )
                }
            },
        }
    }
}

/// The name of the directory that holds a file.
pub open spec fn directory_name(path: Seq<char>) -> Option<Seq<char>> {
    let parts = parts_of(path);
    if parts.len() < 2 || parts[parts.len() - 2] == ".."@ || parts[parts.len() - 2] == "."@ {
        None
    } else {
        Some(parts[parts.len() - 2])
    }
}

/// The trimmed value of a field; empty if there is none.
pub open spec fn field(fields: Seq<(Seq<char>, Seq<char>)>, key: Seq<char>) -> Seq<char> {
    match entry_of(fields, key) {
        Some(v) => trimmed(v),
        None => Seq::empty(),
    }
}

/// What is known of a skill from the beginning of its file.
pub open spec fn metadata_of(source: Seq<char>, path: Seq<char>) -> Result<SkillView, Seq<char>> {
    match directory_name(path) {
        None => Err("skill path has no UTF-8 directory name"@),
        Some(directory) => match front_matter(source) {
            None => Err("no YAML frontmatter delimited by --- was found"@),
            Some(lines) => {
                let fields = fields_from(lines, 0, Seq::empty());
                let description = field(fields, "description"@);
                let name = field(fields, "name"@);
                if description.len() == 0 {
                    Err("description is required and must not be empty"@)
                } else {
                    Ok(
                        SkillView {
                            name: if name.len() == 0 {
                                directory
                            } else {
                                name
                            },
                            description,
                            path,
                        },
                    )
                }
            },
        },
    }
}

fn frontmatter(source: &str) -> (r: Option<Vec<String>>)
    ensures
        match r {
            Some(lines) => front_matter(source@) == Some(texts(lines@)),
            None => front_matter(source@) is None,
        },
{
    let rest = match strip_prefix(source, "---\n") {
        Some(rest) => rest,
        None => match strip_prefix(source, "---\r\n") {
            Some(rest) => rest,
            None => return None,
        },
    };
    assert(after_opening(source@) == Some(rest@));
    let mut lines = lines(&rest);
    let ghost all = texts(lines@);
    let mut i: usize = 0;
    while i < lines.len()
        invariant
            i <= lines.len(),
            all == texts(lines@),
            all == lines_of(rest@),
            after_opening(source@) == Some(rest@),
            matter_end(all, 0) == matter_end(all, i as int),
        decreases lines.len() - i,
    {
        assert(all[i as int] == lines@[i as int]@);
        if same(&trim_end(&lines[i]), "---") {
            lines.truncate(i);
            assert(texts(lines@) =~= all.take(i as int));
            return Some(lines);
        }
        i += 1;
    }
    None
}

fn is_indented(line: &str) -> (r: bool)
    ensures
        r == indented(line@),
{
    let x = chars_of(line);
    x.len() > 0 && (x[0] == ' ' || x[0] == '\t')
}

fn is_blank(line: &str) -> (r: bool)
    ensures
        r == blank(line@),
{
    trim(line).as_str().is_empty()
}

fn unquote(value: &str) -> (r: String)
    ensures
        r@ == unquoted(value@),
{
    let x = chars_of(value);
    if x.len() >= 2 && ((x[0] == '"' && x[x.len() - 1] == '"') || (x[0] == '\'' && x[x.len() - 1]
        == '\'')) {
        text_between(&x, 1, x.len() - 1)
    } else {
        value.to_owned()
    }
}

fn is_block_mark(value: &str) -> (r: bool)
    ensures
        r == announces_block(value@),
{
    same(value, "|") || same(value, "|-") || same(value, "|+") || same(value, ">") || same(
        value,
        ">-",
    ) || same(value, ">+")
}

/// The block of lines from a place on, and where it ends.
fn take_block(lines: &Vec<String>, from: usize, mark: &str) -> (r: (String, usize))
    requires
        from <= lines.len(),
    ensures
        r.1 == block_end(texts(lines@), from as int),
        from <= r.1 <= lines.len(),
        r.0@ == block_value(texts(lines@).subrange(from as int, r.1 as int), mark@),
{
    broadcast use lemma_texts_push;

    let ghost all = texts(lines@);
    let mut parts: Vec<String> = Vec::new();
    let mut i: usize = from;
    assert(texts(parts@) =~= trimmed_lines(all.subrange(from as int, from as int)));
    while i < lines.len() && (is_indented(&lines[i]) || is_blank(&lines[i]))
        invariant
            from <= i <= lines.len(),
            all == texts(lines@),
            block_end(all, from as int) == block_end(all, i as int),
            texts(parts@) == trimmed_lines(all.subrange(from as int, i as int)),
        decreases lines.len() - i,
    {
        assert(all[i as int] == lines@[i as int]@);
        let ghost before = texts(parts@);
        let part = trim(&lines[i]);
        parts.push(part);
        assert(texts(parts@) =~= before.push(part@));
        assert(all.subrange(from as int, i + 1) =~= all.subrange(from as int, i as int).push(
            all[i as int],
        ));
        assert(texts(parts@) =~= trimmed_lines(all.subrange(from as int, i + 1)));
        i += 1;
    }
    assert(i < lines.len() ==> all[i as int] == lines@[i as int]@);
    let ghost whole = texts(parts@);
    while parts.len() > 0 && parts[parts.len() - 1].as_str().is_empty()
        invariant
            unpadded(whole) == unpadded(texts(parts@)),
        decreases parts.len(),
    {
        let ghost before = texts(parts@);
        assert(before.last() == parts@[parts@.len() - 1]@);
        parts.pop();
        assert(texts(parts@) =~= before.drop_last());
    }
    assert(parts@.len() > 0 ==> texts(parts@).last() == parts@[parts@.len() - 1]@);
    let value = if starts_with(mark, ">") {
        join(&parts, " ")
    } else {
        join(&parts, "\n")
    };
    (value, i)
}

fn top_level_fields(lines: &Vec<String>) -> (r: Vec<(String, String)>)
    ensures
        pairs(r@) == fields_from(texts(lines@), 0, Seq::empty()),
{
    let ghost all = texts(lines@);
    let mut fields: Vec<(String, String)> = Vec::new();
    assert(pairs(fields@) =~= Seq::empty());
    let mut i: usize = 0;
    while i < lines.len()
        invariant
            i <= lines.len(),
            all == texts(lines@),
            fields_from(all, 0, Seq::empty()) == fields_from(all, i as int, pairs(fields@)),
        decreases lines.len() - i,
    {
        let line = &lines[i];
        assert(all[i as int] == line@);
        if is_indented(line) || is_blank(line) {
            i += 1;
        } else {
            match split_once(line, ":") {
                None => {
                    i += 1;
                },
                Some((key, rest)) => {
                    let key = trim(&key);
                    let value = trim(&rest);
                    if is_block_mark(&value) {
                        let (text, end) = take_block(lines, i + 1, &value);
                        set_entry(&mut fields, &key, text);
                        i = end;
                    } else {
                        set_entry(&mut fields, &key, unquote(&value));
                        i += 1;
                    }
                },
            }
        }
    }
    fields
}

fn find_field(fields: &Vec<(String, String)>, key: &str) -> (r: String)
    ensures
        r@ == field(pairs(fields@), key@),
{
    match find_key(fields, key) {
        Some(i) => {
            assert(pairs(fields@)[i as int].1 == fields@[i as int].1@);
            trim(&fields[i].1)
        },
        None => String::new(),
    }
}

/// Reads the `name` and `description` of a skill from its YAML frontmatter.
///
/// Only top-level keys are read, so a nested `metadata` map cannot shadow them.
/// Values may be plain, quoted, or block scalars. An unquoted colon is kept as
/// part of the value instead of failing, because skills written for other
/// clients frequently contain them.
pub fn parse_skill_metadata(source: &str, path: &str) -> (r: Result<SkillMetadata, String>)
    ensures
        outcome(r) == metadata_of(source@, path@),
{
    let parts = split_path(path);
    assert(texts(parts@).len() == parts.len());
    if parts.len() < 2 {
        return Err("skill path has no UTF-8 directory name".to_owned());
    }
    let directory = parts[parts.len() - 2].clone();
    assert(texts(parts@)[parts@.len() - 2] == directory@);
    if same(&directory, "..") || same(&directory, ".") {
        return Err("skill path has no UTF-8 directory name".to_owned());
    }
    let lines = match frontmatter(source) {
        Some(lines) => lines,
        None => return Err("no YAML frontmatter delimited by --- was found".to_owned()),
    };
    let fields = top_level_fields(&lines);
    let description = find_field(&fields, "description");
    if description.as_str().is_empty() {
        return Err("description is required and must not be empty".to_owned());
    }
    let named = find_field(&fields, "name");
    let name = if named.as_str().is_empty() {
        directory
    } else {
        named
    };
    Ok(SkillMetadata { name, description, path: path.to_owned() })
}

/// Whether the name of a skill is not that of its directory.
pub fn name_differs(skill: &SkillMetadata) -> (r: bool)
    ensures
        r == (directory_name(skill.path@) matches Some(d) && d != skill.name@),
{
    let parts = split_path(&skill.path);
    assert(texts(parts@).len() == parts.len());
    if parts.len() < 2 {
        return false;
    }
    assert(texts(parts@)[parts@.len() - 2] == parts@[parts@.len() - 2]@);
    let directory = &parts[parts.len() - 2];
    !same(directory, "..") && !same(directory, ".") && !same(directory, &skill.name)
}

/// Whether the name of a skill is longer than names should be.
pub fn name_is_long(skill: &SkillMetadata) -> (r: bool)
    ensures
        r == (skill.name@.len() > 64),
{
    skill.name.as_str().unicode_len() > 64
}

// ---------------------------------------------------------------------------
// Discovery

/// The beginning of a skill's file, found in a directory below a root.
#[derive(Debug)]
pub struct SkillSource {
    /// The name of the directory.
    pub directory: String,
    /// The path of the file.
    pub path: String,
    pub bytes: Vec<u8>,
}

/// The model of a [`SkillSource`].
pub struct SourceView {
    pub directory: Seq<char>,
    pub path: Seq<char>,
    pub bytes: Seq<u8>,
}

impl View for SkillSource {
    type V = SourceView;

    open spec fn view(&self) -> SourceView {
        SourceView { directory: self.directory@, path: self.path@, bytes: self.bytes@ }
    }
}

/// What is said of a skill that is no text.
pub const NO_TEXT: &'static str = "stream did not contain valid UTF-8";

/// Whether a byte begins a character of some length in UTF-8.
pub open spec fn begins_character(b: u8, length: nat) -> bool {
    ||| length == 2 && 0xc2 <= b <= 0xdf
    ||| length == 3 && 0xe0 <= b <= 0xef
    ||| length == 4 && 0xf0 <= b <= 0xf4
}

/// How many bytes at the end of some are the beginning of a character that goes
/// on after them.
pub open spec fn cut_off(bytes: Seq<u8>) -> nat {
    let n = bytes.len() as int;
    if n >= 1 && (begins_character(bytes[n - 1], 2) || begins_character(bytes[n - 1], 3)
        || begins_character(bytes[n - 1], 4)) {
        1
    } else if n >= 2 && is_continuation_byte(bytes[n - 1]) && (begins_character(bytes[n - 2], 3)
        || begins_character(bytes[n - 2], 4)) {
        2
    } else if n >= 3 && is_continuation_byte(bytes[n - 1]) && is_continuation_byte(bytes[n - 2])
        && begins_character(bytes[n - 3], 4) {
        3
    } else {
        0
    }
}

/// What is read of a skill: all of it, or as many bytes as are read at most
/// without a character that they cut.
pub open spec fn first_bytes(bytes: Seq<u8>) -> Seq<u8> {
    if bytes.len() > METADATA_LIMIT {
        let head = bytes.take(METADATA_LIMIT as int);
        head.take(head.len() - cut_off(head))
    } else {
        bytes
    }
}

/// The text that is read of a skill; none where it is no valid UTF-8.
pub open spec fn source_text(s: SourceView) -> Option<Seq<char>> {
    if valid_utf8(first_bytes(s.bytes)) {
        Some(decode_utf8(first_bytes(s.bytes)))
    } else {
        None
    }
}

/// The sources of a root under the names of their directories.
pub open spec fn by_directory(sources: Seq<SourceView>) -> Seq<(Seq<char>, SourceView)>
    decreases sources.len(),
{
    if sources.len() == 0 {
        Seq::empty()
    } else {
        put(by_directory(sources.drop_last()), sources.last().directory, sources.last())
    }
}

/// Skills under their names, the files that hold none with the reason, and what
/// ended the search before its end.
pub struct IndexView {
    pub skills: Seq<(Seq<char>, SkillView)>,
    pub skipped: Seq<(Seq<char>, Seq<char>)>,
    pub fault: Option<Seq<char>>,
}

/// The skills with one more source. One that is no text ends the search.
pub open spec fn index_source(index: IndexView, s: SourceView) -> IndexView {
    if index.fault is Some {
        index
    } else {
        match source_text(s) {
            None => IndexView { fault: Some(NO_TEXT@), ..index },
            Some(text) => match metadata_of(text, s.path) {
                Ok(skill) => IndexView { skills: put(index.skills, skill.name, skill), ..index },
                Err(e) => IndexView { skipped: index.skipped.push((s.path, e)), ..index },
            },
        }
    }
}

/// The skills with the sources of a root, in the order of their directories.
pub open spec fn index_sources(
    index: IndexView,
    sources: Seq<(Seq<char>, SourceView)>,
) -> IndexView
    decreases sources.len(),
{
    if sources.len() == 0 {
        index
    } else {
        index_source(index_sources(index, sources.drop_last()), sources.last().1)
    }
}

/// The skills of roots, one root after another: a later one takes precedence.
pub open spec fn index_roots(roots: Seq<Seq<SourceView>>) -> IndexView
    decreases roots.len(),
{
    if roots.len() == 0 {
        IndexView { skills: Seq::empty(), skipped: Seq::empty(), fault: None }
    } else {
        index_sources(index_roots(roots.drop_last()), by_directory(roots.last()))
    }
}

/// The models of the sources of roots.
pub open spec fn root_views(roots: Seq<Vec<SkillSource>>) -> Seq<Seq<SourceView>> {
    Seq::new(roots.len(), |i: int| views(roots[i]@))
}

/// The skills that were found.
#[derive(Debug)]
pub struct SkillIndex {
    /// The skills in the order of their names, each name once.
    pub skills: Vec<SkillMetadata>,
    /// The files that hold no skill, with the reason.
    pub skipped: Vec<(String, String)>,
}

/// The values of entries.
pub open spec fn values_of<V>(s: Seq<(Seq<char>, V)>) -> Seq<V> {
    Seq::new(s.len(), |i: int| s[i].1)
}

/// Why the skills cannot be told, and what was found before.
#[derive(Debug)]
pub struct SkillFault {
    pub found: SkillIndex,
    pub message: String,
}

/// Whether what was found is what an index holds.
pub open spec fn lists(found: SkillIndex, index: IndexView) -> bool {
    views(found.skills@) == values_of(index.skills) && pairs(found.skipped@) == index.skipped
}

fn is_beginning(b: u8, length: u8) -> (r: bool)
    ensures
        r == begins_character(b, length as nat),
{
    (length == 2 && 0xc2 <= b && b <= 0xdf) || (length == 3 && 0xe0 <= b && b <= 0xef) || (length
        == 4 && 0xf0 <= b && b <= 0xf4)
}

fn is_continuation(b: u8) -> (r: bool)
    ensures
        r == is_continuation_byte(b),
{
    0x80 <= b && b <= 0xbf
}

fn count_cut_off(bytes: &[u8]) -> (r: usize)
    ensures
        r == cut_off(bytes@),
        r <= bytes@.len(),
{
    let n: usize = bytes.len();
    if n >= 1 && (is_beginning(bytes[n - 1], 2) || is_beginning(bytes[n - 1], 3) || is_beginning(
        bytes[n - 1],
        4,
    )) {
        1
    } else if n >= 2 && is_continuation(bytes[n - 1]) && (is_beginning(bytes[n - 2], 3)
        || is_beginning(bytes[n - 2], 4)) {
        2
    } else if n >= 3 && is_continuation(bytes[n - 1]) && is_continuation(bytes[n - 2])
        && is_beginning(bytes[n - 3], 4) {
        3
    } else {
        0
    }
}

fn read_source(s: &SkillSource) -> (r: Option<String>)
    ensures
        maybe(r) == source_text(s@),
{
    let all: &[u8] = &s.bytes;
    let mut end: usize = all.len();
    if end > METADATA_LIMIT {
        let head = vstd::slice::slice_subrange(all, 0, METADATA_LIMIT);
        assert(head@ =~= s.bytes@.take(METADATA_LIMIT as int));
        end = METADATA_LIMIT - count_cut_off(head);
        assert(all@.take(end as int) =~= first_bytes(s.bytes@));
    }
    let mut bytes: Vec<u8> = Vec::new();
    bytes.extend_from_slice(vstd::slice::slice_subrange(all, 0, end));
    assert(bytes@ =~= first_bytes(s.bytes@));
    let text = decode(bytes);
    proof {
        if text is Some {
            encode_utf8_decode_utf8(text->Some_0@);
        }
    }
    text
}

/// The skills of roots, lowest precedence first; each root is given by the
/// skill files in the directories below it. A file that is no text is a fault.
pub fn discover_skills(roots: &Vec<Vec<SkillSource>>) -> (r: Result<SkillIndex, SkillFault>)
    ensures
        ({
            let index = index_roots(root_views(roots@));
            match r {
                Ok(found) => index.fault is None && lists(found, index),
                Err(e) => index.fault == Some(e.message@) && lists(e.found, index),
            }
        }),
{
    broadcast use {lemma_pairs_push, lemma_views_push};

    let ghost all = root_views(roots@);
    let mut skills: Table<SkillMetadata> = Table::new();
    let mut skipped: Vec<(String, String)> = Vec::new();
    let mut fault: Option<String> = None;
    assert(pairs(skipped@) =~= Seq::empty());
    assert(all.take(0) =~= Seq::empty());
    let mut i: usize = 0;
    while i < roots.len()
        invariant
            i <= roots.len(),
            all == root_views(roots@),
            index_roots(all.take(i as int)) == (IndexView {
                skills: skills@,
                skipped: pairs(skipped@),
                fault: maybe(fault),
            }),
        decreases roots.len() - i,
    {
        assert(all.take(i + 1).drop_last() =~= all.take(i as int));
        assert(all.take(i + 1).last() == views(roots@[i as int]@));
        let ghost before = index_roots(all.take(i as int));
        let mut order: Table<Position> = Table::new();
        let ghost sources = views(roots@[i as int]@);
        assert(sources.take(0) =~= Seq::empty());
        let mut k: usize = 0;
        while k < roots[i as usize].len()
            invariant
                i < roots.len(),
                k <= roots@[i as int].len(),
                sources == views(roots@[i as int]@),
                resolved(order@, sources) == by_directory(sources.take(k as int)),
                forall|j: int| 0 <= j < order@.len() ==> (#[trigger] order@[j]).1 < k,
            decreases roots@[i as int].len() - k,
        {
            assert(sources.take(k + 1).drop_last() =~= sources.take(k as int));
            assert(sources.take(k + 1).last() == roots@[i as int]@[k as int]@);
            let ghost positions = order@;
            order.put(&roots[i][k].directory, Position { at: k });
            proof {
                lemma_resolved_put(positions, sources, sources[k as int].directory, k as nat);
            }
            k += 1;
        }
        assert(sources.take(sources.len() as int) =~= sources);
        let ghost ordered_sources = by_directory(sources);
        assert(ordered_sources.take(0) =~= Seq::empty());
        k = 0;
        while k < order.entries.len()
            invariant
                i < roots.len(),
                k <= order.entries.len(),
                sources == views(roots@[i as int]@),
                ordered_sources == by_directory(sources),
                resolved(order@, sources) == ordered_sources,
                forall|j: int| 0 <= j < order@.len() ==> (#[trigger] order@[j]).1 < sources.len(),
                index_sources(before, ordered_sources.take(k as int)) == (IndexView {
                    skills: skills@,
                    skipped: pairs(skipped@),
                    fault: maybe(fault),
                }),
            decreases order.entries.len() - k,
        {
            assert(ordered_sources.take(k + 1).drop_last() =~= ordered_sources.take(k as int));
            let at: usize = order.entries[k].1.at;
            assert(order@[k as int].1 == at);
            assert(ordered_sources.take(k + 1).last() == ordered_sources[k as int]);
            assert(ordered_sources[k as int].1 == sources[at as int]);
            assert(sources[at as int] == roots@[i as int]@[at as int]@);
            let source = &roots[i][at];
            if fault.is_none() {
                match read_source(source) {
                    None => {
                        fault = Some(NO_TEXT.to_owned());
                    },
                    Some(text) => match parse_skill_metadata(&text, &source.path) {
                        Ok(skill) => {
                            let name = skill.name.clone();
                            skills.put(&name, skill);
                        },
                        Err(e) => {
                            let ghost others = pairs(skipped@);
                            let path = source.path.clone();
                            let ghost entry = (path@, e@);
                            skipped.push((path, e));
                            assert(pairs(skipped@) =~= others.push(entry));
                        },
                    },
                }
            }
            k += 1;
        }
        assert(ordered_sources.take(ordered_sources.len() as int) =~= ordered_sources);
        i += 1;
    }
    assert(all.take(all.len() as int) =~= all);
    let ghost listed = values_of(skills@);
    let mut found: Vec<SkillMetadata> = Vec::new();
    assert(views(found@) =~= listed.take(0));
    i = 0;
    while i < skills.entries.len()
        invariant
            i <= skills.entries.len(),
            listed == values_of(skills@),
            views(found@) == listed.take(i as int),
        decreases skills.entries.len() - i,
    {
        found.push(skills.entries[i].1.clone());
        assert(listed.take(i + 1) =~= listed.take(i as int).push(listed[i as int]));
        i += 1;
    }
    assert(listed.take(listed.len() as int) =~= listed);
    let found = SkillIndex { skills: found, skipped };
    match fault {
        None => Ok(found),
        Some(message) => Err(SkillFault { found, message }),
    }
}

/// A place in a list.
struct Position {
    at: usize,
}

impl View for Position {
    type V = nat;

    closed spec fn view(&self) -> nat {
        self.at as nat
    }
}

/// Entries with what stands at their places.
spec fn resolved(positions: Seq<(Seq<char>, nat)>, sources: Seq<SourceView>) -> Seq<
    (Seq<char>, SourceView),
> {
    Seq::new(positions.len(), |i: int| (positions[i].0, sources[positions[i].1 as int]))
}

proof fn lemma_resolved_put(
    positions: Seq<(Seq<char>, nat)>,
    sources: Seq<SourceView>,
    key: Seq<char>,
    at: nat,
)
    ensures
        resolved(put(positions, key, at), sources) == put(
            resolved(positions, sources),
            key,
            sources[at as int],
        ),
        forall|j: int|
            0 <= j < put(positions, key, at).len() ==> (#[trigger] put(positions, key, at)[j]).1
                == at || exists|m: int|
                0 <= m < positions.len() && #[trigger] positions[m] == put(positions, key, at)[j],
{
    lemma_resolved_place(positions, sources, key, 0);
    lemma_place(positions, key, 0);
    let i = place(positions, key, 0);
    let new = put(positions, key, at);
    assert(resolved(new, sources) =~= put(resolved(positions, sources), key, sources[at as int]));
    assert forall|j: int| 0 <= j < new.len() implies (#[trigger] new[j]).1 == at || exists|m: int|
        0 <= m < positions.len() && #[trigger] positions[m] == new[j] by {
        if j != i {
            if i < positions.len() && positions[i].0 == key {
                assert(new[j] == positions[j]);
            } else if j < i {
                assert(new[j] == positions[j]);
            } else {
                assert(new[j] == positions[j - 1]);
            }
        }
    }
}

proof fn lemma_resolved_place(
    positions: Seq<(Seq<char>, nat)>,
    sources: Seq<SourceView>,
    key: Seq<char>,
    from: int,
)
    requires
        0 <= from,
    ensures
        place(resolved(positions, sources), key, from) == place(positions, key, from),
    decreases positions.len() - from,
{
    if from < positions.len() && precedes(positions[from].0, key) {
        lemma_resolved_place(positions, sources, key, from + 1);
    }
}

/// A skill that comes up later takes the place of one with its name, and leaves
/// the others as they are; the skills stay in the order of their names.
pub proof fn law_a_later_skill_wins(index: IndexView, s: SourceView, other: Seq<char>)
    requires
        ordered(index.skills),
    ensures
        ({
            let after = index_source(index, s);
            &&& ordered(after.skills)
            &&& index.fault is Some || source_text(s) is None ==> after.skills == index.skills
            &&& index.fault is None ==> (source_text(s) matches Some(text) ==> match metadata_of(
                text,
                s.path,
            ) {
                Ok(skill) => lookup(after.skills, skill.name) == Some(skill) && (other != skill.name
                    ==> lookup(after.skills, other) == lookup(index.skills, other)),
                Err(_) => after.skills == index.skills,
            })
        }),
{
    if let Some(text) = source_text(s) {
        if let Ok(skill) = metadata_of(text, s.path) {
            law_put(index.skills, skill.name, skill, other);
        }
    }
}

proof fn lemma_sources_ordered(index: IndexView, sources: Seq<(Seq<char>, SourceView)>)
    requires
        ordered(index.skills),
    ensures
        ordered(index_sources(index, sources).skills),
    decreases sources.len(),
{
    if sources.len() > 0 {
        lemma_sources_ordered(index, sources.drop_last());
        law_a_later_skill_wins(
            index_sources(index, sources.drop_last()),
            sources.last().1,
            Seq::empty(),
        );
    }
}

/// The skills that are found stand in the order of their names, each name once.
pub proof fn law_skills_are_ordered(roots: Seq<Seq<SourceView>>)
    ensures
        ordered(index_roots(roots).skills),
    decreases roots.len(),
{
    if roots.len() > 0 {
        law_skills_are_ordered(roots.drop_last());
        lemma_sources_ordered(index_roots(roots.drop_last()), by_directory(roots.last()));
    } else {
        assert(keys_of(index_roots(roots).skills) =~= Seq::empty());
    }
}

// ---------------------------------------------------------------------------
// Skills that are written and read

/// Whether a text can be written after a key as it is: it is one line without
/// white space around it, has no quotes around it, and announces no block.
pub open spec fn is_plain_value(value: Seq<char>) -> bool {
    &&& value.len() > 0
    &&& !value.contains('\n')
    &&& !white_space(value[0])
    &&& !white_space(value.last())
    &&& value[0] != '"' && value[0] != '\''
    &&& value[0] != '|' && value[0] != '>'
}

/// A line with a key and a plain value is read as a field.
proof fn lemma_field_line(
    lines: Seq<Seq<char>>,
    from: int,
    fields: Seq<(Seq<char>, Seq<char>)>,
    key: Seq<char>,
    value: Seq<char>,
)
    requires
        0 <= from < lines.len(),
        lines[from] == key + ": "@ + value,
        is_plain_value(value),
        key.len() > 0,
        forall|i: int| 0 <= i < key.len() ==> 'a' <= #[trigger] key[i] <= 'z',
    ensures
        fields_from(lines, from, fields) == fields_from(
            lines,
            from + 1,
            with_entry(fields, key, value),
        ),
{
    reveal_strlit(": ");
    reveal_strlit(":");
    let line = lines[from];
    let n = key.len() as int;
    assert(line[0] == key[0]);
    law_trimming_takes_away_white_space(Seq::empty(), key, Seq::empty());
    assert(Seq::<char>::empty() + key + Seq::empty() =~= key);
    assert(!blank(line)) by {
        law_trimming_takes_away_white_space(Seq::empty(), line, Seq::empty());
        assert(Seq::<char>::empty() + line + Seq::empty() =~= line);
        assert(line.last() == value.last());
    }
    law_cut_at_the_first(line, ":"@);
    assert(":"@ =~= seq![':']);
    assert(line.subrange(n, n + 1) =~= ":"@);
    assert(occurs_at(line, ":"@, n));
    let (a, b) = cut_first(line, ":"@)->Some_0;
    assert(line == a + ":"@ + b);
    assert(a.len() == n) by {
        if a.len() < n {
            assert(line[a.len() as int] == ':');
            assert(key[a.len() as int] == ':');
        } else if n < a.len() {
            assert(!occurs_at(line, ":"@, n));
        }
    }
    assert(a =~= key) by {
        assert(line.take(n) =~= key);
        assert((a + ":"@ + b).take(n) =~= a);
    }
    let rest = seq![' '] + value;
    assert(b =~= rest) by {
        assert(line.skip(n + 1) =~= rest);
        assert((a + ":"@ + b).skip(n + 1) =~= b);
    }
    law_trimming_takes_away_white_space(seq![' '], value, Seq::empty());
    assert(seq![' '] + value + Seq::empty() =~= rest);
    reveal_strlit("|");
    reveal_strlit("|-");
    reveal_strlit("|+");
    reveal_strlit(">");
    reveal_strlit(">-");
    reveal_strlit(">+");
    assert(!announces_block(value));
    assert(unquoted(value) == value);
}

/// A skill that is written with its name and its description is read back with
/// them, whatever its body is.
pub proof fn law_skills_are_read_back(
    name: Seq<char>,
    description: Seq<char>,
    body: Seq<char>,
    path: Seq<char>,
)
    requires
        is_plain_value(name),
        is_plain_value(description),
        directory_name(path) is Some,
    ensures
        metadata_of(
            "---\n"@ + ("name: "@ + name).push('\n') + ("description: "@ + description).push('\n')
                + "---\n"@ + body,
            path,
        ) == Ok::<SkillView, Seq<char>>(SkillView { name, description, path }),
{
    let l1 = "name"@ + ": "@ + name;
    let l2 = "description"@ + ": "@ + description;
    reveal_strlit("---\n");
    reveal_strlit("---");
    reveal_strlit("name: ");
    reveal_strlit("description: ");
    reveal_strlit("name");
    reveal_strlit("description");
    reveal_strlit(": ");
    assert("name: "@ =~= "name"@ + ": "@);
    assert("description: "@ =~= "description"@ + ": "@);
    let rest = l1.push('\n') + (l2.push('\n') + ("---"@.push('\n') + body));
    let source = "---\n"@ + ("name: "@ + name).push('\n') + ("description: "@ + description).push(
        '\n',
    ) + "---\n"@ + body;
    assert("---\n"@ =~= "---"@.push('\n'));
    assert(source =~= "---\n"@ + rest);
    law_prefixes(source, "---\n"@);
    assert(after_prefix("---\n"@ + rest, "---\n"@) == Some(rest));
    assert(!l1.contains('\n')) by {
        assert forall|i: int| 0 <= i < l1.len() implies l1[i] != '\n' by {
            if i >= 6 {
                assert(l1[i] == name[i - 6]);
            }
        }
    }
    assert(!l2.contains('\n')) by {
        assert forall|i: int| 0 <= i < l2.len() implies l2[i] != '\n' by {
            if i >= 13 {
                assert(l2[i] == description[i - 13]);
            }
        }
    }
    assert(!"---"@.contains('\n'));
    law_lines_come_one_after_another(l1, l2.push('\n') + ("---"@.push('\n') + body));
    law_lines_come_one_after_another(l2, "---"@.push('\n') + body);
    law_lines_come_one_after_another("---"@, body);
    assert(l1.last() == name.last());
    assert(l2.last() == description.last());
    let lines = lines_of(rest);
    assert(lines[0] == l1 && lines[1] == l2 && lines[2] == "---"@);
    law_trimming_takes_away_white_space(Seq::empty(), l1, Seq::empty());
    assert(trimmed_end(l1) == l1);
    assert(trimmed_end(l2) == l2);
    assert(trimmed_end("---"@) == "---"@);
    assert(l1[0] == 'n' && l2[0] == 'd' && "---"@[0] == '-');
    assert(matter_end(lines, 2) == Some(2int));
    assert(matter_end(lines, 1) == Some(2int));
    assert(matter_end(lines, 0) == Some(2int));
    let front = lines.take(2);
    let none = Seq::<(Seq<char>, Seq<char>)>::empty();
    let one = with_entry(none, "name"@, name);
    let both = with_entry(one, "description"@, description);
    lemma_field_line(front, 0, none, "name"@, name);
    lemma_field_line(front, 1, one, "description"@, description);
    assert(fields_from(front, 2, both) == both);
    assert("name"@.len() != "description"@.len());
    law_with_entry(none, "name"@, name, "description"@);
    law_with_entry(one, "description"@, description, "name"@);
    law_trimming_takes_away_white_space(Seq::empty(), name, Seq::empty());
    law_trimming_takes_away_white_space(Seq::empty(), description, Seq::empty());
    assert(Seq::<char>::empty() + name + Seq::empty() =~= name);
    assert(Seq::<char>::empty() + description + Seq::empty() =~= description);
}

/// A value between quotes is read without them.
pub proof fn law_quotes_are_taken_away(value: Seq<char>, quote: char)
    requires
        quote == '"' || quote == '\'',
    ensures
        unquoted(seq![quote] + value + seq![quote]) == value,
        value.len() > 0 && value[0] != '"' && value[0] != '\'' ==> unquoted(value) == value,
{
    let whole = seq![quote] + value + seq![quote];
    assert(whole.subrange(1, whole.len() - 1) =~= value);
}

/// A skill has no name of its own but that of its directory, and must have a
/// description; without a header it is none.
pub proof fn law_skills_have_a_description(source: Seq<char>, path: Seq<char>)
    ensures
        metadata_of(source, path) matches Ok(skill) ==> {
            &&& skill.path == path
            &&& skill.description.len() > 0
            &&& skill.name.len() > 0 || directory_name(path) == Some(skill.name)
            &&& begins(source, "---\n"@) || begins(source, "---\r\n"@)
        },
{
}

proof fn lemma_block_reaches(lines: Seq<Seq<char>>, from: int, end: int)
    requires
        0 <= from <= end <= lines.len(),
        forall|i: int| from <= i < end ==> indented(#[trigger] lines[i]),
        end < lines.len() ==> !indented(lines[end]) && !blank(lines[end]),
    ensures
        block_end(lines, from) == end,
    decreases end - from,
{
    if from < end {
        lemma_block_reaches(lines, from + 1, end);
    }
}

/// A field whose value is a block holds the lines of the block without the white
/// space around them, up to the next field: with spaces between them where the
/// block is folded, and on lines of their own where it is not.
pub proof fn law_blocks_are_read(
    lines: Seq<Seq<char>>,
    from: int,
    end: int,
    fields: Seq<(Seq<char>, Seq<char>)>,
    key: Seq<char>,
    folded: bool,
)
    requires
        0 <= from,
        from + 1 < end <= lines.len(),
        key.len() > 0,
        forall|i: int| 0 <= i < key.len() ==> 'a' <= #[trigger] key[i] <= 'z',
        lines[from] == key + ": "@ + (if folded {
            ">"@
        } else {
            "|"@
        }),
        forall|i: int| from < i < end ==> indented(#[trigger] lines[i]),
        trimmed(lines[end - 1]).len() > 0,
        end < lines.len() ==> !indented(lines[end]) && !blank(lines[end]),
    ensures
        ({
            let parts = Seq::new((end - from - 1) as nat, |i: int| trimmed(lines[from + 1 + i]));
            let value = if folded {
                joined(parts, " "@)
            } else {
                joined(parts, "\n"@)
            };
            fields_from(lines, from, fields) == fields_from(
                lines,
                end,
                with_entry(fields, key, value),
            )
        }),
{
    let mark = if folded {
        ">"@
    } else {
        "|"@
    };
    reveal_strlit(">");
    reveal_strlit("|");
    reveal_strlit(": ");
    reveal_strlit(":");
    let line = lines[from];
    let n = key.len() as int;
    assert(line[0] == key[0]);
    law_trimming_takes_away_white_space(Seq::empty(), key, Seq::empty());
    assert(Seq::<char>::empty() + key + Seq::empty() =~= key);
    assert(!blank(line)) by {
        law_trimming_takes_away_white_space(Seq::empty(), line, Seq::empty());
        assert(Seq::<char>::empty() + line + Seq::empty() =~= line);
        assert(line.last() == mark.last());
    }
    law_cut_at_the_first(line, ":"@);
    assert(":"@ =~= seq![':']);
    assert(line.subrange(n, n + 1) =~= ":"@);
    assert(occurs_at(line, ":"@, n));
    let (a, b) = cut_first(line, ":"@)->Some_0;
    assert(line == a + ":"@ + b);
    assert(a.len() == n) by {
        if a.len() < n {
            assert(line[a.len() as int] == ':');
            assert(key[a.len() as int] == ':');
        } else if n < a.len() {
            assert(!occurs_at(line, ":"@, n));
        }
    }
    assert(a =~= key) by {
        assert(line.take(n) =~= key);
        assert((a + ":"@ + b).take(n) =~= a);
    }
    let rest = seq![' '] + mark;
    assert(b =~= rest) by {
        assert(line.skip(n + 1) =~= rest);
        assert((a + ":"@ + b).skip(n + 1) =~= b);
    }
    law_trimming_takes_away_white_space(seq![' '], mark, Seq::empty());
    assert(seq![' '] + mark + Seq::empty() =~= rest);
    lemma_block_reaches(lines, from + 1, end);
    let block = lines.subrange(from + 1, end);
    let parts = Seq::new((end - from - 1) as nat, |i: int| trimmed(lines[from + 1 + i]));
    assert(trimmed_lines(block) =~= parts);
    assert(parts.last() == trimmed(lines[end - 1]));
    assert(unpadded(parts) == parts);
    assert(mark.subrange(0, 1) =~= mark);
    assert(mark[0] == if folded {
        '>'
    } else {
        '|'
    });
}

} // verus!
