//! What the transcript says of a tool call: its input, its output and what it
//! came to.
use vstd::prelude::*;
use vstd::string::*;
use vstd::utf8::*;

use crate::json::{Json, JsonView, laid_out, lay_out, parse_json, value_read};
use crate::seqs::{lemma_picks_last, lemma_picks_nothing, picks};
use crate::text::{
    after_prefix, before_suffix, begins, byte_len, bytes_of, chars_of, contains, control,
    cut_first, cut_last, decimal, decimal_text, digits_value, ends, ends_with, first_at, has,
    head_bytes, head_within, integer, is_control, join, joined, last_at, law_cut_at_the_first,
    law_decimal_is_read_back, law_heads_are_as_long_as_fits, law_prefixes,
    law_signed_decimal_is_read_back, law_tails_are_as_long_as_fits, law_trimmed_texts,
    law_trimming_takes_away_white_space, lemma_bytes_concat, lemma_decimal_digits, lemma_first_at,
    lemma_last_at, lines, lines_of, maybe, maybe_view, natural, occurs_at, parse_i32,
    parse_natural, rfind, rsplit_once, same, signed_decimal, signed_text, split_once, starts_with,
    strip_prefix, strip_suffix, tail_bytes, tail_within, text_between, texts, trim, trimmed,
    wide_decimal_text,
};
use crate::tools::bash::{decode_lossy, last_bytes, lossy_text};

verus! {

// ---------------------------------------------------------------------------
// Bounds

/// The lines of a text, as far as they are shown.
#[derive(Debug)]
pub struct LimitedText {
    pub lines: Vec<String>,
    pub truncated: bool,
}

/// The model of a [`LimitedText`].
pub struct LimitedView {
    pub lines: Seq<Seq<char>>,
    pub truncated: bool,
}

impl View for LimitedText {
    type V = LimitedView;

    open spec fn view(&self) -> LimitedView {
        LimitedView { lines: texts(self.lines@), truncated: self.truncated }
    }
}

/// The first or the last lines, at most a number of them.
pub open spec fn some_lines(lines: Seq<Seq<char>>, max: nat, tail: bool) -> Seq<Seq<char>> {
    if lines.len() <= max {
        lines
    } else if tail {
        lines.skip(lines.len() - max)
    } else {
        lines.take(max as int)
    }
}

/// The beginning or the end of a text, within a number of bytes and lines.
pub open spec fn limited(raw: Seq<char>, max_bytes: nat, max_lines: nat, tail: bool) -> LimitedView {
    let bounded = if tail {
        tail_within(raw, max_bytes)
    } else {
        head_within(raw, max_bytes)
    };
    LimitedView {
        lines: some_lines(lines_of(bounded), max_lines, tail),
        truncated: bytes_of(raw) > max_bytes || lines_of(bounded).len() > max_lines,
    }
}

fn keep_lines(lines: &Vec<String>, max: usize, tail: bool) -> (r: Vec<String>)
    ensures
        texts(r@) == some_lines(texts(lines@), max as nat, tail),
{
    let ghost all = texts(lines@);
    let n: usize = lines.len();
    let from: usize = if n > max && tail {
        n - max
    } else {
        0
    };
    let to: usize = if n > max && !tail {
        max
    } else {
        n
    };
    let mut r: Vec<String> = Vec::new();
    assert(texts(r@) =~= all.subrange(from as int, from as int));
    let mut i: usize = from;
    while i < to
        invariant
            from <= i <= to <= lines.len(),
            all == texts(lines@),
            texts(r@) == all.subrange(from as int, i as int),
        decreases to - i,
    {
        let ghost before = texts(r@);
        let line = lines[i].clone();
        r.push(line);
        assert(texts(r@) =~= before.push(line@));
        assert(all.subrange(from as int, i + 1) =~= before.push(all[i as int]));
        i += 1;
    }
    assert(texts(r@) =~= some_lines(all, max as nat, tail));
    r
}

/// The beginning or the end of a text, within a number of bytes and lines.
pub fn limited_text(raw: &str, max_bytes: usize, max_lines: usize, tail: bool) -> (r: LimitedText)
    ensures
        r@ == limited(raw@, max_bytes as nat, max_lines as nat, tail),
{
    let bounded = if tail {
        tail_bytes(raw, max_bytes)
    } else {
        head_bytes(raw, max_bytes)
    };
    let all = lines(&bounded);
    assert(texts(all@).len() == all@.len());
    let truncated = byte_len(raw) > max_bytes || all.len() > max_lines;
    LimitedText { lines: keep_lines(&all, max_lines, tail), truncated }
}

/// The beginning of an input that comes in parts.
#[derive(Debug)]
pub struct BoundedInput {
    pub text: String,
    pub max_bytes: usize,
    pub truncated: bool,
}

/// The model of a [`BoundedInput`].
pub struct InputView {
    pub text: Seq<char>,
    pub max_bytes: nat,
    pub truncated: bool,
}

impl View for BoundedInput {
    type V = InputView;

    open spec fn view(&self) -> InputView {
        InputView {
            text: self.text@,
            max_bytes: self.max_bytes as nat,
            truncated: self.truncated,
        }
    }
}

/// An input to which a part was added, as far as it still fits.
pub open spec fn with_input(input: InputView, delta: Seq<char>) -> InputView {
    let used = bytes_of(input.text);
    let room = if used < input.max_bytes {
        (input.max_bytes - used) as nat
    } else {
        0
    };
    let taken = head_within(delta, room);
    InputView {
        text: input.text + taken,
        truncated: input.truncated || taken.len() < delta.len(),
        ..input
    }
}

proof fn lemma_head_len(s: Seq<char>, max: nat)
    ensures
        head_within(s, max).len() <= s.len(),
        bytes_of(head_within(s, max)) <= max || max < 0,
    decreases s.len(),
{
    if bytes_of(s) > max {
        lemma_head_len(s.drop_last(), max);
    }
}

/// An input never outgrows its bound, however it comes in.
pub proof fn law_input_is_bounded(input: InputView, delta: Seq<char>)
    requires
        bytes_of(input.text) <= input.max_bytes,
    ensures
        bytes_of(with_input(input, delta).text) <= input.max_bytes,
{
    let room = (input.max_bytes - bytes_of(input.text)) as nat;
    lemma_head_len(delta, room);
    lemma_bytes_concat(input.text, head_within(delta, room));
}

impl BoundedInput {
    pub fn new(max_bytes: usize) -> (r: BoundedInput)
        ensures
            r@ == (InputView {
                text: Seq::empty(),
                max_bytes: max_bytes as nat,
                truncated: false,
            }),
    {
        BoundedInput { text: String::new(), max_bytes, truncated: false }
    }

    /// Adds a part, as far as it still fits.
    pub fn push(&mut self, delta: &str)
        ensures
            final(self)@ == with_input(old(self)@, delta@),
    {
        let used: usize = byte_len(&self.text);
        let room: usize = if used < self.max_bytes {
            self.max_bytes - used
        } else {
            0
        };
        let taken = head_bytes(delta, room);
        let cut = taken.as_str().unicode_len() < delta.unicode_len();
        self.text.append(&taken);
        self.truncated = self.truncated || cut;
    }
}

/// The end of an output that comes in parts.
#[derive(Debug)]
pub struct TailBuffer {
    pub bytes: Vec<u8>,
    pub max_bytes: usize,
    pub dropped: bool,
    pub total_lines: usize,
}

/// The model of a [`TailBuffer`].
pub struct TailView {
    pub bytes: Seq<u8>,
    pub max_bytes: nat,
    /// Whether bytes had to go.
    pub dropped: bool,
    /// The line feeds that came in.
    pub total_lines: nat,
}

impl View for TailBuffer {
    type V = TailView;

    open spec fn view(&self) -> TailView {
        TailView {
            bytes: self.bytes@,
            max_bytes: self.max_bytes as nat,
            dropped: self.dropped,
            total_lines: self.total_lines as nat,
        }
    }
}

/// How many line feeds bytes hold.
pub open spec fn line_feeds(bytes: Seq<u8>) -> nat
    decreases bytes.len(),
{
    if bytes.len() == 0 {
        0
    } else {
        line_feeds(bytes.drop_last()) + (if bytes.last() == 10 {
            1nat
        } else {
            0
        })
    }
}

/// An output to which a part was added: its end is kept. Lines are counted as
/// far as a machine word goes.
pub open spec fn with_output(tail: TailView, bytes: Seq<u8>) -> TailView {
    let all = tail.bytes + bytes;
    let count = tail.total_lines + line_feeds(bytes);
    TailView {
        bytes: last_bytes(all, tail.max_bytes),
        dropped: tail.dropped || all.len() > tail.max_bytes,
        total_lines: if count <= usize::MAX {
            count
        } else {
            usize::MAX as nat
        },
        ..tail
    }
}

/// The last lines of an output.
pub open spec fn tail_lines(tail: TailView, max_lines: nat) -> LimitedView {
    LimitedView {
        lines: some_lines(lines_of(lossy_text(tail.bytes)), max_lines, true),
        truncated: tail.dropped || tail.total_lines > max_lines,
    }
}

impl TailBuffer {
    pub fn new(max_bytes: usize) -> (r: TailBuffer)
        ensures
            r@ == (TailView {
                bytes: Seq::empty(),
                max_bytes: max_bytes as nat,
                dropped: false,
                total_lines: 0,
            }),
    {
        TailBuffer { bytes: Vec::new(), max_bytes, dropped: false, total_lines: 0 }
    }

    /// Adds a part.
    pub fn push(&mut self, bytes: &[u8])
        ensures
            final(self)@ == with_output(old(self)@, bytes@),
    {
        let before: usize = self.total_lines;
        let mut count: usize = before;
        let mut i: usize = 0;
        assert(bytes@.take(0) =~= Seq::empty());
        while i < bytes.len()
            invariant
                i <= bytes.len(),
                count == (if before + line_feeds(bytes@.take(i as int)) <= usize::MAX {
                    before + line_feeds(bytes@.take(i as int))
                } else {
                    usize::MAX as int
                }),
            decreases bytes.len() - i,
        {
            assert(bytes@.take(i + 1).drop_last() =~= bytes@.take(i as int));
            if bytes[i] == 10 && count < usize::MAX {
                count += 1;
            }
            i += 1;
        }
        assert(bytes@.take(bytes@.len() as int) =~= bytes@);
        self.total_lines = count;
        let ghost all = self.bytes@ + bytes@;
        self.bytes.extend_from_slice(bytes);
        assert(self.bytes@ =~= all);
        if self.bytes.len() > self.max_bytes {
            let remove: usize = self.bytes.len() - self.max_bytes;
            let kept = self.bytes.split_off(remove);
            assert(kept@ =~= last_bytes(all, self.max_bytes as nat));
            self.bytes = kept;
            self.dropped = true;
        }
    }

    /// The last lines of the output.
    pub fn limited(&self, max_lines: usize) -> (r: LimitedText)
        ensures
            r@ == tail_lines(self@, max_lines as nat),
    {
        let all = lines(&decode_lossy(&self.bytes));
        LimitedText {
            lines: keep_lines(&all, max_lines, true),
            truncated: self.dropped || self.total_lines > max_lines,
        }
    }

    /// Whether anything came in.
    pub fn is_written(&self) -> (r: bool)
        ensures
            r == (self@.dropped || self@.bytes.len() > 0),
    {
        self.dropped || self.bytes.len() > 0
    }
}

/// However an output is cut into parts, its end is what is kept.
pub proof fn law_output_end_is_kept(tail: TailView, a: Seq<u8>, b: Seq<u8>)
    ensures
        with_output(with_output(tail, a), b).bytes == with_output(tail, a + b).bytes,
        with_output(with_output(tail, a), b).dropped == with_output(tail, a + b).dropped,
{
    let all = tail.bytes + a;
    assert(all + b =~= tail.bytes + (a + b));
    assert(last_bytes(last_bytes(all, tail.max_bytes) + b, tail.max_bytes) =~= last_bytes(
        all + b,
        tail.max_bytes,
    ));
}

// ---------------------------------------------------------------------------
// What a call asks for

/// The text under a key of arguments.
pub open spec fn argument(args: Option<JsonView>, key: Seq<char>) -> Option<Seq<char>> {
    match args {
        Some(v) => v.text(key),
        None => None,
    }
}

/// The number under a key of arguments.
pub open spec fn argument_number(args: Option<JsonView>, key: Seq<char>) -> Option<u64> {
    match args {
        Some(v) => v.natural(key),
        None => None,
    }
}

fn argument_text(args: &Option<Json>, key: &str) -> (r: Option<String>)
    ensures
        maybe(r) == argument(maybe_view(*args), key@),
{
    match args {
        Some(v) => v.text(key),
        None => None,
    }
}

fn argument_natural(args: &Option<Json>, key: &str) -> (r: Option<u64>)
    ensures
        r == argument_number(maybe_view(*args), key@),
{
    match args {
        Some(v) => v.natural(key),
        None => None,
    }
}

/// What a call of `read` reads.
pub open spec fn read_text(args: Option<JsonView>) -> Seq<char> {
    let path = match argument(args, "path"@) {
        Some(path) => path,
        None => "?"@,
    };
    let offset = match argument_number(args, "offset"@) {
        Some(offset) => offset as nat,
        None => 0,
    };
    match argument_number(args, "limit"@) {
        Some(limit) => path + "  lines "@ + decimal(offset + 1) + "-"@ + decimal(
            offset + limit as nat,
        ),
        None => if offset == 0 {
            path
        } else {
            path + "  from line "@ + decimal(offset + 1)
        },
    }
}

/// What a call of `read` reads, given its arguments read as JSON.
pub fn describe_read(args: &Option<Json>) -> (r: String)
    ensures
        r@ == read_text(maybe_view(*args)),
{
    let path = match argument_text(args, "path") {
        Some(path) => path,
        None => "?".to_owned(),
    };
    let offset: u64 = match argument_natural(args, "offset") {
        Some(offset) => offset,
        None => 0,
    };
    let first: u128 = offset as u128 + 1;
    match argument_natural(args, "limit") {
        Some(limit) => {
            let last: u128 = offset as u128 + limit as u128;
            path.concat("  lines ").concat(&wide_decimal_text(first)).concat("-").concat(
                &wide_decimal_text(last),
            )
        },
        None => if offset == 0 {
            path
        } else {
            path.concat("  from line ").concat(&wide_decimal_text(first))
        },
    }
}

/// What a call of `read` reads, given its arguments.
pub fn read_detail(raw_arguments: &str) -> (r: String)
    ensures
        r@ == read_text(value_read(raw_arguments@)),
{
    describe_read(&parse_json(raw_arguments))
}

/// The timeout that a call of `bash` asks for.
pub open spec fn timeout_text(args: Option<JsonView>) -> Option<Seq<char>> {
    match argument_number(args, "timeout_seconds"@) {
        Some(seconds) => Some("timeout "@ + decimal(seconds as nat) + "s"@),
        None => None,
    }
}

/// The timeout that a call of `bash` asks for, given its arguments read as JSON.
pub fn describe_timeout(args: &Option<Json>) -> (r: Option<String>)
    ensures
        maybe(r) == timeout_text(maybe_view(*args)),
{
    match argument_natural(args, "timeout_seconds") {
        Some(seconds) => Some(
            "timeout ".to_owned().concat(&decimal_text(seconds)).concat("s"),
        ),
        None => None,
    }
}

/// The timeout that a call of `bash` asks for, when it raised its own limit. A
/// command that sits there for minutes should not look like a hang.
pub fn bash_timeout_label(raw_arguments: &str) -> (r: Option<String>)
    ensures
        maybe(r) == timeout_text(value_read(raw_arguments@)),
{
    describe_timeout(&parse_json(raw_arguments))
}

/// A line that names a value, if there is one.
pub open spec fn labelled(label: Seq<char>, value: Option<Seq<char>>) -> Seq<Seq<char>> {
    match value {
        Some(v) => seq![label + v],
        None => Seq::empty(),
    }
}

/// The notation of a number, if there is one.
pub open spec fn decimal_of(n: Option<u64>) -> Option<Seq<char>> {
    match n {
        Some(n) => Some(decimal(n as nat)),
        None => None,
    }
}

/// What a call asks for, as it is shown. `raw` are its arguments, `args` the
/// same read as JSON, `pretty` the same laid out.
pub open spec fn input_text(
    name: Seq<char>,
    raw: Seq<char>,
    args: Option<JsonView>,
    pretty: Seq<char>,
) -> Seq<char> {
    if args is None {
        raw
    } else if name == "read"@ {
        joined(
            labelled("path: "@, argument(args, "path"@)) + labelled(
                "offset: "@,
                decimal_of(argument_number(args, "offset"@)),
            ) + labelled("limit: "@, decimal_of(argument_number(args, "limit"@))),
            "\n"@,
        )
    } else if name == "bash"@ {
        match argument(args, "command"@) {
            Some(command) => command,
            None => raw,
        }
    } else if name == "apply_patch"@ {
        match argument(args, "patch"@) {
            Some(patch) => patch,
            None => raw,
        }
    } else {
        pretty
    }
}

fn push_labelled(lines: &mut Vec<String>, label: &str, value: Option<String>)
    ensures
        texts(final(lines)@) == texts(old(lines)@) + labelled(label@, maybe(value)),
{
    let ghost before = texts(lines@);
    if let Some(v) = value {
        let line = label.to_owned().concat(&v);
        lines.push(line);
        assert(texts(lines@) =~= before + seq![line@]);
    } else {
        assert(texts(lines@) =~= before + Seq::<Seq<char>>::empty());
    }
}

fn natural_text(n: Option<u64>) -> (r: Option<String>)
    ensures
        maybe(r) == decimal_of(n),
{
    match n {
        Some(n) => Some(decimal_text(n)),
        None => None,
    }
}

/// What a call asks for, as it is shown. `args` are its arguments read as JSON,
/// `pretty` the same laid out.
pub fn describe_input(name: &str, raw: &str, args: &Option<Json>, pretty: &str) -> (r: String)
    ensures
        r@ == input_text(name@, raw@, maybe_view(*args), pretty@),
{
    if args.is_none() {
        return raw.to_owned();
    }
    if same(name, "read") {
        let mut lines: Vec<String> = Vec::new();
        assert(texts(lines@) =~= Seq::empty());
        push_labelled(&mut lines, "path: ", argument_text(args, "path"));
        push_labelled(&mut lines, "offset: ", natural_text(argument_natural(args, "offset")));
        push_labelled(&mut lines, "limit: ", natural_text(argument_natural(args, "limit")));
        assert(texts(lines@) =~= labelled("path: "@, argument(maybe_view(*args), "path"@))
            + labelled(
            "offset: "@,
            decimal_of(argument_number(maybe_view(*args), "offset"@)),
        ) + labelled("limit: "@, decimal_of(argument_number(maybe_view(*args), "limit"@))));
        join(&lines, "\n")
    } else if same(name, "bash") {
        match argument_text(args, "command") {
            Some(command) => command,
            None => raw.to_owned(),
        }
    } else if same(name, "apply_patch") {
        match argument_text(args, "patch") {
            Some(patch) => patch,
            None => raw.to_owned(),
        }
    } else {
        pretty.to_owned()
    }
}

/// What a call asks for, as it is shown.
pub fn format_tool_input(name: &str, raw: &str) -> (r: String)
    ensures
        r@ == input_text(name@, raw@, value_read(raw@), laid_out(raw@)),
{
    describe_input(name, raw, &parse_json(raw), &lay_out(raw))
}

/// The file operation that a line of a patch names: its letter and its path.
pub open spec fn operation_line(line: Seq<char>) -> Option<Seq<char>> {
    if let Some(path) = after_prefix(line, "*** Update File: "@) {
        Some("M "@ + path)
    } else if let Some(path) = after_prefix(line, "*** Add File: "@) {
        Some("A "@ + path)
    } else if let Some(path) = after_prefix(line, "*** Delete File: "@) {
        Some("D "@ + path)
    } else {
        None
    }
}

/// The file operations that the lines of a patch name.
pub open spec fn operation_lines(lines: Seq<Seq<char>>) -> Seq<Seq<char>>
    decreases lines.len(),
{
    if lines.len() == 0 {
        Seq::empty()
    } else {
        let before = operation_lines(lines.drop_last());
        match operation_line(lines.last()) {
            Some(line) => before.push(line),
            None => before,
        }
    }
}

/// The patch in arguments; empty if there is none.
pub open spec fn patch_in(args: Option<JsonView>) -> Seq<char> {
    match argument(args, "patch"@) {
        Some(patch) => patch,
        None => Seq::empty(),
    }
}

/// The patch in the arguments of a call; empty if there is none.
pub fn patch_in_arguments(raw_arguments: &str) -> (r: String)
    ensures
        r@ == patch_in(value_read(raw_arguments@)),
{
    match argument_text(&parse_json(raw_arguments), "patch") {
        Some(patch) => patch,
        None => String::new(),
    }
}

/// The file operations of a patch.
pub fn patch_operations(patch: &str) -> (r: Vec<String>)
    ensures
        texts(r@) == operation_lines(lines_of(patch@)),
{
    let lines = lines(patch);
    let ghost all = texts(lines@);
    let mut r: Vec<String> = Vec::new();
    assert(texts(r@) =~= Seq::empty());
    assert(all.take(0) =~= Seq::empty());
    let mut i: usize = 0;
    while i < lines.len()
        invariant
            i <= lines.len(),
            all == texts(lines@),
            texts(r@) == operation_lines(all.take(i as int)),
        decreases lines.len() - i,
    {
        assert(all.take(i + 1).drop_last() =~= all.take(i as int));
        assert(all.take(i + 1).last() == lines@[i as int]@);
        let ghost before = texts(r@);
        let operation = match strip_prefix(&lines[i], "*** Update File: ") {
            Some(path) => Some("M ".to_owned().concat(&path)),
            None => match strip_prefix(&lines[i], "*** Add File: ") {
                Some(path) => Some("A ".to_owned().concat(&path)),
                None => match strip_prefix(&lines[i], "*** Delete File: ") {
                    Some(path) => Some("D ".to_owned().concat(&path)),
                    None => None,
                },
            },
        };
        assert(maybe(operation) == operation_line(lines@[i as int]@));
        if let Some(line) = operation {
            r.push(line);
            assert(texts(r@) =~= before.push(line@));
        }
        i += 1;
    }
    assert(all.take(all.len() as int) =~= all);
    r
}

// ---------------------------------------------------------------------------
// What a call came to

/// The exit code that a line states.
pub open spec fn stated_code(line: Seq<char>) -> Option<int> {
    match after_prefix(trimmed(line), "[exit code: "@) {
        Some(rest) => match before_suffix(rest, "]"@) {
            Some(number) => match integer(number) {
                Some(n) => if i32::MIN <= n <= i32::MAX {
                    Some(n)
                } else {
                    None
                },
                None => None,
            },
            None => None,
        },
        None => None,
    }
}

/// The exit code that the last line to state one states.
pub open spec fn last_code(lines: Seq<Seq<char>>) -> Option<int>
    decreases lines.len(),
{
    if lines.len() == 0 {
        None
    } else if stated_code(lines.last()) is Some {
        stated_code(lines.last())
    } else {
        last_code(lines.drop_last())
    }
}

/// The model of an exit code.
pub open spec fn code_view(code: Option<i32>) -> Option<int> {
    match code {
        Some(n) => Some(n as int),
        None => None,
    }
}

fn line_code(line: &str) -> (r: Option<i32>)
    ensures
        code_view(r) == stated_code(line@),
{
    match strip_prefix(&trim(line), "[exit code: ") {
        Some(rest) => match strip_suffix(&rest, "]") {
            Some(number) => parse_i32(&number),
            None => None,
        },
        None => None,
    }
}

/// The exit code that an output states.
pub fn parse_exit_code(output: &str) -> (r: Option<i32>)
    ensures
        code_view(r) == last_code(lines_of(output@)),
{
    let lines = lines(output);
    let ghost all = texts(lines@);
    let mut i: usize = lines.len();
    assert(all.take(all.len() as int) =~= all);
    while i > 0
        invariant
            i <= lines.len(),
            all == texts(lines@),
            all == lines_of(output@),
            last_code(all) == last_code(all.take(i as int)),
        decreases i,
    {
        assert(all.take(i as int).drop_last() =~= all.take(i - 1));
        assert(all.take(i as int).last() == lines@[i - 1]@);
        let code = line_code(&lines[i - 1]);
        if code.is_some() {
            return code;
        }
        i -= 1;
    }
    None
}

/// Whether a line of the output of `read` is a numbered line.
pub open spec fn is_numbered(line: Seq<char>) -> bool {
    match cut_first(line, ": "@) {
        Some((number, _)) => match natural(number) {
            Some(n) => n <= usize::MAX,
            None => false,
        },
        None => false,
    }
}

/// How many lines are numbered lines.
pub open spec fn numbered_lines(lines: Seq<Seq<char>>) -> nat
    decreases lines.len(),
{
    if lines.len() == 0 {
        0
    } else {
        numbered_lines(lines.drop_last()) + (if is_numbered(lines.last()) {
            1nat
        } else {
            0
        })
    }
}

/// The counts of added and removed lines that a line of the output of
/// `apply_patch` states.
pub open spec fn stated_counts(line: Seq<char>) -> Option<(nat, nat)> {
    match cut_last(line, " (+"@) {
        Some((_, counts)) => match before_suffix(counts, ")"@) {
            Some(counts) => match cut_first(counts, " -"@) {
                Some((added, removed)) => match (natural(added), natural(removed)) {
                    (Some(a), Some(b)) => if a <= usize::MAX && b <= usize::MAX {
                        Some((a, b))
                    } else {
                        None
                    },
                    _ => None,
                },
                None => None,
            },
            None => None,
        },
        None => None,
    }
}

/// How many lines state counts, and the sums of the counts.
pub open spec fn counts_in(lines: Seq<Seq<char>>) -> (nat, nat, nat)
    decreases lines.len(),
{
    if lines.len() == 0 {
        (0, 0, 0)
    } else {
        let (files, added, removed) = counts_in(lines.drop_last());
        match stated_counts(lines.last()) {
            Some((a, b)) => (files + 1, added + a, removed + b),
            None => (files, added, removed),
        }
    }
}

/// What a patch came to.
pub open spec fn patch_summary(output: Seq<char>) -> Seq<char> {
    let (files, added, removed) = counts_in(lines_of(output));
    if files == 0 {
        decimal(lines_of(output).len()) + " files"@
    } else {
        decimal(files) + " files  +"@ + decimal(added) + " -"@ + decimal(removed)
    }
}

/// What a call came to, in a few words.
pub open spec fn summary_of(
    name: Seq<char>,
    output: Seq<char>,
    is_error: bool,
    exit_code: Option<int>,
) -> Seq<char> {
    if name == "bash"@ && has(output, "[bash cancelled]"@) {
        "cancelled"@
    } else if name == "bash"@ && has(output, "[bash timed out after "@) {
        "timed out"@
    } else if let Some(code) = exit_code {
        "exit "@ + signed_decimal(code)
    } else if is_error {
        "failed"@
    } else if name == "read"@ {
        let count = numbered_lines(lines_of(output));
        decimal(count) + (if count == 1 {
            " line"@
        } else {
            " lines"@
        })
    } else if name == "apply_patch"@ {
        patch_summary(output)
    } else {
        "done"@
    }
}

fn count_numbered(lines: &Vec<String>) -> (r: usize)
    ensures
        r == numbered_lines(texts(lines@)),
        r <= lines.len(),
{
    let ghost all = texts(lines@);
    let mut count: usize = 0;
    assert(all.take(0) =~= Seq::empty());
    let mut i: usize = 0;
    while i < lines.len()
        invariant
            i <= lines.len(),
            count <= i,
            all == texts(lines@),
            count == numbered_lines(all.take(i as int)),
        decreases lines.len() - i,
    {
        assert(all.take(i + 1).drop_last() =~= all.take(i as int));
        assert(all.take(i + 1).last() == lines@[i as int]@);
        let numbered = match split_once(&lines[i], ": ") {
            Some((number, _)) => parse_natural(&number, usize::MAX as u64).is_some(),
            None => false,
        };
        if numbered {
            count += 1;
        }
        i += 1;
    }
    assert(all.take(all.len() as int) =~= all);
    count
}

fn line_counts(line: &str) -> (r: Option<(u64, u64)>)
    ensures
        stated_counts(line@) == match r {
            Some((a, b)) => Some((a as nat, b as nat)),
            None => None::<(nat, nat)>,
        },
{
    match rsplit_once(line, " (+") {
        Some((_, counts)) => match strip_suffix(&counts, ")") {
            Some(counts) => match split_once(&counts, " -") {
                Some((added, removed)) => {
                    let a = parse_natural(&added, usize::MAX as u64);
                    let b = parse_natural(&removed, usize::MAX as u64);
                    match (a, b) {
                        (Some(a), Some(b)) => Some((a, b)),
                        _ => None,
                    }
                },
                None => None,
            },
            None => None,
        },
        None => None,
    }
}

/// What a patch came to: how many files, and the lines added and removed.
pub fn patch_result_summary(output: &str) -> (r: String)
    ensures
        r@ == patch_summary(output@),
{
    let lines = lines(output);
    let ghost all = texts(lines@);
    assert(all.len() == lines@.len());
    let mut files: u64 = 0;
    let mut added: u128 = 0;
    let mut removed: u128 = 0;
    assert(all.take(0) =~= Seq::empty());
    let mut i: usize = 0;
    while i < lines.len()
        invariant
            i <= lines.len(),
            files <= i,
            added <= i * 0xffff_ffff_ffff_ffff,
            removed <= i * 0xffff_ffff_ffff_ffff,
            all == texts(lines@),
            counts_in(all.take(i as int)) == (files as nat, added as nat, removed as nat),
        decreases lines.len() - i,
    {
        assert(all.take(i + 1).drop_last() =~= all.take(i as int));
        assert(all.take(i + 1).last() == lines@[i as int]@);
        if let Some((a, b)) = line_counts(&lines[i]) {
            files += 1;
            added += a as u128;
            removed += b as u128;
        }
        i += 1;
    }
    assert(all.take(all.len() as int) =~= all);
    if files == 0 {
        decimal_text(lines.len() as u64).concat(" files")
    } else {
        decimal_text(files).concat(" files  +").concat(&wide_decimal_text(added)).concat(
            " -",
        ).concat(&wide_decimal_text(removed))
    }
}

/// What a call came to, in a few words.
pub fn tool_summary(name: &str, output: &str, is_error: bool, exit_code: Option<i32>) -> (r: String)
    ensures
        r@ == summary_of(name@, output@, is_error, code_view(exit_code)),
{
    if same(name, "bash") && contains(output, "[bash cancelled]") {
        return "cancelled".to_owned();
    }
    if same(name, "bash") && contains(output, "[bash timed out after ") {
        return "timed out".to_owned();
    }
    if let Some(code) = exit_code {
        return "exit ".to_owned().concat(&signed_text(code as i64));
    }
    if is_error {
        return "failed".to_owned();
    }
    if same(name, "read") {
        let count: usize = count_numbered(&lines(output));
        decimal_text(count as u64).concat(
            if count == 1 {
                " line"
            } else {
                " lines"
            },
        )
    } else if same(name, "apply_patch") {
        patch_result_summary(output)
    } else {
        "done".to_owned()
    }
}

/// Whether a call failed: it says so, or its command was cut short or ended
/// with a code other than zero.
pub open spec fn has_failed(
    name: Seq<char>,
    output: Seq<char>,
    is_error: bool,
    exit_code: Option<int>,
) -> bool {
    ||| is_error
    ||| name == "bash"@ && (has(output, "[bash cancelled]"@) || has(
        output,
        "[bash timed out after "@,
    ))
    ||| exit_code matches Some(code) && code != 0
}

/// Whether a call failed.
pub fn is_failed(name: &str, output: &str, is_error: bool, exit_code: Option<i32>) -> (r: bool)
    ensures
        r == has_failed(name@, output@, is_error, code_view(exit_code)),
{
    let interrupted = same(name, "bash") && (contains(output, "[bash cancelled]") || contains(
        output,
        "[bash timed out after ",
    ));
    let nonzero = match exit_code {
        Some(code) => code != 0,
        None => false,
    };
    is_error || interrupted || nonzero
}

/// Lines without the last, if it states an exit code.
pub open spec fn without_code(lines: Seq<Seq<char>>) -> Seq<Seq<char>> {
    if lines.len() > 0 && begins(lines.last(), "[exit code: "@) && ends(lines.last(), "]"@) {
        lines.drop_last()
    } else {
        lines
    }
}

/// Whether a line states that a command was cut short.
pub open spec fn is_ending_note(line: Seq<char>) -> bool {
    line == "[bash cancelled]"@ || begins(line, "[bash timed out after "@) && ends(line, "]"@)
}

/// Lines without the last, if it states that a command was cut short.
pub open spec fn without_note(lines: Seq<Seq<char>>) -> Seq<Seq<char>> {
    if lines.len() > 0 && is_ending_note(lines.last()) {
        lines.drop_last()
    } else {
        lines
    }
}

/// Lines without empty ones at the end.
pub open spec fn without_blanks(lines: Seq<Seq<char>>) -> Seq<Seq<char>>
    decreases lines.len(),
{
    if lines.len() > 0 && lines.last().len() == 0 {
        without_blanks(lines.drop_last())
    } else {
        lines
    }
}

/// The output of a command without the notes that the tool put behind it.
pub fn bash_visible_output(raw: &str) -> (r: String)
    ensures
        r@ == joined(without_blanks(without_note(without_code(lines_of(raw@)))), "\n"@),
{
    let mut all = lines(raw);
    let ghost given = texts(all@);
    if all.len() > 0 {
        let n: usize = all.len();
        assert(given.last() == all@[n - 1]@);
        if starts_with(&all[n - 1], "[exit code: ") && ends_with(&all[n - 1], "]") {
            all.pop();
            assert(texts(all@) =~= given.drop_last());
        }
    }
    let ghost coded = texts(all@);
    assert(coded == without_code(given));
    if all.len() > 0 {
        let n: usize = all.len();
        assert(coded.last() == all@[n - 1]@);
        if same(&all[n - 1], "[bash cancelled]") || starts_with(
            &all[n - 1],
            "[bash timed out after ",
        ) && ends_with(&all[n - 1], "]") {
            all.pop();
            assert(texts(all@) =~= coded.drop_last());
        }
    }
    let ghost noted = texts(all@);
    assert(noted == without_note(coded));
    while all.len() > 0 && all[all.len() - 1].as_str().is_empty()
        invariant
            without_blanks(noted) == without_blanks(texts(all@)),
        decreases all.len(),
    {
        let ghost before = texts(all@);
        assert(before.last() == all@[all.len() - 1]@);
        all.pop();
        assert(texts(all@) =~= before.drop_last());
    }
    proof {
        let left = texts(all@);
        if left.len() > 0 {
            assert(left.last() == all@[all.len() - 1]@);
        }
    }
    join(&all, "\n")
}

// ---------------------------------------------------------------------------
// Lines on a terminal

/// What `strip_ansi_escapes` leaves of bytes.
pub uninterp spec fn escapes_stripped(bytes: Seq<u8>) -> Seq<u8>;

/// Calls `strip_ansi_escapes::strip`. The contract claims only that what it
/// leaves is decided by the bytes.
#[verifier::external_body]
fn strip_escapes(bytes: &[u8]) -> (r: Vec<u8>)
    ensures
        r@ == escapes_stripped(bytes@),
{
    strip_ansi_escapes::strip(bytes)
}

/// A text with a blank for each control character.
pub open spec fn blanked(s: Seq<char>) -> Seq<char> {
    Seq::new(
        s.len(),
        |i: int|
            if control(s[i]) {
                ' '
            } else {
                s[i]
            },
    )
}

/// A line without escape sequences and control characters.
pub open spec fn cleaned(s: Seq<char>) -> Seq<char> {
    blanked(lossy_text(escapes_stripped(encode_utf8(s))))
}

/// A line that was cleaned holds no control character, whatever the tool wrote.
pub proof fn law_clean_lines_hold_no_controls(s: Seq<char>, i: int)
    requires
        0 <= i < cleaned(s).len(),
    ensures
        !control(cleaned(s)[i]),
{
}

/// A text with a blank for each control character.
pub fn blank_controls(s: &str) -> (r: String)
    ensures
        r@ == blanked(s@),
{
    let x = chars_of(s);
    let mut r = String::new();
    assert(r@ =~= blanked(s@).take(0));
    let mut i: usize = 0;
    while i < x.len()
        invariant
            i <= x.len(),
            x@ == s@,
            r@ == blanked(s@).take(i as int),
        decreases x.len() - i,
    {
        assert(blanked(s@).take(i + 1) =~= blanked(s@).take(i as int).push(blanked(s@)[i as int]));
        if is_control(x[i]) {
            r.push(' ');
        } else {
            r.push(x[i]);
        }
        i += 1;
    }
    assert(blanked(s@).take(s@.len() as int) =~= blanked(s@));
    r
}

/// A line without escape sequences and control characters.
pub fn clean_terminal_line(value: &str) -> (r: String)
    ensures
        r@ == cleaned(value@),
{
    blank_controls(&decode_lossy(&strip_escapes(value.as_bytes())))
}

/// The beginning of a text up to its last line feed, and the rest.
pub open spec fn complete_lines(s: Seq<char>) -> (Seq<char>, Seq<char>) {
    match last_at(s, "\n"@, s.len() as int) {
        Some(i) => (s.take(i + 1), s.skip(i + 1)),
        None => (Seq::empty(), s),
    }
}

/// Takes the complete lines out of a text.
pub fn take_complete_lines(pending: &mut String) -> (r: String)
    ensures
        (r@, final(pending)@) == complete_lines(old(pending)@),
{
    let ghost s = pending@;
    match rfind(pending, "\n") {
        Some(i) => {
            proof {
                reveal_strlit("\n");
                lemma_last_at(s, "\n"@, s.len() as int);
            }
            let x = chars_of(pending);
            let n: usize = x.len();
            assert(i < n);
            let r = text_between(&x, 0, i + 1);
            *pending = text_between(&x, i + 1, n);
            assert(pending@ =~= s.skip(i + 1));
            r
        },
        None => String::new(),
    }
}

/// What follows the lines of a list of targets.
pub open spec fn after_targets(s: Seq<char>) -> Seq<char>
    decreases s.len(),
{
    match first_at(s, "\n"@, 0) {
        Some(i) => {
            let line = s.take(i);
            let rest = s.skip(i + 1);
            if begins(line, "- "@) {
                proof {
                    lemma_line_feed_at(s);
                }
                after_targets(rest)
            } else if line.len() == 0 {
                rest
            } else {
                s
            }
        },
        None => s,
    }
}

/// A line feed that is found lies in the text.
pub proof fn lemma_line_feed_at(s: Seq<char>)
    ensures
        first_at(s, "\n"@, 0) matches Some(i) ==> 0 <= i < s.len(),
{
    reveal_strlit("\n");
    lemma_first_at(s, "\n"@, 0);
}

/// A user message without the list of targets in front of it.
pub open spec fn without_scaffolding(text: Seq<char>) -> Seq<char> {
    match after_prefix(text, "Files provided with this request:\n"@) {
        Some(rest) => after_targets(rest),
        None => text,
    }
}

/// Strips the list of targets that is put in front of a user message. It is
/// part of the stored item because the model needs it again on resume, but
/// replaying it would show the user machine scaffolding as their own words.
///
/// Only this block is stripped. A piped-stdin block contains blank lines of its
/// own, so where it ends cannot be determined without guessing, and a wrong
/// guess would hide part of the message instead.
pub fn without_request_scaffolding(text: &str) -> (r: String)
    ensures
        r@ == without_scaffolding(text@),
{
    let mut cursor = match strip_prefix(text, "Files provided with this request:\n") {
        Some(rest) => rest,
        None => return text.to_owned(),
    };
    let ghost whole = cursor@;
    loop
        invariant
            after_targets(whole) == after_targets(cursor@),
            without_scaffolding(text@) == after_targets(whole),
        decreases cursor@.len(),
    {
        proof {
            reveal_strlit("\n");
            lemma_line_feed_at(cursor@);
        }
        match split_once(&cursor, "\n") {
            Some((line, tail)) => {
                if starts_with(&line, "- ") {
                    cursor = tail;
                    continue;
                }
                // The blank line that separated this block from the next section.
                return if line.as_str().is_empty() {
                    tail
                } else {
                    cursor
                };
            },
            None => return cursor,
        }
    }
}

// ---------------------------------------------------------------------------
// What is shown of a call

/// A text that is not too long is shown whole. Of another the first lines of its
/// beginning are shown, or the last ones of its end, as many as there may be, and
/// it is told that something is missing.
pub proof fn law_texts_are_shown_in_bounds(
    raw: Seq<char>,
    max_bytes: nat,
    max_lines: nat,
    tail: bool,
)
    ensures
        ({
            let shown = limited(raw, max_bytes, max_lines, tail);
            let all = lines_of(
                if tail {
                    tail_within(raw, max_bytes)
                } else {
                    head_within(raw, max_bytes)
                },
            );
            let missing = all.len() - shown.lines.len();
            &&& bytes_of(raw) <= max_bytes ==> all == lines_of(raw)
            &&& shown.truncated <==> bytes_of(raw) > max_bytes || all.len() > max_lines
            &&& shown.lines.len() == if all.len() < max_lines {
                all.len()
            } else {
                max_lines
            }
            &&& !tail ==> forall|i: int|
                0 <= i < shown.lines.len() ==> #[trigger] shown.lines[i] == all[i]
            &&& tail ==> forall|i: int|
                0 <= i < shown.lines.len() ==> #[trigger] shown.lines[i] == all[missing + i]
        }),
{
    law_heads_are_as_long_as_fits(raw, max_bytes);
    law_tails_are_as_long_as_fits(raw, max_bytes);
    if bytes_of(raw) <= max_bytes {
        assert(raw.take(raw.len() as int) =~= raw);
        assert(raw.skip(0) =~= raw);
        assert(head_within(raw, max_bytes) =~= raw);
        assert(tail_within(raw, max_bytes) =~= raw);
    }
}

/// Of the output the last lines are shown, as many as there may be.
pub proof fn law_the_last_lines_of_the_output_are_shown(tail: TailView, max_lines: nat)
    ensures
        ({
            let shown = tail_lines(tail, max_lines);
            let all = lines_of(lossy_text(tail.bytes));
            &&& shown.lines.len() == if all.len() < max_lines {
                all.len()
            } else {
                max_lines
            }
            &&& forall|i: int|
                0 <= i < shown.lines.len() ==> #[trigger] shown.lines[i] == all[all.len()
                    - shown.lines.len() + i]
            &&& shown.truncated <==> tail.dropped || tail.total_lines > max_lines
        }),
{
}

proof fn lemma_line_feeds(a: Seq<u8>, b: Seq<u8>)
    ensures
        line_feeds(a + b) == line_feeds(a) + line_feeds(b),
    decreases b.len(),
{
    if b.len() == 0 {
        assert(a + b =~= a);
    } else {
        lemma_line_feeds(a, b.drop_last());
        assert((a + b).drop_last() =~= a + b.drop_last());
    }
}

/// The lines of the output are counted as it comes, in whatever pieces, as far as
/// they can be: each line feed ends one.
pub proof fn law_lines_are_counted(tail: TailView, a: Seq<u8>, b: Seq<u8>, byte: u8)
    requires
        tail.total_lines <= usize::MAX,
    ensures
        with_output(with_output(tail, a), b).total_lines == with_output(tail, a + b).total_lines,
        with_output(tail, Seq::empty()).total_lines == tail.total_lines,
        byte != 10 ==> with_output(tail, seq![byte]).total_lines == tail.total_lines,
        byte == 10 && tail.total_lines < usize::MAX ==> with_output(tail, seq![byte]).total_lines
            == tail.total_lines + 1,
{
    lemma_line_feeds(a, b);
    reveal_with_fuel(line_feeds, 2);
    assert(seq![byte].drop_last() =~= Seq::empty());
}

/// What comes of a call's arguments is kept as long as there is room for it, after
/// what came before; what does not fit is told of, and stays told of.
pub proof fn law_arguments_are_kept_in_order(input: InputView, delta: Seq<char>)
    requires
        bytes_of(input.text) <= input.max_bytes,
    ensures
        ({
            let after = with_input(input, delta);
            let taken = after.text.skip(input.text.len() as int);
            &&& after.text == input.text + taken
            &&& begins(delta, taken)
            &&& after.max_bytes == input.max_bytes
            &&& bytes_of(input.text) + bytes_of(delta) <= input.max_bytes ==> taken == delta
                && after.truncated == input.truncated
            &&& bytes_of(input.text) + bytes_of(delta) > input.max_bytes ==> after.truncated
            &&& input.truncated ==> after.truncated
            &&& forall|n: int|
                taken.len() < n <= delta.len() ==> bytes_of(input.text) + bytes_of(
                    #[trigger] delta.take(n),
                ) > input.max_bytes
        }),
{
    let room = (input.max_bytes - bytes_of(input.text)) as nat;
    law_heads_are_as_long_as_fits(delta, room);
    let taken = head_within(delta, room);
    assert((input.text + taken).skip(input.text.len() as int) =~= taken);
    assert(delta.take(delta.len() as int) =~= delta);
    assert(delta.subrange(0, taken.len() as int) =~= taken);
}

/// What a call to read says of its arguments: the path, and which lines, counted
/// from one.
pub proof fn law_reads_are_described(args: JsonView, path: Seq<char>)
    requires
        args.text("path"@) == Some(path),
    ensures
        begins(read_text(Some(args)), path),
        args.natural("limit"@) is None && args.natural("offset"@) is None ==> read_text(Some(args))
            == path,
        (args.natural("limit"@) is None && args.natural("offset"@) is Some
            && args.natural("offset"@)->Some_0 > 0) ==> read_text(Some(args)) == path
            + "  from line "@ + decimal((args.natural("offset"@)->Some_0 + 1) as nat),
        (args.natural("limit"@) is Some && args.natural("offset"@) is None) ==> read_text(
            Some(args),
        ) == path + "  lines "@ + decimal(1) + "-"@ + decimal(
            args.natural("limit"@)->Some_0 as nat,
        ),
        (args.natural("limit"@) is Some && args.natural("offset"@) is Some) ==> read_text(
            Some(args),
        ) == path + "  lines "@ + decimal((args.natural("offset"@)->Some_0 + 1) as nat) + "-"@
            + decimal(
            (args.natural("offset"@)->Some_0 + args.natural("limit"@)->Some_0) as nat,
        ),
{
    let text = read_text(Some(args));
    assert(text.subrange(0, path.len() as int) =~= path);
}

/// What a call is shown with: the command or the patch itself, the arguments laid
/// out for a tool that is not known, and what came where that is no value.
pub proof fn law_inputs_are_shown(
    name: Seq<char>,
    raw: Seq<char>,
    args: JsonView,
    pretty: Seq<char>,
    text: Seq<char>,
)
    ensures
        input_text(name, raw, None, pretty) == raw,
        args.text("command"@) == Some(text) ==> input_text("bash"@, raw, Some(args), pretty)
            == text,
        args.text("patch"@) == Some(text) ==> input_text("apply_patch"@, raw, Some(args), pretty)
            == text,
        (name != "bash"@ && name != "read"@ && name != "apply_patch"@) ==> input_text(
            name,
            raw,
            Some(args),
            pretty,
        ) == pretty,
{
    reveal_strlit("bash");
    reveal_strlit("read");
    reveal_strlit("apply_patch");
    assert("bash"@[0] != "read"@[0]);
    assert("bash"@.len() != "apply_patch"@.len());
    assert("read"@.len() != "apply_patch"@.len());
}

/// What a line of a patch names.
pub open spec fn named_by() -> spec_fn(Seq<char>) -> Option<Seq<char>> {
    |line: Seq<char>| operation_line(line)
}

/// The operations of a patch are those of its lines, in order, each with its
/// letter and its path.
pub proof fn law_operations_are_listed(lines: Seq<Seq<char>>, path: Seq<char>, line: Seq<char>)
    ensures
        picks(lines, operation_lines(lines), named_by()),
        operation_line("*** Add File: "@ + path) == Some("A "@ + path),
        operation_line("*** Update File: "@ + path) == Some("M "@ + path),
        operation_line("*** Delete File: "@ + path) == Some("D "@ + path),
        !begins(line, "*** "@) ==> operation_line(line) is None,
{
    lemma_operations_listed(lines);
    let add = "*** Add File: "@;
    let update = "*** Update File: "@;
    let delete = "*** Delete File: "@;
    reveal_strlit("*** Add File: ");
    reveal_strlit("*** Update File: ");
    reveal_strlit("*** Delete File: ");
    reveal_strlit("*** ");
    law_prefixes(add + path, add);
    law_prefixes(update + path, update);
    law_prefixes(delete + path, delete);
    assert((add + path)[4] == 'A');
    assert((update + path)[4] == 'U');
    assert((delete + path)[4] == 'D');
    lemma_fifth_character(add + path, update);
    lemma_fifth_character(delete + path, update);
    lemma_fifth_character(delete + path, add);
    assert(after_prefix(add + path, add) == Some(path));
    assert(after_prefix(update + path, update) == Some(path));
    assert(after_prefix(delete + path, delete) == Some(path));
    if !begins(line, "*** "@) {
        lemma_longer_prefix(line, add);
        lemma_longer_prefix(line, update);
        lemma_longer_prefix(line, delete);
    }
}

proof fn lemma_fifth_character(line: Seq<char>, p: Seq<char>)
    requires
        p.len() > 4,
        line.len() > 4,
        line[4] != p[4],
    ensures
        after_prefix(line, p) is None,
{
    if begins(line, p) {
        assert(line.subrange(0, p.len() as int)[4] == line[4]);
    }
}

proof fn lemma_longer_prefix(line: Seq<char>, p: Seq<char>)
    requires
        !begins(line, "*** "@),
        p.len() >= 4,
        p.take(4) =~= "*** "@,
        "*** "@.len() == 4,
    ensures
        after_prefix(line, p) is None,
{
    if begins(line, p) {
        assert(line.subrange(0, p.len() as int) == p);
        assert(line.subrange(0, 4) =~= line.subrange(0, p.len() as int).take(4));
    }
}

proof fn lemma_operations_listed(lines: Seq<Seq<char>>)
    ensures
        picks(lines, operation_lines(lines), named_by()),
    decreases lines.len(),
{
    if lines.len() == 0 {
        lemma_picks_nothing(lines, named_by());
    } else {
        lemma_operations_listed(lines.drop_last());
        lemma_picks_last(lines, operation_lines(lines.drop_last()), named_by());
    }
}

/// The exit code that an output states is the one that was written, and of
/// several the last.
pub proof fn law_exit_codes_are_read_back(lines: Seq<Seq<char>>, code: i32, line: Seq<char>)
    ensures
        last_code(lines.push("[exit code: "@ + signed_decimal(code as int) + "]"@)) == Some(
            code as int,
        ),
        !(has(line, "[exit code: "@)) ==> last_code(lines.push(line)) == last_code(lines),
        last_code(Seq::empty()) is None,
{
    let number = signed_decimal(code as int);
    let written = "[exit code: "@ + number + "]"@;
    reveal_strlit("[exit code: ");
    reveal_strlit("]");
    law_signed_decimal_is_read_back(code as int);
    law_trimming_takes_away_white_space(Seq::empty(), written, Seq::empty());
    assert(Seq::<char>::empty() + written + Seq::empty() =~= written);
    assert(written =~= "[exit code: "@ + (number + "]"@));
    law_prefixes(written, "[exit code: "@);
    assert(after_prefix("[exit code: "@ + (number + "]"@), "[exit code: "@) == Some(
        number + "]"@,
    ));
    let rest = number + "]"@;
    assert(rest.subrange(rest.len() - 1, rest.len() as int) =~= "]"@);
    assert(rest.take(rest.len() - 1) =~= number);
    assert(stated_code(written) == Some(code as int));
    assert(lines.push(written).drop_last() =~= lines);
    assert(lines.push(line).drop_last() =~= lines);
    if stated_code(line) is Some {
        law_prefixes(trimmed(line), "[exit code: "@);
        lemma_part_of_line(line);
    }
}

proof fn lemma_part_of_line(line: Seq<char>)
    requires
        begins(trimmed(line), "[exit code: "@),
    ensures
        has(line, "[exit code: "@),
{
    let p = "[exit code: "@;
    let t = trimmed(line);
    law_trimmed_texts(line);
    let i = choose|i: int|
        0 <= i && i + t.len() <= line.len() && #[trigger] line.subrange(i, i + t.len()) == t;
    assert(line.subrange(i, i + p.len()) =~= t.subrange(0, p.len() as int));
    assert(occurs_at(line, p, i));
    lemma_first_at(line, p, 0);
}

/// What bash adds at the end of its output is not shown with it.
pub proof fn law_endings_are_not_shown(
    lines: Seq<Seq<char>>,
    number: Seq<char>,
    line: Seq<char>,
)
    ensures
        without_code(lines.push("[exit code: "@ + number + "]"@)) == lines,
        without_note(lines.push("[bash cancelled]"@)) == lines,
        without_note(lines.push("[bash timed out after "@ + number + "]"@)) == lines,
        without_blanks(lines.push(Seq::empty())) == without_blanks(lines),
        line.len() > 0 ==> without_blanks(lines.push(line)) == lines.push(line),
        line.len() > 0 && line[0] != '[' ==> without_code(lines.push(line)) == lines.push(line)
            && without_note(lines.push(line)) == lines.push(line),
{
    let code = "[exit code: "@ + number + "]"@;
    let note = "[bash timed out after "@ + number + "]"@;
    reveal_strlit("[exit code: ");
    reveal_strlit("[bash timed out after ");
    reveal_strlit("[bash cancelled]");
    reveal_strlit("]");
    assert(code.subrange(0, "[exit code: "@.len() as int) =~= "[exit code: "@);
    assert(code.subrange(code.len() - 1, code.len() as int) =~= "]"@);
    assert(note.subrange(0, "[bash timed out after "@.len() as int) =~= "[bash timed out after "@);
    assert(note.subrange(note.len() - 1, note.len() as int) =~= "]"@);
    assert(lines.push(code).drop_last() =~= lines);
    assert(lines.push(note).drop_last() =~= lines);
    assert(lines.push("[bash cancelled]"@).drop_last() =~= lines);
    assert(lines.push(Seq::empty()).drop_last() =~= lines);
    if line.len() > 0 && line[0] != '[' {
        if begins(line, "[exit code: "@) {
            assert(line.subrange(0, "[exit code: "@.len() as int)[0] == line[0]);
        }
        if begins(line, "[bash timed out after "@) {
            assert(line.subrange(0, "[bash timed out after "@.len() as int)[0] == line[0]);
        }
    }
}

/// A text is parted after its last line feed.
pub proof fn law_complete_lines_end_with_a_line_feed(s: Seq<char>)
    ensures
        ({
            let (complete, rest) = complete_lines(s);
            &&& complete + rest == s
            &&& complete.len() > 0 ==> complete.last() == '\n'
            &&& forall|i: int| 0 <= i < rest.len() ==> #[trigger] rest[i] != '\n'
        }),
{
    reveal_strlit("\n");
    lemma_last_line_feed(s, s.len() as int);
    let (complete, rest) = complete_lines(s);
    assert(complete + rest =~= s);
}

proof fn lemma_last_line_feed(s: Seq<char>, upto: int)
    requires
        upto <= s.len(),
        "\n"@.len() == 1,
        "\n"@[0] == '\n',
    ensures
        last_at(s, "\n"@, upto) matches Some(i) ==> 0 <= i <= upto && i < s.len() && s[i] == '\n'
            && forall|j: int| i < j <= upto && j < s.len() ==> #[trigger] s[j] != '\n',
        last_at(s, "\n"@, upto) is None ==> forall|j: int|
            0 <= j <= upto && j < s.len() ==> #[trigger] s[j] != '\n',
    decreases upto + 1,
{
    if upto >= 0 {
        if upto < s.len() {
            assert(s.subrange(upto, upto + 1)[0] == s[upto]);
            if s[upto] == '\n' {
                assert(s.subrange(upto, upto + 1) =~= "\n"@);
            }
        }
        if !occurs_at(s, "\n"@, upto) {
            lemma_last_line_feed(s, upto - 1);
        } else {
            assert(s.subrange(upto, upto + 1) == "\n"@);
        }
    }
}

/// What came of a call: it failed where it is an error, where the command was
/// stopped, or where its exit code is not zero; and it is said why.
pub proof fn law_outcomes_are_told(name: Seq<char>, output: Seq<char>, is_error: bool, code: int)
    ensures
        !(has(output, "[bash cancelled]"@)) && !(has(output, "[bash timed out after "@)) ==> {
            &&& summary_of(name, output, is_error, Some(code)) == "exit "@ + signed_decimal(code)
            &&& has_failed(name, output, is_error, Some(code)) == (is_error || code != 0)
            &&& has_failed(name, output, is_error, None) == is_error
            &&& is_error ==> summary_of(name, output, is_error, None) == "failed"@
        },
        has(output, "[bash cancelled]"@) ==> summary_of("bash"@, output, is_error, Some(code))
            == "cancelled"@ && has_failed("bash"@, output, is_error, Some(code)),
        has(output, "[bash timed out after "@) && !(has(output, "[bash cancelled]"@)) ==> summary_of(
            "bash"@,
            output,
            is_error,
            Some(code),
        ) == "timed out"@ && has_failed("bash"@, output, is_error, Some(code)),
        name != "bash"@ ==> has_failed(name, output, is_error, None) == is_error,
{
}

/// The lines that a read gives are counted, each that has a number; the others
/// are not.
pub proof fn law_read_lines_are_counted(lines: Seq<Seq<char>>, n: usize, text: Seq<char>)
    ensures
        numbered_lines(lines.push(decimal(n as nat) + ": "@ + text)) == numbered_lines(lines) + 1,
        !(has(text, ": "@)) ==> numbered_lines(lines.push(text)) == numbered_lines(lines),
        numbered_lines(Seq::empty()) == 0,
{
    let line = decimal(n as nat) + ": "@ + text;
    assert(lines.push(line).drop_last() =~= lines);
    assert(lines.push(text).drop_last() =~= lines);
    lemma_number_cut(n as nat, text);
    law_decimal_is_read_back(n as nat);
}

proof fn lemma_number_cut(n: nat, text: Seq<char>)
    ensures
        cut_first(decimal(n) + ": "@ + text, ": "@) == Some((decimal(n), text)),
{
    let p = ": "@;
    let number = decimal(n);
    let line = number + p + text;
    reveal_strlit(": ");
    law_cut_at_the_first(line, p);
    let k = number.len() as int;
    assert(line.subrange(k, k + 2) =~= p);
    assert(occurs_at(line, p, k));
    let (a, b) = cut_first(line, p)->Some_0;
    lemma_all_digits(n);
    if a.len() < k {
        assert(line[a.len() as int] == (a + p + b)[a.len() as int]);
        assert(number[a.len() as int] == ':');
    }
    assert(a.len() == k);
    assert(a =~= number) by {
        assert forall|i: int| 0 <= i < k implies a[i] == number[i] by {
            assert((a + p + b)[i] == line[i]);
        }
    }
    assert(b =~= text) by {
        assert(b.len() == text.len());
        assert forall|i: int| 0 <= i < b.len() implies b[i] == text[i] by {
            assert((a + p + b)[k + 2 + i] == line[k + 2 + i]);
        }
    }
}

proof fn lemma_all_digits(n: nat)
    ensures
        forall|i: int| 0 <= i < decimal(n).len() ==> '0' <= #[trigger] decimal(n)[i] <= '9',
    decreases n,
{
    lemma_decimal_digits(n);
    lemma_only_digits(decimal(n));
}

proof fn lemma_only_digits(s: Seq<char>)
    requires
        digits_value(s) is Some,
    ensures
        forall|i: int| 0 <= i < s.len() ==> '0' <= #[trigger] s[i] <= '9',
    decreases s.len(),
{
    if s.len() > 0 {
        lemma_only_digits(s.drop_last());
        assert forall|i: int| 0 <= i < s.len() implies '0' <= #[trigger] s[i] <= '9' by {
            if i < s.len() - 1 {
                assert(s.drop_last()[i] == s[i]);
            }
        }
    }
}

/// The files that a patch changed are counted with the lines that each says.
pub proof fn law_changes_are_added_up(lines: Seq<Seq<char>>, line: Seq<char>)
    ensures
        stated_counts(line) matches Some((a, b)) ==> counts_in(lines.push(line)) == (
            counts_in(lines).0 + 1,
            counts_in(lines).1 + a,
            counts_in(lines).2 + b,
        ),
        stated_counts(line) is None ==> counts_in(lines.push(line)) == counts_in(lines),
        counts_in(Seq::empty()) == (0nat, 0nat, 0nat),
{
    assert(lines.push(line).drop_last() =~= lines);
}

} // verus!
