//! The tool that reads part of a text file.
use vstd::prelude::*;
use vstd::string::*;
use vstd::utf8::*;

use crate::text::{
    byte_len, bytes_of, decimal, decimal_text, head_bytes, head_within, join, joined,
    lemma_texts_push, lines, lines_of, outcome, texts,
};

verus! {

/// What a call of the tool asks for.
#[derive(Debug)]
pub struct ReadArgs {
    pub path: String,
    /// How many lines to pass over.
    pub offset: usize,
    /// How many lines to show at most.
    pub limit: Option<usize>,
}

/// `String::from_utf8` gives the text that the bytes encode, and fails exactly
/// where they are not valid UTF-8.
#[verifier::external_body]
pub(crate) fn decode(bytes: Vec<u8>) -> (r: Option<String>)
    ensures
        match r {
            Some(s) => valid_utf8(bytes@) && encode_utf8(s@) == bytes@,
            None => !valid_utf8(bytes@),
        },
{
    String::from_utf8(bytes).ok()
}

/// The smaller of two numbers.
pub open spec fn least(a: nat, b: nat) -> nat {
    if a <= b {
        a
    } else {
        b
    }
}

/// How many lines are asked for.
pub open spec fn line_limit(limit: Option<usize>, max_lines: usize) -> nat {
    match limit {
        Some(n) => least(n as nat, max_lines as nat),
        None => max_lines as nat,
    }
}

/// A line after its number in the file.
pub open spec fn numbered_line(lines: Seq<Seq<char>>, i: int) -> Seq<char> {
    decimal((i + 1) as nat) + ": "@ + lines[i]
}

/// The lines shown: as many as `n` from `offset` on, each after its number in
/// the file.
pub open spec fn numbered(lines: Seq<Seq<char>>, offset: nat, n: nat) -> Seq<Seq<char>> {
    Seq::new(
        if offset >= lines.len() {
            0
        } else {
            least(n, (lines.len() - offset) as nat)
        },
        |i: int| numbered_line(lines, offset + i),
    )
}

/// The note on lines that are not shown.
pub open spec fn remaining_note(n: nat) -> Seq<char> {
    "[truncated; "@ + decimal(n) + " more line"@ + (if n == 1 {
        ""@
    } else {
        "s"@
    }) + "]"@
}

/// What is shown of a text before its length is bounded.
pub open spec fn excerpt(source: Seq<char>, offset: nat, n: nat) -> Seq<char> {
    let lines = lines_of(source);
    let shown = joined(numbered(lines, offset, n), "\n"@);
    let consumed = least(offset + n, lines.len());
    if consumed == lines.len() {
        shown
    } else {
        shown + (if shown.len() == 0 {
            ""@
        } else {
            "\n"@
        }) + remaining_note((lines.len() - consumed) as nat)
    }
}

/// A text cut to a number of bytes, with a note where it was.
pub open spec fn bounded_output(output: Seq<char>, max_bytes: nat) -> Seq<char> {
    if bytes_of(output) > max_bytes {
        head_within(output, max_bytes) + "\n[truncated by output byte limit]"@
    } else {
        output
    }
}

/// What the tool answers for the bytes of a file.
pub open spec fn read_outcome(
    bytes: Seq<u8>,
    path: Seq<char>,
    offset: nat,
    n: nat,
    max_bytes: nat,
) -> Result<Seq<char>, Seq<char>> {
    if bytes.contains(0u8) {
        Err("binary file cannot be read as text: "@ + path)
    } else if !valid_utf8(bytes) {
        Err("file is not valid UTF-8: "@ + path)
    } else {
        Ok(bounded_output(excerpt(decode_utf8(bytes), offset, n), max_bytes))
    }
}

/// What the tool answers for the bytes of a file, with no bound on its length
/// in bytes.
pub fn read_text_file(bytes: Vec<u8>, args: &ReadArgs, max_lines: usize) -> (r: Result<
    String,
    String,
>)
    ensures
        outcome(r) == read_outcome(
            bytes@,
            args.path@,
            args.offset as nat,
            line_limit(args.limit, max_lines),
            usize::MAX as nat,
        ),
{
    read_text_file_bounded(bytes, args, max_lines, usize::MAX)
}

/// What the tool answers for the bytes of a file.
pub fn read_text_file_bounded(
    bytes: Vec<u8>,
    args: &ReadArgs,
    max_lines: usize,
    max_bytes: usize,
) -> (r: Result<String, String>)
    ensures
        outcome(r) == read_outcome(
            bytes@,
            args.path@,
            args.offset as nat,
            line_limit(args.limit, max_lines),
            max_bytes as nat,
        ),
{
    broadcast use lemma_texts_push;

    let mut i: usize = 0;
    while i < bytes.len()
        invariant
            i <= bytes.len(),
            forall|k: int| 0 <= k < i ==> bytes[k] != 0u8,
        decreases bytes.len() - i,
    {
        if bytes[i] == 0 {
            assert(bytes@[i as int] == 0u8);
            return Err("binary file cannot be read as text: ".to_owned().concat(&args.path));
        }
        i += 1;
    }
    let ghost raw = bytes@;
    let source = match decode(bytes) {
        Some(source) => source,
        None => return Err("file is not valid UTF-8: ".to_owned().concat(&args.path)),
    };
    proof {
        encode_utf8_decode_utf8(source@);
    }
    let lines = lines(&source);
    let ghost all = lines_of(source@);
    assert(texts(lines@).len() == lines.len());
    let limit: usize = match args.limit {
        Some(n) => if n <= max_lines {
            n
        } else {
            max_lines
        },
        None => max_lines,
    };
    let consumed: usize = if args.offset >= lines.len() || lines.len() - args.offset <= limit {
        lines.len()
    } else {
        args.offset + limit
    };
    let offset: usize = args.offset;
    let mut shown: Vec<String> = Vec::new();
    assert(texts(shown@) =~= numbered(all, offset as nat, 0));
    let mut at: usize = offset;
    while at < consumed
        invariant
            offset <= at,
            offset < consumed ==> at <= consumed,
            consumed <= offset ==> at == offset,
            consumed <= lines.len(),
            all == texts(lines@),
            all.len() == lines.len(),
            texts(shown@) == numbered(all, offset as nat, (at - offset) as nat),
        decreases consumed - at,
    {
        let line = decimal_text(at as u64 + 1).concat(": ").concat(&lines[at]);
        assert(texts(lines@)[at as int] == lines@[at as int]@);
        assert(line@ == numbered_line(all, at as int));
        let ghost old = numbered(all, offset as nat, (at - offset) as nat);
        let ghost new = numbered(all, offset as nat, (at + 1 - offset) as nat);
        shown.push(line);
        assert(texts(shown@) == old.push(line@));
        assert(old.len() == at - offset && new.len() == at + 1 - offset);
        assert(new[at - offset] == line@);
        assert(texts(shown@) =~= numbered(all, offset as nat, (at + 1 - offset) as nat));
        at += 1;
    }
    proof {
        let part = numbered(all, offset as nat, (at - offset) as nat);
        let whole = numbered(all, offset as nat, limit as nat);
        assert(part =~= whole);
    }
    let mut output = join(&shown, "\n");
    let remaining: usize = lines.len() - consumed;
    if remaining > 0 {
        if !output.as_str().is_empty() {
            output.append("\n");
        } else {
            output.append("");
        }
        let note = "[truncated; ".to_owned().concat(&decimal_text(remaining as u64)).concat(
            " more line",
        ).concat(
            if remaining == 1 {
                ""
            } else {
                "s"
            },
        ).concat("]");
        output.append(&note);
    }
    if byte_len(&output) > max_bytes {
        Ok(head_bytes(&output, max_bytes).concat("\n[truncated by output byte limit]"))
    } else {
        Ok(output)
    }
}

// ---------------------------------------------------------------------------
// What is shown of a file

/// Whether lines are those of a file from `offset` on, as many as there are of
/// them, each after its number, which counts from one.
pub open spec fn shows(shown: Seq<Seq<char>>, lines: Seq<Seq<char>>, offset: nat) -> bool {
    &&& shown.len() > 0 ==> offset + shown.len() <= lines.len()
    &&& forall|i: int|
        0 <= i < shown.len() ==> #[trigger] shown[i] == decimal((offset + i + 1) as nat) + ": "@
            + lines[offset + i]
}

/// A file that holds no zero byte and is UTF-8 is shown from the offset on: as
/// many lines as are asked for, as are allowed and as there are, and no fewer. A
/// note tells how many lines come after them, where there are some. Any other
/// file is refused.
pub proof fn law_lines_are_shown_in_bounds(
    bytes: Seq<u8>,
    path: Seq<char>,
    offset: usize,
    limit: Option<usize>,
    max_lines: usize,
    max_bytes: nat,
)
    ensures
        ({
            let answer = read_outcome(
                bytes,
                path,
                offset as nat,
                line_limit(limit, max_lines),
                max_bytes,
            );
            let lines = lines_of(decode_utf8(bytes));
            let left = if offset <= lines.len() {
                lines.len() - offset
            } else {
                0
            };
            &&& answer is Ok <==> valid_utf8(bytes) && forall|i: int|
                0 <= i < bytes.len() ==> #[trigger] bytes[i] != 0
            &&& answer matches Err(e) ==> e == (if exists|i: int|
                0 <= i < bytes.len() && #[trigger] bytes[i] == 0 {
                "binary file cannot be read as text: "@
            } else {
                "file is not valid UTF-8: "@
            }) + path
            &&& answer matches Ok(text) ==> exists|shown: Seq<Seq<char>>, whole: Seq<char>|
                {
                    &&& #[trigger] shows(shown, lines, offset as nat)
                    &&& shown.len() <= left && shown.len() <= max_lines
                    &&& limit matches Some(n) ==> shown.len() <= n
                    &&& shown.len() == left || shown.len() == max_lines || limit == Some(
                        shown.len() as usize,
                    )
                    &&& shown.len() == left ==> whole == joined(shown, "\n"@)
                    &&& shown.len() < left ==> whole == joined(shown, "\n"@) + (
                    if shown.len() == 0 {
                        ""@
                    } else {
                        "\n"@
                    }) + "[truncated; "@ + decimal((left - shown.len()) as nat) + (if left
                        - shown.len() == 1 {
                        " more line]"@
                    } else {
                        " more lines]"@
                    })
                    &&& #[trigger] bytes_of(whole) <= max_bytes ==> text == whole
                    &&& bytes_of(whole) > max_bytes ==> text == head_within(whole, max_bytes)
                        + "\n[truncated by output byte limit]"@
                }
        }),
{
    let n = line_limit(limit, max_lines);
    let answer = read_outcome(bytes, path, offset as nat, n, max_bytes);
    let lines = lines_of(decode_utf8(bytes));
    if bytes.contains(0u8) {
        let i = choose|i: int| 0 <= i < bytes.len() && bytes[i] == 0u8;
        assert(bytes[i] == 0);
    } else {
        assert forall|i: int| 0 <= i < bytes.len() implies #[trigger] bytes[i] != 0 by {}
    }
    if answer is Ok {
        let shown = numbered(lines, offset as nat, n);
        let whole = excerpt(decode_utf8(bytes), offset as nat, n);
        let left = if offset <= lines.len() {
            lines.len() - offset
        } else {
            0
        };
        lemma_note((left - shown.len()) as nat);
        lemma_shown_text(shown);
        assert(shows(shown, lines, offset as nat)) by {
            assert forall|i: int| 0 <= i < shown.len() implies #[trigger] shown[i] == decimal(
                (offset + i + 1) as nat,
            ) + ": "@ + lines[offset + i] by {
                assert(shown[i] == numbered_line(lines, offset + i));
            }
        }
        let start = joined(shown, "\n"@);
        let gap = if shown.len() == 0 {
            ""@
        } else {
            "\n"@
        };
        if shown.len() < left {
            let note = remaining_note((left - shown.len()) as nat);
            assert(whole == start + gap + note);
            assert(whole =~= start + gap + "[truncated; "@ + decimal((left - shown.len()) as nat) + (
            if left - shown.len() == 1 {
                " more line]"@
            } else {
                " more lines]"@
            }));
        }
        assert(bytes_of(whole) <= max_bytes || bytes_of(whole) > max_bytes);
    }
}

proof fn lemma_note(n: nat)
    ensures
        remaining_note(n) == "[truncated; "@ + decimal(n) + (if n == 1 {
            " more line]"@
        } else {
            " more lines]"@
        }),
{
    reveal_strlit(" more line");
    reveal_strlit("");
    reveal_strlit("s");
    reveal_strlit("]");
    reveal_strlit(" more line]");
    reveal_strlit(" more lines]");
    if n == 1 {
        assert(" more line"@ + ""@ + "]"@ =~= " more line]"@);
    } else {
        assert(" more line"@ + "s"@ + "]"@ =~= " more lines]"@);
    }
    assert(remaining_note(n) =~= "[truncated; "@ + decimal(n) + (if n == 1 {
        " more line]"@
    } else {
        " more lines]"@
    }));
}

proof fn lemma_shown_text(shown: Seq<Seq<char>>)
    requires
        forall|i: int| 0 <= i < shown.len() ==> (#[trigger] shown[i]).len() > 0,
    ensures
        joined(shown, "\n"@).len() == 0 <==> shown.len() == 0,
{
    if shown.len() > 0 {
        assert(shown[shown.len() - 1].len() > 0);
        assert(shown.last() == shown[shown.len() - 1]);
    }
}

} // verus!
