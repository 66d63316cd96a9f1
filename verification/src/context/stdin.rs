//! Input that was piped in.
use vstd::prelude::*;
use vstd::string::*;
use vstd::utf8::*;

use crate::text::{decimal, decimal_text};
use crate::tools::bash::{decode_lossy, law_valid_bytes_are_kept, lossy_text};

verus! {

/// Whether stdin holds input for this turn.
///
/// `a` consumes stdin so `cargo test 2>&1 | a "fix this"` works. Consuming it
/// whenever it merely is not a terminal is wrong: a supervisor or sandbox hands
/// its child a socket that may never carry anything, and reading it blocks
/// forever.
///
/// A pipe or a redirected file is read to end of file, however long the producer
/// takes, because writing the pipe is how the user asked for that. Waiting is
/// what every filter does; giving up early would silently drop the input of a
/// producer that is simply slow to start.
#[derive(Debug, Clone, Copy, PartialEq, Eq, Structural)]
pub enum StdinSource {
    Terminal,
    /// Not a pipe or file: an inherited channel that is not this turn's input.
    Foreign,
    Stream,
}

/// The bits of a file mode that tell its kind.
pub const KIND_BITS: u32 = 61440;

/// The kind of a pipe.
pub const PIPE_KIND: u32 = 4096;

/// The kind of a regular file.
pub const FILE_KIND: u32 = 32768;

/// What a file descriptor with a mode is; one without is not open.
///
/// A shell pipeline hands over a pipe, and a redirection hands over a file.
/// Anything else, a socket in particular, came from a supervisor or sandbox that
/// is still using it for something else.
pub fn classify_mode(mode: Option<u32>) -> (r: StdinSource)
    ensures
        r == (match mode {
            Some(m) => if m & KIND_BITS == PIPE_KIND || m & KIND_BITS == FILE_KIND {
                StdinSource::Stream
            } else {
                StdinSource::Foreign
            },
            None => StdinSource::Foreign,
        }),
{
    match mode {
        Some(m) => {
            let kind: u32 = m & KIND_BITS;
            if kind == PIPE_KIND || kind == FILE_KIND {
                StdinSource::Stream
            } else {
                StdinSource::Foreign
            }
        },
        None => StdinSource::Foreign,
    }
}

/// Where stdin comes from.
pub fn stdin_source(is_terminal: bool, mode: Option<u32>) -> (r: StdinSource)
    ensures
        is_terminal ==> r == StdinSource::Terminal,
        !is_terminal ==> r == (match mode {
            Some(m) => if m & KIND_BITS == PIPE_KIND || m & KIND_BITS == FILE_KIND {
                StdinSource::Stream
            } else {
                StdinSource::Foreign
            },
            None => StdinSource::Foreign,
        }),
{
    if is_terminal {
        StdinSource::Terminal
    } else {
        classify_mode(mode)
    }
}

/// Whether a byte continues a character of UTF-8.
pub open spec fn continues(b: u8) -> bool {
    b & 0xc0u8 == 0x80u8
}

/// The bytes from the first on that does not continue a character.
pub open spec fn from_character(bytes: Seq<u8>) -> Seq<u8>
    decreases bytes.len(),
{
    if bytes.len() > 0 && continues(bytes[0]) {
        from_character(bytes.skip(1))
    } else {
        bytes
    }
}

/// The bytes of the input that are handed on: all of them, or the end from a
/// character on.
pub open spec fn kept_input(input: Seq<u8>, max_bytes: nat) -> Seq<u8> {
    if input.len() <= max_bytes {
        input
    } else {
        from_character(input.skip(input.len() - max_bytes))
    }
}

/// The note on input of which only the end is handed on.
pub open spec fn cut_note(length: nat, max_bytes: nat) -> Seq<char> {
    if length <= max_bytes {
        Seq::empty()
    } else {
        "[stdin truncated; showing last "@ + decimal(max_bytes) + " bytes]\n"@
    }
}

/// The input that is handed on: all of it, or its end after a note.
pub open spec fn bounded_input(input: Seq<u8>, max_bytes: nat) -> Seq<char> {
    cut_note(input.len(), max_bytes) + lossy_text(kept_input(input, max_bytes))
}

/// The input that is handed on: all of it, or its end after a note.
pub fn bound_stdin(input: &[u8], max_bytes: usize) -> (r: String)
    ensures
        r@ == bounded_input(input@, max_bytes as nat),
        valid_utf8(kept_input(input@, max_bytes as nat)) ==> encode_utf8(
            r@.skip(cut_note(input@.len(), max_bytes as nat).len() as int),
        ) == kept_input(input@, max_bytes as nat),
{
    let ghost kept = kept_input(input@, max_bytes as nat);
    let ghost note = cut_note(input@.len(), max_bytes as nat);
    proof {
        assert((note + lossy_text(kept)).skip(note.len() as int) =~= lossy_text(kept));
        if valid_utf8(kept) {
            law_valid_bytes_are_kept(kept);
        }
    }
    if input.len() <= max_bytes {
        let all = decode_lossy(input);
        assert(all@ =~= note + lossy_text(kept));
        return all;
    }
    let first: usize = input.len() - max_bytes;
    let ghost tail = input@.skip(first as int);
    let mut start: usize = first;
    assert(tail.skip(0) =~= tail);
    while start < input.len() && input[start] & 0xc0 == 0x80
        invariant
            first <= start <= input.len(),
            tail == input@.skip(first as int),
            from_character(tail) == from_character(tail.skip(start - first)),
        decreases input.len() - start,
    {
        assert(tail.skip(start - first).skip(1) =~= tail.skip(start + 1 - first));
        start += 1;
    }
    let rest = vstd::slice::slice_subrange(input, start, input.len());
    assert(rest@ =~= tail.skip(start - first));
    assert(rest@ == kept);
    "[stdin truncated; showing last ".to_owned().concat(&decimal_text(max_bytes as u64)).concat(
        " bytes]\n",
    ).concat(&decode_lossy(rest))
}

/// Whether a byte goes on with a character that began before it.
pub open spec fn is_within(b: u8) -> bool {
    0x80 <= b <= 0xbf
}

proof fn lemma_within(b: u8)
    ensures
        continues(b) <==> is_within(b),
{
    assert(b & 0xc0u8 == 0x80u8 <==> 0x80u8 <= b && b <= 0xbfu8) by (bit_vector);
}

proof fn lemma_from_character(bytes: Seq<u8>) -> (k: int)
    ensures
        0 <= k <= bytes.len(),
        from_character(bytes) == bytes.skip(k),
        forall|i: int| 0 <= i < k ==> is_within(#[trigger] bytes[i]),
        k < bytes.len() ==> !is_within(bytes[k]),
    decreases bytes.len(),
{
    if bytes.len() > 0 {
        lemma_within(bytes[0]);
    }
    if bytes.len() > 0 && continues(bytes[0]) {
        let rest = bytes.skip(1);
        let k = lemma_from_character(rest);
        assert(rest.skip(k) =~= bytes.skip(k + 1));
        assert forall|i: int| 0 <= i < k + 1 implies is_within(#[trigger] bytes[i]) by {
            if i > 0 {
                assert(rest[i - 1] == bytes[i]);
            }
        }
        k + 1
    } else {
        assert(bytes.skip(0) =~= bytes);
        0
    }
}

/// Input that is not too long is taken as it is. Of longer input the last bytes
/// are taken, as many as are allowed but for those of a character that began
/// before them, and it is told that there was more.
pub proof fn law_the_end_of_the_input_is_taken(input: Seq<u8>, max_bytes: nat)
    ensures
        input.len() <= max_bytes ==> bounded_input(input, max_bytes) == lossy_text(input),
        input.len() > max_bytes ==> exists|k: int|
            {
                &&& input.len() - max_bytes <= k <= input.len()
                &&& bounded_input(input, max_bytes) == "[stdin truncated; showing last "@ + decimal(
                    max_bytes,
                ) + " bytes]\n"@ + lossy_text(#[trigger] input.skip(k))
                &&& forall|i: int|
                    input.len() - max_bytes <= i < k ==> is_within(#[trigger] input[i])
                &&& k < input.len() ==> !is_within(input[k])
            },
{
    if input.len() <= max_bytes {
        assert(Seq::<char>::empty() + lossy_text(input) =~= lossy_text(input));
    } else {
        let n = input.len() - max_bytes;
        let rest = input.skip(n);
        let k = lemma_from_character(rest);
        assert(rest.skip(k) =~= input.skip(n + k));
        assert forall|i: int| n <= i < n + k implies is_within(#[trigger] input[i]) by {
            assert(rest[i - n] == input[i]);
        }
        if k < rest.len() {
            assert(rest[k] == input[n + k]);
        }
    }
}

} // verus!
