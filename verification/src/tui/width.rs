//! How wide a text is on a terminal.
use vstd::prelude::*;
use vstd::string::*;

use crate::text::chars_of;

verus! {

/// How many columns `unicode_width` gives a text.
pub uninterp spec fn columns(s: Seq<char>) -> usize;

/// Calls `unicode_width::UnicodeWidthStr::width` on a text. The contract claims
/// only that the columns are decided by the text's characters.
#[verifier::external_body]
pub(crate) fn width_of(s: &str) -> (r: usize)
    ensures
        r == columns(s@),
{
    unicode_width::UnicodeWidthStr::width(s)
}

/// How many columns `unicode_width` gives a character; none for a control
/// character.
pub uninterp spec fn char_columns(c: char) -> Option<usize>;

/// Calls `unicode_width::UnicodeWidthChar::width` on a character. The contract
/// claims only that the columns are decided by the character.
#[verifier::external_body]
fn width_of_char(c: char) -> (r: Option<usize>)
    ensures
        r == char_columns(c),
{
    unicode_width::UnicodeWidthChar::width(c)
}

/// The columns that a character takes; a control character takes none.
pub open spec fn columns_taken(c: char) -> nat {
    match char_columns(c) {
        Some(n) => n as nat,
        None => 0,
    }
}

/// How many characters fit into a number of columns, from one on.
pub open spec fn fitting(s: Seq<char>, from: int, room: int) -> int
    decreases s.len() - from,
{
    if from >= s.len() || columns_taken(s[from]) > room {
        from
    } else {
        fitting(s, from + 1, room - columns_taken(s[from]))
    }
}

/// A text that takes at most a number of columns, given how many it takes: cut
/// short with an ellipsis where it takes more.
pub open spec fn cut_to_width(s: Seq<char>, width: nat, max: nat) -> Seq<char> {
    if width <= max {
        s
    } else if max == 0 {
        Seq::empty()
    } else {
        s.take(fitting(s, 0, max - 1)).push('…')
    }
}

/// Cuts a text short that takes more than a number of columns, given how many
/// it takes.
pub fn cut_short_to(s: &str, width: usize, max: usize) -> (r: String)
    ensures
        r@ == cut_to_width(s@, width as nat, max as nat),
{
    if width <= max {
        return s.to_owned();
    }
    if max == 0 {
        return String::new();
    }
    let x = chars_of(s);
    let mut room: usize = max - 1;
    let mut i: usize = 0;
    let mut r = String::new();
    assert(r@ =~= s@.take(0));
    while i < x.len()
        invariant_except_break
            i <= x.len(),
            x@ == s@,
            r@ == s@.take(i as int),
            fitting(s@, 0, max - 1) == fitting(s@, i as int, room as int),
        ensures
            i <= x.len(),
            r@ == s@.take(i as int),
            fitting(s@, 0, max - 1) == i,
        decreases x.len() - i,
    {
        let taken: usize = match width_of_char(x[i]) {
            Some(n) => n,
            None => 0,
        };
        if taken > room {
            break;
        }
        room -= taken;
        r.push(x[i]);
        assert(s@.take(i + 1) =~= s@.take(i as int).push(s@[i as int]));
        i += 1;
    }
    r.push('…');
    r
}

/// Cuts a text short that takes more than a number of columns.
pub fn truncate_display_width(s: &str, max: usize) -> (r: String)
    ensures
        r@ == cut_to_width(s@, columns(s@) as nat, max as nat),
{
    cut_short_to(s, width_of(s), max)
}

/// The columns that characters take one by one.
pub open spec fn columns_sum(s: Seq<char>) -> nat
    decreases s.len(),
{
    if s.len() == 0 {
        0
    } else {
        columns_sum(s.drop_last()) + columns_taken(s.last())
    }
}

proof fn lemma_fitting(s: Seq<char>, from: int, room: int)
    requires
        0 <= from <= s.len(),
        0 <= room,
    ensures
        from <= fitting(s, from, room) <= s.len(),
        columns_sum(s.take(fitting(s, from, room))) <= columns_sum(s.take(from)) + room,
    decreases s.len() - from,
{
    if from < s.len() && columns_taken(s[from]) <= room {
        lemma_fitting(s, from + 1, room - columns_taken(s[from]));
        assert(s.take(from + 1).drop_last() =~= s.take(from));
    }
}

/// What is left of a text that was cut short takes, character by character,
/// less than the columns it may take, so that the ellipsis still has room.
pub proof fn law_cut_texts_fit(s: Seq<char>, width: nat, max: nat)
    requires
        0 < max < width,
    ensures
        ({
            let r = cut_to_width(s, width, max);
            &&& r.last() == '…'
            &&& columns_sum(r.drop_last()) < max
            &&& r.drop_last() == s.take(r.len() - 1)
        }),
{
    lemma_fitting(s, 0, max - 1);
    let kept = s.take(fitting(s, 0, max - 1));
    assert(kept.push('…').drop_last() =~= kept);
    assert(s.take(0) =~= Seq::empty());
}

/// A text that fits is shown as it is; of another as many characters as there is
/// room for, before the mark that tells that it goes on.
pub proof fn law_cut_texts_are_as_long_as_fits(s: Seq<char>, width: nat, max: nat)
    ensures
        width <= max ==> cut_to_width(s, width, max) == s,
        width > max && max == 0 ==> cut_to_width(s, width, max) == Seq::<char>::empty(),
        width > max > 0 ==> {
            let n = cut_to_width(s, width, max).len() - 1;
            &&& 0 <= n <= s.len()
            &&& cut_to_width(s, width, max) == s.take(n).push('…')
            &&& columns_sum(s.take(n)) <= max - 1
            &&& n < s.len() ==> columns_sum(s.take(n + 1)) > max - 1
        },
{
    if width > max && max > 0 {
        assert(s.take(0) =~= Seq::empty());
        lemma_fitting_is_longest(s, 0, max - 1);
    }
}

proof fn lemma_fitting_is_longest(s: Seq<char>, from: int, room: int)
    requires
        0 <= from <= s.len(),
        0 <= room,
    ensures
        from <= fitting(s, from, room) <= s.len(),
        columns_sum(s.take(fitting(s, from, room))) <= columns_sum(s.take(from)) + room,
        fitting(s, from, room) < s.len() ==> columns_sum(s.take(fitting(s, from, room) + 1))
            > columns_sum(s.take(from)) + room,
    decreases s.len() - from,
{
    if from < s.len() {
        assert(s.take(from + 1).drop_last() =~= s.take(from));
        if columns_taken(s[from]) <= room {
            lemma_fitting_is_longest(s, from + 1, room - columns_taken(s[from]));
        }
    }
}

} // verus!
