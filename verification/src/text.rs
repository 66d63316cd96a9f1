//! Text as sequences of characters: searching, cutting, trimming and joining.
use vstd::prelude::*;
use vstd::string::*;
use vstd::utf8::*;

verus! {

/// `String::push` appends one character to the text.
pub assume_specification[ String::push ](s: &mut String, c: char)
    ensures
        final(s)@ == old(s)@.push(c),
;

/// The texts held by a sequence of strings.
pub open spec fn texts(v: Seq<String>) -> Seq<Seq<char>> {
    Seq::new(v.len(), |i: int| v[i]@)
}

/// The models of a sequence of values.
pub open spec fn views<T: View>(v: Seq<T>) -> Seq<T::V> {
    Seq::new(v.len(), |i: int| v[i]@)
}

/// The model of an outcome: of the value, or the text of the error.
pub open spec fn outcome<T: View>(r: Result<T, String>) -> Result<T::V, Seq<char>> {
    match r {
        Ok(t) => Ok(t@),
        Err(e) => Err(e@),
    }
}

/// The model of an outcome that is a list.
pub open spec fn outcomes<T: View>(r: Result<Vec<T>, String>) -> Result<Seq<T::V>, Seq<char>> {
    match r {
        Ok(v) => Ok(views(v@)),
        Err(e) => Err(e@),
    }
}

/// The model of an optional value.
pub open spec fn maybe_view<T: View>(o: Option<T>) -> Option<T::V> {
    match o {
        Some(t) => Some(t@),
        None => None,
    }
}

/// Appending a value appends its model.
pub broadcast proof fn lemma_views_push<T: View>(v: Seq<T>, t: T)
    ensures
        #[trigger] views(v.push(t)) == views(v).push(t@),
{
    assert(views(v.push(t)) =~= views(v).push(t@));
}

/// Appending a string appends its text.
pub broadcast proof fn lemma_texts_push(v: Seq<String>, s: String)
    ensures
        #[trigger] texts(v.push(s)) == texts(v).push(s@),
{
    assert(texts(v.push(s)) =~= texts(v).push(s@));
}

/// The text of an optional string.
pub open spec fn maybe(o: Option<String>) -> Option<Seq<char>> {
    match o {
        Some(s) => Some(s@),
        None => None,
    }
}

/// The characters of a text.
pub fn chars_of(s: &str) -> (r: Vec<char>)
    ensures
        r@ == s@,
{
    let mut r: Vec<char> = Vec::new();
    for c in it: s.chars()
        invariant
            r@ == s@.take(it.index()),
            it.seq() == s@,
    {
        r.push(c);
    }
    r
}

/// The text made of the given characters.
pub fn text_of(c: &[char]) -> (r: String)
    ensures
        r@ == c@,
{
    let mut r = String::new();
    let mut i: usize = 0;
    while i < c.len()
        invariant
            i <= c.len(),
            r@ == c@.take(i as int),
        decreases c.len() - i,
    {
        r.push(c[i]);
        i += 1;
    }
    r
}

/// The text made of the characters from `from` up to `to`.
pub fn text_between(c: &[char], from: usize, to: usize) -> (r: String)
    requires
        from <= to <= c.len(),
    ensures
        r@ == c@.subrange(from as int, to as int),
{
    let mut r = String::new();
    let mut i: usize = from;
    while i < to
        invariant
            from <= i <= to <= c.len(),
            r@ == c@.subrange(from as int, i as int),
        decreases to - i,
    {
        r.push(c[i]);
        i += 1;
    }
    r
}

/// Whether two runs of characters are the same.
pub fn same_chars(x: &[char], y: &[char]) -> (r: bool)
    ensures
        r == (x@ == y@),
{
    if x.len() != y.len() {
        return false;
    }
    let mut i: usize = 0;
    while i < x.len()
        invariant
            i <= x.len(),
            x.len() == y.len(),
            forall|k: int| 0 <= k < i ==> x[k] == y[k],
        decreases x.len() - i,
    {
        if x[i] != y[i] {
            return false;
        }
        i += 1;
    }
    assert(x@ =~= y@);
    true
}

/// Whether two texts are the same.
pub fn same(a: &str, b: &str) -> (r: bool)
    ensures
        r == (a@ == b@),
{
    let x = chars_of(a);
    let y = chars_of(b);
    same_chars(&x, &y)
}

/// A copy of an optional text.
pub fn copy_maybe(o: &Option<String>) -> (r: Option<String>)
    ensures
        maybe(r) == maybe(*o),
{
    match o {
        Some(s) => Some(s.clone()),
        None => None,
    }
}

/// Copies of all texts.
pub fn copy_texts(v: &Vec<String>) -> (r: Vec<String>)
    ensures
        texts(r@) == texts(v@),
{
    let mut r: Vec<String> = Vec::new();
    let mut i: usize = 0;
    while i < v.len()
        invariant
            i <= v.len(),
            texts(r@) == texts(v@).take(i as int),
        decreases v.len() - i,
    {
        let ghost before = r@;
        r.push(v[i].clone());
        assert(texts(r@) =~= texts(before).push(v@[i as int]@));
        i += 1;
    }
    r
}

/// Whether the texts contain the given one.
pub fn holds_text(v: &Vec<String>, s: &str) -> (r: bool)
    ensures
        r == texts(v@).contains(s@),
{
    let mut i: usize = 0;
    while i < v.len()
        invariant
            i <= v.len(),
            forall|k: int| 0 <= k < i ==> texts(v@)[k] != s@,
        decreases v.len() - i,
    {
        if same(&v[i], s) {
            assert(texts(v@)[i as int] == s@);
            return true;
        }
        i += 1;
    }
    false
}

// ---------------------------------------------------------------------------
// Kinds of characters

/// The characters with the Unicode property `White_Space`.
pub open spec fn white_space(c: char) -> bool {
    ||| '\u{9}' <= c <= '\u{d}'
    ||| c == ' '
    ||| c == '\u{85}'
    ||| c == '\u{a0}'
    ||| c == '\u{1680}'
    ||| '\u{2000}' <= c <= '\u{200a}'
    ||| c == '\u{2028}'
    ||| c == '\u{2029}'
    ||| c == '\u{202f}'
    ||| c == '\u{205f}'
    ||| c == '\u{3000}'
}

/// Whether a character is white space.
pub fn is_white_space(c: char) -> (r: bool)
    ensures
        r == white_space(c),
{
    ('\u{9}' <= c && c <= '\u{d}') || c == ' ' || c == '\u{85}' || c == '\u{a0}' || c == '\u{1680}'
        || ('\u{2000}' <= c && c <= '\u{200a}') || c == '\u{2028}' || c == '\u{2029}' || c
        == '\u{202f}' || c == '\u{205f}' || c == '\u{3000}'
}

/// The control characters: the Unicode general category `Cc`.
pub open spec fn control(c: char) -> bool {
    c <= '\u{1f}' || '\u{7f}' <= c <= '\u{9f}'
}

/// Whether a character is a control character.
pub fn is_control(c: char) -> (r: bool)
    ensures
        r == control(c),
{
    c <= '\u{1f}' || ('\u{7f}' <= c && c <= '\u{9f}')
}

// ---------------------------------------------------------------------------
// Prefixes, suffixes and search

/// Whether `p` stands in `s` at position `i`.
pub open spec fn occurs_at(s: Seq<char>, p: Seq<char>, i: int) -> bool {
    0 <= i && i + p.len() <= s.len() && s.subrange(i, i + p.len()) == p
}

/// Whether `s` begins with `p`.
pub open spec fn begins(s: Seq<char>, p: Seq<char>) -> bool {
    occurs_at(s, p, 0)
}

/// Whether `s` ends with `p`.
pub open spec fn ends(s: Seq<char>, p: Seq<char>) -> bool {
    occurs_at(s, p, s.len() - p.len())
}

/// What follows the prefix `p`, where `s` begins with it.
pub open spec fn after_prefix(s: Seq<char>, p: Seq<char>) -> Option<Seq<char>> {
    if begins(s, p) {
        Some(s.skip(p.len() as int))
    } else {
        None
    }
}

/// What precedes the suffix `p`, where `s` ends with it.
pub open spec fn before_suffix(s: Seq<char>, p: Seq<char>) -> Option<Seq<char>> {
    if ends(s, p) {
        Some(s.take(s.len() - p.len()))
    } else {
        None
    }
}

/// The first position from `from` on at which `p` stands in `s`.
pub open spec fn first_at(s: Seq<char>, p: Seq<char>, from: int) -> Option<int>
    decreases s.len() - from + 1,
{
    if from + p.len() > s.len() {
        None
    } else if occurs_at(s, p, from) {
        Some(from)
    } else {
        first_at(s, p, from + 1)
    }
}

/// The last position up to `upto` at which `p` stands in `s`.
pub open spec fn last_at(s: Seq<char>, p: Seq<char>, upto: int) -> Option<int>
    decreases upto + 1,
{
    if upto < 0 {
        None
    } else if occurs_at(s, p, upto) {
        Some(upto)
    } else {
        last_at(s, p, upto - 1)
    }
}

/// Whether `p` stands anywhere in `s`.
pub open spec fn has(s: Seq<char>, p: Seq<char>) -> bool {
    first_at(s, p, 0) is Some
}

/// The parts before and after the first `p`.
pub open spec fn cut_first(s: Seq<char>, p: Seq<char>) -> Option<(Seq<char>, Seq<char>)> {
    match first_at(s, p, 0) {
        Some(i) => Some((s.take(i), s.skip(i + p.len()))),
        None => None,
    }
}

/// The parts before and after the last `p`.
pub open spec fn cut_last(s: Seq<char>, p: Seq<char>) -> Option<(Seq<char>, Seq<char>)> {
    match last_at(s, p, s.len() as int) {
        Some(i) => Some((s.take(i), s.skip(i + p.len()))),
        None => None,
    }
}

/// The first position found lies in the text, and nothing earlier matches.
pub proof fn lemma_first_at(s: Seq<char>, p: Seq<char>, from: int)
    requires
        0 <= from,
    ensures
        first_at(s, p, from) matches Some(i) ==> from <= i && occurs_at(s, p, i),
        forall|j: int|
            from <= j && (first_at(s, p, from) matches Some(i) ==> j < i) ==> !#[trigger] occurs_at(
                s,
                p,
                j,
            ),
    decreases s.len() - from + 1,
{
    if from + p.len() <= s.len() && !occurs_at(s, p, from) {
        lemma_first_at(s, p, from + 1);
    }
}

/// The last position found lies in the text.
pub proof fn lemma_last_at(s: Seq<char>, p: Seq<char>, upto: int)
    ensures
        last_at(s, p, upto) matches Some(i) ==> 0 <= i <= upto && occurs_at(s, p, i),
    decreases upto + 1,
{
    if upto >= 0 && !occurs_at(s, p, upto) {
        lemma_last_at(s, p, upto - 1);
    }
}

/// Whether `p` stands in `s` at position `i`.
pub fn stands_at(s: &[char], p: &[char], i: usize) -> (r: bool)
    requires
        i <= s.len(),
    ensures
        r == occurs_at(s@, p@, i as int),
{
    if p.len() > s.len() - i {
        return false;
    }
    let mut k: usize = 0;
    while k < p.len()
        invariant
            k <= p.len(),
            i + p.len() <= s.len(),
            forall|j: int| 0 <= j < k ==> s[i + j] == p[j],
        decreases p.len() - k,
    {
        if s[i + k] != p[k] {
            proof {
                assert(s@.subrange(i as int, i + p@.len())[k as int] != p@[k as int]);
            }
            return false;
        }
        k += 1;
    }
    assert(s@.subrange(i as int, i + p@.len()) =~= p@);
    true
}

/// Whether `s` begins with `p`.
pub fn starts_with(s: &str, p: &str) -> (r: bool)
    ensures
        r == begins(s@, p@),
{
    let x = chars_of(s);
    let y = chars_of(p);
    stands_at(&x, &y, 0)
}

/// Whether `s` ends with `p`.
pub fn ends_with(s: &str, p: &str) -> (r: bool)
    ensures
        r == ends(s@, p@),
{
    let x = chars_of(s);
    let y = chars_of(p);
    if y.len() > x.len() {
        return false;
    }
    stands_at(&x, &y, x.len() - y.len())
}

/// What follows the prefix `p`, if `s` begins with it.
pub fn strip_prefix(s: &str, p: &str) -> (r: Option<String>)
    ensures
        maybe(r) == after_prefix(s@, p@),
{
    let x = chars_of(s);
    let y = chars_of(p);
    if stands_at(&x, &y, 0) {
        assert(x@.subrange(y@.len() as int, x@.len() as int) =~= s@.skip(p@.len() as int));
        Some(text_between(&x, y.len(), x.len()))
    } else {
        None
    }
}

/// What precedes the suffix `p`, if `s` ends with it.
pub fn strip_suffix(s: &str, p: &str) -> (r: Option<String>)
    ensures
        maybe(r) == before_suffix(s@, p@),
{
    let x = chars_of(s);
    let y = chars_of(p);
    if y.len() <= x.len() && stands_at(&x, &y, x.len() - y.len()) {
        assert(x@.subrange(0, x@.len() - y@.len()) =~= s@.take(s@.len() - p@.len()));
        Some(text_between(&x, 0, x.len() - y.len()))
    } else {
        None
    }
}

/// The first position of `p` in `s`, from `from` on.
pub fn find_chars(s: &[char], p: &[char], from: usize) -> (r: Option<usize>)
    requires
        from <= s.len(),
    ensures
        match r {
            Some(i) => first_at(s@, p@, from as int) == Some(i as int),
            None => first_at(s@, p@, from as int) is None,
        },
{
    let mut i: usize = from;
    while p.len() <= s.len() - i
        invariant
            from <= i <= s.len(),
            first_at(s@, p@, from as int) == first_at(s@, p@, i as int),
        decreases s.len() - i,
    {
        if stands_at(s, p, i) {
            return Some(i);
        }
        if i == s.len() {
            assert(first_at(s@, p@, i + 1) is None);
            return None;
        }
        i += 1;
    }
    None
}

/// The position of the first `p` in `s`, counted in characters.
pub fn find(s: &str, p: &str) -> (r: Option<usize>)
    ensures
        match r {
            Some(i) => first_at(s@, p@, 0) == Some(i as int),
            None => first_at(s@, p@, 0) is None,
        },
{
    let x = chars_of(s);
    let y = chars_of(p);
    find_chars(&x, &y, 0)
}

/// Whether `p` stands anywhere in `s`.
pub fn contains(s: &str, p: &str) -> (r: bool)
    ensures
        r == has(s@, p@),
{
    find(s, p).is_some()
}

/// The position of the last `p` in `s`, counted in characters.
pub fn rfind(s: &str, p: &str) -> (r: Option<usize>)
    ensures
        match r {
            Some(i) => last_at(s@, p@, s@.len() as int) == Some(i as int),
            None => last_at(s@, p@, s@.len() as int) is None,
        },
{
    let x = chars_of(s);
    let y = chars_of(p);
    let mut i: usize = x.len();
    loop
        invariant
            i <= x.len(),
            x@ == s@,
            y@ == p@,
            last_at(s@, p@, s@.len() as int) == last_at(s@, p@, i as int),
        decreases i,
    {
        if stands_at(&x, &y, i) {
            return Some(i);
        }
        if i == 0 {
            assert(last_at(s@, p@, -1) is None);
            return None;
        }
        i -= 1;
    }
}

/// The parts before and after the first `p`.
pub fn split_once(s: &str, p: &str) -> (r: Option<(String, String)>)
    ensures
        match r {
            Some((a, b)) => cut_first(s@, p@) == Some((a@, b@)),
            None => cut_first(s@, p@) is None,
        },
{
    let x = chars_of(s);
    let y = chars_of(p);
    proof {
        lemma_first_at(s@, p@, 0);
    }
    match find_chars(&x, &y, 0) {
        Some(i) => {
            let n: usize = x.len();
            let m: usize = y.len();
            assert(occurs_at(s@, p@, i as int) && i + m <= n);
            assert(x@.subrange(0, i as int) =~= s@.take(i as int));
            assert(x@.subrange(i + y@.len(), x@.len() as int) =~= s@.skip(i + p@.len()));
            Some((text_between(&x, 0, i), text_between(&x, i + m, n)))
        },
        None => None,
    }
}

/// The parts before and after the last `p`.
pub fn rsplit_once(s: &str, p: &str) -> (r: Option<(String, String)>)
    ensures
        match r {
            Some((a, b)) => cut_last(s@, p@) == Some((a@, b@)),
            None => cut_last(s@, p@) is None,
        },
{
    proof {
        lemma_last_at(s@, p@, s@.len() as int);
    }
    match rfind(s, p) {
        Some(i) => {
            let x = chars_of(s);
            let y = chars_of(p);
            let n: usize = x.len();
            let m: usize = y.len();
            assert(occurs_at(s@, p@, i as int) && i + m <= n);
            assert(x@.subrange(0, i as int) =~= s@.take(i as int));
            assert(x@.subrange(i + y@.len(), x@.len() as int) =~= s@.skip(i + p@.len()));
            Some((text_between(&x, 0, i), text_between(&x, i + m, n)))
        },
        None => None,
    }
}

// ---------------------------------------------------------------------------
// Trimming

/// The text without its leading white space.
pub open spec fn trimmed_start(s: Seq<char>) -> Seq<char>
    decreases s.len(),
{
    if s.len() > 0 && white_space(s[0]) {
        trimmed_start(s.skip(1))
    } else {
        s
    }
}

/// The text without its trailing white space.
pub open spec fn trimmed_end(s: Seq<char>) -> Seq<char>
    decreases s.len(),
{
    if s.len() > 0 && white_space(s.last()) {
        trimmed_end(s.drop_last())
    } else {
        s
    }
}

/// The text without leading and trailing white space.
pub open spec fn trimmed(s: Seq<char>) -> Seq<char> {
    trimmed_end(trimmed_start(s))
}

/// The text without the trailing repetitions of one character.
pub open spec fn trimmed_end_of(s: Seq<char>, c: char) -> Seq<char>
    decreases s.len(),
{
    if s.len() > 0 && s.last() == c {
        trimmed_end_of(s.drop_last(), c)
    } else {
        s
    }
}

/// The text without its leading white space.
pub fn trim_start(s: &str) -> (r: String)
    ensures
        r@ == trimmed_start(s@),
{
    let x = chars_of(s);
    let mut i: usize = 0;
    assert(s@.skip(0) =~= s@);
    while i < x.len() && is_white_space(x[i])
        invariant
            i <= x.len(),
            x@ == s@,
            trimmed_start(s@) == trimmed_start(s@.skip(i as int)),
        decreases x.len() - i,
    {
        assert(s@.skip(i as int).skip(1) =~= s@.skip(i + 1));
        i += 1;
    }
    assert(x@.subrange(i as int, x@.len() as int) =~= s@.skip(i as int));
    text_between(&x, i, x.len())
}

/// The text without its trailing white space.
pub fn trim_end(s: &str) -> (r: String)
    ensures
        r@ == trimmed_end(s@),
{
    let x = chars_of(s);
    let mut i: usize = x.len();
    assert(s@.take(s@.len() as int) =~= s@);
    while i > 0 && is_white_space(x[i - 1])
        invariant
            i <= x.len(),
            x@ == s@,
            trimmed_end(s@) == trimmed_end(s@.take(i as int)),
        decreases i,
    {
        assert(s@.take(i as int).drop_last() =~= s@.take(i - 1));
        i -= 1;
    }
    text_between(&x, 0, i)
}

/// The text without leading and trailing white space.
pub fn trim(s: &str) -> (r: String)
    ensures
        r@ == trimmed(s@),
{
    trim_end(&trim_start(s))
}

/// The text without the trailing repetitions of one character.
pub fn trim_end_of(s: &str, c: char) -> (r: String)
    ensures
        r@ == trimmed_end_of(s@, c),
{
    let x = chars_of(s);
    let mut i: usize = x.len();
    assert(s@.take(s@.len() as int) =~= s@);
    while i > 0 && x[i - 1] == c
        invariant
            i <= x.len(),
            x@ == s@,
            trimmed_end_of(s@, c) == trimmed_end_of(s@.take(i as int), c),
        decreases i,
    {
        assert(s@.take(i as int).drop_last() =~= s@.take(i - 1));
        i -= 1;
    }
    text_between(&x, 0, i)
}

// ---------------------------------------------------------------------------
// Splitting and joining

/// The pieces of a text between the occurrences of a separator.
pub open spec fn pieces(s: Seq<char>, c: char) -> Seq<Seq<char>>
    decreases s.len(),
{
    if s.len() == 0 {
        seq![Seq::empty()]
    } else {
        let before = pieces(s.drop_last(), c);
        if s.last() == c {
            before.push(Seq::empty())
        } else {
            before.drop_last().push(before.last().push(s.last()))
        }
    }
}

/// There is always at least one piece.
pub proof fn lemma_pieces(s: Seq<char>, c: char)
    ensures
        pieces(s, c).len() > 0,
    decreases s.len(),
{
    if s.len() > 0 {
        lemma_pieces(s.drop_last(), c);
    }
}

/// The pieces of a text between the occurrences of a separator.
pub fn split(s: &str, c: char) -> (r: Vec<String>)
    ensures
        texts(r@) == pieces(s@, c),
{
    let x = chars_of(s);
    let mut r: Vec<String> = Vec::new();
    let mut piece = String::new();
    let mut i: usize = 0;
    while i < x.len()
        invariant
            i <= x.len(),
            x@ == s@,
            pieces(s@.take(i as int), c) == texts(r@).push(piece@),
        decreases x.len() - i,
    {
        assert(s@.take(i + 1).drop_last() =~= s@.take(i as int));
        let ghost done = texts(r@);
        assert(done.push(piece@).drop_last() =~= done);
        if x[i] == c {
            let ghost last = piece@;
            r.push(piece);
            assert(texts(r@) =~= done.push(last));
            piece = String::new();
        } else {
            piece.push(x[i]);
        }
        i += 1;
    }
    assert(s@.take(s@.len() as int) =~= s@);
    let ghost done = texts(r@);
    let ghost last = piece@;
    r.push(piece);
    assert(texts(r@) =~= done.push(last));
    r
}

/// A line without the carriage return before its end.
pub open spec fn uncarriaged(s: Seq<char>) -> Seq<char> {
    if s.len() > 0 && s.last() == '\r' {
        s.drop_last()
    } else {
        s
    }
}

/// The lines of a text: each ends at a line feed, or at a carriage return and
/// a line feed; what follows the last line feed is a line unless it is empty.
pub open spec fn lines_of(s: Seq<char>) -> Seq<Seq<char>> {
    let parts = pieces(s, '\n');
    let ended = parts.drop_last().map_values(|l: Seq<char>| uncarriaged(l));
    if parts.last().len() == 0 {
        ended
    } else {
        ended.push(parts.last())
    }
}

/// The lines of a text.
pub fn lines(s: &str) -> (r: Vec<String>)
    ensures
        texts(r@) == lines_of(s@),
{
    let parts = split(s, '\n');
    let ghost all = pieces(s@, '\n');
    proof {
        lemma_pieces(s@, '\n');
    }
    assert(texts(parts@).len() == parts@.len());
    let n: usize = parts.len() - 1;
    let mut r: Vec<String> = Vec::new();
    let mut i: usize = 0;
    let ghost ended = all.drop_last().map_values(|l: Seq<char>| uncarriaged(l));
    while i < n
        invariant
            i <= n,
            n + 1 == parts.len(),
            texts(parts@) == all,
            ended == all.drop_last().map_values(|l: Seq<char>| uncarriaged(l)),
            texts(r@) == ended.take(i as int),
        decreases n - i,
    {
        let ghost done = r@;
        assert(texts(parts@)[i as int] == parts@[i as int]@);
        let line = chars_of(&parts[i]);
        let m: usize = if line.len() > 0 && line[line.len() - 1] == '\r' {
            line.len() - 1
        } else {
            line.len()
        };
        let t = text_between(&line, 0, m);
        assert(t@ =~= uncarriaged(parts@[i as int]@));
        r.push(t);
        assert(texts(r@) =~= texts(done).push(t@));
        assert(ended.take(i + 1) =~= ended.take(i as int).push(ended[i as int]));
        i += 1;
    }
    assert(ended.take(n as int) =~= ended);
    assert(texts(parts@)[n as int] == parts@[n as int]@);
    if !parts[n].as_str().is_empty() {
        let ghost done = r@;
        let last = parts[n].clone();
        r.push(last);
        assert(texts(r@) =~= texts(done).push(last@));
    }
    r
}

/// The runs of characters between white space, and the run not yet ended.
pub open spec fn word_runs(s: Seq<char>) -> (Seq<Seq<char>>, Seq<char>)
    decreases s.len(),
{
    if s.len() == 0 {
        (Seq::empty(), Seq::empty())
    } else {
        let (done, run) = word_runs(s.drop_last());
        if !white_space(s.last()) {
            (done, run.push(s.last()))
        } else if run.len() == 0 {
            (done, run)
        } else {
            (done.push(run), Seq::empty())
        }
    }
}

/// The words of a text: its longest runs without white space.
pub open spec fn words_of(s: Seq<char>) -> Seq<Seq<char>> {
    let (done, run) = word_runs(s);
    if run.len() == 0 {
        done
    } else {
        done.push(run)
    }
}

/// The words of a text.
pub fn split_whitespace(s: &str) -> (r: Vec<String>)
    ensures
        texts(r@) == words_of(s@),
{
    let x = chars_of(s);
    let mut r: Vec<String> = Vec::new();
    let mut run: Vec<char> = Vec::new();
    let mut i: usize = 0;
    while i < x.len()
        invariant
            i <= x.len(),
            x@ == s@,
            word_runs(s@.take(i as int)) == (texts(r@), run@),
        decreases x.len() - i,
    {
        assert(s@.take(i + 1).drop_last() =~= s@.take(i as int));
        let ghost done = texts(r@);
        if !is_white_space(x[i]) {
            run.push(x[i]);
        } else if run.len() > 0 {
            let word = text_of(&run);
            r.push(word);
            assert(texts(r@) =~= done.push(word@));
            run = Vec::new();
        }
        i += 1;
    }
    assert(s@.take(s@.len() as int) =~= s@);
    if run.len() > 0 {
        let ghost done = texts(r@);
        let word = text_of(&run);
        r.push(word);
        assert(texts(r@) =~= done.push(word@));
    }
    r
}

/// The texts in order with a separator between neighbours.
pub open spec fn joined(parts: Seq<Seq<char>>, sep: Seq<char>) -> Seq<char>
    decreases parts.len(),
{
    if parts.len() == 0 {
        Seq::empty()
    } else if parts.len() == 1 {
        parts[0]
    } else {
        joined(parts.drop_last(), sep) + sep + parts.last()
    }
}

/// The texts in order with a separator between neighbours.
pub fn join(parts: &Vec<String>, sep: &str) -> (r: String)
    ensures
        r@ == joined(texts(parts@), sep@),
{
    let mut r = String::new();
    let mut i: usize = 0;
    while i < parts.len()
        invariant
            i <= parts.len(),
            r@ == joined(texts(parts@).take(i as int), sep@),
        decreases parts.len() - i,
    {
        assert(texts(parts@).take(i + 1).drop_last() =~= texts(parts@).take(i as int));
        if i > 0 {
            r.append(sep);
        }
        r.append(&parts[i]);
        i += 1;
    }
    assert(texts(parts@).take(parts@.len() as int) =~= texts(parts@));
    r
}

/// One text repeated.
pub open spec fn repeated(s: Seq<char>, n: nat) -> Seq<char>
    decreases n,
{
    if n == 0 {
        Seq::empty()
    } else {
        repeated(s, (n - 1) as nat) + s
    }
}

/// One text repeated.
pub fn repeat(s: &str, n: usize) -> (r: String)
    ensures
        r@ == repeated(s@, n as nat),
{
    let mut r = String::new();
    let mut i: usize = 0;
    while i < n
        invariant
            i <= n,
            r@ == repeated(s@, i as nat),
        decreases n - i,
    {
        r.append(s);
        i += 1;
    }
    r
}

// ---------------------------------------------------------------------------
// Numbers

/// The decimal digit of a number below ten.
pub open spec fn digit_char(d: nat) -> char {
    (48 + d) as char
}

/// The decimal notation of a natural number.
pub open spec fn decimal(n: nat) -> Seq<char>
    decreases n,
{
    if n < 10 {
        seq![digit_char(n)]
    } else {
        decimal(n / 10).push(digit_char(n % 10))
    }
}

/// The decimal notation of an integer.
pub open spec fn signed_decimal(n: int) -> Seq<char> {
    if n < 0 {
        seq!['-'] + decimal((-n) as nat)
    } else {
        decimal(n as nat)
    }
}

/// The decimal notation of a number of up to 128 bits.
pub fn wide_decimal_text(n: u128) -> (r: String)
    ensures
        r@ == decimal(n as nat),
    decreases n,
{
    let d: u8 = (n % 10) as u8;
    let c: char = (48 + d) as char;
    let mut r = if n < 10 {
        String::new()
    } else {
        wide_decimal_text(n / 10)
    };
    r.push(c);
    r
}

/// The decimal notation of a number.
pub fn decimal_text(n: u64) -> (r: String)
    ensures
        r@ == decimal(n as nat),
{
    wide_decimal_text(n as u128)
}

/// The decimal notation of a signed number.
pub fn signed_text(n: i64) -> (r: String)
    ensures
        r@ == signed_decimal(n as int),
{
    if n >= 0 {
        return decimal_text(n as u64);
    }
    let m: u64 = if n == i64::MIN {
        9223372036854775808
    } else {
        (-n) as u64
    };
    let mut r = String::new();
    r.push('-');
    r.append(&decimal_text(m));
    r
}

/// The value of a run of decimal digits; nothing if another character occurs.
pub open spec fn digits_value(s: Seq<char>) -> Option<nat>
    decreases s.len(),
{
    if s.len() == 0 {
        Some(0)
    } else {
        match digits_value(s.drop_last()) {
            Some(v) => if '0' <= s.last() <= '9' {
                Some((v * 10 + (s.last() as nat - 48)) as nat)
            } else {
                None
            },
            None => None,
        }
    }
}

/// The natural number that a text denotes: digits after an optional `+`.
pub open spec fn natural(s: Seq<char>) -> Option<nat> {
    let digits = if s.len() > 0 && s[0] == '+' {
        s.skip(1)
    } else {
        s
    };
    if digits.len() == 0 {
        None
    } else {
        digits_value(digits)
    }
}

/// The integer that a text denotes: digits after an optional sign.
pub open spec fn integer(s: Seq<char>) -> Option<int> {
    if s.len() > 1 && s[0] == '-' {
        match digits_value(s.skip(1)) {
            Some(v) => Some(-(v as int)),
            None => None,
        }
    } else {
        match natural(s) {
            Some(v) => Some(v as int),
            None => None,
        }
    }
}

/// More digits never make a number smaller.
pub proof fn lemma_digits_grow(s: Seq<char>, i: int)
    requires
        0 <= i <= s.len(),
    ensures
        digits_value(s) matches Some(v) ==> (digits_value(s.take(i)) matches Some(u) && u <= v),
    decreases s.len(),
{
    if i == s.len() {
        assert(s.take(i) =~= s);
    } else {
        lemma_digits_grow(s.drop_last(), i);
        assert(s.drop_last().take(i) =~= s.take(i));
    }
}

/// The decimal notation of a number is digits that denote it.
pub proof fn lemma_decimal_digits(n: nat)
    ensures
        digits_value(decimal(n)) == Some(n),
        decimal(n).len() > 0,
        '0' <= decimal(n)[0] <= '9',
    decreases n,
{
    reveal_with_fuel(digits_value, 2);
    if n < 10 {
        assert(decimal(n).drop_last() =~= Seq::empty());
    } else {
        lemma_decimal_digits(n / 10);
        assert(decimal(n).drop_last() =~= decimal(n / 10));
    }
}

/// A number written down is read back as it was.
pub proof fn law_decimal_is_read_back(n: nat)
    ensures
        natural(decimal(n)) == Some(n),
        integer(decimal(n)) == Some(n as int),
{
    lemma_decimal_digits(n);
}

/// An integer written down is read back as it was.
pub proof fn law_signed_decimal_is_read_back(n: int)
    ensures
        integer(signed_decimal(n)) == Some(n),
{
    if n < 0 {
        lemma_decimal_digits((-n) as nat);
        let s = signed_decimal(n);
        assert(s.skip(1) =~= decimal((-n) as nat));
    } else {
        law_decimal_is_read_back(n as nat);
    }
}

/// The value of the digits from `from` on, if it does not exceed `max`.
fn digits_upto(x: &[char], from: usize, max: u64) -> (r: Option<u64>)
    requires
        from <= x.len(),
    ensures
        match r {
            Some(v) => digits_value(x@.skip(from as int)) == Some(v as nat) && v <= max,
            None => digits_value(x@.skip(from as int)) matches Some(v) ==> v > max,
        },
{
    let ghost s = x@.skip(from as int);
    let mut v: u64 = 0;
    let mut i: usize = from;
    while i < x.len()
        invariant
            from <= i <= x.len(),
            s == x@.skip(from as int),
            digits_value(s.take(i - from)) == Some(v as nat),
            v <= max,
        decreases x.len() - i,
    {
        let c = x[i];
        assert(s.take(i - from + 1).drop_last() =~= s.take(i - from));
        proof {
            lemma_digits_grow(s, i - from + 1);
        }
        if !('0' <= c && c <= '9') {
            return None;
        }
        let d: u64 = c as u64 - 48;
        let next: u128 = v as u128 * 10 + d as u128;
        if next > max as u128 {
            return None;
        }
        v = next as u64;
        i += 1;
    }
    assert(s.take(s.len() as int) =~= s);
    Some(v)
}

/// The natural number up to `max` that a text denotes.
pub fn parse_natural(s: &str, max: u64) -> (r: Option<u64>)
    ensures
        match r {
            Some(v) => natural(s@) == Some(v as nat) && v <= max,
            None => natural(s@) matches Some(v) ==> v > max,
        },
{
    let x = chars_of(s);
    let from: usize = if x.len() > 0 && x[0] == '+' {
        1
    } else {
        0
    };
    assert(s@.skip(0) =~= s@);
    if from == x.len() {
        return None;
    }
    digits_upto(&x, from, max)
}

/// The integer that a text denotes, if it lies in the range of `i64`.
pub fn parse_i64(s: &str) -> (r: Option<i64>)
    ensures
        match r {
            Some(v) => integer(s@) == Some(v as int),
            None => integer(s@) matches Some(v) ==> v < i64::MIN || v > i64::MAX,
        },
{
    let x = chars_of(s);
    if x.len() > 1 && x[0] == '-' {
        match digits_upto(&x, 1, 9223372036854775808) {
            Some(m) => if m == 9223372036854775808 {
                Some(i64::MIN)
            } else {
                Some(-(m as i64))
            },
            None => None,
        }
    } else {
        match parse_natural(s, 9223372036854775807) {
            Some(m) => Some(m as i64),
            None => None,
        }
    }
}

/// The integer that a text denotes, if it lies in the range of `i32`.
pub fn parse_i32(s: &str) -> (r: Option<i32>)
    ensures
        match r {
            Some(v) => integer(s@) == Some(v as int),
            None => integer(s@) matches Some(v) ==> v < i32::MIN || v > i32::MAX,
        },
{
    match parse_i64(s) {
        Some(v) => if -2147483648 <= v && v <= 2147483647 {
            Some(v as i32)
        } else {
            None
        },
        None => None,
    }
}

// ---------------------------------------------------------------------------
// Encoded lengths

/// The number of bytes that a character takes in UTF-8.
pub open spec fn char_bytes(c: char) -> nat {
    if c <= '\u{7f}' {
        1
    } else if c <= '\u{7ff}' {
        2
    } else if c <= '\u{ffff}' {
        3
    } else {
        4
    }
}

/// The number of bytes that a text takes in UTF-8.
pub open spec fn bytes_of(s: Seq<char>) -> nat
    decreases s.len(),
{
    if s.len() == 0 {
        0
    } else {
        bytes_of(s.drop_last()) + char_bytes(s.last())
    }
}

/// Lengths in bytes add up over a concatenation.
pub proof fn lemma_bytes_concat(a: Seq<char>, b: Seq<char>)
    ensures
        bytes_of(a + b) == bytes_of(a) + bytes_of(b),
    decreases b.len(),
{
    if b.len() == 0 {
        assert(a + b =~= a);
    } else {
        lemma_bytes_concat(a, b.drop_last());
        assert((a + b).drop_last() =~= a + b.drop_last());
    }
}

/// A character takes as many bytes as its encoding has.
proof fn lemma_char_encoded(c: char)
    ensures
        encode_scalar(c as u32).len() == char_bytes(c),
{
    char_is_scalar(c);
}

/// `bytes_of` is the length of the UTF-8 encoding.
pub proof fn lemma_bytes_encoded(s: Seq<char>)
    ensures
        encode_utf8(s).len() == bytes_of(s),
    decreases s.len(),
{
    if s.len() > 0 {
        lemma_bytes_encoded(s.drop_first());
        lemma_char_encoded(s[0]);
        let head = seq![s[0]];
        assert(s =~= head + s.drop_first());
        lemma_bytes_concat(head, s.drop_first());
        assert(head.drop_last() =~= Seq::empty());
        assert(bytes_of(head) == bytes_of(head.drop_last()) + char_bytes(s[0]));
        assert(bytes_of(Seq::<char>::empty()) == 0);
    }
}

/// The longest beginning of a text that takes at most `max` bytes.
pub open spec fn head_within(s: Seq<char>, max: nat) -> Seq<char>
    decreases s.len(),
{
    if bytes_of(s) <= max {
        s
    } else {
        head_within(s.drop_last(), max)
    }
}

/// The longest end of a text that takes at most `max` bytes.
pub open spec fn tail_within(s: Seq<char>, max: nat) -> Seq<char>
    decreases s.len(),
{
    if bytes_of(s) <= max {
        s
    } else {
        tail_within(s.drop_first(), max)
    }
}

/// The number of bytes that a character takes in UTF-8.
pub fn char_len(c: char) -> (r: usize)
    ensures
        r == char_bytes(c),
{
    if c <= '\u{7f}' {
        1
    } else if c <= '\u{7ff}' {
        2
    } else if c <= '\u{ffff}' {
        3
    } else {
        4
    }
}

/// The number of bytes that a text takes in UTF-8.
pub fn byte_len(s: &str) -> (r: usize)
    ensures
        r == bytes_of(s@),
{
    proof {
        lemma_bytes_encoded(s@);
    }
    s.as_bytes().len()
}

/// The longest beginning of a text that takes at most `max` bytes.
pub fn head_bytes(s: &str, max: usize) -> (r: String)
    ensures
        r@ == head_within(s@, max as nat),
{
    let mut total: usize = byte_len(s);
    let x = chars_of(s);
    let mut i: usize = x.len();
    assert(s@.take(s@.len() as int) =~= s@);
    while total > max
        invariant
            i <= x.len(),
            x@ == s@,
            total == bytes_of(s@.take(i as int)),
            head_within(s@, max as nat) == head_within(s@.take(i as int), max as nat),
        decreases i,
    {
        assert(s@.take(i as int).drop_last() =~= s@.take(i - 1));
        total -= char_len(x[i - 1]);
        i -= 1;
    }
    text_between(&x, 0, i)
}

/// The longest end of a text that takes at most `max` bytes.
pub fn tail_bytes(s: &str, max: usize) -> (r: String)
    ensures
        r@ == tail_within(s@, max as nat),
{
    let mut total: usize = byte_len(s);
    let x = chars_of(s);
    let mut i: usize = 0;
    assert(s@.skip(0) =~= s@);
    while total > max
        invariant
            i <= x.len(),
            x@ == s@,
            total == bytes_of(s@.skip(i as int)),
            tail_within(s@, max as nat) == tail_within(s@.skip(i as int), max as nat),
        decreases x.len() - i,
    {
        let ghost rest = s@.skip(i as int);
        assert(rest.drop_first() =~= s@.skip(i + 1));
        proof {
            let head = seq![rest[0]];
            assert(rest =~= head + rest.drop_first());
            lemma_bytes_concat(head, rest.drop_first());
            assert(head.drop_last() =~= Seq::empty());
            assert(bytes_of(head) == bytes_of(head.drop_last()) + char_bytes(rest[0]));
        }
        total -= char_len(x[i]);
        i += 1;
    }
    assert(x@.subrange(i as int, x@.len() as int) =~= s@.skip(i as int));
    text_between(&x, i, x.len())
}

// ---------------------------------------------------------------------------
// Order

/// The order of texts, character by character.
pub open spec fn precedes(a: Seq<char>, b: Seq<char>) -> bool
    decreases a.len(),
{
    if b.len() == 0 {
        false
    } else if a.len() == 0 {
        true
    } else if a[0] != b[0] {
        a[0] < b[0]
    } else {
        precedes(a.skip(1), b.skip(1))
    }
}

/// No text precedes itself.
pub proof fn lemma_precedes_irreflexive(a: Seq<char>)
    ensures
        !precedes(a, a),
    decreases a.len(),
{
    if a.len() > 0 {
        lemma_precedes_irreflexive(a.skip(1));
    }
}

/// Of two different texts one precedes the other, and not both.
pub proof fn lemma_precedes_total(a: Seq<char>, b: Seq<char>)
    ensures
        a != b ==> precedes(a, b) || precedes(b, a),
        !(precedes(a, b) && precedes(b, a)),
    decreases a.len(),
{
    if a.len() == 0 && b.len() == 0 {
        assert(a =~= b);
    } else if a.len() > 0 && b.len() > 0 && a[0] == b[0] {
        lemma_precedes_total(a.skip(1), b.skip(1));
        if a.skip(1) == b.skip(1) {
            assert(a =~= seq![a[0]] + a.skip(1));
            assert(b =~= seq![b[0]] + b.skip(1));
        }
    }
}

/// The order of texts is transitive.
pub proof fn lemma_precedes_transitive(a: Seq<char>, b: Seq<char>, c: Seq<char>)
    requires
        precedes(a, b),
        precedes(b, c),
    ensures
        precedes(a, c),
    decreases a.len(),
{
    if a.len() > 0 && a[0] == b[0] && b[0] == c[0] {
        lemma_precedes_transitive(a.skip(1), b.skip(1), c.skip(1));
    }
}

/// Whether one text stands before another.
pub fn before(a: &str, b: &str) -> (r: bool)
    ensures
        r == precedes(a@, b@),
{
    let x = chars_of(a);
    let y = chars_of(b);
    let mut i: usize = 0;
    assert(a@.skip(0) =~= a@);
    assert(b@.skip(0) =~= b@);
    while i < x.len() && i < y.len()
        invariant
            i <= x.len(),
            i <= y.len(),
            x@ == a@,
            y@ == b@,
            precedes(a@, b@) == precedes(a@.skip(i as int), b@.skip(i as int)),
        decreases x.len() - i,
    {
        if x[i] != y[i] {
            return x[i] < y[i];
        }
        assert(a@.skip(i as int).skip(1) =~= a@.skip(i + 1));
        assert(b@.skip(i as int).skip(1) =~= b@.skip(i + 1));
        i += 1;
    }
    i < y.len()
}

/// Whether texts stand in strictly increasing order.
pub open spec fn increasing(v: Seq<Seq<char>>) -> bool {
    forall|i: int, j: int| 0 <= i < j < v.len() ==> precedes(#[trigger] v[i], #[trigger] v[j])
}

/// Puts a text into a strictly increasing list, unless it is there already.
pub fn insert_text(v: &mut Vec<String>, s: String)
    requires
        increasing(texts(old(v)@)),
    ensures
        increasing(texts(final(v)@)),
        forall|t: Seq<char>| #[trigger]
            texts(final(v)@).contains(t) <==> (t == s@ || texts(old(v)@).contains(t)),
{
    let ghost entry = texts(v@);
    let mut i: usize = 0;
    while i < v.len() && before(&v[i], &s)
        invariant
            i <= v.len(),
            entry == texts(v@),
            forall|k: int| 0 <= k < i ==> precedes(#[trigger] entry[k], s@),
        decreases v.len() - i,
    {
        i += 1;
    }
    if i < v.len() && same(&v[i], &s) {
        assert(entry[i as int] == s@);
        assert(entry.contains(s@));
        return;
    }
    let ghost added = s@;
    v.insert(i, s);
    proof {
        let exit = texts(v@);
        assert(exit =~= entry.insert(i as int, added));
        if i < entry.len() {
            lemma_precedes_total(entry[i as int], added);
        }
        assert forall|a: int, b: int| 0 <= a < b < exit.len() implies precedes(
            #[trigger] exit[a],
            #[trigger] exit[b],
        ) by {
            if a == i && b > i + 1 {
                lemma_precedes_transitive(added, entry[i as int], entry[b - 1]);
            }
        }
        assert forall|t: Seq<char>| #[trigger]
            exit.contains(t) <==> (t == added || entry.contains(t)) by {
            if exit.contains(t) {
                let k = choose|k: int| 0 <= k < exit.len() && exit[k] == t;
                if k < i {
                    assert(entry[k] == t);
                } else if k > i {
                    assert(entry[k - 1] == t);
                }
            }
            if t == added {
                assert(exit[i as int] == t);
            }
            if entry.contains(t) {
                let k = choose|k: int| 0 <= k < entry.len() && entry[k] == t;
                if k < i {
                    assert(exit[k] == t);
                } else {
                    assert(exit[k + 1] == t);
                }
            }
        }
    }
}

// ---------------------------------------------------------------------------
// What the parts of texts have to do with each other

/// A text contains another exactly where the other stands somewhere in it.
pub proof fn law_contained_texts_stand_somewhere(s: Seq<char>, p: Seq<char>)
    ensures
        has(s, p) <==> exists|i: int|
            0 <= i && i + p.len() <= s.len() && #[trigger] s.subrange(i, i + p.len()) == p,
{
    lemma_first_at(s, p, 0);
    if has(s, p) {
        let i = first_at(s, p, 0)->Some_0;
        assert(s.subrange(i, i + p.len()) == p);
    }
    if exists|i: int| 0 <= i && i + p.len() <= s.len() && #[trigger] s.subrange(i, i + p.len()) == p {
        let i = choose|i: int|
            0 <= i && i + p.len() <= s.len() && #[trigger] s.subrange(i, i + p.len()) == p;
        assert(occurs_at(s, p, i));
    }
}

/// A text that is cut at another is cut at its first occurrence, and the parts
/// make up the text again.
pub proof fn law_cut_at_the_first(s: Seq<char>, p: Seq<char>)
    ensures
        match cut_first(s, p) {
            Some((a, b)) => s == a + p + b && forall|i: int|
                0 <= i < a.len() ==> !#[trigger] occurs_at(s, p, i),
            None => forall|i: int| !#[trigger] occurs_at(s, p, i),
        },
{
    lemma_first_at(s, p, 0);
    if let Some((a, b)) = cut_first(s, p) {
        let i = first_at(s, p, 0)->Some_0;
        assert(s.subrange(i, i + p.len()) == p);
        assert(s =~= s.take(i) + s.subrange(i, i + p.len()) + s.skip(i + p.len()));
    }
}

/// A text begins with another exactly where it goes on after it.
pub proof fn law_prefixes(s: Seq<char>, p: Seq<char>)
    ensures
        begins(s, p) <==> exists|rest: Seq<char>| s == #[trigger] (p + rest),
        after_prefix(s, p) matches Some(rest) ==> s == p + rest,
        after_prefix(s, p) is Some <==> begins(s, p),
        forall|rest: Seq<char>| after_prefix(#[trigger] (p + rest), p) == Some(rest),
{
    if begins(s, p) {
        assert(s.subrange(0, p.len() as int) == p);
        assert(s =~= p + s.skip(p.len() as int));
    }
    assert forall|rest: Seq<char>| after_prefix(#[trigger] (p + rest), p) == Some(rest) by {
        assert((p + rest).subrange(0, p.len() as int) =~= p);
        assert((p + rest).skip(p.len() as int) =~= rest);
    }
    if exists|rest: Seq<char>| s == #[trigger] (p + rest) {
        let rest = choose|rest: Seq<char>| s == #[trigger] (p + rest);
        assert(after_prefix(p + rest, p) == Some(rest));
    }
}

proof fn lemma_trimmed_start(s: Seq<char>)
    ensures
        ({
            let t = trimmed_start(s);
            &&& t.len() <= s.len()
            &&& t == s.skip(s.len() - t.len())
            &&& forall|i: int| 0 <= i < s.len() - t.len() ==> white_space(#[trigger] s[i])
            &&& t.len() > 0 ==> !white_space(t[0])
        }),
    decreases s.len(),
{
    if s.len() > 0 && white_space(s[0]) {
        lemma_trimmed_start(s.skip(1));
        let t = trimmed_start(s);
        assert(s.skip(1).skip(s.len() - 1 - t.len()) =~= s.skip(s.len() - t.len()));
        assert forall|i: int| 0 <= i < s.len() - t.len() implies white_space(#[trigger] s[i]) by {
            if i > 0 {
                assert(white_space(s.skip(1)[i - 1]));
            }
        }
    } else {
        assert(s.skip(0) =~= s);
    }
}

proof fn lemma_trimmed_end(s: Seq<char>)
    ensures
        ({
            let t = trimmed_end(s);
            &&& t.len() <= s.len()
            &&& t == s.take(t.len() as int)
            &&& forall|i: int| t.len() <= i < s.len() ==> white_space(#[trigger] s[i])
            &&& t.len() > 0 ==> !white_space(t.last())
        }),
    decreases s.len(),
{
    if s.len() > 0 && white_space(s.last()) {
        lemma_trimmed_end(s.drop_last());
        let t = trimmed_end(s);
        assert(s.drop_last().take(t.len() as int) =~= s.take(t.len() as int));
        assert forall|i: int| t.len() <= i < s.len() implies white_space(#[trigger] s[i]) by {
            if i < s.len() - 1 {
                assert(white_space(s.drop_last()[i]));
            }
        }
    } else {
        assert(s.take(s.len() as int) =~= s);
    }
}

/// A trimmed text is what stands between the white space around it, and neither
/// begins nor ends with white space.
pub proof fn law_trimmed_texts(s: Seq<char>)
    ensures
        exists|i: int|
            {
                &&& 0 <= i && i + trimmed(s).len() <= s.len()
                &&& #[trigger] s.subrange(i, i + trimmed(s).len()) == trimmed(s)
                &&& forall|k: int| 0 <= k < i ==> white_space(#[trigger] s[k])
                &&& forall|k: int|
                    i + trimmed(s).len() <= k < s.len() ==> white_space(#[trigger] s[k])
            },
        trimmed(s).len() > 0 ==> !white_space(trimmed(s)[0]) && !white_space(trimmed(s).last()),
{
    lemma_trimmed_start(s);
    let t = trimmed_start(s);
    lemma_trimmed_end(t);
    let r = trimmed(s);
    let i = s.len() - t.len();
    assert(s.subrange(i, i + r.len()) =~= r);
    assert forall|k: int| i + r.len() <= k < s.len() implies white_space(#[trigger] s[k]) by {
        assert(t[k - i] == s[k]);
        assert(white_space(t[k - i]));
    }
    if r.len() > 0 {
        assert(r[0] == t[0]);
    }
}

/// A text without white space at its ends stays as it is, also with white space
/// put before or after it.
pub proof fn law_trimming_takes_away_white_space(a: Seq<char>, s: Seq<char>, b: Seq<char>)
    requires
        forall|i: int| 0 <= i < a.len() ==> white_space(#[trigger] a[i]),
        forall|i: int| 0 <= i < b.len() ==> white_space(#[trigger] b[i]),
        s.len() > 0,
        !white_space(s[0]),
        !white_space(s.last()),
    ensures
        trimmed(a + s + b) == s,
{
    let w = a + s + b;
    lemma_trimmed_start(w);
    let t = trimmed_start(w);
    let n = w.len() - t.len();
    assert(n == a.len()) by {
        if n < a.len() {
            assert(t[0] == w[n]);
            assert(white_space(a[n]));
        } else if a.len() < n {
            assert(w[a.len() as int] == s[0]);
        }
    }
    lemma_trimmed_end(t);
    let r = trimmed(w);
    assert(t =~= s + b);
    assert(r.len() == s.len()) by {
        if r.len() < s.len() {
            assert(t[s.len() - 1] == s.last());
        } else if s.len() < r.len() {
            assert(r.last() == t[r.len() - 1]);
            assert(white_space(b[r.len() - 1 - s.len()]));
        }
    }
    assert(r =~= s);
}

/// The pieces of a text come one after another.
proof fn lemma_pieces_joined(a: Seq<char>, b: Seq<char>, c: char)
    ensures
        pieces(a.push(c) + b, c) == pieces(a, c) + pieces(b, c),
    decreases b.len(),
{
    lemma_pieces(a, c);
    lemma_pieces(b, c);
    let whole = a.push(c) + b;
    if b.len() == 0 {
        assert(whole =~= a.push(c));
        assert(whole.drop_last() =~= a);
        assert(pieces(whole, c) =~= pieces(a, c) + pieces(b, c));
    } else {
        lemma_pieces_joined(a, b.drop_last(), c);
        lemma_pieces(b.drop_last(), c);
        assert(whole.drop_last() =~= a.push(c) + b.drop_last());
        assert(whole.last() == b.last());
        let before = pieces(b.drop_last(), c);
        assert((pieces(a, c) + before).drop_last() =~= pieces(a, c) + before.drop_last());
        assert((pieces(a, c) + before).last() == before.last());
        assert(pieces(whole, c) =~= pieces(a, c) + pieces(b, c));
    }
}

proof fn lemma_one_piece(s: Seq<char>, c: char)
    requires
        !s.contains(c),
    ensures
        pieces(s, c) == seq![s],
    decreases s.len(),
{
    if s.len() > 0 {
        assert(s.last() == s[s.len() - 1]);
        assert forall|i: int| 0 <= i < s.drop_last().len() implies s.drop_last()[i] != c by {
            assert(s.drop_last()[i] == s[i]);
        }
        lemma_one_piece(s.drop_last(), c);
        assert(s.drop_last().push(s.last()) =~= s);
        assert(pieces(s, c) =~= seq![s]);
    } else {
        assert(s =~= Seq::empty());
    }
}

/// A text is its pieces with the separator between them, and no piece holds the
/// separator.
pub proof fn law_pieces_make_up_the_text(s: Seq<char>, c: char)
    ensures
        pieces(s, c).len() > 0,
        joined(pieces(s, c), seq![c]) == s,
        forall|i: int| 0 <= i < pieces(s, c).len() ==> !(#[trigger] pieces(s, c)[i]).contains(c),
    decreases s.len(),
{
    lemma_pieces(s, c);
    let all = pieces(s, c);
    if s.len() > 0 {
        let front = s.drop_last();
        let before = pieces(front, c);
        lemma_pieces(front, c);
        law_pieces_make_up_the_text(front, c);
        if s.last() == c {
            assert(all.drop_last() =~= before);
            assert(joined(all, seq![c]) =~= s);
            assert forall|i: int| 0 <= i < all.len() implies !(#[trigger] all[i]).contains(c) by {
                if i < before.len() {
                    assert(all[i] == before[i]);
                }
            }
        } else {
            assert(all.drop_last() =~= before.drop_last());
            assert(joined(all, seq![c]) =~= joined(before, seq![c]).push(s.last()));
            assert forall|i: int| 0 <= i < all.len() implies !(#[trigger] all[i]).contains(c) by {
                if i < before.len() - 1 {
                    assert(all[i] == before[i]);
                } else {
                    let old = before[before.len() - 1];
                    assert(all[i] == old.push(s.last()));
                    assert forall|k: int| 0 <= k < all[i].len() implies all[i][k] != c by {
                        if k < old.len() {
                            assert(old[k] == all[i][k]);
                        }
                    }
                }
            }
        }
    } else {
        assert(joined(all, seq![c]) =~= s);
    }
}

/// Texts without a separator are read back as the pieces between it.
pub proof fn law_joined_texts_are_pieces(parts: Seq<Seq<char>>, c: char)
    requires
        parts.len() > 0,
        forall|i: int| 0 <= i < parts.len() ==> !(#[trigger] parts[i]).contains(c),
    ensures
        pieces(joined(parts, seq![c]), c) == parts,
    decreases parts.len(),
{
    let last = parts[parts.len() - 1];
    lemma_one_piece(last, c);
    if parts.len() == 1 {
        assert(parts =~= seq![last]);
    } else {
        let front = parts.drop_last();
        assert forall|i: int| 0 <= i < front.len() implies !(#[trigger] front[i]).contains(c) by {
            assert(front[i] == parts[i]);
        }
        law_joined_texts_are_pieces(front, c);
        let start = joined(front, seq![c]);
        lemma_pieces_joined(start, last, c);
        assert(joined(parts, seq![c]) =~= start.push(c) + last);
        assert(front + seq![last] =~= parts);
    }
}

/// Whether a text can be a line: it holds no line feed, and ends with no
/// carriage return.
pub open spec fn is_line(s: Seq<char>) -> bool {
    !s.contains('\n') && (s.len() > 0 ==> s.last() != '\r')
}

/// Lines that are written one after another are read back, whether the last one
/// is ended or not.
pub proof fn law_lines_are_read_back(lines: Seq<Seq<char>>)
    requires
        lines.len() > 0,
        forall|i: int| 0 <= i < lines.len() ==> is_line(#[trigger] lines[i]),
    ensures
        lines_of(joined(lines, seq!['\n']).push('\n')) == lines,
        lines.last().len() > 0 ==> lines_of(joined(lines, seq!['\n'])) == lines,
{
    let text = joined(lines, seq!['\n']);
    law_joined_texts_are_pieces(lines, '\n');
    lemma_pieces_joined(text, Seq::empty(), '\n');
    assert(text.push('\n') + Seq::empty() =~= text.push('\n'));
    let parts = pieces(text.push('\n'), '\n');
    assert(parts =~= lines.push(Seq::empty()));
    assert(parts.drop_last() =~= lines);
    assert(lines_of(text.push('\n')) =~= lines);
    if lines.last().len() > 0 {
        assert(lines_of(text) =~= lines) by {
            assert(lines.drop_last().map_values(|l: Seq<char>| uncarriaged(l)).push(lines.last())
                =~= lines);
        }
    }
}

/// The lines of a text up to the end of a line and those after it are the lines
/// of the whole.
pub proof fn law_lines_come_one_after_another(a: Seq<char>, b: Seq<char>)
    ensures
        lines_of(a.push('\n') + b) == lines_of(a.push('\n')) + lines_of(b),
        lines_of(Seq::<char>::empty()).len() == 0,
        !a.contains('\n') ==> lines_of(a.push('\n')) == seq![
            if a.len() > 0 && a.last() == '\r' {
                a.drop_last()
            } else {
                a
            },
        ],
        !a.contains('\n') && a.len() > 0 ==> lines_of(a) == seq![a],
{
    lemma_pieces_joined(a, b, '\n');
    lemma_pieces_joined(a, Seq::empty(), '\n');
    lemma_pieces(a, '\n');
    lemma_pieces(b, '\n');
    assert(a.push('\n') + Seq::empty() =~= a.push('\n'));
    let x = pieces(a, '\n');
    let y = pieces(b, '\n');
    assert((x + y).drop_last() =~= x + y.drop_last());
    assert((x + y).last() == y.last());
    assert((x + seq![Seq::<char>::empty()]).drop_last() =~= x);
    assert(lines_of(a.push('\n') + b) =~= lines_of(a.push('\n')) + lines_of(b));
    if !a.contains('\n') {
        lemma_one_piece(a, '\n');
        assert(x.drop_last() =~= Seq::empty());
        if a.len() > 0 {
            assert(lines_of(a) =~= seq![a]);
        }
    }
}

/// Joined texts stand in their order with the separator between them.
pub proof fn law_joined_texts(a: Seq<Seq<char>>, b: Seq<Seq<char>>, sep: Seq<char>)
    ensures
        a.len() > 0 && b.len() > 0 ==> joined(a + b, sep) == joined(a, sep) + sep + joined(b, sep),
        a.len() == 0 ==> joined(a, sep) == Seq::<char>::empty(),
        a.len() == 1 ==> joined(a, sep) == a[0],
    decreases b.len(),
{
    if a.len() > 0 && b.len() > 0 {
        assert((a + b).drop_last() =~= a + b.drop_last());
        assert((a + b).last() == b.last());
        if b.len() == 1 {
            assert(a + b.drop_last() =~= a);
        } else {
            law_joined_texts(a, b.drop_last(), sep);
            assert(joined(a + b, sep) =~= joined(a, sep) + sep + joined(b, sep));
        }
    }
}

/// A number is written digit by digit, the most significant first.
pub proof fn law_decimal_digits(n: nat, d: nat)
    requires
        d < 10,
    ensures
        decimal(d) == seq![(48 + d) as char],
        n > 0 ==> decimal((10 * n + d) as nat) == decimal(n).push((48 + d) as char),
{
    assert((10 * n + d) / 10 == n && (10 * n + d) % 10 == d) by (nonlinear_arith)
        requires
            d < 10,
    ;
}

pub proof fn lemma_bytes_grow(s: Seq<char>, i: int, j: int)
    requires
        0 <= i <= j <= s.len(),
    ensures
        bytes_of(s.take(i)) + (j - i) <= bytes_of(s.take(j)),
        bytes_of(s.skip(j)) + (j - i) <= bytes_of(s.skip(i)),
    decreases j - i,
{
    if i < j {
        lemma_bytes_grow(s, i, j - 1);
        assert(s.take(j).drop_last() =~= s.take(j - 1));
        let one = s.subrange(j - 1, j);
        assert(s.skip(j - 1) =~= one + s.skip(j));
        lemma_bytes_concat(one, s.skip(j));
        assert(one.drop_last() =~= Seq::empty());
        assert(bytes_of(one.drop_last()) == 0);
        assert(bytes_of(one) >= 1);
    }
}

proof fn lemma_head_within(s: Seq<char>, max: nat)
    ensures
        head_within(s, max).len() <= s.len(),
        head_within(s, max) == s.take(head_within(s, max).len() as int),
        bytes_of(head_within(s, max)) <= max,
        head_within(s, max).len() < s.len() ==> bytes_of(
            s.take((head_within(s, max).len() + 1) as int),
        ) > max,
    decreases s.len(),
{
    assert(s.take(s.len() as int) =~= s);
    if bytes_of(s) > max {
        let front = s.drop_last();
        lemma_head_within(front, max);
        let n = head_within(front, max).len() as int;
        assert(front.take(n) =~= s.take(n));
        if n < front.len() {
            assert(front.take(n + 1) =~= s.take(n + 1));
        } else {
            assert(s.take(n + 1) =~= s);
        }
    }
}

/// What is kept of the beginning of a text is as much as fits: a beginning of it
/// that is not too long, while every longer one is.
pub proof fn law_heads_are_as_long_as_fits(s: Seq<char>, max: nat)
    ensures
        ({
            let head = head_within(s, max);
            &&& head.len() <= s.len() && head == s.take(head.len() as int)
            &&& bytes_of(head) <= max
            &&& forall|n: int|
                head.len() < n <= s.len() ==> bytes_of(#[trigger] s.take(n)) > max
        }),
{
    lemma_head_within(s, max);
    let head = head_within(s, max);
    assert forall|n: int| head.len() < n <= s.len() implies bytes_of(#[trigger] s.take(n)) > max by {
        lemma_bytes_grow(s, (head.len() + 1) as int, n);
    }
}

proof fn lemma_tail_within(s: Seq<char>, max: nat)
    ensures
        tail_within(s, max).len() <= s.len(),
        tail_within(s, max) == s.skip(s.len() - tail_within(s, max).len()),
        bytes_of(tail_within(s, max)) <= max,
        tail_within(s, max).len() < s.len() ==> bytes_of(
            s.skip(s.len() - tail_within(s, max).len() - 1),
        ) > max,
    decreases s.len(),
{
    assert(s.skip(0) =~= s);
    if bytes_of(s) > max {
        let back = s.drop_first();
        lemma_tail_within(back, max);
        let n = tail_within(back, max).len() as int;
        assert(back.skip(back.len() - n) =~= s.skip(s.len() - n));
        if n < back.len() {
            assert(back.skip(back.len() - n - 1) =~= s.skip(s.len() - n - 1));
        }
    }
}

/// What is kept of the end of a text is as much as fits: an end of it that is
/// not too long, while every longer one is.
pub proof fn law_tails_are_as_long_as_fits(s: Seq<char>, max: nat)
    ensures
        ({
            let tail = tail_within(s, max);
            &&& tail.len() <= s.len() && tail == s.skip(s.len() - tail.len())
            &&& bytes_of(tail) <= max
            &&& forall|n: int|
                0 <= n < s.len() - tail.len() ==> bytes_of(#[trigger] s.skip(n)) > max
        }),
{
    lemma_tail_within(s, max);
    let tail = tail_within(s, max);
    assert forall|n: int| 0 <= n < s.len() - tail.len() implies bytes_of(#[trigger] s.skip(n))
        > max by {
        lemma_bytes_grow(s, n, s.len() - tail.len() - 1);
    }
}

/// The bytes of a text are those of its characters in UTF-8.
pub proof fn law_bytes_of_texts(s: Seq<char>)
    ensures
        bytes_of(s) == vstd::utf8::encode_utf8(s).len(),
{
    lemma_bytes_encoded(s);
}

/// A text comes before another where it is a beginning of it, or where the first
/// character in which they differ is smaller.
pub proof fn law_texts_are_compared_by_their_first_difference(
    p: Seq<char>,
    a: Seq<char>,
    b: Seq<char>,
)
    requires
        a.len() > 0 && b.len() > 0 ==> a[0] != b[0],
    ensures
        precedes(p + a, p + b) == (if a.len() == 0 || b.len() == 0 {
            b.len() > 0
        } else {
            a[0] < b[0]
        }),
    decreases p.len(),
{
    if p.len() > 0 {
        law_texts_are_compared_by_their_first_difference(p.skip(1), a, b);
        assert((p + a).skip(1) =~= p.skip(1) + a);
        assert((p + b).skip(1) =~= p.skip(1) + b);
    } else {
        assert(p + a =~= a);
        assert(p + b =~= b);
    }
}

/// The words of a text are read back from what they make up with white space
/// between them.
pub proof fn law_words_are_read_back(words: Seq<Seq<char>>)
    requires
        forall|i: int, k: int|
            0 <= i < words.len() && 0 <= k < words[i].len() ==> !white_space(
                #[trigger] words[i][k],
            ),
        forall|i: int| 0 <= i < words.len() ==> (#[trigger] words[i]).len() > 0,
    ensures
        words_of(joined(words, seq![' '])) == words,
    decreases words.len(),
{
    if words.len() > 0 {
        let front = words.drop_last();
        let last = words[words.len() - 1];
        assert forall|k: int| 0 <= k < last.len() implies !white_space(#[trigger] last[k]) by {
            assert(words[words.len() - 1][k] == last[k]);
        }
        assert forall|i: int, k: int| 0 <= i < front.len() && 0 <= k < front[i].len() implies
            !white_space(#[trigger] front[i][k]) by {
            assert(words[i][k] == front[i][k]);
        }
        assert forall|i: int| 0 <= i < front.len() implies (#[trigger] front[i]).len() > 0 by {
            assert(words[i] == front[i]);
        }
        law_words_are_read_back(front);
        if words.len() == 1 {
            assert(Seq::<char>::empty() + last =~= last);
            lemma_word_runs(Seq::empty(), last);
            assert(words_of(last) =~= words);
        } else {
            let start = joined(front, seq![' ']);
            assert(joined(words, seq![' ']) =~= start.push(' ') + last);
            assert(start.push(' ').drop_last() =~= start);
            lemma_word_runs(start.push(' '), last);
            assert(words_of(joined(words, seq![' '])) =~= words);
        }
    } else {
        assert(words_of(Seq::<char>::empty()) =~= words);
    }
}

proof fn lemma_word_runs(s: Seq<char>, word: Seq<char>)
    requires
        forall|k: int| 0 <= k < word.len() ==> !white_space(#[trigger] word[k]),
    ensures
        word_runs(s + word) == (word_runs(s).0, word_runs(s).1 + word),
    decreases word.len(),
{
    if word.len() == 0 {
        assert(s + word =~= s);
        assert(word_runs(s).1 + word =~= word_runs(s).1);
    } else {
        let front = word.drop_last();
        assert forall|k: int| 0 <= k < front.len() implies !white_space(#[trigger] front[k]) by {
            assert(word[k] == front[k]);
        }
        lemma_word_runs(s, front);
        assert((s + word).drop_last() =~= s + front);
        assert((s + word).last() == word[word.len() - 1]);
        assert((word_runs(s).1 + front).push(word.last()) =~= word_runs(s).1 + word);
    }
}

} // verus!
