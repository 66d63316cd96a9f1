//! Paths as texts with `/` between their parts.
use vstd::prelude::*;
use vstd::string::*;

use crate::text::{
    before, chars_of, join, joined, law_joined_texts, law_joined_texts_are_pieces,
    law_pieces_make_up_the_text, lemma_pieces, lemma_precedes_irreflexive, lemma_precedes_total,
    lemma_precedes_transitive, lemma_texts_push, maybe, pieces, precedes, same, split,
    text_between, texts,
};

verus! {

/// Whether a path starts at the root.
pub open spec fn absolute(path: Seq<char>) -> bool {
    path.len() > 0 && path[0] == '/'
}

/// A path taken from a directory: itself where it starts at the root.
pub open spec fn path_in(directory: Seq<char>, path: Seq<char>) -> Seq<char> {
    if absolute(path) || directory.len() == 0 {
        path
    } else if directory.last() == '/' {
        directory + path
    } else {
        directory.push('/') + path
    }
}

/// Following one part of a path down from the parts before it; nothing where
/// `..` leads above the first of them.
pub open spec fn follow(parts: Option<Seq<Seq<char>>>, part: Seq<char>) -> Option<Seq<Seq<char>>> {
    match parts {
        None => None,
        Some(v) => if part.len() == 0 || part == seq!['.'] {
            Some(v)
        } else if part == seq!['.', '.'] {
            if v.len() == 0 {
                None
            } else {
                Some(v.drop_last())
            }
        } else {
            Some(v.push(part))
        },
    }
}

/// Following parts one after another.
pub open spec fn follow_all(parts: Seq<Seq<char>>) -> Option<Seq<Seq<char>>>
    decreases parts.len(),
{
    if parts.len() == 0 {
        Some(Seq::empty())
    } else {
        follow(follow_all(parts.drop_last()), parts.last())
    }
}

/// The path made of parts, from the root or not.
pub open spec fn path_of(from_root: bool, parts: Seq<Seq<char>>) -> Seq<char> {
    if from_root {
        seq!['/'] + joined(parts, seq!['/'])
    } else {
        joined(parts, seq!['/'])
    }
}

/// The path without empty parts, `.` and `..`; nothing where it leads above
/// its start.
pub open spec fn normal(path: Seq<char>) -> Option<Seq<char>> {
    match follow_all(pieces(path, '/')) {
        None => None,
        Some(parts) => Some(path_of(absolute(path), parts)),
    }
}

/// Whether a path starts at the root.
pub fn is_absolute(path: &str) -> (r: bool)
    ensures
        r == absolute(path@),
{
    let x = chars_of(path);
    x.len() > 0 && x[0] == '/'
}

/// A path taken from a directory.
pub fn join_path(directory: &str, path: &str) -> (r: String)
    ensures
        r@ == path_in(directory@, path@),
{
    if is_absolute(path) || directory.is_empty() {
        return path.to_owned();
    }
    let x = chars_of(directory);
    let mut r = directory.to_owned();
    if x[x.len() - 1] != '/' {
        r.push('/');
    }
    r.append(path);
    r
}

/// The path without empty parts, `.` and `..`.
pub fn normalize(path: &str) -> (r: Result<String, String>)
    ensures
        match r {
            Ok(p) => normal(path@) == Some(p@),
            Err(e) => normal(path@) is None && e@ == "path escapes its root: "@ + path@,
        },
{
    broadcast use lemma_texts_push;

    proof {
        reveal_strlit(".");
        reveal_strlit("..");
        reveal_strlit("/");
        assert("."@ =~= seq!['.']);
        assert(".."@ =~= seq!['.', '.']);
        assert("/"@ =~= seq!['/']);
    }
    let parts = split(path, '/');
    let ghost all = pieces(path@, '/');
    let mut kept: Vec<String> = Vec::new();
    assert(texts(kept@) =~= Seq::empty());
    assert(all.take(0) =~= Seq::empty());
    let mut i: usize = 0;
    while i < parts.len()
        invariant
            i <= parts.len(),
            all == texts(parts@),
            all == pieces(path@, '/'),
            "."@ == seq!['.'],
            ".."@ == seq!['.', '.'],
            follow_all(all.take(i as int)) == Some(texts(kept@)),
        decreases parts.len() - i,
    {
        assert(all.take(i + 1).drop_last() =~= all.take(i as int));
        let part = &parts[i];
        assert(all.take(i + 1).last() == part@);
        if part.as_str().is_empty() || same(part, ".") {
        } else if same(part, "..") {
            if kept.len() == 0 {
                proof {
                    lemma_follow_none(all, i + 1);
                }
                return Err("path escapes its root: ".to_owned().concat(path));
            }
            let ghost before = texts(kept@);
            kept.pop();
            assert(texts(kept@) =~= before.drop_last());
        } else {
            kept.push(part.clone());
        }
        i += 1;
    }
    assert(all.take(all.len() as int) =~= all);
    let rest = join(&kept, "/");
    if is_absolute(path) {
        let mut r = String::new();
        r.push('/');
        r.append(&rest);
        Ok(r)
    } else {
        Ok(rest)
    }
}

proof fn lemma_follow_none(parts: Seq<Seq<char>>, i: int)
    requires
        0 <= i <= parts.len(),
        follow_all(parts.take(i)) is None,
    ensures
        follow_all(parts) is None,
    decreases parts.len(),
{
    if i == parts.len() {
        assert(parts.take(i) =~= parts);
    } else {
        assert(parts.drop_last().take(i) =~= parts.take(i));
        lemma_follow_none(parts.drop_last(), i);
    }
}

/// The file that a tool call names, taken from the workspace and allowed to
/// leave it. `root` is the workspace as the file system knows it.
pub fn unrestricted_path(root: &str, requested: &str) -> (r: Result<String, String>)
    ensures
        match r {
            Ok(p) => normal(path_in(root@, requested@)) == Some(p@),
            Err(e) => normal(path_in(root@, requested@)) is None && e@
                == "path escapes its root: "@ + path_in(root@, requested@),
        },
{
    normalize(&join_path(root, requested))
}

/// The parts of a path that hold no `.`, `..` or empty part lead where they say.
proof fn lemma_follow_plain(parts: Seq<Seq<char>>)
    requires
        forall|i: int| 0 <= i < parts.len() ==> plain(#[trigger] parts[i]),
    ensures
        follow_all(parts) == Some(parts),
    decreases parts.len(),
{
    if parts.len() > 0 {
        assert forall|i: int| 0 <= i < parts.drop_last().len() implies plain(
            #[trigger] parts.drop_last()[i],
        ) by {
            assert(parts.drop_last()[i] == parts[i]);
        }
        lemma_follow_plain(parts.drop_last());
        assert(plain(parts[parts.len() - 1]));
        assert(parts.drop_last().push(parts.last()) =~= parts);
    } else {
        assert(parts =~= Seq::empty());
    }
}

/// Whether a part of a path stands for a name in a directory.
pub open spec fn plain(part: Seq<char>) -> bool {
    part.len() > 0 && part != seq!['.'] && part != seq!['.', '.'] && !part.contains('/')
}

proof fn lemma_followed_plain(parts: Seq<Seq<char>>)
    requires
        forall|i: int| 0 <= i < parts.len() ==> !(#[trigger] parts[i]).contains('/'),
    ensures
        follow_all(parts) matches Some(v) ==> forall|i: int|
            0 <= i < v.len() ==> plain(#[trigger] v[i]),
    decreases parts.len(),
{
    if parts.len() > 0 {
        assert forall|i: int| 0 <= i < parts.drop_last().len() implies !(
        #[trigger] parts.drop_last()[i]).contains('/') by {
            assert(parts.drop_last()[i] == parts[i]);
        }
        lemma_followed_plain(parts.drop_last());
        assert(parts.last() == parts[parts.len() - 1]);
    }
}

/// No piece holds the separator.
proof fn lemma_pieces_hold_none(s: Seq<char>, c: char)
    ensures
        forall|i: int| 0 <= i < pieces(s, c).len() ==> !(#[trigger] pieces(s, c)[i]).contains(c),
    decreases s.len(),
{
    if s.len() > 0 {
        lemma_pieces_hold_none(s.drop_last(), c);
        lemma_pieces(s.drop_last(), c);
        let before = pieces(s.drop_last(), c);
        let after = pieces(s, c);
        assert forall|i: int| 0 <= i < after.len() implies !(#[trigger] after[i]).contains(c) by {
            if i < before.len() - 1 {
                assert(after[i] == before[i]);
            } else if s.last() == c {
                if i == before.len() - 1 {
                    assert(after[i] == before[i]);
                }
            } else {
                assert(!before[before.len() - 1].contains(c));
                assert forall|k: int| 0 <= k < after[i].len() implies after[i][k] != c by {
                    if k < before.last().len() {
                        assert(after[i][k] == before.last()[k]);
                    }
                }
            }
        }
    }
}

/// Splitting what follows a separator-free beginning adds to its last piece.
proof fn lemma_pieces_append(s: Seq<char>, t: Seq<char>, c: char)
    requires
        !t.contains(c),
    ensures
        pieces(s + t, c) == pieces(s, c).drop_last().push(pieces(s, c).last() + t),
    decreases t.len(),
{
    lemma_pieces(s, c);
    if t.len() == 0 {
        assert(s + t =~= s);
        assert(pieces(s, c).last() + t =~= pieces(s, c).last());
        assert(pieces(s, c).drop_last().push(pieces(s, c).last()) =~= pieces(s, c));
    } else {
        let u = t.drop_last();
        assert(!u.contains(c)) by {
            if u.contains(c) {
                let k = choose|k: int| 0 <= k < u.len() && u[k] == c;
                assert(t[k] == c);
            }
        }
        lemma_pieces_append(s, u, c);
        assert((s + t).drop_last() =~= s + u);
        assert(t.last() == t[t.len() - 1]);
        assert((s + t).last() == t.last());
        let last = pieces(s, c).last();
        assert((last + u).push(t.last()) =~= last + t);
        assert(pieces(s + u, c).drop_last() =~= pieces(s, c).drop_last());
    }
}

/// Splitting what has been joined gives the parts back.
proof fn lemma_split_joined(parts: Seq<Seq<char>>)
    requires
        parts.len() > 0,
        forall|i: int| 0 <= i < parts.len() ==> !(#[trigger] parts[i]).contains('/'),
    ensures
        pieces(joined(parts, seq!['/']), '/') == parts,
    decreases parts.len(),
{
    let empty = Seq::<char>::empty();
    assert(pieces(empty, '/') =~= seq![empty]);
    if parts.len() == 1 {
        lemma_pieces_append(empty, parts[0], '/');
        assert(empty + parts[0] =~= parts[0]);
        assert(pieces(empty, '/').drop_last().push(pieces(empty, '/').last() + parts[0])
            =~= parts);
    } else {
        let rest = parts.drop_last();
        assert forall|i: int| 0 <= i < rest.len() implies !(#[trigger] rest[i]).contains('/') by {
            assert(rest[i] == parts[i]);
        }
        lemma_split_joined(rest);
        let front = joined(rest, seq!['/']) + seq!['/'];
        assert(front.drop_last() =~= joined(rest, seq!['/']));
        assert(pieces(front, '/') == rest.push(empty));
        assert(parts.last() == parts[parts.len() - 1]);
        lemma_pieces_append(front, parts.last(), '/');
        assert(rest.push(empty).drop_last() =~= rest);
        assert(empty + parts.last() =~= parts.last());
        assert(rest.push(parts.last()) =~= parts);
    }
}

/// Once normal, a path from the root stays as it is.
pub proof fn law_normal_path_is_stable(path: Seq<char>)
    requires
        absolute(path),
        normal(path) is Some,
    ensures
        absolute(normal(path)->Some_0),
        normal(normal(path)->Some_0) == normal(path),
{
    let parts = follow_all(pieces(path, '/'))->Some_0;
    lemma_pieces_hold_none(path, '/');
    lemma_followed_plain(pieces(path, '/'));
    let text = path_of(true, parts);
    let empty = Seq::<char>::empty();
    assert(text[0] == '/');
    if parts.len() == 0 {
        assert(text =~= seq!['/']);
        assert(text.drop_last() =~= empty);
        assert(pieces(empty, '/') =~= seq![empty]);
        assert(pieces(text, '/') =~= seq![empty, empty]);
        lemma_follow_empty(parts);
        assert(seq![empty, empty].drop_last() =~= seq![empty]);
        assert(seq![empty] + parts =~= seq![empty]);
    } else {
        let named = seq![empty] + parts;
        assert forall|i: int| 0 <= i < named.len() implies !(#[trigger] named[i]).contains('/') by {
            if i > 0 {
                assert(plain(parts[i - 1]));
            }
        }
        lemma_split_joined(named);
        lemma_joined_first(parts);
        lemma_follow_plain(parts);
        lemma_follow_empty(parts);
    }
}

/// An empty first part joins as the separator alone.
proof fn lemma_joined_first(parts: Seq<Seq<char>>)
    requires
        parts.len() > 0,
    ensures
        joined(seq![Seq::<char>::empty()] + parts, seq!['/']) == seq!['/'] + joined(
            parts,
            seq!['/'],
        ),
    decreases parts.len(),
{
    let all = seq![Seq::<char>::empty()] + parts;
    assert(all.drop_last() =~= seq![Seq::<char>::empty()] + parts.drop_last());
    if parts.len() == 1 {
        assert(all.drop_last() =~= seq![Seq::<char>::empty()]);
        assert(joined(all.drop_last(), seq!['/']) == Seq::<char>::empty());
        assert(joined(all, seq!['/']) =~= seq!['/'] + parts[0]);
    } else {
        lemma_joined_first(parts.drop_last());
        assert(joined(all, seq!['/']) =~= seq!['/'] + joined(parts, seq!['/']));
    }
}

/// An empty first part leads nowhere.
proof fn lemma_follow_empty(parts: Seq<Seq<char>>)
    ensures
        follow_all(seq![Seq::<char>::empty()] + parts) == follow_all(parts),
    decreases parts.len(),
{
    let all = seq![Seq::<char>::empty()] + parts;
    if parts.len() == 0 {
        assert(parts =~= Seq::empty());
        assert(all.drop_last() =~= Seq::empty());
        assert(follow_all(all.drop_last()) == Some(Seq::<Seq<char>>::empty()));
    } else {
        assert(all.drop_last() =~= seq![Seq::<char>::empty()] + parts.drop_last());
        lemma_follow_empty(parts.drop_last());
    }
}

// ---------------------------------------------------------------------------
// Parts of a path

/// The parts of a path that count: those that are not empty, and of those that
/// are `.` only the very first of the path.
pub open spec fn named_parts(parts: Seq<Seq<char>>) -> Seq<Seq<char>>
    decreases parts.len(),
{
    if parts.len() == 0 {
        Seq::empty()
    } else if parts.last().len() == 0 || (parts.last() == seq!['.'] && parts.len() > 1) {
        named_parts(parts.drop_last())
    } else {
        named_parts(parts.drop_last()).push(parts.last())
    }
}

/// The parts of a path. A path from the root begins with an empty part, so that
/// only a path from elsewhere can begin with `.`.
pub open spec fn parts_of(path: Seq<char>) -> Seq<Seq<char>> {
    named_parts(pieces(path, '/'))
}

/// A path without what follows its last part.
pub open spec fn without_end(path: Seq<char>) -> Seq<char>
    decreases path.len(),
{
    if path.len() > 1 && (path.last() == '/' || (path.last() == '.' && path[path.len() - 2]
        == '/')) {
        without_end(path.drop_last())
    } else {
        path
    }
}

/// Where the last part of a path begins.
pub open spec fn name_start(path: Seq<char>) -> int
    decreases path.len(),
{
    if path.len() == 0 || path.last() == '/' {
        path.len() as int
    } else {
        name_start(path.drop_last())
    }
}

/// The path of the directory that holds what a path leads to; none for the root
/// and for the empty path.
pub open spec fn parent_of(path: Seq<char>) -> Option<Seq<char>> {
    let whole = without_end(path);
    if whole.len() == 0 || whole == seq!['/'] {
        None
    } else {
        Some(without_end(whole.take(name_start(whole))))
    }
}

proof fn lemma_without_end(path: Seq<char>)
    ensures
        without_end(path).len() <= path.len(),
        without_end(path).len() > 1 ==> without_end(path).last() != '/',
    decreases path.len(),
{
    if path.len() > 1 {
        lemma_without_end(path.drop_last());
    }
}

proof fn lemma_name_start(path: Seq<char>)
    ensures
        0 <= name_start(path) <= path.len(),
        path.len() > 0 && path.last() != '/' ==> name_start(path) < path.len(),
    decreases path.len(),
{
    if path.len() > 0 {
        lemma_name_start(path.drop_last());
    }
}

/// The path of a directory is shorter than those of what it holds.
proof fn lemma_parent_is_shorter(path: Seq<char>)
    ensures
        parent_of(path) matches Some(parent) ==> parent.len() < path.len(),
{
    let whole = without_end(path);
    lemma_without_end(path);
    lemma_name_start(whole);
    if whole.len() == 1 && whole.last() == '/' {
        assert(whole =~= seq!['/']);
    }
    lemma_without_end(whole.take(name_start(whole)));
}

/// A path, the directory above it, and so on up to the root.
pub open spec fn dirs_of(path: Seq<char>) -> Seq<Seq<char>>
    decreases path.len(),
    via dirs_of_decreases
{
    match parent_of(path) {
        Some(parent) => seq![path] + dirs_of(parent),
        None => seq![path],
    }
}

#[via_fn]
proof fn dirs_of_decreases(path: Seq<char>) {
    lemma_parent_is_shorter(path);
}

/// The parts of a path.
pub fn split_path(path: &str) -> (r: Vec<String>)
    ensures
        texts(r@) == parts_of(path@),
{
    broadcast use lemma_texts_push;

    proof {
        reveal_strlit(".");
        assert("."@ =~= seq!['.']);
    }
    let parts = split(path, '/');
    let ghost all = pieces(path@, '/');
    let mut r: Vec<String> = Vec::new();
    assert(texts(r@) =~= Seq::empty());
    assert(all.take(0) =~= Seq::empty());
    let mut i: usize = 0;
    while i < parts.len()
        invariant
            i <= parts.len(),
            all == texts(parts@),
            "."@ == seq!['.'],
            texts(r@) == named_parts(all.take(i as int)),
        decreases parts.len() - i,
    {
        assert(all.take(i + 1).drop_last() =~= all.take(i as int));
        assert(all.take(i + 1).last() == parts@[i as int]@);
        if !parts[i].as_str().is_empty() && (i == 0 || !same(&parts[i], ".")) {
            r.push(parts[i].clone());
        }
        i += 1;
    }
    assert(all.take(all.len() as int) =~= all);
    r
}

/// Where a path ends without what follows its last part.
fn find_end(path: &Vec<char>, to: usize) -> (r: usize)
    requires
        to <= path.len(),
    ensures
        r <= to,
        path@.take(r as int) == without_end(path@.take(to as int)),
{
    let mut end: usize = to;
    while end > 1 && (path[end - 1] == '/' || (path[end - 1] == '.' && path[end - 2] == '/'))
        invariant
            end <= to <= path.len(),
            without_end(path@.take(to as int)) == without_end(path@.take(end as int)),
        decreases end,
    {
        assert(path@.take(end as int).drop_last() =~= path@.take(end - 1));
        end -= 1;
    }
    end
}

/// The path of the directory that holds what a path leads to.
pub fn parent_path(path: &str) -> (r: Option<String>)
    ensures
        maybe(r) == parent_of(path@),
{
    let all = chars_of(path);
    assert(all@.take(all@.len() as int) =~= path@);
    let end = find_end(&all, all.len());
    let ghost whole = without_end(path@);
    if end == 0 {
        return None;
    }
    if end == 1 && all[0] == '/' {
        assert(whole =~= seq!['/']);
        return None;
    }
    assert(whole[0] == all@[0]);
    let mut start: usize = end;
    while start > 0 && all[start - 1] != '/'
        invariant
            start <= end <= all.len(),
            whole == all@.take(end as int),
            name_start(whole) == name_start(all@.take(start as int)),
        decreases start,
    {
        assert(all@.take(start as int).drop_last() =~= all@.take(start - 1));
        start -= 1;
    }
    assert(whole.take(start as int) =~= all@.take(start as int));
    let to = find_end(&all, start);
    let parent = text_between(&all, 0, to);
    assert(parent@ =~= all@.take(to as int));
    Some(parent)
}

/// A path, the directory above it, and so on up to the root.
pub fn ancestors(path: &str) -> (r: Vec<String>)
    ensures
        texts(r@) == dirs_of(path@),
{
    broadcast use lemma_texts_push;

    let mut r: Vec<String> = Vec::new();
    let mut current = path.to_owned();
    assert(texts(r@) + dirs_of(current@) =~= dirs_of(path@));
    loop
        invariant_except_break
            texts(r@) + dirs_of(current@) == dirs_of(path@),
        ensures
            texts(r@) == dirs_of(path@),
        decreases current@.len(),
    {
        let above = parent_path(&current);
        proof {
            lemma_parent_is_shorter(current@);
        }
        let ghost before = texts(r@);
        let ghost here = current@;
        r.push(current);
        match above {
            Some(parent) => {
                assert(before.push(here) + dirs_of(parent@) =~= before + (seq![here] + dirs_of(
                    parent@,
                )));
                current = parent;
            },
            None => {
                assert(before.push(here) =~= before + seq![here]);
                break;
            },
        }
    }
    r
}

// ---------------------------------------------------------------------------
// The order of paths

/// Whether two paths have the same components.
pub open spec fn same_path(a: Seq<char>, b: Seq<char>) -> bool {
    absolute(a) == absolute(b) && parts_of(a) == parts_of(b)
}

/// The place of a part among the kinds of parts: `.`, `..`, and names.
pub open spec fn part_rank(part: Seq<char>) -> int {
    if part == seq!['.'] {
        0
    } else if part == seq!['.', '.'] {
        1
    } else {
        2
    }
}

/// The order of parts: by their kinds, and names as texts.
pub open spec fn part_precedes(a: Seq<char>, b: Seq<char>) -> bool {
    if part_rank(a) != part_rank(b) {
        part_rank(a) < part_rank(b)
    } else {
        part_rank(a) == 2 && precedes(a, b)
    }
}

/// The order of lists of parts, part by part.
pub open spec fn parts_precede(a: Seq<Seq<char>>, b: Seq<Seq<char>>) -> bool
    decreases a.len(),
{
    if b.len() == 0 {
        false
    } else if a.len() == 0 {
        true
    } else if a[0] != b[0] {
        part_precedes(a[0], b[0])
    } else {
        parts_precede(a.skip(1), b.skip(1))
    }
}

/// The order of paths, component by component: those that start at the root
/// before the others.
pub open spec fn path_precedes(a: Seq<char>, b: Seq<char>) -> bool {
    if absolute(a) != absolute(b) {
        if absolute(a) {
            parts_of(b).len() > 0
        } else {
            parts_of(a).len() == 0
        }
    } else {
        parts_precede(parts_of(a), parts_of(b))
    }
}

/// Whether two paths have the same components.
pub fn is_same_path(a: &str, b: &str) -> (r: bool)
    ensures
        r == same_path(a@, b@),
{
    let x = split_path(a);
    let y = split_path(b);
    let ghost p = parts_of(a@);
    let ghost q = parts_of(b@);
    assert(p.len() == x@.len() && q.len() == y@.len());
    if is_absolute(a) != is_absolute(b) || x.len() != y.len() {
        return false;
    }
    let mut i: usize = 0;
    while i < x.len()
        invariant
            i <= x.len(),
            x.len() == y.len(),
            p == texts(x@),
            q == texts(y@),
            p == parts_of(a@),
            q == parts_of(b@),
            p.len() == q.len(),
            p.len() == x@.len(),
            forall|k: int| 0 <= k < i ==> p[k] == q[k],
        decreases x.len() - i,
    {
        assert(p[i as int] == x@[i as int]@ && q[i as int] == y@[i as int]@);
        if !same(&x[i], &y[i]) {
            return false;
        }
        i += 1;
    }
    assert(p =~= q);
    true
}

fn rank_part(part: &str) -> (r: u8)
    ensures
        r == part_rank(part@),
{
    proof {
        reveal_strlit(".");
        reveal_strlit("..");
        assert("."@ =~= seq!['.']);
        assert(".."@ =~= seq!['.', '.']);
    }
    if same(part, ".") {
        0
    } else if same(part, "..") {
        1
    } else {
        2
    }
}

fn part_before(a: &str, b: &str) -> (r: bool)
    ensures
        r == part_precedes(a@, b@),
{
    let x: u8 = rank_part(a);
    let y: u8 = rank_part(b);
    if x != y {
        x < y
    } else {
        x == 2 && before(a, b)
    }
}

/// Whether the parts of one path stand before those of another.
fn parts_before(a: &Vec<String>, b: &Vec<String>) -> (r: bool)
    ensures
        r == parts_precede(texts(a@), texts(b@)),
{
    let ghost x = texts(a@);
    let ghost y = texts(b@);
    assert(x.skip(0) =~= x);
    assert(y.skip(0) =~= y);
    let mut i: usize = 0;
    while i < a.len() && i < b.len()
        invariant
            i <= a.len(),
            i <= b.len(),
            x == texts(a@),
            y == texts(b@),
            parts_precede(x, y) == parts_precede(x.skip(i as int), y.skip(i as int)),
        decreases a.len() - i,
    {
        assert(x.skip(i as int)[0] == a@[i as int]@);
        assert(y.skip(i as int)[0] == b@[i as int]@);
        if !same(&a[i], &b[i]) {
            return part_before(&a[i], &b[i]);
        }
        assert(x.skip(i as int).skip(1) =~= x.skip(i + 1));
        assert(y.skip(i as int).skip(1) =~= y.skip(i + 1));
        i += 1;
    }
    i < b.len()
}

/// Whether one path stands before another, component by component.
pub fn path_before(a: &str, b: &str) -> (r: bool)
    ensures
        r == path_precedes(a@, b@),
{
    let x = split_path(a);
    let y = split_path(b);
    assert(texts(x@).len() == x@.len() && texts(y@).len() == y@.len());
    let from_root = is_absolute(a);
    if from_root != is_absolute(b) {
        if from_root {
            y.len() > 0
        } else {
            x.len() == 0
        }
    } else {
        parts_before(&x, &y)
    }
}

proof fn lemma_part_order(a: Seq<char>, b: Seq<char>)
    ensures
        !part_precedes(a, a),
        a != b ==> part_precedes(a, b) != part_precedes(b, a),
{
    lemma_precedes_irreflexive(a);
    lemma_precedes_total(a, b);
}

proof fn lemma_part_order_transitive(a: Seq<char>, b: Seq<char>, c: Seq<char>)
    requires
        part_precedes(a, b),
        part_precedes(b, c),
    ensures
        part_precedes(a, c),
{
    if part_rank(a) == 2 && part_rank(b) == 2 && part_rank(c) == 2 {
        lemma_precedes_transitive(a, b, c);
    }
}

proof fn lemma_parts_order(a: Seq<Seq<char>>, b: Seq<Seq<char>>)
    ensures
        a == b ==> !parts_precede(a, b),
        a != b ==> parts_precede(a, b) != parts_precede(b, a),
    decreases a.len(),
{
    if a.len() == 0 && b.len() == 0 {
        assert(a =~= b);
    } else if a.len() > 0 && b.len() > 0 {
        lemma_part_order(a[0], b[0]);
        if a[0] == b[0] {
            lemma_parts_order(a.skip(1), b.skip(1));
            assert(a =~= seq![a[0]] + a.skip(1));
            assert(b =~= seq![b[0]] + b.skip(1));
        }
    }
}

proof fn lemma_parts_order_transitive(a: Seq<Seq<char>>, b: Seq<Seq<char>>, c: Seq<Seq<char>>)
    requires
        parts_precede(a, b),
        parts_precede(b, c),
    ensures
        parts_precede(a, c),
    decreases a.len(),
{
    if a.len() > 0 {
        lemma_part_order(a[0], b[0]);
        lemma_part_order(b[0], c[0]);
        if a[0] == b[0] && b[0] == c[0] {
            lemma_parts_order_transitive(a.skip(1), b.skip(1), c.skip(1));
        } else if a[0] != b[0] && b[0] != c[0] {
            lemma_part_order_transitive(a[0], b[0], c[0]);
            lemma_part_order(a[0], c[0]);
        }
    }
}

/// Of two paths one stands before the other, unless they are the same.
pub proof fn lemma_path_order(a: Seq<char>, b: Seq<char>)
    ensures
        same_path(a, b) ==> !path_precedes(a, b),
        !same_path(a, b) ==> path_precedes(a, b) != path_precedes(b, a),
{
    lemma_parts_order(parts_of(a), parts_of(b));
}

/// The order of paths is transitive.
pub proof fn lemma_path_order_transitive(a: Seq<char>, b: Seq<char>, c: Seq<char>)
    requires
        path_precedes(a, b),
        path_precedes(b, c),
    ensures
        path_precedes(a, c),
{
    if absolute(a) == absolute(b) && absolute(b) == absolute(c) {
        lemma_parts_order_transitive(parts_of(a), parts_of(b), parts_of(c));
    }
}

// ---------------------------------------------------------------------------
// What paths have to do with each other

/// A relative path is taken in a directory, with one slash between them; an
/// absolute one stays.
pub proof fn law_paths_in_a_directory(directory: Seq<char>, path: Seq<char>)
    ensures
        path.len() > 0 && path[0] == '/' ==> path_in(directory, path) == path,
        !(path.len() > 0 && path[0] == '/') && directory.len() > 0 && directory.last() != '/'
            ==> path_in(directory, path) == directory + seq!['/'] + path,
        !(path.len() > 0 && path[0] == '/') && directory.len() > 0 && directory.last() == '/'
            ==> path_in(directory, path) == directory + path,
        directory.len() == 0 ==> path_in(directory, path) == path,
{
    assert(directory.push('/') + path =~= directory + seq!['/'] + path);
}

proof fn lemma_pieces_of_joined_path(path: Seq<char>, name: Seq<char>)
    requires
        !name.contains('/'),
    ensures
        pieces(path.push('/') + name, '/') == pieces(path, '/').push(name),
{
    let one = seq![name];
    law_joined_texts_are_pieces(one, '/');
    assert(joined(one, seq!['/']) == name);
    law_pieces_make_up_the_text(path, '/');
    law_pieces_make_up_the_text(name, '/');
    let all = pieces(path, '/').push(name);
    assert forall|i: int| 0 <= i < all.len() implies !(#[trigger] all[i]).contains('/') by {
        if i < pieces(path, '/').len() {
            assert(all[i] == pieces(path, '/')[i]);
        }
    }
    law_joined_texts(pieces(path, '/'), one, seq!['/']);
    assert(pieces(path, '/') + one =~= all);
    assert(joined(all, seq!['/']) =~= path.push('/') + name);
    law_joined_texts_are_pieces(all, '/');
}

/// A name below a path leads to that name below what the path leads to; a dot
/// leads nowhere else, and two dots lead one level up again. Nothing leads above
/// the beginning.
pub proof fn law_paths_are_followed(path: Seq<char>, name: Seq<char>)
    requires
        path.len() > 0,
        plain(name),
    ensures
        normal(path.push('/').push('.')) == normal(path),
        normal((path.push('/') + name).push('/').push('.').push('.')) == normal(path),
        normal(path) is None ==> normal(path.push('/') + name) is None,
        normal(path) matches Some(to) ==> normal(path.push('/') + name) == Some(
            if to.len() == 0 || to == seq!['/'] {
                to + name
            } else {
                to.push('/') + name
            },
        ),
        normal(seq!['/', '.', '.']) is None,
        normal(seq!['.', '.']) is None,
{
    let dot = seq!['.'];
    let up = seq!['.', '.'];
    let below = path.push('/') + name;
    assert(!dot.contains('/'));
    assert(!up.contains('/'));
    lemma_pieces_of_joined_path(path, dot);
    lemma_pieces_of_joined_path(path, name);
    lemma_pieces_of_joined_path(below, up);
    assert(path.push('/') + dot =~= path.push('/').push('.'));
    assert(below.push('/') + up =~= below.push('/').push('.').push('.'));
    let parts = pieces(path, '/');
    assert(parts.push(dot).drop_last() =~= parts);
    assert(parts.push(name).drop_last() =~= parts);
    assert(parts.push(name).push(up).drop_last() =~= parts.push(name));
    assert(path.push('/').push('.')[0] == path[0]);
    assert(below[0] == path[0]);
    assert(below.push('/').push('.').push('.')[0] == path[0]);
    if let Some(v) = follow_all(parts) {
        assert(v.push(name).drop_last() =~= v);
        let to = normal(path)->Some_0;
        law_pieces_make_up_the_text(path, '/');
        lemma_followed_parts(parts);
        law_joined_texts(v, seq![name], seq!['/']);
        assert(v + seq![name] =~= v.push(name));
        law_joined_texts(v, v, seq!['/']);
        if v.len() == 0 {
            assert(v.push(name) =~= seq![name]);
            assert(joined(v, seq!['/']) =~= Seq::empty());
            if absolute(path) {
                assert(to =~= seq!['/']);
                assert(seq!['/'] + name =~= to + name);
            } else {
                assert(to =~= Seq::empty());
                assert(to + name =~= name);
            }
        } else {
            let text = joined(v, seq!['/']);
            lemma_joined_is_long(v);
            assert(joined(v.push(name), seq!['/']) == text + seq!['/'] + name);
            if absolute(path) {
                assert(to =~= seq!['/'] + text);
                assert(to.len() > 1);
                assert(seq!['/'] + (text + seq!['/'] + name) =~= to.push('/') + name);
            } else {
                assert(to == text);
                assert(text + seq!['/'] + name =~= to.push('/') + name);
                if to == seq!['/'] {
                    assert(to[0] == v[0][0]);
                }
            }
        }
    }
    let root = Seq::<char>::empty();
    lemma_pieces_of_joined_path(root, up);
    assert(root.push('/') + up =~= seq!['/', '.', '.']);
    assert(pieces(root, '/') =~= seq![root]);
    let first = seq![root].push(up);
    assert(first.drop_last() =~= seq![root]);
    assert(seq![root].drop_last() =~= Seq::empty());
    assert(follow_all(seq![root].drop_last()) == Some(Seq::<Seq<char>>::empty()));
    assert(follow_all(seq![root]) == Some(Seq::<Seq<char>>::empty()));
    assert(follow_all(first) is None);
    law_joined_texts_are_pieces(seq![up], '/');
    assert(pieces(up, '/') =~= seq![up]);
    assert(seq![up].drop_last() =~= Seq::empty());
    assert(follow_all(seq![up].drop_last()) == Some(Seq::<Seq<char>>::empty()));
    assert(follow_all(seq![up]) is None);
}

proof fn lemma_followed_parts(parts: Seq<Seq<char>>)
    requires
        forall|i: int| 0 <= i < parts.len() ==> !(#[trigger] parts[i]).contains('/'),
    ensures
        follow_all(parts) matches Some(v) ==> forall|i: int|
            0 <= i < v.len() ==> plain(#[trigger] v[i]),
    decreases parts.len(),
{
    if parts.len() > 0 {
        let front = parts.drop_last();
        assert forall|i: int| 0 <= i < front.len() implies !(#[trigger] front[i]).contains('/') by {
            assert(front[i] == parts[i]);
        }
        lemma_followed_parts(front);
        assert(parts.last() == parts[parts.len() - 1]);
        if let Some(v) = follow_all(parts) {
            let before = follow_all(front)->Some_0;
            assert forall|i: int| 0 <= i < v.len() implies plain(#[trigger] v[i]) by {
                if i < before.len() {
                    assert(v[i] == before[i]);
                }
            }
        }
    }
}

proof fn lemma_joined_is_long(v: Seq<Seq<char>>)
    requires
        v.len() > 0,
        forall|i: int| 0 <= i < v.len() ==> plain(#[trigger] v[i]),
    ensures
        joined(v, seq!['/']).len() > 0,
        joined(v, seq!['/'])[0] == v[0][0],
        v[0][0] != '/',
    decreases v.len(),
{
    assert(plain(v[0]));
    assert(v[0].contains(v[0][0]));
    if v.len() > 1 {
        let front = v.drop_last();
        assert forall|i: int| 0 <= i < front.len() implies plain(#[trigger] front[i]) by {
            assert(v[i] == front[i]);
        }
        lemma_joined_is_long(front);
    }
}

/// The parts of a path below another are those of the other and the name.
pub proof fn law_parts_of_paths(path: Seq<char>, name: Seq<char>)
    requires
        plain(name),
    ensures
        parts_of(path.push('/') + name) == parts_of(path).push(name),
        parts_of(path.push('/')) == parts_of(path),
        parts_of(path.push('/').push('.')) == parts_of(path),
{
    let none = Seq::<char>::empty();
    let dot = seq!['.'];
    assert(!none.contains('/'));
    assert(!dot.contains('/'));
    lemma_pieces_of_joined_path(path, name);
    lemma_pieces_of_joined_path(path, none);
    lemma_pieces_of_joined_path(path, dot);
    law_pieces_make_up_the_text(path, '/');
    assert(path.push('/') + none =~= path.push('/'));
    assert(path.push('/') + dot =~= path.push('/').push('.'));
    let parts = pieces(path, '/');
    assert(parts.push(name).drop_last() =~= parts);
    assert(parts.push(none).drop_last() =~= parts);
    assert(parts.push(dot).drop_last() =~= parts);
}

/// The directory that holds a name is what stands before it; a name alone is
/// held by the empty path, and the root by none.
pub proof fn law_parents_hold_their_names(directory: Seq<char>, name: Seq<char>)
    requires
        plain(name),
    ensures
        directory.len() > 0 && directory.last() != '/' && !(directory.len() > 1 && directory.last()
            == '.' && directory[directory.len() - 2] == '/') ==> parent_of(
            directory.push('/') + name,
        ) == Some(directory),
        parent_of(seq!['/'] + name) == Some(seq!['/']),
        parent_of(name) == Some(Seq::<char>::empty()),
        parent_of(seq!['/']) is None,
        parent_of(Seq::<char>::empty()) is None,
{
    lemma_name_kept(directory.push('/'), name);
    lemma_name_kept(seq!['/'], name);
    lemma_name_kept(Seq::empty(), name);
    assert(Seq::<char>::empty() + name =~= name);
    let a = directory.push('/') + name;
    let b = seq!['/'] + name;
    assert(a.take(directory.len() as int + 1) =~= directory.push('/'));
    assert(b.take(1) =~= seq!['/']);
    assert(name.take(0) =~= Seq::empty());
    assert(directory.push('/').drop_last() =~= directory);
    if directory.len() > 0 {
        assert(without_end(directory.push('/')) == without_end(directory));
    }
    if b == seq!['/'] {
        assert(b.len() == 1);
    }
    if name == seq!['/'] {
        assert(name.contains(name[0]));
    }
    if a == seq!['/'] {
        assert(a.len() == 1);
    }
}

proof fn lemma_name_kept(front: Seq<char>, name: Seq<char>)
    requires
        plain(name),
        front.len() == 0 || front.last() == '/',
    ensures
        without_end(front + name) == front + name,
        name_start(front + name) == front.len(),
{
    let path = front + name;
    assert(name.contains(name.last()));
    assert(path.last() == name.last());
    if name.last() == '.' {
        if name.len() == 1 {
            assert(name =~= seq!['.']);
        } else {
            assert(path[path.len() - 2] == name[name.len() - 2]);
            assert(name.contains(name[name.len() - 2]));
        }
    }
    lemma_name_begins(front, name);
}

proof fn lemma_name_begins(front: Seq<char>, name: Seq<char>)
    requires
        !name.contains('/'),
        front.len() == 0 || front.last() == '/',
    ensures
        name_start(front + name) == front.len(),
    decreases name.len(),
{
    let path = front + name;
    if name.len() == 0 {
        assert(path =~= front);
    } else {
        assert(path.last() == name.last());
        assert(name.contains(name.last()));
        assert(path.drop_last() =~= front + name.drop_last());
        assert forall|i: int| 0 <= i < name.drop_last().len() implies name.drop_last()[i] != '/' by {
            assert(name.contains(name[i]));
        }
        lemma_name_begins(front, name.drop_last());
    }
}

/// The directories of a path begin with the path itself, each is held by the one
/// after it, and the last is held by none.
pub proof fn law_directories_lead_up(path: Seq<char>)
    ensures
        dirs_of(path).len() > 0,
        dirs_of(path)[0] == path,
        forall|i: int|
            0 <= i < dirs_of(path).len() - 1 ==> parent_of(#[trigger] dirs_of(path)[i]) == Some(
                dirs_of(path)[i + 1],
            ),
        parent_of(dirs_of(path).last()) is None,
    decreases path.len(),
{
    if let Some(parent) = parent_of(path) {
        lemma_parent_is_shorter(path);
        law_directories_lead_up(parent);
        let all = dirs_of(path);
        let rest = dirs_of(parent);
        assert forall|i: int| 0 <= i < all.len() - 1 implies parent_of(#[trigger] all[i]) == Some(
            all[i + 1],
        ) by {
            if i > 0 {
                assert(all[i] == rest[i - 1]);
            }
            assert(all[i + 1] == rest[i]);
        }
    }
}

} // verus!
