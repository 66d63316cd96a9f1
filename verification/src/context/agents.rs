//! The instructions that a project keeps in `AGENTS.md` files.
use vstd::prelude::*;
use vstd::string::*;

use crate::seqs::{lemma_picks_last, lemma_picks_nothing, picks};
use crate::text::{holds_text, lemma_texts_push, lemma_views_push, maybe_view, same, texts, views};
use crate::tools::path::{
    absolute, ancestors, dirs_of, is_absolute, is_same_path, join_path, lemma_path_order,
    lemma_path_order_transitive, parent_of, parent_path, parts_of, path_before, path_in,
    path_precedes, same_path, split_path,
};

verus! {

/// A file of instructions.
#[derive(Debug, PartialEq, Eq)]
pub struct AgentsFile {
    pub path: String,
    pub content: String,
}

/// The model of an [`AgentsFile`].
pub struct AgentsView {
    pub path: Seq<char>,
    pub content: Seq<char>,
}

impl View for AgentsFile {
    type V = AgentsView;

    open spec fn view(&self) -> AgentsView {
        AgentsView { path: self.path@, content: self.content@ }
    }
}

impl Clone for AgentsFile {
    fn clone(&self) -> (r: AgentsFile)
        ensures
            r@ == self@,
    {
        AgentsFile { path: self.path.clone(), content: self.content.clone() }
    }
}

/// The first place from `from` on that is among given ones.
pub open spec fn first_among(dirs: Seq<Seq<char>>, known: Seq<Seq<char>>, from: int) -> Option<int>
    decreases dirs.len() - from,
{
    if from >= dirs.len() {
        None
    } else if known.contains(dirs[from]) {
        Some(from)
    } else {
        first_among(dirs, known, from + 1)
    }
}

/// How far up instructions are looked for: to the nearest repository, or only in
/// the directory itself where there is none.
pub open spec fn boundary(dirs: Seq<Seq<char>>, repositories: Seq<Seq<char>>) -> int {
    match first_among(dirs, repositories, 0) {
        Some(i) => i,
        None => 0,
    }
}

/// Where instructions for a directory are looked for, the broadest first.
pub open spec fn candidates_of(cwd: Seq<char>, repositories: Seq<Seq<char>>) -> Seq<Seq<char>> {
    let dirs = dirs_of(cwd);
    let n = boundary(dirs, repositories);
    Seq::new((n + 1) as nat, |i: int| path_in(dirs[n - i], "AGENTS.md"@))
}

/// The first of the files with a path.
pub open spec fn file_at(files: Seq<AgentsView>, path: Seq<char>, from: int) -> Option<AgentsView>
    decreases files.len() - from,
{
    if from >= files.len() {
        None
    } else if files[from].path == path {
        Some(files[from])
    } else {
        file_at(files, path, from + 1)
    }
}

/// The files that were found at paths, in the order of the paths.
pub open spec fn files_at(files: Seq<AgentsView>, paths: Seq<Seq<char>>) -> Seq<AgentsView>
    decreases paths.len(),
{
    if paths.len() == 0 {
        Seq::empty()
    } else {
        match file_at(files, paths.last(), 0) {
            Some(f) => files_at(files, paths.drop_last()).push(f),
            None => files_at(files, paths.drop_last()),
        }
    }
}

/// The instructions that hold in a directory: those of the user first, then
/// those of the project from the broadest to the most specific.
pub open spec fn agents_for(
    cwd: Seq<char>,
    global: Option<AgentsView>,
    repositories: Seq<Seq<char>>,
    found: Seq<AgentsView>,
) -> Seq<AgentsView> {
    (match global {
        Some(f) => seq![f],
        None => Seq::empty(),
    }) + files_at(found, candidates_of(cwd, repositories))
}

proof fn lemma_first_among(dirs: Seq<Seq<char>>, known: Seq<Seq<char>>, from: int)
    requires
        0 <= from,
    ensures
        first_among(dirs, known, from) matches Some(i) ==> from <= i < dirs.len(),
    decreases dirs.len() - from,
{
    if from < dirs.len() && !known.contains(dirs[from]) {
        lemma_first_among(dirs, known, from + 1);
    }
}

/// Where instructions for a directory are looked for, the broadest first.
/// `repositories` are those of the directories above it that hold `.git`.
pub fn agents_candidates(cwd: &str, repositories: &Vec<String>) -> (r: Vec<String>)
    ensures
        texts(r@) == candidates_of(cwd@, texts(repositories@)),
{
    broadcast use lemma_texts_push;

    let dirs = ancestors(cwd);
    let ghost all = dirs_of(cwd@);
    let ghost known = texts(repositories@);
    proof {
        lemma_first_among(all, known, 0);
    }
    assert(all.len() > 0 && all.len() == dirs@.len());
    let mut n: usize = 0;
    let mut i: usize = 0;
    while i < dirs.len()
        invariant_except_break
            i <= dirs.len(),
            n == 0,
            all == texts(dirs@),
            known == texts(repositories@),
            first_among(all, known, 0) == first_among(all, known, i as int),
        ensures
            n == boundary(all, known),
        decreases dirs.len() - i,
    {
        assert(all[i as int] == dirs@[i as int]@);
        if holds_text(repositories, &dirs[i]) {
            n = i;
            break;
        }
        i += 1;
    }
    let ghost paths = candidates_of(cwd@, known);
    let mut r: Vec<String> = Vec::new();
    assert(texts(r@) =~= paths.take(0));
    let mut k: usize = 0;
    while k <= n
        invariant
            k <= n + 1,
            n < dirs.len(),
            all == texts(dirs@),
            all == dirs_of(cwd@),
            known == texts(repositories@),
            n == boundary(all, known),
            paths == candidates_of(cwd@, known),
            texts(r@) == paths.take(k as int),
        decreases n + 1 - k,
    {
        assert(all[n - k] == dirs@[n - k]@);
        r.push(join_path(&dirs[n - k], "AGENTS.md"));
        assert(paths.take(k + 1) =~= paths.take(k as int).push(paths[k as int]));
        k += 1;
    }
    assert(paths.take(paths.len() as int) =~= paths);
    r
}

fn find_file(files: &Vec<AgentsFile>, path: &str) -> (r: Option<AgentsFile>)
    ensures
        maybe_view(r) == file_at(views(files@), path@, 0),
{
    let ghost all = views(files@);
    let mut i: usize = 0;
    while i < files.len()
        invariant
            i <= files.len(),
            all == views(files@),
            file_at(all, path@, 0) == file_at(all, path@, i as int),
        decreases files.len() - i,
    {
        assert(all[i as int] == files@[i as int]@);
        if same(&files[i].path, path) {
            return Some(files[i].clone());
        }
        i += 1;
    }
    None
}

/// The instructions that hold in a directory. `global` are those of the user,
/// `repositories` the directories above that hold `.git`, and `found` the files
/// that there are at the candidates.
pub fn discover_agents(
    cwd: &str,
    global: &Option<AgentsFile>,
    repositories: &Vec<String>,
    found: &Vec<AgentsFile>,
) -> (r: Vec<AgentsFile>)
    ensures
        views(r@) == agents_for(
            cwd@,
            maybe_view(*global),
            texts(repositories@),
            views(found@),
        ),
{
    broadcast use lemma_views_push;

    let mut r: Vec<AgentsFile> = Vec::new();
    if let Some(f) = global {
        r.push(f.clone());
    }
    let ghost first = views(r@);
    assert(first =~= match maybe_view(*global) {
        Some(f) => seq![f],
        None => Seq::empty(),
    });
    let paths = agents_candidates(cwd, repositories);
    let ghost all = texts(paths@);
    let ghost known = views(found@);
    assert(all.take(0) =~= Seq::empty());
    assert(first + files_at(known, all.take(0)) =~= first);
    let mut i: usize = 0;
    while i < paths.len()
        invariant
            i <= paths.len(),
            all == texts(paths@),
            known == views(found@),
            views(r@) == first + files_at(known, all.take(i as int)),
        decreases paths.len() - i,
    {
        assert(all.take(i + 1).drop_last() =~= all.take(i as int));
        assert(all.take(i + 1).last() == paths@[i as int]@);
        if let Some(f) = find_file(found, &paths[i]) {
            let ghost before = files_at(known, all.take(i as int));
            r.push(f);
            assert(first + before.push(f@) =~= (first + before).push(f@));
        }
        i += 1;
    }
    assert(all.take(all.len() as int) =~= all);
    r
}

// ---------------------------------------------------------------------------
// Instructions for several directories

/// How many components a path has, the root among them.
pub open spec fn depth_of(path: Seq<char>) -> nat {
    parts_of(path).len() + (if absolute(path) {
        1nat
    } else {
        0
    })
}

/// Whether a path is that of the user's instructions.
pub open spec fn is_users(path: Seq<char>, global: Option<Seq<char>>) -> bool {
    global matches Some(g) && same_path(path, g)
}

/// The order in which instructions are given: those of the user first, then by
/// depth, then by path.
pub open spec fn given_before(a: Seq<char>, b: Seq<char>, global: Option<Seq<char>>) -> bool {
    if is_users(a, global) != is_users(b, global) {
        is_users(a, global)
    } else if depth_of(a) != depth_of(b) {
        depth_of(a) < depth_of(b)
    } else {
        path_precedes(a, b)
    }
}

/// The place of a path among files that are in order.
pub open spec fn place_of(
    files: Seq<AgentsView>,
    path: Seq<char>,
    global: Option<Seq<char>>,
    from: int,
) -> int
    decreases files.len() - from,
{
    if from >= files.len() {
        files.len() as int
    } else if given_before(files[from].path, path, global) {
        place_of(files, path, global, from + 1)
    } else {
        from
    }
}

/// The place of the first file with a path.
pub open spec fn place_at(files: Seq<AgentsView>, path: Seq<char>, from: int) -> Option<int>
    decreases files.len() - from,
{
    if from >= files.len() {
        None
    } else if same_path(files[from].path, path) {
        Some(from)
    } else {
        place_at(files, path, from + 1)
    }
}

/// The files with one more: in place of the one with its path, or else at its
/// place.
pub open spec fn with_file(files: Seq<AgentsView>, f: AgentsView, global: Option<Seq<char>>) -> Seq<
    AgentsView,
> {
    match place_at(files, f.path, 0) {
        Some(i) => files.update(i, f),
        None => files.insert(place_of(files, f.path, global, 0), f),
    }
}

/// The files with more of them, each at its place.
pub open spec fn with_all(
    files: Seq<AgentsView>,
    more: Seq<AgentsView>,
    global: Option<Seq<char>>,
) -> Seq<AgentsView>
    decreases more.len(),
{
    if more.len() == 0 {
        files
    } else {
        with_file(with_all(files, more.drop_last(), global), more.last(), global)
    }
}

/// The files that hold in directories, one directory after another.
pub open spec fn with_directories(
    files: Seq<AgentsView>,
    directories: Seq<Seq<char>>,
    global: Option<Seq<char>>,
    repositories: Seq<Seq<char>>,
    found: Seq<AgentsView>,
) -> Seq<AgentsView>
    decreases directories.len(),
{
    if directories.len() == 0 {
        files
    } else {
        with_all(
            with_directories(files, directories.drop_last(), global, repositories, found),
            agents_for(directories.last(), None, repositories, found),
            global,
        )
    }
}

/// The instructions that hold in a directory and in those of targets.
pub open spec fn agents_for_all(
    cwd: Seq<char>,
    global: Option<AgentsView>,
    directories: Seq<Seq<char>>,
    repositories: Seq<Seq<char>>,
    found: Seq<AgentsView>,
) -> Seq<AgentsView> {
    let top = path_at(global);
    with_directories(
        with_all(Seq::empty(), agents_for(cwd, global, repositories, found), top),
        directories,
        top,
        repositories,
        found,
    )
}

/// The path of the user's instructions.
pub open spec fn path_at(global: Option<AgentsView>) -> Option<Seq<char>> {
    match global {
        Some(g) => Some(g.path),
        None => None,
    }
}

fn count_components(path: &str) -> (r: u128)
    ensures
        r == depth_of(path@),
{
    let parts = split_path(path);
    assert(texts(parts@).len() == parts@.len());
    if is_absolute(path) {
        parts.len() as u128 + 1
    } else {
        parts.len() as u128
    }
}

fn goes_before(a: &AgentsFile, b: &AgentsFile, global: &Option<AgentsFile>) -> (r: bool)
    ensures
        r == given_before(a@.path, b@.path, path_at(maybe_view(*global))),
{
    let (a_first, b_first) = match global {
        Some(g) => (is_same_path(&a.path, &g.path), is_same_path(&b.path, &g.path)),
        None => (false, false),
    };
    if a_first != b_first {
        return a_first;
    }
    let x: u128 = count_components(&a.path);
    let y: u128 = count_components(&b.path);
    if x != y {
        x < y
    } else {
        path_before(&a.path, &b.path)
    }
}

fn add_file(files: &mut Vec<AgentsFile>, f: &AgentsFile, global: &Option<AgentsFile>)
    ensures
        views(final(files)@) == with_file(views(old(files)@), f@, path_at(maybe_view(*global))),
{
    let ghost all = views(files@);
    let ghost top = path_at(maybe_view(*global));
    let mut k: usize = 0;
    while k < files.len()
        invariant
            k <= files.len(),
            all == views(files@),
            top == path_at(maybe_view(*global)),
            place_at(all, f@.path, 0) == place_at(all, f@.path, k as int),
            all == views(old(files)@),
        decreases files.len() - k,
    {
        assert(all[k as int] == files@[k as int]@);
        if is_same_path(&files[k].path, &f.path) {
            files.set(k, f.clone());
            assert(views(files@) =~= all.update(k as int, f@));
            return;
        }
        k += 1;
    }
    let mut i: usize = 0;
    while i < files.len() && goes_before(&files[i], f, global)
        invariant
            i <= files.len(),
            all == views(files@),
            top == path_at(maybe_view(*global)),
            place_of(all, f@.path, top, 0) == place_of(all, f@.path, top, i as int),
        decreases files.len() - i,
    {
        assert(all[i as int] == files@[i as int]@);
        i += 1;
    }
    assert(i < all.len() ==> all[i as int] == files@[i as int]@);
    files.insert(i, f.clone());
    assert(views(files@) =~= all.insert(i as int, f@));
}

fn add_files(files: &mut Vec<AgentsFile>, more: &Vec<AgentsFile>, global: &Option<AgentsFile>)
    ensures
        views(final(files)@) == with_all(
            views(old(files)@),
            views(more@),
            path_at(maybe_view(*global)),
        ),
{
    let ghost first = views(files@);
    let ghost all = views(more@);
    let ghost top = path_at(maybe_view(*global));
    assert(all.take(0) =~= Seq::empty());
    let mut i: usize = 0;
    while i < more.len()
        invariant
            i <= more.len(),
            all == views(more@),
            top == path_at(maybe_view(*global)),
            views(files@) == with_all(first, all.take(i as int), top),
        decreases more.len() - i,
    {
        assert(all.take(i + 1).drop_last() =~= all.take(i as int));
        assert(all.take(i + 1).last() == more@[i as int]@);
        add_file(files, &more[i], global);
        i += 1;
    }
    assert(all.take(all.len() as int) =~= all);
}

/// The directory whose instructions hold for a target: itself, or the one that
/// holds it, or else the working directory.
pub fn target_directory(target: &str, is_directory: bool, cwd: &str) -> (r: String)
    ensures
        r@ == (if is_directory {
            target@
        } else {
            match parent_of(target@) {
                Some(parent) => parent,
                None => cwd@,
            }
        }),
{
    if is_directory {
        target.to_owned()
    } else {
        match parent_path(target) {
            Some(parent) => parent,
            None => cwd.to_owned(),
        }
    }
}

/// The instructions that hold in a directory and in those of targets, each file
/// once: those of the user first, then by depth and path.
pub fn discover_agents_for_targets(
    cwd: &str,
    global: &Option<AgentsFile>,
    directories: &Vec<String>,
    repositories: &Vec<String>,
    found: &Vec<AgentsFile>,
) -> (r: Vec<AgentsFile>)
    ensures
        views(r@) == agents_for_all(
            cwd@,
            maybe_view(*global),
            texts(directories@),
            texts(repositories@),
            views(found@),
        ),
{
    let ghost top = path_at(maybe_view(*global));
    let mut files: Vec<AgentsFile> = Vec::new();
    assert(views(files@) =~= Seq::empty());
    let here = discover_agents(cwd, global, repositories, found);
    add_files(&mut files, &here, global);
    let ghost first = views(files@);
    let ghost all = texts(directories@);
    assert(all.take(0) =~= Seq::empty());
    let none: Option<AgentsFile> = None;
    let mut i: usize = 0;
    while i < directories.len()
        invariant
            i <= directories.len(),
            all == texts(directories@),
            none is None,
            top == path_at(maybe_view(*global)),
            views(files@) == with_directories(
                first,
                all.take(i as int),
                top,
                texts(repositories@),
                views(found@),
            ),
        decreases directories.len() - i,
    {
        assert(all.take(i + 1).drop_last() =~= all.take(i as int));
        assert(all.take(i + 1).last() == directories@[i as int]@);
        let there = discover_agents(&directories[i], &none, repositories, found);
        add_files(&mut files, &there, global);
        i += 1;
    }
    assert(all.take(all.len() as int) =~= all);
    files
}

// ---------------------------------------------------------------------------
// What holds of instructions

/// Whether files are in order, no two with one path.
pub open spec fn in_order(files: Seq<AgentsView>, global: Option<Seq<char>>) -> bool {
    forall|i: int, j: int|
        0 <= i < j < files.len() ==> #[trigger] given_before(files[i].path, files[j].path, global)
}

/// Whether there is a file with a path.
pub open spec fn has_path(files: Seq<AgentsView>, path: Seq<char>) -> bool {
    exists|i: int| 0 <= i < files.len() && same_path((#[trigger] files[i]).path, path)
}

/// The order in which instructions are given is a strict one, in which two paths
/// stand at the same place only where they are the same.
proof fn lemma_given_before(a: Seq<char>, b: Seq<char>, global: Option<Seq<char>>)
    ensures
        same_path(a, b) ==> !given_before(a, b, global),
        !same_path(a, b) ==> given_before(a, b, global) != given_before(b, a, global),
{
    lemma_path_order(a, b);
}

proof fn lemma_given_before_transitive(
    a: Seq<char>,
    b: Seq<char>,
    c: Seq<char>,
    global: Option<Seq<char>>,
)
    requires
        given_before(a, b, global),
        given_before(b, c, global),
    ensures
        given_before(a, c, global),
{
    if depth_of(a) == depth_of(b) && depth_of(b) == depth_of(c) && path_precedes(a, b)
        && path_precedes(b, c) {
        lemma_path_order_transitive(a, b, c);
    }
}

proof fn lemma_place_at(files: Seq<AgentsView>, path: Seq<char>, from: int)
    requires
        0 <= from,
    ensures
        match place_at(files, path, from) {
            Some(i) => from <= i < files.len() && same_path(files[i].path, path),
            None => forall|k: int|
                from <= k < files.len() ==> !same_path((#[trigger] files[k]).path, path),
        },
    decreases files.len() - from,
{
    if from < files.len() && !same_path(files[from].path, path) {
        lemma_place_at(files, path, from + 1);
    }
}

proof fn lemma_place_of(
    files: Seq<AgentsView>,
    path: Seq<char>,
    global: Option<Seq<char>>,
    from: int,
)
    requires
        0 <= from <= files.len(),
    ensures
        ({
            let at = place_of(files, path, global, from);
            &&& from <= at <= files.len()
            &&& forall|k: int|
                from <= k < at ==> given_before((#[trigger] files[k]).path, path, global)
            &&& at < files.len() ==> !given_before(files[at].path, path, global)
        }),
    decreases files.len() - from,
{
    if from < files.len() && given_before(files[from].path, path, global) {
        lemma_place_of(files, path, global, from + 1);
    }
}

/// The same path stands at the same place in the order.
proof fn lemma_same_place(
    a: Seq<char>,
    b: Seq<char>,
    c: Seq<char>,
    global: Option<Seq<char>>,
)
    requires
        same_path(a, b),
    ensures
        given_before(a, c, global) == given_before(b, c, global),
        given_before(c, a, global) == given_before(c, b, global),
{
}

/// A file in place of the one with its path keeps the order.
proof fn lemma_replaced(files: Seq<AgentsView>, f: AgentsView, at: int, global: Option<Seq<char>>)
    requires
        in_order(files, global),
        0 <= at < files.len(),
        same_path(files[at].path, f.path),
    ensures
        in_order(files.update(at, f), global),
{
    let after = files.update(at, f);
    assert forall|i: int, j: int| 0 <= i < j < after.len() implies #[trigger] given_before(
        after[i].path,
        after[j].path,
        global,
    ) by {
        assert(given_before(files[i].path, files[j].path, global));
        if i == at {
            lemma_same_place(files[at].path, f.path, files[j].path, global);
        } else if j == at {
            lemma_same_place(files[at].path, f.path, files[i].path, global);
        }
    }
}

/// A file at its place keeps the order.
proof fn lemma_inserted(files: Seq<AgentsView>, f: AgentsView, at: int, global: Option<Seq<char>>)
    requires
        in_order(files, global),
        0 <= at <= files.len(),
        forall|k: int| 0 <= k < at ==> given_before((#[trigger] files[k]).path, f.path, global),
        at < files.len() ==> given_before(f.path, files[at].path, global),
    ensures
        in_order(files.insert(at, f), global),
{
    let after = files.insert(at, f);
    assert forall|i: int, j: int| 0 <= i < j < after.len() implies #[trigger] given_before(
        after[i].path,
        after[j].path,
        global,
    ) by {
        if j < at {
            assert(given_before(files[i].path, files[j].path, global));
        } else if j == at {
            assert(after[i] == files[i]);
        } else if i == at {
            assert(after[j] == files[j - 1]);
            if j - 1 > at {
                assert(given_before(files[at].path, files[j - 1].path, global));
                lemma_given_before_transitive(
                    f.path,
                    files[at].path,
                    files[j - 1].path,
                    global,
                );
            }
        } else if i < at {
            assert(given_before(files[i].path, files[j - 1].path, global));
        } else {
            assert(given_before(files[i - 1].path, files[j - 1].path, global));
        }
    }
}

/// One more file keeps the order.
proof fn lemma_with_file_order(files: Seq<AgentsView>, f: AgentsView, global: Option<Seq<char>>)
    requires
        in_order(files, global),
    ensures
        in_order(with_file(files, f, global), global),
{
    lemma_place_at(files, f.path, 0);
    match place_at(files, f.path, 0) {
        Some(at) => {
            lemma_replaced(files, f, at, global);
        },
        None => {
            let at = place_of(files, f.path, global, 0);
            lemma_place_of(files, f.path, global, 0);
            if at < files.len() {
                assert(!same_path(files[at].path, f.path));
                lemma_given_before(files[at].path, f.path, global);
            }
            lemma_inserted(files, f, at, global);
        },
    }
}

/// One more file is found, with those that were there.
proof fn lemma_with_file_path(
    files: Seq<AgentsView>,
    f: AgentsView,
    global: Option<Seq<char>>,
    path: Seq<char>,
)
    requires
        has_path(files, path) || same_path(f.path, path),
    ensures
        has_path(with_file(files, f, global), path),
{
    let after = with_file(files, f, global);
    lemma_place_at(files, f.path, 0);
    lemma_place_of(files, f.path, global, 0);
    let (at, shift) = match place_at(files, f.path, 0) {
        Some(at) => (at, 0int),
        None => (place_of(files, f.path, global, 0), 1int),
    };
    assert(after[at] == f);
    if !same_path(f.path, path) {
        let i = choose|i: int| 0 <= i < files.len() && same_path((#[trigger] files[i]).path, path);
        if i < at {
            assert(same_path(after[i].path, path));
        } else {
            assert(same_path(after[i + shift].path, path));
        }
    } else {
        assert(same_path(after[at].path, path));
    }
}

/// What is found besides one more file was there.
proof fn lemma_with_file_source(
    files: Seq<AgentsView>,
    f: AgentsView,
    global: Option<Seq<char>>,
    g: AgentsView,
)
    requires
        with_file(files, f, global).contains(g),
    ensures
        g == f || files.contains(g),
{
    let after = with_file(files, f, global);
    let i = choose|i: int| 0 <= i < after.len() && after[i] == g;
    lemma_place_at(files, f.path, 0);
    lemma_place_of(files, f.path, global, 0);
    let (at, shift) = match place_at(files, f.path, 0) {
        Some(at) => (at, 0int),
        None => (place_of(files, f.path, global, 0), 1int),
    };
    if i < at {
        assert(files[i] == g);
    } else if i > at {
        assert(files[i - shift] == g);
    }
}

/// More files keep the order.
proof fn lemma_with_all_order(
    files: Seq<AgentsView>,
    more: Seq<AgentsView>,
    global: Option<Seq<char>>,
)
    requires
        in_order(files, global),
    ensures
        in_order(with_all(files, more, global), global),
    decreases more.len(),
{
    if more.len() > 0 {
        lemma_with_all_order(files, more.drop_last(), global);
        lemma_with_file_order(with_all(files, more.drop_last(), global), more.last(), global);
    }
}

/// More files are found, with those that were there.
proof fn lemma_with_all_path(
    files: Seq<AgentsView>,
    more: Seq<AgentsView>,
    global: Option<Seq<char>>,
    path: Seq<char>,
)
    requires
        has_path(files, path) || has_path(more, path),
    ensures
        has_path(with_all(files, more, global), path),
    decreases more.len(),
{
    if more.len() > 0 {
        let rest = more.drop_last();
        if !has_path(files, path) {
            let i = choose|i: int|
                0 <= i < more.len() && same_path((#[trigger] more[i]).path, path);
            if i < rest.len() {
                assert(same_path(rest[i].path, path));
            }
        }
        if has_path(files, path) || has_path(rest, path) {
            lemma_with_all_path(files, rest, global, path);
        }
        lemma_with_file_path(with_all(files, rest, global), more.last(), global, path);
    }
}

/// What is found was there or was added.
proof fn lemma_with_all_source(
    files: Seq<AgentsView>,
    more: Seq<AgentsView>,
    global: Option<Seq<char>>,
    f: AgentsView,
)
    requires
        with_all(files, more, global).contains(f),
    ensures
        files.contains(f) || more.contains(f),
    decreases more.len(),
{
    if more.len() > 0 {
        let rest = more.drop_last();
        lemma_with_file_source(with_all(files, rest, global), more.last(), global, f);
        if f == more.last() {
            assert(more[more.len() - 1] == f);
        } else {
            lemma_with_all_source(files, rest, global, f);
            if rest.contains(f) {
                let m = choose|m: int| 0 <= m < rest.len() && rest[m] == f;
                assert(more[m] == f);
            }
        }
    }
}

/// Whether a file holds in one of some directories.
pub open spec fn holds_in_some(
    f: AgentsView,
    directories: Seq<Seq<char>>,
    repositories: Seq<Seq<char>>,
    found: Seq<AgentsView>,
) -> bool {
    exists|d: int|
        0 <= d < directories.len() && agents_for(
            #[trigger] directories[d],
            None,
            repositories,
            found,
        ).contains(f)
}

/// The files of directories keep the order.
proof fn lemma_directories_order(
    files: Seq<AgentsView>,
    directories: Seq<Seq<char>>,
    global: Option<Seq<char>>,
    repositories: Seq<Seq<char>>,
    found: Seq<AgentsView>,
)
    requires
        in_order(files, global),
    ensures
        in_order(with_directories(files, directories, global, repositories, found), global),
    decreases directories.len(),
{
    if directories.len() > 0 {
        let rest = directories.drop_last();
        lemma_directories_order(files, rest, global, repositories, found);
        lemma_with_all_order(
            with_directories(files, rest, global, repositories, found),
            agents_for(directories.last(), None, repositories, found),
            global,
        );
    }
}

/// What was there is found beside the files of directories.
proof fn lemma_directories_keep(
    files: Seq<AgentsView>,
    directories: Seq<Seq<char>>,
    global: Option<Seq<char>>,
    repositories: Seq<Seq<char>>,
    found: Seq<AgentsView>,
    path: Seq<char>,
)
    requires
        has_path(files, path),
    ensures
        has_path(with_directories(files, directories, global, repositories, found), path),
    decreases directories.len(),
{
    if directories.len() > 0 {
        let rest = directories.drop_last();
        lemma_directories_keep(files, rest, global, repositories, found, path);
        lemma_with_all_path(
            with_directories(files, rest, global, repositories, found),
            agents_for(directories.last(), None, repositories, found),
            global,
            path,
        );
    }
}

/// The files of directories are found.
proof fn lemma_directories_path(
    files: Seq<AgentsView>,
    directories: Seq<Seq<char>>,
    global: Option<Seq<char>>,
    repositories: Seq<Seq<char>>,
    found: Seq<AgentsView>,
    f: AgentsView,
)
    requires
        holds_in_some(f, directories, repositories, found),
    ensures
        has_path(with_directories(files, directories, global, repositories, found), f.path),
    decreases directories.len(),
{
    let d = choose|d: int|
        0 <= d < directories.len() && agents_for(
            #[trigger] directories[d],
            None,
            repositories,
            found,
        ).contains(f);
    let rest = directories.drop_last();
    let before = with_directories(files, rest, global, repositories, found);
    let more = agents_for(directories.last(), None, repositories, found);
    if d < rest.len() {
        assert(rest[d] == directories[d]);
        lemma_directories_path(files, rest, global, repositories, found, f);
    } else {
        let k = choose|k: int| 0 <= k < more.len() && more[k] == f;
        assert(same_path(more[k].path, f.path));
    }
    lemma_with_all_path(before, more, global, f.path);
}

/// What is found was there or holds in one of the directories.
proof fn lemma_directories_source(
    files: Seq<AgentsView>,
    directories: Seq<Seq<char>>,
    global: Option<Seq<char>>,
    repositories: Seq<Seq<char>>,
    found: Seq<AgentsView>,
    f: AgentsView,
)
    requires
        with_directories(files, directories, global, repositories, found).contains(f),
    ensures
        files.contains(f) || holds_in_some(f, directories, repositories, found),
    decreases directories.len(),
{
    if directories.len() > 0 {
        let rest = directories.drop_last();
        let before = with_directories(files, rest, global, repositories, found);
        let more = agents_for(directories.last(), None, repositories, found);
        lemma_with_all_source(before, more, global, f);
        if more.contains(f) {
            assert(directories[directories.len() - 1] == directories.last());
        } else {
            lemma_directories_source(files, rest, global, repositories, found, f);
            if holds_in_some(f, rest, repositories, found) {
                let d = choose|d: int|
                    0 <= d < rest.len() && agents_for(
                        #[trigger] rest[d],
                        None,
                        repositories,
                        found,
                    ).contains(f);
                assert(directories[d] == rest[d]);
            }
        }
    }
}

/// Whether a file holds in a directory or in one of those of targets.
pub open spec fn holds_in_any(
    f: AgentsView,
    cwd: Seq<char>,
    global: Option<AgentsView>,
    directories: Seq<Seq<char>>,
    repositories: Seq<Seq<char>>,
    found: Seq<AgentsView>,
) -> bool {
    agents_for(cwd, global, repositories, found).contains(f) || holds_in_some(
        f,
        directories,
        repositories,
        found,
    )
}

/// The files are those that hold in the directory or in one of those of the
/// targets, and no others. They are given in order, so that each path comes
/// once: that of the user first however deep it is, then by the number of
/// components, then by path.
pub proof fn law_files_of_all_directories_in_order(
    cwd: Seq<char>,
    global: Option<AgentsView>,
    directories: Seq<Seq<char>>,
    repositories: Seq<Seq<char>>,
    found: Seq<AgentsView>,
)
    ensures
        ({
            let all = agents_for_all(cwd, global, directories, repositories, found);
            &&& in_order(all, path_at(global))
            &&& forall|f: AgentsView| #[trigger]
                all.contains(f) ==> holds_in_any(f, cwd, global, directories, repositories, found)
            &&& forall|f: AgentsView| #[trigger]
                holds_in_any(f, cwd, global, directories, repositories, found) ==> has_path(
                    all,
                    f.path,
                )
        }),
{
    let top = path_at(global);
    let here = agents_for(cwd, global, repositories, found);
    let first = with_all(Seq::empty(), here, top);
    let all = agents_for_all(cwd, global, directories, repositories, found);
    lemma_with_all_order(Seq::empty(), here, top);
    lemma_directories_order(first, directories, top, repositories, found);
    assert forall|f: AgentsView| #[trigger] all.contains(f) implies holds_in_any(
        f,
        cwd,
        global,
        directories,
        repositories,
        found,
    ) by {
        lemma_directories_source(first, directories, top, repositories, found, f);
        if first.contains(f) {
            lemma_with_all_source(Seq::empty(), here, top, f);
        }
    }
    assert forall|f: AgentsView| #[trigger]
        holds_in_any(f, cwd, global, directories, repositories, found) implies has_path(
        all,
        f.path,
    ) by {
        if here.contains(f) {
            let k = choose|k: int| 0 <= k < here.len() && here[k] == f;
            assert(same_path(here[k].path, f.path));
            lemma_with_all_path(Seq::empty(), here, top, f.path);
            lemma_directories_keep(first, directories, top, repositories, found, f.path);
        } else {
            lemma_directories_path(first, directories, top, repositories, found, f);
        }
    }
}

/// Every path is given once, and that of the user comes first.
pub proof fn law_each_file_once_and_the_users_first(
    cwd: Seq<char>,
    global: Option<AgentsView>,
    directories: Seq<Seq<char>>,
    repositories: Seq<Seq<char>>,
    found: Seq<AgentsView>,
)
    ensures
        ({
            let all = agents_for_all(cwd, global, directories, repositories, found);
            &&& forall|i: int, j: int|
                0 <= i < j < all.len() ==> !same_path(
                    (#[trigger] all[i]).path,
                    (#[trigger] all[j]).path,
                )
            &&& global matches Some(g) ==> all.len() > 0 && same_path(all[0].path, g.path)
        }),
{
    let top = path_at(global);
    let all = agents_for_all(cwd, global, directories, repositories, found);
    law_files_of_all_directories_in_order(cwd, global, directories, repositories, found);
    assert forall|i: int, j: int| 0 <= i < j < all.len() implies !same_path(
        (#[trigger] all[i]).path,
        (#[trigger] all[j]).path,
    ) by {
        assert(given_before(all[i].path, all[j].path, top));
        lemma_given_before(all[i].path, all[j].path, top);
    }
    if let Some(g) = global {
        let here = agents_for(cwd, global, repositories, found);
        assert(here[0] == g);
        assert(holds_in_any(g, cwd, global, directories, repositories, found));
        let k = choose|k: int| 0 <= k < all.len() && same_path((#[trigger] all[k]).path, g.path);
        if k > 0 {
            assert(given_before(all[0].path, all[k].path, top));
        }
    }
}

/// What a directory has of the files that were found.
pub open spec fn found_in(found: Seq<AgentsView>) -> spec_fn(Seq<char>) -> Option<AgentsView> {
    |directory: Seq<char>| file_at(found, path_in(directory, "AGENTS.md"@), 0)
}

/// A file is found at its path, the first where there are several, and only there.
pub proof fn law_files_are_found_by_path(files: Seq<AgentsView>, path: Seq<char>)
    ensures
        file_at(files, path, 0) matches Some(f) ==> exists|i: int|
            {
                &&& 0 <= i < files.len()
                &&& (#[trigger] files[i]) == f
                &&& f.path == path
                &&& forall|j: int| 0 <= j < i ==> (#[trigger] files[j]).path != path
            },
        file_at(files, path, 0) is None ==> forall|i: int|
            0 <= i < files.len() ==> (#[trigger] files[i]).path != path,
{
    lemma_file_at(files, path, 0);
}

proof fn lemma_file_at(files: Seq<AgentsView>, path: Seq<char>, from: int)
    requires
        0 <= from <= files.len(),
        forall|j: int| 0 <= j < from ==> (#[trigger] files[j]).path != path,
    ensures
        file_at(files, path, from) matches Some(f) ==> exists|i: int|
            {
                &&& 0 <= i < files.len()
                &&& (#[trigger] files[i]) == f
                &&& f.path == path
                &&& forall|j: int| 0 <= j < i ==> (#[trigger] files[j]).path != path
            },
        file_at(files, path, from) is None ==> forall|i: int|
            0 <= i < files.len() ==> (#[trigger] files[i]).path != path,
    decreases files.len() - from,
{
    if from < files.len() {
        if files[from].path != path {
            lemma_file_at(files, path, from + 1);
        }
    }
}

/// The directories from that of a repository, which is the nearest one above, down
/// to one.
pub open spec fn leading_to(directory: Seq<char>, n: int) -> Seq<Seq<char>> {
    Seq::new((n + 1) as nat, |i: int| dirs_of(directory)[n - i])
}

/// The files for a directory are those of the directories from its repository
/// down to itself, the outermost first, or its own alone where it is in none; the
/// user's comes before them.
pub proof fn law_files_lead_down_to_the_directory(
    cwd: Seq<char>,
    global: AgentsView,
    repositories: Seq<Seq<char>>,
    found: Seq<AgentsView>,
    n: int,
)
    requires
        0 <= n < dirs_of(cwd).len(),
        forall|i: int| 0 <= i < n ==> !repositories.contains(#[trigger] dirs_of(cwd)[i]),
        repositories.contains(dirs_of(cwd)[n]) || (n == 0 && forall|i: int|
            0 <= i < dirs_of(cwd).len() ==> !repositories.contains(#[trigger] dirs_of(cwd)[i])),
    ensures
        picks(
            leading_to(cwd, n),
            agents_for(cwd, None, repositories, found),
            found_in(found),
        ),
        agents_for(cwd, Some(global), repositories, found) == seq![global] + agents_for(
            cwd,
            None,
            repositories,
            found,
        ),
{
    let dirs = dirs_of(cwd);
    lemma_first_known(dirs, repositories, n, 0);
    assert(boundary(dirs, repositories) == n);
    lemma_files_at(found, leading_to(cwd, n), candidates_of(cwd, repositories));
    let own = files_at(found, candidates_of(cwd, repositories));
    assert(Seq::<AgentsView>::empty() + own =~= own);
}

proof fn lemma_first_known(dirs: Seq<Seq<char>>, known: Seq<Seq<char>>, n: int, from: int)
    requires
        0 <= n < dirs.len(),
        0 <= from <= dirs.len(),
        forall|i: int| 0 <= i < n ==> !known.contains(#[trigger] dirs[i]),
        known.contains(dirs[n]) || (n == 0 && forall|i: int|
            0 <= i < dirs.len() ==> !known.contains(#[trigger] dirs[i])),
        known.contains(dirs[n]) ==> from <= n,
    ensures
        known.contains(dirs[n]) ==> first_among(dirs, known, from) == Some(n),
        !known.contains(dirs[n]) ==> first_among(dirs, known, from) is None,
    decreases dirs.len() - from,
{
    if from < dirs.len() && !known.contains(dirs[from]) {
        lemma_first_known(dirs, known, n, from + 1);
    }
}

proof fn lemma_files_at(
    found: Seq<AgentsView>,
    directories: Seq<Seq<char>>,
    paths: Seq<Seq<char>>,
)
    requires
        paths.len() == directories.len(),
        forall|i: int|
            0 <= i < paths.len() ==> #[trigger] paths[i] == path_in(
                directories[i],
                "AGENTS.md"@,
            ),
    ensures
        picks(directories, files_at(found, paths), found_in(found)),
    decreases paths.len(),
{
    if paths.len() == 0 {
        lemma_picks_nothing(directories, found_in(found));
    } else {
        let front = paths.drop_last();
        assert forall|i: int| 0 <= i < front.len() implies #[trigger] front[i] == path_in(
            directories.drop_last()[i],
            "AGENTS.md"@,
        ) by {
            assert(front[i] == paths[i]);
        }
        lemma_files_at(found, directories.drop_last(), front);
        assert(paths[paths.len() - 1] == path_in(directories.last(), "AGENTS.md"@));
        lemma_picks_last(directories, files_at(found, front), found_in(found));
    }
}

/// Of the files for several directories that of the user comes first, and then
/// those of outer directories before those of inner ones.
pub proof fn law_outer_files_come_before_inner_ones(
    cwd: Seq<char>,
    global: Option<AgentsView>,
    directories: Seq<Seq<char>>,
    repositories: Seq<Seq<char>>,
    found: Seq<AgentsView>,
    i: int,
    j: int,
)
    requires
        0 <= i < j < agents_for_all(cwd, global, directories, repositories, found).len(),
    ensures
        ({
            let all = agents_for_all(cwd, global, directories, repositories, found);
            let a = all[i].path;
            let b = all[j].path;
            &&& global matches Some(g) ==> !same_path(b, g.path)
            &&& (global matches Some(g) ==> !same_path(a, g.path)) && absolute(a) == absolute(b)
                ==> parts_of(a).len() <= parts_of(b).len()
        }),
{
    law_files_of_all_directories_in_order(cwd, global, directories, repositories, found);
    law_each_file_once_and_the_users_first(cwd, global, directories, repositories, found);
    let all = agents_for_all(cwd, global, directories, repositories, found);
    assert(given_before(all[i].path, all[j].path, path_at(global)));
    if let Some(g) = global {
        if same_path(all[j].path, g.path) {
            assert(!same_path(all[0].path, all[j].path));
        }
    }
}

} // verus!
