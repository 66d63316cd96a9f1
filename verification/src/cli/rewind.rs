//! Going back to an earlier message, and putting the files back with it.
use vstd::prelude::*;
use vstd::string::*;

use crate::model::{ConversationItem, ItemView};
use crate::seqs::{lemma_picks_last, lemma_picks_nothing, picks};
use crate::session::{first_text, first_user_prompt};
use crate::text::{decimal, decimal_text, lemma_views_push, lines, lines_of, outcome, texts, views};
use crate::tools::patch::{
    FileChange, FileSnapshot, FileWrite, SnapshotView, WriteView, added_to, blocker_of,
    coalesce_snapshots, coalesced, removed_from, restoration_of,
};
use crate::tui::blocks::{RevertLine, RevertView};
use crate::tui::editor::{checkpoint_labels, select_checkpoint};

verus! {

// ---------------------------------------------------------------------------
// Messages to go back to

/// What is shown of a message: the last line of its first text, or its id.
pub open spec fn checkpoint_label(item: ItemView) -> Seq<char> {
    match first_text(item.blocks) {
        Some(text) => if lines_of(text).len() > 0 {
            lines_of(text).last()
        } else {
            text
        },
        None => item.id,
    }
}

/// What is shown of a message.
pub fn label_checkpoint(item: &ConversationItem) -> (r: String)
    ensures
        r@ == checkpoint_label(item@),
{
    match first_user_prompt(&item.blocks) {
        Some(text) => {
            let lines = lines(&text);
            let ghost all = lines_of(text@);
            assert(all.len() == lines@.len());
            let n: usize = lines.len();
            if n > 0 {
                assert(all.last() == lines@[n - 1]@);
                lines[n - 1].clone()
            } else {
                text
            }
        },
        None => item.id.clone(),
    }
}

/// The messages to choose from, the latest first: their ids and what is shown
/// of them.
pub open spec fn checkpoints_of(items: Seq<ItemView>) -> Seq<(Seq<char>, Seq<char>)> {
    Seq::new(
        items.len(),
        |i: int| (items[items.len() - 1 - i].id, checkpoint_label(items[items.len() - 1 - i])),
    )
}

/// The model of ids with labels.
pub open spec fn labelled_ids(v: Seq<(String, String)>) -> Seq<(Seq<char>, Seq<char>)> {
    Seq::new(v.len(), |i: int| (v[i].0@, v[i].1@))
}

/// The messages to choose from, the latest first.
pub fn checkpoint_choices(items: &Vec<ConversationItem>) -> (r: Vec<(String, String)>)
    ensures
        labelled_ids(r@) == checkpoints_of(views(items@)),
{
    let ghost given = views(items@);
    let ghost all = checkpoints_of(given);
    let mut r: Vec<(String, String)> = Vec::new();
    assert(labelled_ids(r@) =~= all.take(0));
    let mut i: usize = items.len();
    while i > 0
        invariant
            i <= items.len(),
            given == views(items@),
            all == checkpoints_of(given),
            labelled_ids(r@) == all.take(items.len() - i),
        decreases i,
    {
        assert(given[i - 1] == items@[i - 1]@);
        let ghost before = labelled_ids(r@);
        let choice = (items[i - 1].id.clone(), label_checkpoint(&items[i - 1]));
        r.push(choice);
        assert(labelled_ids(r@) =~= before.push((choice.0@, choice.1@)));
        assert(all.take(items.len() - i + 1) =~= before.push(all[items.len() - i]));
        i -= 1;
    }
    assert(all.take(all.len() as int) =~= all);
    r
}

// ---------------------------------------------------------------------------
// Files to put back

/// What going back does to a file: `keep` where something else changed it since,
/// and otherwise what undoes what was done to it.
pub open spec fn revert_line(s: SnapshotView, current: Result<Seq<char>, Seq<char>>) -> RevertView {
    match blocker_of(s, current) {
        Some(reason) => RevertView {
            action: "keep"@,
            path: s.path,
            detail: reason,
            blocked: true,
        },
        None => match s.change {
            FileChange::Added => RevertView {
                action: "delete"@,
                path: s.path,
                detail: "created after this point"@,
                blocked: false,
            },
            FileChange::Modified => RevertView {
                action: "restore"@,
                path: s.path,
                detail: "+"@ + decimal(s.added) + " -"@ + decimal(s.removed),
                blocked: false,
            },
            FileChange::Deleted => RevertView {
                action: "recreate"@,
                path: s.path,
                detail: "deleted after this point"@,
                blocked: false,
            },
        },
    }
}

/// What going back does to a file.
pub fn plan_revert(snapshot: &FileSnapshot, current: &Result<String, String>) -> (r: RevertLine)
    ensures
        r@ == revert_line(snapshot@, outcome(*current)),
{
    let path = snapshot.path.clone();
    match snapshot.restore_blocker(current) {
        Some(reason) => RevertLine {
            action: "keep".to_owned(),
            path,
            detail: reason,
            blocked: true,
        },
        None => match snapshot.change {
            FileChange::Added => RevertLine {
                action: "delete".to_owned(),
                path,
                detail: "created after this point".to_owned(),
                blocked: false,
            },
            FileChange::Modified => RevertLine {
                action: "restore".to_owned(),
                path,
                detail: "+".to_owned().concat(&decimal_text(snapshot.added as u64)).concat(
                    " -",
                ).concat(&decimal_text(snapshot.removed as u64)),
                blocked: false,
            },
            FileChange::Deleted => RevertLine {
                action: "recreate".to_owned(),
                path,
                detail: "deleted after this point".to_owned(),
                blocked: false,
            },
        },
    }
}

/// The model of what files hold now.
pub open spec fn current_views(v: Seq<Result<String, String>>) -> Seq<
    Result<Seq<char>, Seq<char>>,
> {
    Seq::new(v.len(), |i: int| outcome(v[i]))
}

/// What going back does to files.
pub open spec fn revert_lines(
    snapshots: Seq<SnapshotView>,
    current: Seq<Result<Seq<char>, Seq<char>>>,
) -> Seq<RevertView> {
    Seq::new(snapshots.len(), |i: int| revert_line(snapshots[i], current[i]))
}

/// What going back does to files, given what they hold now.
pub fn plan_reverts(snapshots: &Vec<FileSnapshot>, current: &Vec<Result<String, String>>) -> (r:
    Vec<RevertLine>)
    requires
        current.len() == snapshots.len(),
    ensures
        views(r@) == revert_lines(views(snapshots@), current_views(current@)),
{
    broadcast use lemma_views_push;

    let ghost all = revert_lines(views(snapshots@), current_views(current@));
    let mut r: Vec<RevertLine> = Vec::new();
    assert(views(r@) =~= all.take(0));
    let mut i: usize = 0;
    while i < snapshots.len()
        invariant
            i <= snapshots.len() == current.len(),
            all == revert_lines(views(snapshots@), current_views(current@)),
            views(r@) == all.take(i as int),
        decreases snapshots.len() - i,
    {
        assert(views(snapshots@)[i as int] == snapshots@[i as int]@);
        assert(current_views(current@)[i as int] == outcome(current@[i as int]));
        r.push(plan_revert(&snapshots[i], &current[i]));
        assert(all.take(i + 1) =~= all.take(i as int).push(all[i as int]));
        i += 1;
    }
    assert(all.take(all.len() as int) =~= all);
    r
}

/// How many files would be put back.
pub open spec fn revertible(lines: Seq<RevertView>) -> nat
    decreases lines.len(),
{
    if lines.len() == 0 {
        0
    } else {
        revertible(lines.drop_last()) + (if lines.last().blocked {
            0nat
        } else {
            1
        })
    }
}

/// How many files would be put back.
pub fn count_revertible(lines: &Vec<RevertLine>) -> (r: usize)
    ensures
        r == revertible(views(lines@)),
{
    let ghost all = views(lines@);
    let mut count: usize = 0;
    assert(all.take(0) =~= Seq::empty());
    let mut i: usize = 0;
    while i < lines.len()
        invariant
            i <= lines.len(),
            count <= i,
            all == views(lines@),
            count == revertible(all.take(i as int)),
        decreases lines.len() - i,
    {
        assert(all.take(i + 1).drop_last() =~= all.take(i as int));
        assert(all.take(i + 1).last() == lines@[i as int]@);
        if !lines[i].blocked {
            count += 1;
        }
        i += 1;
    }
    assert(all.take(all.len() as int) =~= all);
    count
}

/// The writes that put files back: none for a file that is kept.
pub open spec fn revert_writes(
    snapshots: Seq<SnapshotView>,
    current: Seq<Result<Seq<char>, Seq<char>>>,
) -> Seq<Result<WriteView, Seq<char>>>
    decreases snapshots.len(),
{
    if snapshots.len() == 0 {
        Seq::empty()
    } else {
        let before = revert_writes(snapshots.drop_last(), current);
        let last = snapshots.len() - 1;
        if blocker_of(snapshots[last], current[last]) is Some {
            before
        } else {
            before.push(restoration_of(snapshots[last]))
        }
    }
}

/// The model of writes, or of why there is none.
pub open spec fn write_views(v: Seq<Result<FileWrite, String>>) -> Seq<
    Result<WriteView, Seq<char>>,
> {
    Seq::new(v.len(), |i: int| outcome(v[i]))
}

/// The writes that put files back, given what they hold now.
pub fn plan_writes(snapshots: &Vec<FileSnapshot>, current: &Vec<Result<String, String>>) -> (r: Vec<
    Result<FileWrite, String>,
>)
    requires
        current.len() == snapshots.len(),
    ensures
        write_views(r@) == revert_writes(views(snapshots@), current_views(current@)),
{
    let ghost all = views(snapshots@);
    let ghost now = current_views(current@);
    let mut r: Vec<Result<FileWrite, String>> = Vec::new();
    assert(write_views(r@) =~= Seq::empty());
    assert(all.take(0) =~= Seq::empty());
    let mut i: usize = 0;
    while i < snapshots.len()
        invariant
            i <= snapshots.len() == current.len(),
            all == views(snapshots@),
            now == current_views(current@),
            write_views(r@) == revert_writes(all.take(i as int), now),
        decreases snapshots.len() - i,
    {
        assert(all.take(i + 1).drop_last() =~= all.take(i as int));
        assert(all.take(i + 1)[i as int] == snapshots@[i as int]@);
        assert(now[i as int] == outcome(current@[i as int]));
        if snapshots[i].restore_blocker(&current[i]).is_none() {
            let ghost before = write_views(r@);
            let write = snapshots[i].restore();
            r.push(write);
            assert(write_views(r@) =~= before.push(outcome(write)));
        }
        i += 1;
    }
    assert(all.take(all.len() as int) =~= all);
    r
}

/// Whether a write is that of a file which nothing else has changed.
pub open spec fn owed(
    snapshots: Seq<SnapshotView>,
    current: Seq<Result<Seq<char>, Seq<char>>>,
    write: Result<WriteView, Seq<char>>,
    i: int,
) -> bool {
    &&& 0 <= i < snapshots.len()
    &&& blocker_of(snapshots[i], current[i]) is None
    &&& write == restoration_of(snapshots[i])
}

/// Whether a write is that of some file which nothing else has changed.
pub open spec fn is_owed(
    snapshots: Seq<SnapshotView>,
    current: Seq<Result<Seq<char>, Seq<char>>>,
    write: Result<WriteView, Seq<char>>,
) -> bool {
    exists|i: int| owed(snapshots, current, write, i)
}

/// Going back never discards an edit of the user: each write is that of a file
/// which holds what the agent last wrote, and there are as many writes as the
/// plan says.
pub proof fn law_only_untouched_files_are_reverted(
    snapshots: Seq<SnapshotView>,
    current: Seq<Result<Seq<char>, Seq<char>>>,
)
    ensures
        forall|k: int|
            0 <= k < revert_writes(snapshots, current).len() ==> is_owed(
                snapshots,
                current,
                #[trigger] revert_writes(snapshots, current)[k],
            ),
        revert_writes(snapshots, current).len() == revertible(revert_lines(snapshots, current)),
    decreases snapshots.len(),
{
    if snapshots.len() > 0 {
        let front = snapshots.drop_last();
        law_only_untouched_files_are_reverted(front, current);
        let writes = revert_writes(snapshots, current);
        let before = revert_writes(front, current);
        let last = snapshots.len() - 1;
        assert(revert_lines(snapshots, current).drop_last() =~= revert_lines(front, current));
        assert(revert_lines(snapshots, current).last() == revert_line(
            snapshots[last],
            current[last],
        ));
        assert forall|k: int| 0 <= k < writes.len() implies is_owed(
            snapshots,
            current,
            #[trigger] writes[k],
        ) by {
            if k < before.len() {
                assert(writes[k] == before[k]);
                assert(is_owed(front, current, before[k]));
                let i = choose|i: int| owed(front, current, before[k], i);
                assert(owed(snapshots, current, writes[k], i));
            } else {
                assert(owed(snapshots, current, writes[k], last));
            }
        }
    }
}

// ---------------------------------------------------------------------------
// The choice

/// What the user wants of a rewind.
#[derive(Debug, Clone, Copy, PartialEq, Eq, Structural)]
pub enum RewindChoice {
    ConversationOnly,
    Revert,
    Cancel,
}

/// The choices of a rewind, when a number of files would be put back.
pub open spec fn rewind_options(count: nat) -> Seq<Seq<char>> {
    if count == 0 {
        seq!["rewind the conversation only"@, "cancel"@]
    } else {
        seq![
            "rewind the conversation only"@,
            "rewind and revert "@ + decimal(count) + (if count == 1 {
                " file"@
            } else {
                " files"@
            }),
            "cancel"@,
        ]
    }
}

/// The choices of a rewind.
pub fn rewind_choices(count: usize) -> (r: Vec<String>)
    ensures
        texts(r@) == rewind_options(count as nat),
{
    let mut r: Vec<String> = Vec::new();
    r.push("rewind the conversation only".to_owned());
    if count > 0 {
        r.push(
            "rewind and revert ".to_owned().concat(&decimal_text(count as u64)).concat(
                if count == 1 {
                    " file"
                } else {
                    " files"
                },
            ),
        );
    }
    r.push("cancel".to_owned());
    assert(texts(r@) =~= rewind_options(count as nat));
    r
}

/// What a choice means, when a number of files would be put back.
pub open spec fn choice_of(count: nat, choice: Option<usize>) -> RewindChoice {
    match choice {
        Some(0) => RewindChoice::ConversationOnly,
        Some(1) => if count > 0 {
            RewindChoice::Revert
        } else {
            RewindChoice::Cancel
        },
        _ => RewindChoice::Cancel,
    }
}

/// What a choice means.
pub fn rewind_choice(count: usize, choice: Option<usize>) -> (r: RewindChoice)
    ensures
        r == choice_of(count as nat, choice),
{
    match choice {
        Some(0) => RewindChoice::ConversationOnly,
        Some(1) => if count > 0 {
            RewindChoice::Revert
        } else {
            RewindChoice::Cancel
        },
        _ => RewindChoice::Cancel,
    }
}

/// What is said before the plan.
pub open spec fn touched_text(count: nat) -> Seq<char> {
    "touched "@ + decimal(count) + " file(s) after this message"@
}

/// What is said before the plan.
pub fn touched_report(count: usize) -> (r: String)
    ensures
        r@ == touched_text(count as nat),
{
    "touched ".to_owned().concat(&decimal_text(count as u64)).concat(
        " file(s) after this message",
    )
}

/// What is said after a rewind: a number of files were touched, and a number of
/// them were put back.
pub open spec fn rewind_text(choice: RewindChoice, touched: nat, reverted: nat) -> Seq<char> {
    match choice {
        RewindChoice::Cancel => "cancelled"@,
        RewindChoice::ConversationOnly => if touched == 0 {
            "rewound; the previous branch is preserved"@
        } else {
            "rewound; the previous branch is preserved · files left as they are"@
        },
        RewindChoice::Revert => "rewound; the previous branch is preserved · reverted "@ + decimal(
            reverted,
        ) + " file(s)"@,
    }
}

/// What is said after a rewind.
pub fn rewind_report(choice: RewindChoice, touched: usize, reverted: usize) -> (r: String)
    ensures
        r@ == rewind_text(choice, touched as nat, reverted as nat),
{
    match choice {
        RewindChoice::Cancel => "cancelled".to_owned(),
        RewindChoice::ConversationOnly => if touched == 0 {
            "rewound; the previous branch is preserved".to_owned()
        } else {
            "rewound; the previous branch is preserved · files left as they are".to_owned()
        },
        RewindChoice::Revert => "rewound; the previous branch is preserved · reverted ".to_owned().concat(
            &decimal_text(reverted as u64),
        ).concat(" file(s)"),
    }
}

// ---------------------------------------------------------------------------
// A rewind

/// What is told to a rewind.
pub enum RewindEvent {
    /// The messages of the user, the oldest first.
    Messages(Vec<ConversationItem>),
    /// Which message was chosen.
    Chosen(Option<usize>),
    /// The snapshots that were taken since, the newest first.
    Found(Vec<FileSnapshot>),
    /// What the files hold now, or why they cannot be read.
    Held(Vec<Result<String, String>>),
    /// What the user wants.
    Decided(Option<usize>),
    /// The rewind is done; so many files were put back.
    Moved(usize),
}

/// The model of a [`RewindEvent`].
pub enum RewindEventView {
    Messages(Seq<ItemView>),
    Chosen(Option<usize>),
    Found(Seq<SnapshotView>),
    Held(Seq<Result<Seq<char>, Seq<char>>>),
    Decided(Option<usize>),
    Moved(usize),
}

impl View for RewindEvent {
    type V = RewindEventView;

    open spec fn view(&self) -> RewindEventView {
        match self {
            RewindEvent::Messages(items) => RewindEventView::Messages(views(items@)),
            RewindEvent::Chosen(choice) => RewindEventView::Chosen(*choice),
            RewindEvent::Found(snapshots) => RewindEventView::Found(views(snapshots@)),
            RewindEvent::Held(current) => RewindEventView::Held(current_views(current@)),
            RewindEvent::Decided(choice) => RewindEventView::Decided(*choice),
            RewindEvent::Moved(count) => RewindEventView::Moved(*count),
        }
    }
}

/// What a rewind needs next.
pub enum RewindStep {
    /// Let the user choose a message.
    Choose(Vec<String>),
    /// Find the snapshots that were taken since a message.
    Find(String),
    /// Read the files at these paths.
    Read(Vec<String>),
    /// Say this, show the plan, and let the user choose.
    Offer { notice: String, plan: Vec<RevertLine>, choices: Vec<String> },
    /// Put the files back, go on from the message, and forget the snapshots if
    /// that is asked for.
    Move { item_id: String, writes: Vec<Result<FileWrite, String>>, forget: bool },
    /// Say this; the rewind is over.
    Say(String),
    /// The rewind is over.
    Over,
}

/// The model of a [`RewindStep`].
pub enum RewindStepView {
    Choose(Seq<Seq<char>>),
    Find(Seq<char>),
    Read(Seq<Seq<char>>),
    Offer { notice: Seq<char>, plan: Seq<RevertView>, choices: Seq<Seq<char>> },
    Move { item_id: Seq<char>, writes: Seq<Result<WriteView, Seq<char>>>, forget: bool },
    Say(Seq<char>),
    Over,
}

impl View for RewindStep {
    type V = RewindStepView;

    open spec fn view(&self) -> RewindStepView {
        match self {
            RewindStep::Choose(labels) => RewindStepView::Choose(texts(labels@)),
            RewindStep::Find(item_id) => RewindStepView::Find(item_id@),
            RewindStep::Read(paths) => RewindStepView::Read(texts(paths@)),
            RewindStep::Offer { notice, plan, choices } => RewindStepView::Offer {
                notice: notice@,
                plan: views(plan@),
                choices: texts(choices@),
            },
            RewindStep::Move { item_id, writes, forget } => RewindStepView::Move {
                item_id: item_id@,
                writes: write_views(writes@),
                forget: *forget,
            },
            RewindStep::Say(text) => RewindStepView::Say(text@),
            RewindStep::Over => RewindStepView::Over,
        }
    }
}

/// A rewind that is under way.
pub enum RewindRun {
    Started,
    /// A message is being chosen.
    Choosing { checkpoints: Vec<(String, String)> },
    /// The snapshots since a message are being looked for.
    Finding { item_id: String },
    /// The files that were touched are being read.
    Reading { item_id: String, snapshots: Vec<FileSnapshot> },
    /// The user is being asked.
    Deciding {
        item_id: String,
        snapshots: Vec<FileSnapshot>,
        current: Vec<Result<String, String>>,
    },
    /// The rewind is being carried out.
    Moving { choice: RewindChoice, touched: usize },
    Over,
}

/// The model of a [`RewindRun`].
pub enum RewindRunView {
    Started,
    Choosing { checkpoints: Seq<(Seq<char>, Seq<char>)> },
    Finding { item_id: Seq<char> },
    Reading { item_id: Seq<char>, snapshots: Seq<SnapshotView> },
    Deciding {
        item_id: Seq<char>,
        snapshots: Seq<SnapshotView>,
        current: Seq<Result<Seq<char>, Seq<char>>>,
    },
    Moving { choice: RewindChoice, touched: nat },
    Over,
}

impl View for RewindRun {
    type V = RewindRunView;

    open spec fn view(&self) -> RewindRunView {
        match self {
            RewindRun::Started => RewindRunView::Started,
            RewindRun::Choosing { checkpoints } => RewindRunView::Choosing {
                checkpoints: labelled_ids(checkpoints@),
            },
            RewindRun::Finding { item_id } => RewindRunView::Finding { item_id: item_id@ },
            RewindRun::Reading { item_id, snapshots } => RewindRunView::Reading {
                item_id: item_id@,
                snapshots: views(snapshots@),
            },
            RewindRun::Deciding { item_id, snapshots, current } => RewindRunView::Deciding {
                item_id: item_id@,
                snapshots: views(snapshots@),
                current: current_views(current@),
            },
            RewindRun::Moving { choice, touched } => RewindRunView::Moving {
                choice: *choice,
                touched: *touched as nat,
            },
            RewindRun::Over => RewindRunView::Over,
        }
    }
}

/// Whether the lines that snapshots added to and removed from each file can be
/// counted.
pub open spec fn countable(newest_first: Seq<SnapshotView>) -> bool {
    forall|path: Seq<char>|
        #![trigger added_to(newest_first, path)]
        #![trigger removed_from(newest_first, path)]
        added_to(newest_first, path) <= usize::MAX && removed_from(newest_first, path)
            <= usize::MAX
}

/// Whether an event is what a rewind waits for.
pub open spec fn awaited(run: RewindRunView, event: RewindEventView) -> bool {
    match run {
        RewindRunView::Started => event is Messages,
        RewindRunView::Choosing { .. } => event is Chosen,
        RewindRunView::Finding { .. } => event matches RewindEventView::Found(snapshots)
            && countable(snapshots),
        RewindRunView::Reading { snapshots, .. } => event matches RewindEventView::Held(current)
            && current.len() == snapshots.len(),
        RewindRunView::Deciding { snapshots, current, .. } => event is Decided && current.len()
            == snapshots.len(),
        RewindRunView::Moving { .. } => event is Moved,
        RewindRunView::Over => false,
    }
}

/// The labels of checkpoints.
pub open spec fn labels_of(checkpoints: Seq<(Seq<char>, Seq<char>)>) -> Seq<Seq<char>> {
    Seq::new(checkpoints.len(), |i: int| checkpoints[i].1)
}

/// The paths of snapshots.
pub open spec fn paths_of(snapshots: Seq<SnapshotView>) -> Seq<Seq<char>> {
    Seq::new(snapshots.len(), |i: int| snapshots[i].path)
}

/// A rewind after the user has chosen, and what it needs next.
pub open spec fn decided(
    item_id: Seq<char>,
    snapshots: Seq<SnapshotView>,
    current: Seq<Result<Seq<char>, Seq<char>>>,
    choice: Option<usize>,
) -> (RewindRunView, RewindStepView) {
    let touched = snapshots.len();
    let choice = choice_of(revertible(revert_lines(snapshots, current)), choice);
    match choice {
        RewindChoice::Cancel => (
            RewindRunView::Over,
            RewindStepView::Say(rewind_text(choice, touched, 0)),
        ),
        RewindChoice::ConversationOnly => (
            RewindRunView::Moving { choice, touched },
            RewindStepView::Move { item_id, writes: Seq::empty(), forget: false },
        ),
        RewindChoice::Revert => (
            RewindRunView::Moving { choice, touched },
            RewindStepView::Move {
                item_id,
                writes: revert_writes(snapshots, current),
                forget: true,
            },
        ),
    }
}

/// A rewind after an event, and what it needs next.
pub open spec fn rewind_effect(run: RewindRunView, event: RewindEventView) -> (
    RewindRunView,
    RewindStepView,
) {
    match (run, event) {
        (RewindRunView::Started, RewindEventView::Messages(items)) => if items.len() == 0 {
            (RewindRunView::Over, RewindStepView::Say("no user messages to rewind to"@))
        } else {
            (
                RewindRunView::Choosing { checkpoints: checkpoints_of(items) },
                RewindStepView::Choose(labels_of(checkpoints_of(items))),
            )
        },
        (RewindRunView::Choosing { checkpoints }, RewindEventView::Chosen(Some(i))) => if i
            < checkpoints.len() {
            (
                RewindRunView::Finding { item_id: checkpoints[i as int].0 },
                RewindStepView::Find(checkpoints[i as int].0),
            )
        } else {
            (RewindRunView::Over, RewindStepView::Over)
        },
        (RewindRunView::Finding { item_id }, RewindEventView::Found(found)) => {
            let snapshots = coalesced(found);
            if snapshots.len() == 0 {
                (
                    RewindRunView::Moving { choice: RewindChoice::ConversationOnly, touched: 0 },
                    RewindStepView::Move { item_id, writes: Seq::empty(), forget: false },
                )
            } else {
                (
                    RewindRunView::Reading { item_id, snapshots },
                    RewindStepView::Read(paths_of(snapshots)),
                )
            }
        },
        (RewindRunView::Reading { item_id, snapshots }, RewindEventView::Held(current)) => {
            let plan = revert_lines(snapshots, current);
            (
                RewindRunView::Deciding { item_id, snapshots, current },
                RewindStepView::Offer {
                    notice: touched_text(snapshots.len()),
                    plan,
                    choices: rewind_options(revertible(plan)),
                },
            )
        },
        (
            RewindRunView::Deciding { item_id, snapshots, current },
            RewindEventView::Decided(choice),
        ) => decided(item_id, snapshots, current, choice),
        (RewindRunView::Moving { choice, touched }, RewindEventView::Moved(count)) => (
            RewindRunView::Over,
            RewindStepView::Say(rewind_text(choice, touched, count as nat)),
        ),
        _ => (RewindRunView::Over, RewindStepView::Over),
    }
}

/// The paths of snapshots.
fn list_paths(snapshots: &Vec<FileSnapshot>) -> (r: Vec<String>)
    ensures
        texts(r@) == paths_of(views(snapshots@)),
{
    let ghost all = paths_of(views(snapshots@));
    let mut paths: Vec<String> = Vec::new();
    assert(texts(paths@) =~= all.take(0));
    let mut i: usize = 0;
    while i < snapshots.len()
        invariant
            i <= snapshots@.len(),
            all == paths_of(views(snapshots@)),
            texts(paths@) == all.take(i as int),
        decreases snapshots@.len() - i,
    {
        let ghost before = texts(paths@);
        let path = snapshots[i].path.clone();
        assert(views(snapshots@)[i as int] == snapshots@[i as int]@);
        assert(path@ == all[i as int]);
        paths.push(path);
        assert(texts(paths@) =~= before.push(path@));
        assert(all.take(i + 1) =~= all.take(i as int).push(all[i as int]));
        i += 1;
    }
    assert(all.take(all.len() as int) =~= all);
    paths
}

/// No writes.
fn no_writes() -> (r: Vec<Result<FileWrite, String>>)
    ensures
        write_views(r@) == Seq::<Result<WriteView, Seq<char>>>::empty(),
{
    let r: Vec<Result<FileWrite, String>> = Vec::new();
    assert(write_views(r@) =~= Seq::empty());
    r
}

impl RewindRun {
    /// A rewind that begins.
    pub fn new() -> (r: RewindRun)
        ensures
            r@ is Started,
    {
        RewindRun::Started
    }

    /// Takes in an event and says what is needed next.
    pub fn step(self, event: RewindEvent) -> (r: (RewindRun, RewindStep))
        requires
            awaited(self@, event@),
        ensures
            (r.0@, r.1@) == rewind_effect(self@, event@),
    {
        match (self, event) {
            (RewindRun::Started, RewindEvent::Messages(items)) => {
                let checkpoints = checkpoint_choices(&items);
                let ghost given = labelled_ids(checkpoints@);
                assert(given.len() == checkpoints@.len());
                match checkpoint_labels(&checkpoints) {
                    Ok(labels) => {
                        assert(texts(labels@) =~= labels_of(given));
                        (RewindRun::Choosing { checkpoints }, RewindStep::Choose(labels))
                    },
                    Err(notice) => (RewindRun::Over, RewindStep::Say(notice)),
                }
            },
            (RewindRun::Choosing { checkpoints }, RewindEvent::Chosen(choice)) => {
                let ghost given = labelled_ids(checkpoints@);
                assert(given.len() == checkpoints@.len());
                match select_checkpoint(&checkpoints, choice) {
                    Some(item_id) => {
                        let asked = item_id.clone();
                        (RewindRun::Finding { item_id }, RewindStep::Find(asked))
                    },
                    None => (RewindRun::Over, RewindStep::Over),
                }
            },
            (RewindRun::Finding { item_id }, RewindEvent::Found(found)) => {
                let snapshots = coalesce_snapshots(found);
                assert(views(snapshots@).len() == snapshots@.len());
                if snapshots.len() == 0 {
                    (
                        RewindRun::Moving { choice: RewindChoice::ConversationOnly, touched: 0 },
                        RewindStep::Move { item_id, writes: no_writes(), forget: false },
                    )
                } else {
                    let paths = list_paths(&snapshots);
                    (RewindRun::Reading { item_id, snapshots }, RewindStep::Read(paths))
                }
            },
            (RewindRun::Reading { item_id, snapshots }, RewindEvent::Held(current)) => {
                assert(views(snapshots@).len() == snapshots@.len());
                assert(current_views(current@).len() == current@.len());
                let plan = plan_reverts(&snapshots, &current);
                let notice = touched_report(snapshots.len());
                let choices = rewind_choices(count_revertible(&plan));
                (
                    RewindRun::Deciding { item_id, snapshots, current },
                    RewindStep::Offer { notice, plan, choices },
                )
            },
            (
                RewindRun::Deciding { item_id, snapshots, current },
                RewindEvent::Decided(choice),
            ) => {
                assert(views(snapshots@).len() == snapshots@.len());
                assert(current_views(current@).len() == current@.len());
                let touched: usize = snapshots.len();
                let count = count_revertible(&plan_reverts(&snapshots, &current));
                let choice = rewind_choice(count, choice);
                match choice {
                    RewindChoice::Cancel => (
                        RewindRun::Over,
                        RewindStep::Say(rewind_report(choice, touched, 0)),
                    ),
                    RewindChoice::ConversationOnly => (
                        RewindRun::Moving { choice, touched },
                        RewindStep::Move { item_id, writes: no_writes(), forget: false },
                    ),
                    RewindChoice::Revert => {
                        let writes = plan_writes(&snapshots, &current);
                        (
                            RewindRun::Moving { choice, touched },
                            RewindStep::Move { item_id, writes, forget: true },
                        )
                    },
                }
            },
            (RewindRun::Moving { choice, touched }, RewindEvent::Moved(count)) => (
                RewindRun::Over,
                RewindStep::Say(rewind_report(choice, touched, count)),
            ),
            _ => (RewindRun::Over, RewindStep::Over),
        }
    }
}

/// Files are put back only where the user asked for it after seeing the plan,
/// and then only those that the plan says.
pub proof fn law_files_are_reverted_on_demand(run: RewindRunView, event: RewindEventView)
    requires
        rewind_effect(run, event).1 matches RewindStepView::Move { writes, .. } && writes.len() > 0,
    ensures
        event == RewindEventView::Decided(Some(1)),
        run matches RewindRunView::Deciding { item_id, snapshots, current } && rewind_effect(
            run,
            event,
        ).1 == (RewindStepView::Move {
            item_id,
            writes: revert_writes(snapshots, current),
            forget: true,
        }),
{
}

/// A rewind that is cancelled, or in which no message is chosen, changes
/// nothing.
pub proof fn law_cancelled_rewinds_change_nothing(run: RewindRunView, choice: Option<usize>)
    requires
        choice is None,
    ensures
        !(rewind_effect(run, RewindEventView::Chosen(choice)).1 is Move),
        !(rewind_effect(run, RewindEventView::Decided(choice)).1 is Move),
{
}

/// The checkpoints are offered the latest first, each by the last line of what the
/// user said; the one that is chosen is rewound to.
pub proof fn law_the_chosen_message_is_rewound_to(items: Seq<ItemView>, i: usize)
    requires
        i < items.len(),
    ensures
        ({
            let item = items[items.len() - 1 - i];
            let (run, step) = rewind_effect(
                RewindRunView::Started,
                RewindEventView::Messages(items),
            );
            let (next, found) = rewind_effect(run, RewindEventView::Chosen(Some(i)));
            &&& step matches RewindStepView::Choose(labels) && labels.len() == items.len()
                && labels[i as int] == checkpoint_label(item)
            &&& found == RewindStepView::Find(item.id)
            &&& next == RewindRunView::Finding { item_id: item.id }
        }),
{
}

/// A message is labelled with the last line of its first text, and by its id where
/// it has none.
pub proof fn law_messages_are_labelled(item: ItemView)
    ensures
        first_text(item.blocks) is None ==> checkpoint_label(item) == item.id,
        (first_text(item.blocks) is Some && lines_of(first_text(item.blocks)->Some_0).len() > 0)
            ==> checkpoint_label(item) == lines_of(first_text(item.blocks)->Some_0).last(),
{
}

/// Where no file was touched the conversation is rewound at once, to the message
/// that was chosen.
pub proof fn law_untouched_files_need_no_plan(item_id: Seq<char>, found: Seq<SnapshotView>)
    ensures
        coalesced(found).len() == 0 ==> rewind_effect(
            RewindRunView::Finding { item_id },
            RewindEventView::Found(found),
        ).1 == (RewindStepView::Move { item_id, writes: Seq::empty(), forget: false }),
        coalesced(found).len() > 0 ==> (rewind_effect(
            RewindRunView::Finding { item_id },
            RewindEventView::Found(found),
        ).1 matches RewindStepView::Read(paths) && paths.len() == coalesced(found).len()
            && forall|i: int|
            0 <= i < paths.len() ==> #[trigger] paths[i] == coalesced(found)[i].path),
{
}

/// A file with what it holds now.
pub open spec fn held(
    snapshots: Seq<SnapshotView>,
    current: Seq<Result<Seq<char>, Seq<char>>>,
) -> Seq<(SnapshotView, Result<Seq<char>, Seq<char>>)> {
    Seq::new(snapshots.len(), |i: int| (snapshots[i], current[i]))
}

/// What puts a file back, where nothing is in the way.
pub open spec fn put_back() -> spec_fn((SnapshotView, Result<Seq<char>, Seq<char>>)) -> Option<
    Result<WriteView, Seq<char>>,
> {
    |file: (SnapshotView, Result<Seq<char>, Seq<char>>)|
        if blocker_of(file.0, file.1) is None {
            Some(restoration_of(file.0))
        } else {
            None
        }
}

proof fn lemma_put_back(snapshots: Seq<SnapshotView>, current: Seq<Result<Seq<char>, Seq<char>>>)
    ensures
        picks(held(snapshots, current), revert_writes(snapshots, current), put_back()),
    decreases snapshots.len(),
{
    let all = held(snapshots, current);
    if snapshots.len() == 0 {
        lemma_picks_nothing(all, put_back());
    } else {
        let front = snapshots.drop_last();
        lemma_put_back(front, current);
        assert(all.drop_last() =~= held(front, current));
        lemma_picks_last(all, revert_writes(front, current), put_back());
    }
}

/// After the plan the conversation is rewound to the message that was chosen,
/// whatever is done with the files: every file that nothing is in the way of is
/// put back on demand, in order, and none otherwise. Of all other choices nothing
/// comes.
pub proof fn law_the_plan_is_followed(
    item_id: Seq<char>,
    snapshots: Seq<SnapshotView>,
    current: Seq<Result<Seq<char>, Seq<char>>>,
    choice: usize,
)
    requires
        current.len() == snapshots.len(),
    ensures
        ({
            let (run, offer) = rewind_effect(
                RewindRunView::Reading { item_id, snapshots },
                RewindEventView::Held(current),
            );
            let step = rewind_effect(run, RewindEventView::Decided(Some(choice))).1;
            let some = exists|i: int|
                0 <= i < snapshots.len() && blocker_of(#[trigger] snapshots[i], current[i]) is None;
            &&& offer matches RewindStepView::Offer { plan, choices, .. } && plan.len()
                == snapshots.len() && (choices.len() == if some {
                3nat
            } else {
                2
            })
            &&& choice == 0 ==> step == (RewindStepView::Move {
                item_id,
                writes: Seq::empty(),
                forget: false,
            })
            &&& choice == 1 && some ==> (step matches RewindStepView::Move {
                item_id: to,
                writes,
                forget,
            } && to == item_id && forget && picks(held(snapshots, current), writes, put_back()))
            &&& choice == 1 && !some ==> !(step is Move)
            &&& choice >= 2 ==> !(step is Move)
        }),
{
    lemma_put_back(snapshots, current);
    lemma_revertible(snapshots, current);
}

proof fn lemma_revertible(snapshots: Seq<SnapshotView>, current: Seq<Result<Seq<char>, Seq<char>>>)
    requires
        current.len() >= snapshots.len(),
    ensures
        revertible(revert_lines(snapshots, current)) > 0 <==> exists|i: int|
            0 <= i < snapshots.len() && blocker_of(#[trigger] snapshots[i], current[i]) is None,
    decreases snapshots.len(),
{
    if snapshots.len() > 0 {
        let front = snapshots.drop_last();
        lemma_revertible(front, current);
        let lines = revert_lines(snapshots, current);
        assert(lines.drop_last() =~= revert_lines(front, current));
        let last = snapshots.len() - 1;
        if blocker_of(snapshots[last], current[last]) is None {
            assert(revertible(lines) > 0);
        } else {
            if revertible(lines) > 0 {
                let i = choose|i: int|
                    0 <= i < front.len() && blocker_of(#[trigger] front[i], current[i]) is None;
                assert(blocker_of(snapshots[i], current[i]) is None);
            }
            if exists|i: int|
                0 <= i < snapshots.len() && blocker_of(#[trigger] snapshots[i], current[i])
                    is None {
                let i = choose|i: int|
                    0 <= i < snapshots.len() && blocker_of(#[trigger] snapshots[i], current[i])
                        is None;
                assert(blocker_of(front[i], current[i]) is None);
            }
        }
    }
}

/// The plan says of each file what becomes of it, and keeps the one that something
/// is in the way of.
pub proof fn law_plans_say_what_becomes_of_each_file(
    snapshots: Seq<SnapshotView>,
    current: Seq<Result<Seq<char>, Seq<char>>>,
    i: int,
)
    requires
        0 <= i < snapshots.len(),
    ensures
        ({
            let line = revert_lines(snapshots, current)[i];
            let s = snapshots[i];
            &&& line.path == s.path
            &&& line.blocked == (blocker_of(s, current[i]) is Some)
            &&& line.blocked ==> line.action == "keep"@ && Some(line.detail) == blocker_of(
                s,
                current[i],
            )
            &&& !line.blocked ==> line.action == match s.change {
                FileChange::Added => "delete"@,
                FileChange::Modified => "restore"@,
                FileChange::Deleted => "recreate"@,
            }
        }),
{
}

} // verus!
