//! Records: how sessions and their items are made and changed, and which of the
//! kept records an inquiry gives back.
use vstd::prelude::*;
use vstd::string::*;

use crate::model::{BlockView, ContentBlock, ConversationItem, ItemView, Role, Usage};
use crate::session::{
    NewSession, NewSessionView, Session, SessionView, ShellHistoryItem, ShellHistoryView,
    TURN_INTERRUPTED_NOTICE, check_rebind, check_rewind, head_of, interruption_blocks, is_branch,
    item_kind, kind_of, law_append_extends_the_branch, law_branch_is_unique, rebind_problem,
    summary_blocks, summary_text,
};
use crate::text::{copy_maybe, maybe, maybe_view, same, texts, views};

verus! {

// ---------------------------------------------------------------------------
// The order of records

/// Whether one record is newer than another: it has the later time, or the same
/// time and was kept after the other.
pub open spec fn is_newer(times: Seq<i64>, i: int, j: int) -> bool {
    times[i] > times[j] || (times[i] == times[j] && i > j)
}

/// Whether places are those of the newest marked records, the newest first: of
/// `limit` records, or of all that are marked where there are fewer.
pub open spec fn is_ranked(
    times: Seq<i64>,
    marks: Seq<bool>,
    limit: nat,
    order: Seq<int>,
) -> bool {
    &&& order.len() <= limit
    &&& forall|k: int|
        0 <= k < order.len() ==> 0 <= #[trigger] order[k] < times.len() && marks[order[k]]
    &&& forall|k: int, l: int|
        0 <= k < l < order.len() ==> #[trigger] is_newer(times, order[k], order[l])
    &&& forall|i: int|
        0 <= i < times.len() && marks[i] && !#[trigger] order.contains(i) ==> order.len()
            == limit && is_oldest(times, order, i)
}

/// Whether a record is older than all at the places of an order.
pub open spec fn is_oldest(times: Seq<i64>, order: Seq<int>, i: int) -> bool {
    forall|k: int| 0 <= k < order.len() ==> #[trigger] is_newer(times, order[k], i)
}

/// The places of the newest marked records, the newest first.
pub open spec fn newest(times: Seq<i64>, marks: Seq<bool>, limit: nat) -> Seq<int> {
    choose|order: Seq<int>| is_ranked(times, marks, limit, order)
}

/// Records are ranked in one way.
pub proof fn law_ranking_is_unique(
    times: Seq<i64>,
    marks: Seq<bool>,
    limit: nat,
    a: Seq<int>,
    b: Seq<int>,
)
    requires
        is_ranked(times, marks, limit, a),
        is_ranked(times, marks, limit, b),
    ensures
        a == b,
{
    let common = if a.len() < b.len() {
        a.len()
    } else {
        b.len()
    };
    lemma_rankings_agree(times, marks, limit, a, b, common);
    lemma_ranking_is_complete(times, marks, limit, a, b);
    lemma_ranking_is_complete(times, marks, limit, b, a);
    assert(a =~= b);
}

/// Two rankings name the same records as far as both go.
proof fn lemma_rankings_agree(
    times: Seq<i64>,
    marks: Seq<bool>,
    limit: nat,
    a: Seq<int>,
    b: Seq<int>,
    n: nat,
)
    requires
        is_ranked(times, marks, limit, a),
        is_ranked(times, marks, limit, b),
        n <= a.len(),
        n <= b.len(),
    ensures
        forall|k: int| 0 <= k < n ==> #[trigger] a[k] == b[k],
    decreases n,
{
    if n > 0 {
        let k = n - 1;
        lemma_rankings_agree(times, marks, limit, a, b, (n - 1) as nat);
        if a[k] != b[k] {
            lemma_first_is_newer(times, marks, limit, a, b, k);
            assert forall|l: int| 0 <= l < k implies #[trigger] b[l] == a[l] by {
                assert(a[l] == b[l]);
            }
            lemma_first_is_newer(times, marks, limit, b, a, k);
        }
    }
}

/// Where two rankings agree up to a place and part there, the record of the one
/// is newer than that of the other.
proof fn lemma_first_is_newer(
    times: Seq<i64>,
    marks: Seq<bool>,
    limit: nat,
    a: Seq<int>,
    b: Seq<int>,
    k: int,
)
    requires
        is_ranked(times, marks, limit, a),
        is_ranked(times, marks, limit, b),
        0 <= k < a.len(),
        k < b.len(),
        a[k] != b[k],
        forall|l: int| 0 <= l < k ==> #[trigger] a[l] == b[l],
    ensures
        is_newer(times, b[k], a[k]),
{
    if b.contains(a[k]) {
        let m = choose|m: int| 0 <= m < b.len() && b[m] == a[k];
        if m < k {
            assert(a[m] == b[m]);
            assert(is_newer(times, a[m], a[k]));
        }
        assert(is_newer(times, b[k], b[m]));
    } else {
        assert(0 <= a[k] < times.len() && marks[a[k]]);
        assert(is_oldest(times, b, a[k]));
    }
}

/// No ranking is shorter than another.
proof fn lemma_ranking_is_complete(
    times: Seq<i64>,
    marks: Seq<bool>,
    limit: nat,
    a: Seq<int>,
    b: Seq<int>,
)
    requires
        is_ranked(times, marks, limit, a),
        is_ranked(times, marks, limit, b),
        forall|k: int| 0 <= k < a.len() && k < b.len() ==> #[trigger] a[k] == b[k],
    ensures
        a.len() >= b.len(),
{
    if a.len() < b.len() {
        let n = a.len() as int;
        assert(0 <= b[n] < times.len() && marks[b[n]]);
        if a.contains(b[n]) {
            let m = choose|m: int| 0 <= m < a.len() && a[m] == b[n];
            assert(a[m] == b[m]);
            assert(is_newer(times, b[m], b[n]));
        }
        assert(!a.contains(b[n]));
    }
}

/// Whether places are those of all marked records among the first `n`, the
/// newest first.
spec fn is_sorted_to(times: Seq<i64>, marks: Seq<bool>, n: int, order: Seq<int>) -> bool {
    &&& forall|k: int|
        0 <= k < order.len() ==> 0 <= #[trigger] order[k] < n && marks[order[k]]
    &&& forall|k: int, l: int|
        0 <= k < l < order.len() ==> #[trigger] is_newer(times, order[k], order[l])
    &&& forall|i: int| 0 <= i < n && #[trigger] marks[i] ==> order.contains(i)
}

/// Whether a place parts those that are later than a record from the others.
spec fn parts(times: Seq<i64>, order: Seq<int>, n: int, p: int) -> bool {
    &&& 0 <= p <= order.len()
    &&& forall|k: int| 0 <= k < p ==> times[#[trigger] order[k]] > times[n]
    &&& p < order.len() ==> times[order[p]] <= times[n]
}

/// The next record stands where it parts the later ones from the others.
proof fn lemma_insert(times: Seq<i64>, marks: Seq<bool>, n: int, order: Seq<int>, p: int)
    requires
        0 <= n < times.len(),
        marks.len() == times.len(),
        marks[n],
        is_sorted_to(times, marks, n, order),
        parts(times, order, n, p),
    ensures
        is_sorted_to(times, marks, n + 1, order.insert(p, n)),
{
    let next = order.insert(p, n);
    assert forall|k: int| 0 <= k < next.len() implies 0 <= #[trigger] next[k] < n + 1
        && marks[next[k]] by {
        if k < p {
            assert(next[k] == order[k]);
        } else if k > p {
            assert(next[k] == order[k - 1]);
        }
    }
    assert forall|k: int, l: int| 0 <= k < l < next.len() implies #[trigger] is_newer(
        times,
        next[k],
        next[l],
    ) by {
        if l < p {
            assert(is_newer(times, order[k], order[l]));
        } else if l == p {
            assert(times[order[k]] > times[n]);
        } else if k < p {
            assert(is_newer(times, order[k], order[l - 1]));
        } else if k == p {
            assert(0 <= order[l - 1] < n);
            if l - 1 > p {
                assert(is_newer(times, order[p], order[l - 1]));
            }
        } else {
            assert(is_newer(times, order[k - 1], order[l - 1]));
        }
    }
    assert forall|i: int| 0 <= i < n + 1 && #[trigger] marks[i] implies next.contains(i) by {
        if i == n {
            assert(next[p] == n);
        } else {
            assert(order.contains(i));
            let m = choose|m: int| 0 <= m < order.len() && order[m] == i;
            if m < p {
                assert(next[m] == i);
            } else {
                assert(next[m + 1] == i);
            }
        }
    }
}

/// The first of all marked records are the newest.
proof fn lemma_first_are_newest(times: Seq<i64>, marks: Seq<bool>, limit: nat, order: Seq<int>)
    requires
        marks.len() == times.len(),
        is_sorted_to(times, marks, times.len() as int, order),
    ensures
        ({
            let n = if limit < order.len() {
                limit as int
            } else {
                order.len() as int
            };
            is_ranked(times, marks, limit, order.take(n)) && newest(times, marks, limit)
                == order.take(n)
        }),
{
    let n = if limit < order.len() {
        limit as int
    } else {
        order.len() as int
    };
    let first = order.take(n);
    assert forall|k: int, l: int| 0 <= k < l < first.len() implies #[trigger] is_newer(
        times,
        first[k],
        first[l],
    ) by {
        assert(is_newer(times, order[k], order[l]));
    }
    assert forall|i: int|
        0 <= i < times.len() && marks[i] && !#[trigger] first.contains(i) implies first.len()
        == limit && is_oldest(times, first, i) by {
        assert(order.contains(i));
        let m = choose|m: int| 0 <= m < order.len() && order[m] == i;
        if m < n {
            assert(first[m] == i);
        }
        assert forall|k: int| 0 <= k < first.len() implies #[trigger] is_newer(
            times,
            first[k],
            i,
        ) by {
            assert(is_newer(times, order[k], order[m]));
        }
    }
    assert(is_ranked(times, marks, limit, first));
    law_ranking_is_unique(times, marks, limit, newest(times, marks, limit), first);
}

/// All marked records among the first `n`, the newest first.
proof fn lemma_sorted(times: Seq<i64>, marks: Seq<bool>, n: int) -> (order: Seq<int>)
    requires
        marks.len() == times.len(),
        0 <= n <= times.len(),
    ensures
        is_sorted_to(times, marks, n, order),
        order.len() <= n,
    decreases n,
{
    if n == 0 {
        Seq::empty()
    } else {
        let before = lemma_sorted(times, marks, n - 1);
        if marks[n - 1] {
            let p = lemma_place(times, before, n - 1, 0);
            lemma_insert(times, marks, n - 1, before, p);
            before.insert(p, n - 1)
        } else {
            before
        }
    }
}

/// Where a record stands in an order.
proof fn lemma_place(times: Seq<i64>, order: Seq<int>, n: int, from: int) -> (p: int)
    requires
        0 <= from <= order.len(),
        forall|k: int| 0 <= k < from ==> times[#[trigger] order[k]] > times[n],
    ensures
        parts(times, order, n, p),
    decreases order.len() - from,
{
    if from < order.len() && times[order[from]] > times[n] {
        lemma_place(times, order, n, from + 1)
    } else {
        from
    }
}

/// The newest records can be told, whatever the records are: at most `limit` of
/// them, all marked, each newer than the next, and newer than every marked
/// record that is left out.
pub proof fn law_newest(times: Seq<i64>, marks: Seq<bool>, limit: nat)
    requires
        marks.len() == times.len(),
    ensures
        is_ranked(times, marks, limit, newest(times, marks, limit)),
{
    let order = lemma_sorted(times, marks, times.len() as int);
    lemma_first_are_newest(times, marks, limit, order);
}

/// Where there is room for all records, no marked record is left out: a session
/// can be rewound to each of its messages, and each request counts in its cost.
pub proof fn law_all_are_found(times: Seq<i64>, marks: Seq<bool>, limit: nat, i: int)
    requires
        marks.len() == times.len(),
        limit >= times.len(),
        0 <= i < times.len(),
        marks[i],
    ensures
        newest(times, marks, limit).contains(i),
{
    let order = lemma_sorted(times, marks, times.len() as int);
    lemma_first_are_newest(times, marks, limit, order);
    assert(order.take(order.len() as int) =~= order);
}

/// Places as numbers.
pub open spec fn places(v: Seq<usize>) -> Seq<int> {
    Seq::new(v.len(), |i: int| v[i] as int)
}

/// What stands at places.
pub open spec fn picked<T>(rows: Seq<T>, order: Seq<int>) -> Seq<T> {
    Seq::new(order.len(), |i: int| rows[order[i]])
}

/// The places of the newest marked records, the newest first.
pub fn rank(times: &Vec<i64>, marks: &Vec<bool>, limit: usize) -> (r: Vec<usize>)
    requires
        marks@.len() == times@.len(),
    ensures
        places(r@) == newest(times@, marks@, limit as nat),
        forall|k: int| 0 <= k < r@.len() ==> #[trigger] r@[k] < times@.len(),
{
    let mut order: Vec<usize> = Vec::new();
    assert(is_sorted_to(times@, marks@, 0, places(order@)));
    let mut i: usize = 0;
    while i < times.len()
        invariant
            i <= times@.len(),
            marks@.len() == times@.len(),
            is_sorted_to(times@, marks@, i as int, places(order@)),
        decreases times@.len() - i,
    {
        let ghost before = places(order@);
        if marks[i] {
            assert forall|k: int| 0 <= k < order@.len() implies #[trigger] order@[k] < i by {
                assert(before[k] == order@[k]);
            }
            let mut p: usize = 0;
            while p < order.len() && times[order[p]] > times[i]
                invariant
                    p <= order@.len(),
                    i < times@.len(),
                    before == places(order@),
                    is_sorted_to(times@, marks@, i as int, before),
                    forall|k: int| 0 <= k < p ==> times@[#[trigger] before[k]] > times@[i as int],
                    forall|k: int| 0 <= k < order@.len() ==> #[trigger] order@[k] < i,
                decreases order@.len() - p,
            {
                assert(before[p as int] == order@[p as int]);
                p += 1;
            }
            assert(p < order@.len() ==> before[p as int] == order@[p as int]);
            proof {
                lemma_insert(times@, marks@, i as int, before, p as int);
            }
            order.insert(p, i);
            assert(places(order@) =~= before.insert(p as int, i as int));
        }
        i += 1;
    }
    let ghost all = places(order@);
    proof {
        lemma_first_are_newest(times@, marks@, limit as nat, all);
    }
    order.truncate(limit);
    let ghost n = if limit < all.len() {
        limit as int
    } else {
        all.len() as int
    };
    assert(places(order@) =~= all.take(n));
    assert forall|k: int| 0 <= k < order@.len() implies #[trigger] order@[k] < times@.len() by {
        assert(all[k] == order@[k]);
    }
    order
}

// ---------------------------------------------------------------------------
// Records

/// A session with the key of the shell it belongs to.
pub struct SessionRow {
    pub session: Session,
    pub client_session_key: Option<String>,
    /// Whether the user has sent a message in it.
    pub has_message: bool,
}

/// The model of a [`SessionRow`].
pub struct SessionRowView {
    pub session: SessionView,
    pub client_session_key: Option<Seq<char>>,
    pub has_message: bool,
}

impl View for SessionRow {
    type V = SessionRowView;

    open spec fn view(&self) -> SessionRowView {
        SessionRowView {
            session: self.session@,
            client_session_key: maybe(self.client_session_key),
            has_message: self.has_message,
        }
    }
}

/// An item with its kind.
#[derive(Debug, PartialEq)]
pub struct ItemRow {
    pub item: ConversationItem,
    pub kind: String,
}

/// The model of an [`ItemRow`].
pub struct ItemRowView {
    pub item: ItemView,
    pub kind: Seq<char>,
}

impl View for ItemRow {
    type V = ItemRowView;

    open spec fn view(&self) -> ItemRowView {
        ItemRowView { item: self.item@, kind: self.kind@ }
    }
}

/// A shell command with the key of the shell it ran in.
pub struct ShellRow {
    pub item: ShellHistoryItem,
    pub client_session_key: Option<String>,
}

/// The model of a [`ShellRow`].
pub struct ShellRowView {
    pub item: ShellHistoryView,
    pub client_session_key: Option<Seq<char>>,
}

impl View for ShellRow {
    type V = ShellRowView;

    open spec fn view(&self) -> ShellRowView {
        ShellRowView { item: self.item@, client_session_key: maybe(self.client_session_key) }
    }
}

/// The session that a snapshot of a file was taken in, and when.
pub struct SnapshotStamp {
    pub session_id: String,
    pub created_at: i64,
}

/// The model of a [`SnapshotStamp`].
pub struct StampView {
    pub session_id: Seq<char>,
    pub created_at: i64,
}

impl View for SnapshotStamp {
    type V = StampView;

    open spec fn view(&self) -> StampView {
        StampView { session_id: self.session_id@, created_at: self.created_at }
    }
}

/// The kind of the messages of the user.
pub const USER_MESSAGE: &'static str = "user_message";

/// The kind of the item that says that a turn was interrupted.
pub const TURN_INTERRUPTED: &'static str = "turn_interrupted";

/// The kind of the item that stands for a summarised conversation.
pub const CONVERSATION_SUMMARY: &'static str = "conversation_summary";

// ---------------------------------------------------------------------------
// Making and changing records

/// A new session.
pub open spec fn created_session(new: NewSessionView, id: Seq<char>, now: i64) -> SessionView {
    SessionView {
        id,
        cwd: new.cwd,
        title: None,
        head_item_id: None,
        provider_type: new.provider_type,
        model: new.model,
        model_profile: new.model_profile,
        effort: new.effort,
        reasoning_visible: None,
        created_at: now,
        updated_at: now,
    }
}

/// A new session, in which nothing has been said.
pub fn create_session(new: &NewSession, id: String, now: i64) -> (r: SessionRow)
    ensures
        r@ == (SessionRowView {
            session: created_session(new@, id@, now),
            client_session_key: new@.client_session_key,
            has_message: false,
        }),
{
    SessionRow {
        session: Session {
            id,
            cwd: new.cwd.clone(),
            title: None,
            head_item_id: None,
            provider_type: new.provider_type.clone(),
            model: new.model.clone(),
            model_profile: copy_maybe(&new.model_profile),
            effort: copy_maybe(&new.effort),
            reasoning_visible: None,
            created_at: now,
            updated_at: now,
        },
        client_session_key: copy_maybe(&new.client_session_key),
        has_message: false,
    }
}

/// A session that ends at another item.
pub open spec fn moved(session: SessionView, head: Option<Seq<char>>, now: i64) -> SessionView {
    SessionView { head_item_id: head, updated_at: now, ..session }
}

/// An item under the head of a session.
pub open spec fn appended(
    session: SessionView,
    id: Seq<char>,
    role: Role,
    blocks: Seq<BlockView>,
    usage: Option<Usage>,
    now: i64,
) -> ItemView {
    ItemView {
        id,
        session_id: session.id,
        parent_id: session.head_item_id,
        role,
        blocks,
        usage,
        created_at: now,
    }
}

/// Keeps an item under the head of a session, which ends at the item from then
/// on.
pub fn append_item(
    session: &mut Session,
    id: String,
    role: Role,
    blocks: Vec<ContentBlock>,
    usage: Option<Usage>,
    now: i64,
) -> (r: ItemRow)
    ensures
        r@ == (ItemRowView {
            item: appended(old(session)@, id@, role, views(blocks@), usage, now),
            kind: kind_of(role, views(blocks@)),
        }),
        final(session)@ == moved(old(session)@, Some(id@), now),
{
    let kind = item_kind(role, &blocks).to_owned();
    append_item_with_kind(session, id, role, blocks, kind, usage, now)
}

/// Keeps an item of some kind under the head of a session.
fn append_item_with_kind(
    session: &mut Session,
    id: String,
    role: Role,
    blocks: Vec<ContentBlock>,
    kind: String,
    usage: Option<Usage>,
    now: i64,
) -> (r: ItemRow)
    ensures
        r@ == (ItemRowView {
            item: appended(old(session)@, id@, role, views(blocks@), usage, now),
            kind: kind@,
        }),
        final(session)@ == moved(old(session)@, Some(id@), now),
{
    let item = ConversationItem {
        id: id.clone(),
        session_id: session.id.clone(),
        parent_id: copy_maybe(&session.head_item_id),
        role,
        blocks,
        usage,
        created_at: now,
    };
    session.head_item_id = Some(id);
    session.updated_at = now;
    ItemRow { item, kind }
}

/// Keeps in a session that its turn was interrupted: the model is told, but it
/// is no message of the user.
pub fn append_turn_interrupted(session: &mut Session, id: String, now: i64) -> (r: ItemRow)
    ensures
        r@ == (ItemRowView {
            item: appended(
                old(session)@,
                id@,
                Role::User,
                seq![BlockView::Text(TURN_INTERRUPTED_NOTICE@)],
                None,
                now,
            ),
            kind: TURN_INTERRUPTED@,
        }),
        final(session)@ == moved(old(session)@, Some(id@), now),
{
    append_item_with_kind(
        session,
        id,
        Role::User,
        interruption_blocks(),
        TURN_INTERRUPTED.to_owned(),
        None,
        now,
    )
}

/// Has a session go on from a summary: the item that holds it follows no other.
pub fn replace_branch_with_summary(
    session: &mut Session,
    id: String,
    summary: &str,
    now: i64,
) -> (r: ItemRow)
    ensures
        r@ == (ItemRowView {
            item: (ItemView {
                parent_id: None,
                ..appended(
                    old(session)@,
                    id@,
                    Role::User,
                    seq![BlockView::Text(summary_text(summary@))],
                    None,
                    now,
                )
            }),
            kind: CONVERSATION_SUMMARY@,
        }),
        final(session)@ == moved(old(session)@, Some(id@), now),
{
    session.head_item_id = None;
    append_item_with_kind(
        session,
        id,
        Role::User,
        summary_blocks(summary),
        CONVERSATION_SUMMARY.to_owned(),
        None,
        now,
    )
}

/// The item that is kept under an id.
pub open spec fn item_kept(rows: Seq<ItemRowView>, id: Seq<char>) -> Option<ItemView>
    decreases rows.len(),
{
    if rows.len() == 0 {
        None
    } else if rows[0].item.id == id {
        Some(rows[0].item)
    } else {
        item_kept(rows.skip(1), id)
    }
}

/// The session of the item that is kept under an id.
fn find_owner(rows: &Vec<ItemRow>, id: &str) -> (r: Option<String>)
    ensures
        maybe(r) == match item_kept(views(rows@), id@) {
            Some(item) => Some(item.session_id),
            None => None,
        },
{
    let ghost all = views(rows@);
    assert(all.skip(0) =~= all);
    let mut i: usize = 0;
    while i < rows.len()
        invariant
            i <= rows@.len(),
            all == views(rows@),
            item_kept(all, id@) == item_kept(all.skip(i as int), id@),
        decreases rows@.len() - i,
    {
        assert(all.skip(i as int)[0] == rows@[i as int]@);
        assert(all.skip(i as int).skip(1) =~= all.skip(i + 1));
        if same(&rows[i].item.id, id) {
            return Some(rows[i].item.session_id.clone());
        }
        i += 1;
    }
    None
}

/// Has a session go on from one of its items. The items that are kept stay as
/// they are, those on the branch that is left among them.
pub fn rewind(session: &mut Session, items: &Vec<ItemRow>, item_id: &str, now: i64) -> (r: Result<
    (),
    String,
>)
    ensures
        match item_kept(views(items@), item_id@) {
            None => r matches Err(e) && e@ == "rewind item not found: "@ + item_id@
                && final(session)@ == old(session)@,
            Some(item) => if item.session_id == old(session)@.id {
                r is Ok && final(session)@ == moved(old(session)@, Some(item_id@), now)
            } else {
                r matches Err(e) && e@ == "rewind item does not belong to session "@
                    + old(session)@.id && final(session)@ == old(session)@
            },
        },
{
    match check_rewind(&find_owner(items, item_id), &session.id, item_id) {
        Ok(()) => {
            session.head_item_id = Some(item_id.to_owned());
            session.updated_at = now;
            Ok(())
        },
        Err(e) => Err(e),
    }
}

/// Has a session start over: nothing of what was said is followed.
pub fn clear_session(session: &mut Session, now: i64)
    ensures
        final(session)@ == moved(old(session)@, None, now),
{
    session.head_item_id = None;
    session.updated_at = now;
}

/// What is appended to a session lengthens its branch by that item, and the
/// session ends there.
pub proof fn law_appending_lengthens_the_branch(
    session: SessionView,
    branch: Seq<ItemView>,
    id: Seq<char>,
    role: Role,
    blocks: Seq<BlockView>,
    usage: Option<Usage>,
    now: i64,
)
    requires
        is_branch(branch),
        head_of(branch) == session.head_item_id,
    ensures
        ({
            let longer = branch.push(appended(session, id, role, blocks, usage, now));
            is_branch(longer) && head_of(longer) == moved(session, Some(id), now).head_item_id
        }),
{
    law_append_extends_the_branch(branch, appended(session, id, role, blocks, usage, now));
}

/// Whether the parent of an item is kept before it.
pub open spec fn follows_parent(rows: Seq<ItemRowView>, k: int) -> bool {
    rows[k].item.parent_id matches Some(parent) ==> exists|j: int|
        0 <= j < k && (#[trigger] rows[j]).item.id == parent
}

/// Whether items are linked: each has an id of its own, and its parent is kept
/// before it.
pub open spec fn are_linked(rows: Seq<ItemRowView>) -> bool {
    &&& forall|i: int, j: int|
        0 <= i < j < rows.len() ==> (#[trigger] rows[i]).item.id != (#[trigger] rows[j]).item.id
    &&& forall|k: int| 0 <= k < rows.len() ==> #[trigger] follows_parent(rows, k)
}

/// Whether an item is kept under an id.
pub open spec fn is_kept(rows: Seq<ItemRowView>, id: Seq<char>) -> bool {
    exists|j: int| 0 <= j < rows.len() && (#[trigger] rows[j]).item.id == id
}

/// Whether a branch is the one that is read from a head: a chain of kept items,
/// each the parent of the next, that ends at the head.
pub open spec fn reads_as(
    rows: Seq<ItemRowView>,
    head: Option<Seq<char>>,
    branch: Seq<ItemView>,
) -> bool {
    &&& is_branch(branch)
    &&& head_of(branch) == head
    &&& forall|i: int| 0 <= i < branch.len() ==> items_of(rows).contains(#[trigger] branch[i])
}

/// Items stay linked when one with a new id is kept under a head that is kept,
/// or under none.
pub proof fn law_appending_keeps_items_linked(rows: Seq<ItemRowView>, row: ItemRowView)
    requires
        are_linked(rows),
        !is_kept(rows, row.item.id),
        row.item.parent_id matches Some(parent) ==> is_kept(rows, parent),
    ensures
        are_linked(rows.push(row)),
{
    let after = rows.push(row);
    assert forall|i: int, j: int| 0 <= i < j < after.len() implies (#[trigger] after[i]).item.id
        != (#[trigger] after[j]).item.id by {
        assert(after[i] == rows[i]);
        if j < rows.len() {
            assert(after[j] == rows[j]);
        }
    }
    assert forall|k: int| 0 <= k < after.len() implies #[trigger] follows_parent(after, k) by {
        if let Some(parent) = after[k].item.parent_id {
            if k < rows.len() {
                assert(follows_parent(rows, k));
            }
            let j = choose|j: int| 0 <= j < rows.len() && j <= k && (
            #[trigger] rows[j]).item.id == parent;
            assert(after[j].item.id == parent);
        }
    }
}

/// The branch that ends at a kept item.
proof fn lemma_branch_to(rows: Seq<ItemRowView>, k: int) -> (branch: Seq<ItemView>)
    requires
        are_linked(rows),
        0 <= k < rows.len(),
    ensures
        reads_as(rows, Some(rows[k].item.id), branch),
        branch.len() > 0,
        branch.last() == rows[k].item,
    decreases k,
{
    let item = rows[k].item;
    assert(items_of(rows)[k] == item);
    assert(follows_parent(rows, k));
    let before = match item.parent_id {
        Some(parent) => {
            let j = choose|j: int| 0 <= j < k && (#[trigger] rows[j]).item.id == parent;
            lemma_branch_to(rows, j)
        },
        None => Seq::empty(),
    };
    law_append_extends_the_branch(before, item);
    let branch = before.push(item);
    assert forall|i: int| 0 <= i < branch.len() implies items_of(rows).contains(
        #[trigger] branch[i],
    ) by {
        if i < before.len() {
            assert(branch[i] == before[i]);
        }
    }
    branch
}

proof fn lemma_item_kept(rows: Seq<ItemRowView>, id: Seq<char>, k: int)
    requires
        are_linked(rows),
        0 <= k < rows.len(),
        rows[k].item.id == id,
    ensures
        item_kept(rows, id) == Some(rows[k].item),
{
    lemma_item_kept_from(rows, id, k, 0);
    assert(rows.skip(0) =~= rows);
}

proof fn lemma_item_kept_from(rows: Seq<ItemRowView>, id: Seq<char>, k: int, from: int)
    requires
        are_linked(rows),
        0 <= from <= k < rows.len(),
        rows[k].item.id == id,
    ensures
        item_kept(rows.skip(from), id) == Some(rows[k].item),
    decreases k - from,
{
    assert(rows.skip(from)[0] == rows[from]);
    if from < k {
        assert(rows[from].item.id != rows[k].item.id);
        assert(rows.skip(from).skip(1) =~= rows.skip(from + 1));
        lemma_item_kept_from(rows, id, k, from + 1);
    }
}

/// A rewound session reads as the chain of parents from the first item down to
/// the one that it was rewound to, and as nothing else.
pub proof fn law_rewound_sessions_end_at_the_item(
    rows: Seq<ItemRowView>,
    session: SessionView,
    item_id: Seq<char>,
    now: i64,
)
    requires
        are_linked(rows),
        is_kept(rows, item_id),
    ensures
        ({
            let head = moved(session, Some(item_id), now).head_item_id;
            &&& exists|branch: Seq<ItemView>| #[trigger] reads_as(rows, head, branch)
            &&& forall|branch: Seq<ItemView>| #[trigger]
                reads_as(rows, head, branch) ==> branch.len() > 0 && Some(branch.last())
                    == item_kept(rows, item_id)
            &&& forall|a: Seq<ItemView>, b: Seq<ItemView>| #[trigger]
                reads_as(rows, head, a) && #[trigger] reads_as(rows, head, b) ==> a == b
        }),
{
    let head = moved(session, Some(item_id), now).head_item_id;
    let k = choose|k: int| 0 <= k < rows.len() && (#[trigger] rows[k]).item.id == item_id;
    let branch = lemma_branch_to(rows, k);
    lemma_item_kept(rows, item_id, k);
    assert(reads_as(rows, head, branch));
    assert forall|a: Seq<ItemView>, b: Seq<ItemView>| #[trigger]
        reads_as(rows, head, a) && #[trigger] reads_as(rows, head, b) implies a == b by {
        assert forall|i: int, j: int|
            0 <= i < a.len() && 0 <= j < b.len() && (#[trigger] a[i]).id == (
            #[trigger] b[j]).id implies a[i] == b[j] by {
            let m = choose|m: int| 0 <= m < items_of(rows).len() && items_of(rows)[m] == a[i];
            let n = choose|n: int| 0 <= n < items_of(rows).len() && items_of(rows)[n] == b[j];
            assert(rows[m].item.id == rows[n].item.id);
        }
        law_branch_is_unique(a, b);
    }
    assert forall|other: Seq<ItemView>| #[trigger]
        reads_as(rows, head, other) implies other.len() > 0 && Some(other.last()) == item_kept(
        rows,
        item_id,
    ) by {
        assert(reads_as(rows, head, branch));
        assert(other == branch);
    }
}

// ---------------------------------------------------------------------------
// Sessions that are found

/// When sessions were last used.
pub open spec fn session_times(rows: Seq<SessionRowView>) -> Seq<i64> {
    Seq::new(rows.len(), |i: int| rows[i].session.updated_at)
}

/// Which sessions are those of a directory.
pub open spec fn in_directory(rows: Seq<SessionRowView>, cwd: Seq<char>) -> Seq<bool> {
    Seq::new(rows.len(), |i: int| rows[i].session.cwd == cwd)
}

/// Which sessions are those of a shell in a directory.
pub open spec fn of_shell(rows: Seq<SessionRowView>, cwd: Seq<char>, key: Seq<char>) -> Seq<bool> {
    Seq::new(
        rows.len(),
        |i: int| rows[i].session.cwd == cwd && rows[i].client_session_key == Some(key),
    )
}

/// Which sessions of a directory hold a message.
pub open spec fn begun_in(rows: Seq<SessionRowView>, cwd: Seq<char>) -> Seq<bool> {
    Seq::new(rows.len(), |i: int| rows[i].session.cwd == cwd && rows[i].has_message)
}

/// Sessions without the keys they are kept with.
pub open spec fn sessions_of(rows: Seq<SessionRowView>) -> Seq<SessionView> {
    Seq::new(rows.len(), |i: int| rows[i].session)
}

/// The newest marked sessions, the newest first.
pub open spec fn newest_sessions(
    rows: Seq<SessionRowView>,
    marks: Seq<bool>,
    limit: nat,
) -> Seq<SessionView> {
    picked(sessions_of(rows), newest(session_times(rows), marks, limit))
}

/// The first of a sequence.
pub open spec fn first_of<T>(s: Seq<T>) -> Option<T> {
    if s.len() > 0 {
        Some(s[0])
    } else {
        None
    }
}

/// The newest marked sessions, the newest first.
fn pick_sessions(rows: &Vec<SessionRow>, marks: &Vec<bool>, limit: usize) -> (r: Vec<Session>)
    requires
        marks@.len() == rows@.len(),
    ensures
        views(r@) == newest_sessions(views(rows@), marks@, limit as nat),
{
    let ghost all = views(rows@);
    let mut times: Vec<i64> = Vec::new();
    let mut i: usize = 0;
    while i < rows.len()
        invariant
            i <= rows@.len(),
            all == views(rows@),
            times@ == session_times(all).take(i as int),
        decreases rows@.len() - i,
    {
        assert(all[i as int] == rows@[i as int]@);
        assert(session_times(all).take(i + 1) =~= session_times(all).take(i as int).push(
            rows@[i as int].session.updated_at,
        ));
        times.push(rows[i].session.updated_at);
        i += 1;
    }
    assert(session_times(all).take(all.len() as int) =~= session_times(all));
    let order = rank(&times, marks, limit);
    let ghost target = picked(sessions_of(all), places(order@));
    let mut r: Vec<Session> = Vec::new();
    let mut k: usize = 0;
    assert(views(r@) =~= target.take(0));
    while k < order.len()
        invariant
            k <= order@.len(),
            all == views(rows@),
            target == picked(sessions_of(all), places(order@)),
            views(r@) == target.take(k as int),
            forall|k: int| 0 <= k < order@.len() ==> #[trigger] order@[k] < rows@.len(),
        decreases order@.len() - k,
    {
        let ghost before = views(r@);
        let found = rows[order[k]].session.clone();
        assert(all[order@[k as int] as int] == rows@[order@[k as int] as int]@);
        assert(places(order@)[k as int] == order@[k as int]);
        assert(found@ == target[k as int]);
        r.push(found);
        assert(views(r@) =~= before.push(found@));
        assert(target.take(k + 1) =~= target.take(k as int).push(target[k as int]));
        k += 1;
    }
    assert(target.take(target.len() as int) =~= target);
    r
}

/// The session of a directory that was used last.
pub fn find_latest_session(rows: &Vec<SessionRow>, cwd: &str) -> (r: Option<Session>)
    ensures
        maybe_view(r) == first_of(
            newest_sessions(views(rows@), in_directory(views(rows@), cwd@), 1),
        ),
{
    let ghost all = views(rows@);
    let ghost target = in_directory(all, cwd@);
    let mut marks: Vec<bool> = Vec::new();
    let mut i: usize = 0;
    while i < rows.len()
        invariant
            i <= rows@.len(),
            all == views(rows@),
            target == in_directory(all, cwd@),
            marks@ == target.take(i as int),
        decreases rows@.len() - i,
    {
        let mark = same(&rows[i].session.cwd, cwd);
        assert(all[i as int] == rows@[i as int]@);
        assert(mark == target[i as int]);
        assert(target.take(i + 1) =~= target.take(i as int).push(mark));
        marks.push(mark);
        i += 1;
    }
    assert(target.take(target.len() as int) =~= target);
    let found = pick_sessions(rows, &marks, 1);
    first_session(found)
}

/// The first of some sessions.
fn first_session(found: Vec<Session>) -> (r: Option<Session>)
    ensures
        maybe_view(r) == first_of(views(found@)),
{
    if found.len() == 0 {
        None
    } else {
        Some(found[0].clone())
    }
}

/// The session of a shell in a directory.
pub fn find_client_session(rows: &Vec<SessionRow>, cwd: &str, key: &str) -> (r: Option<Session>)
    ensures
        maybe_view(r) == first_of(
            newest_sessions(views(rows@), of_shell(views(rows@), cwd@, key@), 1),
        ),
{
    let ghost all = views(rows@);
    let ghost target = of_shell(all, cwd@, key@);
    let mut marks: Vec<bool> = Vec::new();
    let mut i: usize = 0;
    while i < rows.len()
        invariant
            i <= rows@.len(),
            all == views(rows@),
            target == of_shell(all, cwd@, key@),
            marks@ == target.take(i as int),
        decreases rows@.len() - i,
    {
        let mark = same(&rows[i].session.cwd, cwd) && is_key(&rows[i].client_session_key, key);
        assert(all[i as int] == rows@[i as int]@);
        assert(mark == target[i as int]);
        assert(target.take(i + 1) =~= target.take(i as int).push(mark));
        marks.push(mark);
        i += 1;
    }
    assert(target.take(target.len() as int) =~= target);
    let found = pick_sessions(rows, &marks, 1);
    first_session(found)
}

/// Whether an optional text is a given one.
fn is_key(kept: &Option<String>, key: &str) -> (r: bool)
    ensures
        r == (maybe(*kept) == Some(key@)),
{
    match kept {
        Some(kept) => same(kept, key),
        None => false,
    }
}

/// The sessions of a directory that hold a message, those used last first.
pub fn recent_sessions(rows: &Vec<SessionRow>, cwd: &str, limit: usize) -> (r: Vec<Session>)
    ensures
        views(r@) == newest_sessions(
            views(rows@),
            begun_in(views(rows@), cwd@),
            limit as nat,
        ),
{
    let ghost all = views(rows@);
    let ghost target = begun_in(all, cwd@);
    let mut marks: Vec<bool> = Vec::new();
    let mut i: usize = 0;
    while i < rows.len()
        invariant
            i <= rows@.len(),
            all == views(rows@),
            target == begun_in(all, cwd@),
            marks@ == target.take(i as int),
        decreases rows@.len() - i,
    {
        let mark = same(&rows[i].session.cwd, cwd) && rows[i].has_message;
        assert(all[i as int] == rows@[i as int]@);
        assert(mark == target[i as int]);
        assert(target.take(i + 1) =~= target.take(i as int).push(mark));
        marks.push(mark);
        i += 1;
    }
    assert(target.take(target.len() as int) =~= target);
    pick_sessions(rows, &marks, limit)
}

/// The directory and the key of a session, if there is one of that name.
pub open spec fn binding_of(rows: Seq<SessionRowView>, id: Seq<char>) -> Option<
    (Seq<char>, Option<Seq<char>>),
>
    decreases rows.len(),
{
    if rows.len() == 0 {
        None
    } else if rows[0].session.id == id {
        Some((rows[0].session.cwd, rows[0].client_session_key))
    } else {
        binding_of(rows.skip(1), id)
    }
}

/// The directory and the key of a session, if there is one of that name.
fn find_binding(rows: &Vec<SessionRow>, id: &str) -> (r: Option<(String, Option<String>)>)
    ensures
        match r {
            Some((cwd, key)) => binding_of(views(rows@), id@) == Some((cwd@, maybe(key))),
            None => binding_of(views(rows@), id@) is None,
        },
{
    let ghost all = views(rows@);
    assert(all.skip(0) =~= all);
    let mut i: usize = 0;
    while i < rows.len()
        invariant
            i <= rows@.len(),
            all == views(rows@),
            binding_of(all, id@) == binding_of(all.skip(i as int), id@),
        decreases rows@.len() - i,
    {
        assert(all.skip(i as int)[0] == rows@[i as int]@);
        assert(all.skip(i as int).skip(1) =~= all.skip(i + 1));
        if same(&rows[i].session.id, id) {
            return Some((rows[i].session.cwd.clone(), copy_maybe(&rows[i].client_session_key)));
        }
        i += 1;
    }
    None
}

/// What is kept of a session once a shell goes on in the session `id`: that one
/// has the key of the shell, and no other of the directory has it.
pub open spec fn rebound(
    row: SessionRowView,
    cwd: Seq<char>,
    key: Seq<char>,
    id: Seq<char>,
    now: i64,
) -> SessionRowView {
    if row.session.id == id {
        SessionRowView {
            session: SessionView { updated_at: now, ..row.session },
            client_session_key: Some(key),
            ..row
        }
    } else if row.session.cwd == cwd && row.client_session_key == Some(key) {
        SessionRowView { client_session_key: None, ..row }
    } else {
        row
    }
}

/// What is kept of all sessions once a shell goes on in one of them.
pub open spec fn all_rebound(
    rows: Seq<SessionRowView>,
    cwd: Seq<char>,
    key: Seq<char>,
    id: Seq<char>,
    now: i64,
) -> Seq<SessionRowView> {
    Seq::new(rows.len(), |i: int| rebound(rows[i], cwd, key, id, now))
}

/// Has a shell go on in another session of its directory.
pub fn rebind_client_session_key(
    rows: &mut Vec<SessionRow>,
    cwd: &str,
    key: &str,
    target_session_id: &str,
    now: i64,
) -> (r: Result<(), String>)
    ensures
        ({
            let before = views(old(rows)@);
            match rebind_problem(
                binding_of(before, target_session_id@),
                cwd@,
                key@,
                target_session_id@,
            ) {
                None => r is Ok && views(final(rows)@) == all_rebound(
                    before,
                    cwd@,
                    key@,
                    target_session_id@,
                    now,
                ),
                Some(problem) => r matches Err(e) && e@ == problem && views(final(rows)@) == before,
            }
        }),
{
    let ghost before = views(rows@);
    let target = find_binding(rows, target_session_id);
    match check_rebind(&target, cwd, key, target_session_id) {
        Err(e) => Err(e),
        Ok(()) => {
            let ghost after = all_rebound(before, cwd@, key@, target_session_id@, now);
            let mut i: usize = 0;
            assert(views(rows@) =~= after.take(0) + before.skip(0));
            while i < rows.len()
                invariant
                    i <= rows@.len(),
                    rows@.len() == before.len(),
                    after == all_rebound(before, cwd@, key@, target_session_id@, now),
                    views(rows@) == after.take(i as int) + before.skip(i as int),
                decreases rows@.len() - i,
            {
                let ghost now_kept = views(rows@);
                assert(now_kept[i as int] == rows@[i as int]@);
                assert(now_kept[i as int] == before[i as int]);
                let is_target = same(&rows[i].session.id, target_session_id);
                let is_bound = same(&rows[i].session.cwd, cwd) && is_key(
                    &rows[i].client_session_key,
                    key,
                );
                let mut session = rows[i].session.clone();
                let mut kept = copy_maybe(&rows[i].client_session_key);
                if is_target {
                    session.updated_at = now;
                    kept = Some(key.to_owned());
                } else if is_bound {
                    kept = None;
                }
                let row = SessionRow {
                    session,
                    client_session_key: kept,
                    has_message: rows[i].has_message,
                };
                assert(row@ == after[i as int]);
                let ghost next = row@;
                rows.set(i, row);
                assert(views(rows@) =~= now_kept.update(i as int, next));
                assert(views(rows@) =~= after.take(i + 1) + before.skip(i + 1));
                i += 1;
            }
            assert(after.take(i as int) + before.skip(i as int) =~= after);
            Ok(())
        },
    }
}

/// A shell that goes on in a session finds that session from then on.
pub proof fn law_rebound_shells_find_the_session(
    rows: Seq<SessionRowView>,
    cwd: Seq<char>,
    key: Seq<char>,
    place: int,
    now: i64,
)
    requires
        0 <= place < rows.len(),
        rows[place].session.cwd == cwd,
        forall|i: int|
            0 <= i < rows.len() && i != place ==> (#[trigger] rows[i]).session.id
                != rows[place].session.id,
    ensures
        ({
            let id = rows[place].session.id;
            let after = all_rebound(rows, cwd, key, id, now);
            first_of(newest_sessions(after, of_shell(after, cwd, key), 1)) == Some(
                after[place].session,
            ) && after[place].session.id == id
        }),
{
    let id = rows[place].session.id;
    let after = all_rebound(rows, cwd, key, id, now);
    let times = session_times(after);
    let marks = of_shell(after, cwd, key);
    law_newest(times, marks, 1);
    let order = newest(times, marks, 1);
    assert forall|i: int| 0 <= i < rows.len() implies #[trigger] marks[i] == (i == place) by {
        assert(after[i] == rebound(rows[i], cwd, key, id, now));
    }
    assert(marks[place]);
    if !order.contains(place) {
        assert(order.len() == 1);
    }
    assert(order.len() > 0);
    assert(marks[order[0]]);
}

/// Only sessions of a directory that hold a message are offered there.
pub proof fn law_offered_sessions_are_of_the_directory(
    rows: Seq<SessionRowView>,
    cwd: Seq<char>,
    limit: nat,
    i: int,
)
    requires
        0 <= i < newest_sessions(rows, begun_in(rows, cwd), limit).len(),
    ensures
        newest_sessions(rows, begun_in(rows, cwd), limit)[i].cwd == cwd,
        newest_sessions(rows, begun_in(rows, cwd), limit).len() <= limit,
{
    let times = session_times(rows);
    let marks = begun_in(rows, cwd);
    law_newest(times, marks, limit);
    assert(marks[newest(times, marks, limit)[i]]);
}

/// Shells do not share sessions: what one shell finds in a directory is kept
/// with its key and was begun there.
pub proof fn law_shells_are_isolated(rows: Seq<SessionRowView>, cwd: Seq<char>, key: Seq<char>)
    ensures
        first_of(newest_sessions(rows, of_shell(rows, cwd, key), 1)) matches Some(found) ==> exists|
            i: int,
        |
            0 <= i < rows.len() && #[trigger] rows[i].session == found && rows[i].session.cwd == cwd
                && rows[i].client_session_key == Some(key),
{
    let times = session_times(rows);
    let marks = of_shell(rows, cwd, key);
    law_newest(times, marks, 1);
    let order = newest(times, marks, 1);
    if order.len() > 0 {
        assert(marks[order[0]]);
        assert(rows[order[0]].session == picked(sessions_of(rows), order)[0]);
    }
}

// ---------------------------------------------------------------------------
// Items that are found

/// When items were kept.
pub open spec fn item_times(rows: Seq<ItemRowView>) -> Seq<i64> {
    Seq::new(rows.len(), |i: int| rows[i].item.created_at)
}

/// Which items are messages of the user in a session.
pub open spec fn messages_in(rows: Seq<ItemRowView>, session_id: Seq<char>) -> Seq<bool> {
    Seq::new(
        rows.len(),
        |i: int| rows[i].item.session_id == session_id && rows[i].kind == USER_MESSAGE@,
    )
}

/// Items without the kinds they are kept with.
pub open spec fn items_of(rows: Seq<ItemRowView>) -> Seq<ItemView> {
    Seq::new(rows.len(), |i: int| rows[i].item)
}

/// The messages of the user in a session, the oldest first.
pub open spec fn checkpoints(rows: Seq<ItemRowView>, session_id: Seq<char>) -> Seq<ItemView> {
    picked(
        items_of(rows),
        newest(item_times(rows), messages_in(rows, session_id), rows.len()),
    ).reverse()
}

/// The messages of the user in a session, the oldest first: what it can be
/// rewound to.
pub fn user_checkpoints(rows: &Vec<ItemRow>, session_id: &str) -> (r: Vec<ConversationItem>)
    ensures
        views(r@) == checkpoints(views(rows@), session_id@),
{
    let ghost all = views(rows@);
    let ghost target = messages_in(all, session_id@);
    let mut times: Vec<i64> = Vec::new();
    let mut marks: Vec<bool> = Vec::new();
    let mut i: usize = 0;
    while i < rows.len()
        invariant
            i <= rows@.len(),
            all == views(rows@),
            target == messages_in(all, session_id@),
            times@ == item_times(all).take(i as int),
            marks@ == target.take(i as int),
        decreases rows@.len() - i,
    {
        let mark = same(&rows[i].item.session_id, session_id) && same(&rows[i].kind, USER_MESSAGE);
        assert(all[i as int] == rows@[i as int]@);
        assert(mark == target[i as int]);
        assert(target.take(i + 1) =~= target.take(i as int).push(mark));
        assert(item_times(all).take(i + 1) =~= item_times(all).take(i as int).push(
            rows@[i as int].item.created_at,
        ));
        times.push(rows[i].item.created_at);
        marks.push(mark);
        i += 1;
    }
    assert(target.take(target.len() as int) =~= target);
    assert(item_times(all).take(all.len() as int) =~= item_times(all));
    let order = rank(&times, &marks, rows.len());
    let ghost found = picked(items_of(all), places(order@));
    let ghost n = order@.len() as int;
    let mut r: Vec<ConversationItem> = Vec::new();
    let mut k: usize = order.len();
    assert(views(r@) =~= found.reverse().take(0));
    while k > 0
        invariant
            k <= n,
            n == order@.len(),
            all == views(rows@),
            found == picked(items_of(all), places(order@)),
            views(r@) == found.reverse().take(n - k),
            forall|k: int| 0 <= k < order@.len() ==> #[trigger] order@[k] < rows@.len(),
        decreases k,
    {
        let ghost before = views(r@);
        k -= 1;
        let item = rows[order[k]].item.clone();
        assert(all[order@[k as int] as int] == rows@[order@[k as int] as int]@);
        assert(places(order@)[k as int] == order@[k as int]);
        assert(item@ == found[k as int]);
        assert(found.reverse()[n - 1 - k] == found[k as int]);
        r.push(item);
        assert(views(r@) =~= before.push(item@));
        assert(found.reverse().take(n - k) =~= found.reverse().take(n - 1 - k).push(item@));
    }
    assert(found.reverse().take(n) =~= found.reverse());
    r
}

/// Whether an item is kept as what the user sent in a session: neither a notice
/// of an interruption nor a summary.
pub open spec fn was_sent(rows: Seq<ItemRowView>, session_id: Seq<char>, item: ItemView) -> bool {
    exists|j: int|
        0 <= j < rows.len() && (#[trigger] rows[j]).item == item && item.session_id == session_id
            && rows[j].kind != TURN_INTERRUPTED@ && rows[j].kind != CONVERSATION_SUMMARY@
}

/// A session can be rewound to what the user sent in it, and to nothing else.
pub proof fn law_only_messages_are_checkpoints(rows: Seq<ItemRowView>, session_id: Seq<char>, i: int)
    requires
        0 <= i < checkpoints(rows, session_id).len(),
    ensures
        was_sent(rows, session_id, checkpoints(rows, session_id)[i]),
{
    let times = item_times(rows);
    let marks = messages_in(rows, session_id);
    law_newest(times, marks, rows.len());
    let order = newest(times, marks, rows.len());
    reveal_strlit("user_message");
    reveal_strlit("turn_interrupted");
    reveal_strlit("conversation_summary");
    let j = order[order.len() - 1 - i];
    assert(marks[j]);
    assert(rows[j].item == checkpoints(rows, session_id)[i]);
    assert(USER_MESSAGE@.len() == 12);
    assert(TURN_INTERRUPTED@.len() == 16);
    assert(CONVERSATION_SUMMARY@.len() == 20);
}

/// Which requests told what they took.
pub open spec fn measured(rows: Seq<(i64, Option<Usage>)>) -> Seq<bool> {
    Seq::new(rows.len(), |i: int| rows[i].1 is Some)
}

/// When requests were made.
pub open spec fn request_times(rows: Seq<(i64, Option<Usage>)>) -> Seq<i64> {
    Seq::new(rows.len(), |i: int| rows[i].0)
}

/// What requests took.
pub open spec fn usages_of(rows: Seq<(i64, Option<Usage>)>) -> Seq<Usage> {
    Seq::new(rows.len(), |i: int| rows[i].1->Some_0)
}

/// What the requests of a session took, as far as they told, the oldest first:
/// each on its own, for what a request costs can depend on its size.
pub fn session_request_usage(rows: &Vec<(i64, Option<Usage>)>) -> (r: Vec<Usage>)
    ensures
        r@ == picked(
            usages_of(rows@),
            newest(request_times(rows@), measured(rows@), rows@.len()),
        ).reverse(),
{
    let ghost target = measured(rows@);
    let mut times: Vec<i64> = Vec::new();
    let mut marks: Vec<bool> = Vec::new();
    let mut i: usize = 0;
    while i < rows.len()
        invariant
            i <= rows@.len(),
            target == measured(rows@),
            times@ == request_times(rows@).take(i as int),
            marks@ == target.take(i as int),
        decreases rows@.len() - i,
    {
        let mark = rows[i].1.is_some();
        assert(mark == target[i as int]);
        assert(target.take(i + 1) =~= target.take(i as int).push(mark));
        assert(request_times(rows@).take(i + 1) =~= request_times(rows@).take(i as int).push(
            rows@[i as int].0,
        ));
        times.push(rows[i].0);
        marks.push(mark);
        i += 1;
    }
    assert(target.take(target.len() as int) =~= target);
    assert(request_times(rows@).take(rows@.len() as int) =~= request_times(rows@));
    proof {
        law_newest(times@, marks@, rows@.len());
    }
    let order = rank(&times, &marks, rows.len());
    let ghost found = picked(usages_of(rows@), places(order@));
    let ghost n = order@.len() as int;
    let mut r: Vec<Usage> = Vec::new();
    let mut k: usize = order.len();
    assert(r@ =~= found.reverse().take(0));
    while k > 0
        invariant
            k <= n,
            n == order@.len(),
            marks@ == measured(rows@),
            is_ranked(times@, marks@, rows@.len(), places(order@)),
            found == picked(usages_of(rows@), places(order@)),
            r@ == found.reverse().take(n - k),
            forall|k: int| 0 <= k < order@.len() ==> #[trigger] order@[k] < rows@.len(),
        decreases k,
    {
        k -= 1;
        let place: usize = order[k];
        assert(places(order@)[k as int] == place);
        assert(marks@[place as int]);
        match rows[place].1 {
            Some(usage) => {
                assert(usage == found[k as int]);
                assert(found.reverse()[n - 1 - k] == found[k as int]);
                assert(found.reverse().take(n - k) =~= found.reverse().take(n - 1 - k).push(usage));
                r.push(usage);
            },
            None => {},
        }
    }
    assert(found.reverse().take(n) =~= found.reverse());
    r
}

// ---------------------------------------------------------------------------
// Histories

/// The last of some lines.
pub open spec fn last_lines(lines: Seq<Seq<char>>, limit: nat) -> Seq<Seq<char>> {
    if lines.len() <= limit {
        lines
    } else {
        lines.skip(lines.len() - limit)
    }
}

/// The last lines that were entered, in the order in which they were.
pub fn recent_input_history(lines: &Vec<String>, limit: usize) -> (r: Vec<String>)
    ensures
        texts(r@) == last_lines(texts(lines@), limit as nat),
{
    let ghost all = texts(lines@);
    let mut i: usize = prune_input_history(lines.len(), limit);
    let ghost from = i as int;
    let mut r: Vec<String> = Vec::new();
    assert(texts(r@) =~= all.subrange(from, from));
    while i < lines.len()
        invariant
            from <= i <= lines@.len(),
            0 <= from,
            all == texts(lines@),
            texts(r@) == all.subrange(from, i as int),
        decreases lines@.len() - i,
    {
        let ghost before = texts(r@);
        let line = lines[i].clone();
        assert(line@ == all[i as int]);
        r.push(line);
        assert(texts(r@) =~= before.push(line@));
        assert(all.subrange(from, i + 1) =~= all.subrange(from, i as int).push(all[i as int]));
        i += 1;
    }
    assert(all.subrange(from, all.len() as int) =~= last_lines(all, limit as nat));
    r
}

/// How many of the oldest lines are dropped where no more than `maximum` are
/// kept.
pub fn prune_input_history(count: usize, maximum: usize) -> (r: usize)
    ensures
        r == (if count <= maximum {
            0
        } else {
            count - maximum
        }),
{
    if count <= maximum {
        0
    } else {
        count - maximum
    }
}

/// When commands were run.
pub open spec fn shell_times(rows: Seq<ShellRowView>) -> Seq<i64> {
    Seq::new(rows.len(), |i: int| rows[i].item.started_at)
}

/// Which commands were run in a directory, and in a shell where one is named.
pub open spec fn run_in(
    rows: Seq<ShellRowView>,
    cwd: Seq<char>,
    key: Option<Seq<char>>,
) -> Seq<bool> {
    Seq::new(
        rows.len(),
        |i: int|
            rows[i].item.cwd == cwd && (key is None || rows[i].client_session_key == key),
    )
}

/// Commands without the keys they are kept with.
pub open spec fn commands_of(rows: Seq<ShellRowView>) -> Seq<ShellHistoryView> {
    Seq::new(rows.len(), |i: int| rows[i].item)
}

/// When commands were run.
fn times_run(rows: &Vec<ShellRow>) -> (r: Vec<i64>)
    ensures
        r@ == shell_times(views(rows@)),
{
    let ghost all = views(rows@);
    let mut times: Vec<i64> = Vec::new();
    let mut i: usize = 0;
    while i < rows.len()
        invariant
            i <= rows@.len(),
            all == views(rows@),
            times@ == shell_times(all).take(i as int),
        decreases rows@.len() - i,
    {
        assert(all[i as int] == rows@[i as int]@);
        assert(shell_times(all).take(i + 1) =~= shell_times(all).take(i as int).push(
            rows@[i as int].item.started_at,
        ));
        times.push(rows[i].item.started_at);
        i += 1;
    }
    assert(shell_times(all).take(all.len() as int) =~= shell_times(all));
    times
}

/// The last commands of a directory, of one shell where one is named, the
/// newest first.
pub fn recent_shell_history(
    rows: &Vec<ShellRow>,
    cwd: &str,
    client_session_key: &Option<String>,
    limit: usize,
) -> (r: Vec<ShellHistoryItem>)
    ensures
        views(r@) == picked(
            commands_of(views(rows@)),
            newest(
                shell_times(views(rows@)),
                run_in(views(rows@), cwd@, maybe(*client_session_key)),
                limit as nat,
            ),
        ),
{
    let ghost all = views(rows@);
    let ghost target = run_in(all, cwd@, maybe(*client_session_key));
    let mut marks: Vec<bool> = Vec::new();
    let mut i: usize = 0;
    while i < rows.len()
        invariant
            i <= rows@.len(),
            all == views(rows@),
            target == run_in(all, cwd@, maybe(*client_session_key)),
            marks@ == target.take(i as int),
        decreases rows@.len() - i,
    {
        let owned = match client_session_key {
            Some(key) => is_key(&rows[i].client_session_key, key),
            None => true,
        };
        let mark = same(&rows[i].item.cwd, cwd) && owned;
        assert(all[i as int] == rows@[i as int]@);
        assert(mark == target[i as int]);
        assert(target.take(i + 1) =~= target.take(i as int).push(mark));
        marks.push(mark);
        i += 1;
    }
    assert(target.take(target.len() as int) =~= target);
    let times = times_run(rows);
    let order = rank(&times, &marks, limit);
    let ghost found = picked(commands_of(all), places(order@));
    let mut r: Vec<ShellHistoryItem> = Vec::new();
    let mut k: usize = 0;
    assert(views(r@) =~= found.take(0));
    while k < order.len()
        invariant
            k <= order@.len(),
            all == views(rows@),
            found == picked(commands_of(all), places(order@)),
            views(r@) == found.take(k as int),
            forall|k: int| 0 <= k < order@.len() ==> #[trigger] order@[k] < rows@.len(),
        decreases order@.len() - k,
    {
        let ghost before = views(r@);
        let item = rows[order[k]].item.clone();
        assert(all[order@[k as int] as int] == rows@[order@[k as int] as int]@);
        assert(places(order@)[k as int] == order@[k as int]);
        assert(item@ == found[k as int]);
        r.push(item);
        assert(views(r@) =~= before.push(item@));
        assert(found.take(k + 1) =~= found.take(k as int).push(found[k as int]));
        k += 1;
    }
    assert(found.take(found.len() as int) =~= found);
    r
}

/// Marks for all of some records.
pub open spec fn all_marked(n: nat) -> Seq<bool> {
    Seq::new(n, |i: int| true)
}

/// Marks for all of some records.
fn mark_all(n: usize) -> (r: Vec<bool>)
    ensures
        r@ == all_marked(n as nat),
{
    let mut marks: Vec<bool> = Vec::new();
    while marks.len() < n
        invariant
            marks@.len() <= n,
            marks@ == all_marked(marks@.len()),
        decreases n - marks@.len(),
    {
        marks.push(true);
        assert(marks@ =~= all_marked(marks@.len()));
    }
    marks
}

/// The places of the commands that are dropped where no more than `maximum` are
/// kept: all but the newest.
pub fn prune_shell_history(rows: &Vec<ShellRow>, maximum: usize) -> (r: Vec<usize>)
    ensures
        forall|k: int, l: int| 0 <= k < l < r@.len() ==> #[trigger] r@[k] < #[trigger] r@[l],
        forall|i: int|
            #[trigger] places(r@).contains(i) <==> 0 <= i < rows@.len() && !newest(
                shell_times(views(rows@)),
                all_marked(rows@.len()),
                maximum as nat,
            ).contains(i),
{
    let times = times_run(rows);
    let marks = mark_all(rows.len());
    let order = rank(&times, &marks, maximum);
    let ghost kept = places(order@);
    let mut r: Vec<usize> = Vec::new();
    let mut i: usize = 0;
    assert(!places(r@).contains(0)) by {
        assert(places(r@).len() == 0);
    }
    while i < rows.len()
        invariant
            i <= rows@.len(),
            kept == places(order@),
            forall|k: int| 0 <= k < r@.len() ==> #[trigger] r@[k] < i,
            forall|k: int, l: int| 0 <= k < l < r@.len() ==> #[trigger] r@[k] < #[trigger] r@[l],
            forall|j: int|
                #[trigger] places(r@).contains(j) <==> 0 <= j < i && !kept.contains(j),
        decreases rows@.len() - i,
    {
        let ghost before = places(r@);
        if !holds_place(&order, i) {
            r.push(i);
            assert(places(r@) =~= before.push(i as int));
            assert forall|j: int| #[trigger] places(r@).contains(j) <==> 0 <= j < i + 1
                && !kept.contains(j) by {
                assert(places(r@)[r@.len() - 1] == i);
                if before.contains(j) {
                    let m = choose|m: int| 0 <= m < before.len() && before[m] == j;
                    assert(places(r@)[m] == j);
                }
                if places(r@).contains(j) && j != i {
                    let m = choose|m: int| 0 <= m < places(r@).len() && places(r@)[m] == j;
                    assert(before[m] == j);
                }
            }
        }
        i += 1;
    }
    r
}

/// Whether a place is among some.
fn holds_place(order: &Vec<usize>, place: usize) -> (r: bool)
    ensures
        r == places(order@).contains(place as int),
{
    let mut k: usize = 0;
    while k < order.len()
        invariant
            k <= order@.len(),
            forall|m: int| 0 <= m < k ==> places(order@)[m] != place,
        decreases order@.len() - k,
    {
        if order[k] == place {
            assert(places(order@)[k as int] == place);
            return true;
        }
        k += 1;
    }
    false
}

/// Which snapshots were taken in a session since a time; none where there is no
/// such time.
pub open spec fn taken_since(
    stamps: Seq<StampView>,
    session_id: Seq<char>,
    since: Option<i64>,
) -> Seq<bool> {
    Seq::new(
        stamps.len(),
        |i: int|
            stamps[i].session_id == session_id && (since matches Some(t) && stamps[i].created_at
                >= t),
    )
}

/// The places of the snapshots that were taken since a turn began, that kept
/// last first, so that they are undone in the opposite order. `since` is when
/// the message of the turn was kept, if it was.
pub fn snapshots_from_turn(
    stamps: &Vec<SnapshotStamp>,
    session_id: &str,
    since: Option<i64>,
) -> (r: Vec<usize>)
    ensures
        forall|k: int, l: int| 0 <= k < l < r@.len() ==> #[trigger] r@[k] > #[trigger] r@[l],
        forall|i: int|
            #[trigger] places(r@).contains(i) <==> 0 <= i < stamps@.len() && taken_since(
                views(stamps@),
                session_id@,
                since,
            )[i],
{
    let ghost all = views(stamps@);
    let ghost target = taken_since(all, session_id@, since);
    let mut r: Vec<usize> = Vec::new();
    let mut i: usize = stamps.len();
    assert(places(r@).len() == 0);
    while i > 0
        invariant
            i <= stamps@.len(),
            all == views(stamps@),
            target == taken_since(all, session_id@, since),
            forall|k: int| 0 <= k < r@.len() ==> #[trigger] r@[k] >= i,
            forall|k: int, l: int| 0 <= k < l < r@.len() ==> #[trigger] r@[k] > #[trigger] r@[l],
            forall|j: int|
                #[trigger] places(r@).contains(j) <==> i <= j < stamps@.len() && target[j],
        decreases i,
    {
        let ghost before = places(r@);
        i -= 1;
        assert(all[i as int] == stamps@[i as int]@);
        let recent = match since {
            Some(t) => stamps[i].created_at >= t,
            None => false,
        };
        if same(&stamps[i].session_id, session_id) && recent {
            assert(target[i as int]);
            r.push(i);
            assert(places(r@) =~= before.push(i as int));
            assert forall|j: int| #[trigger] places(r@).contains(j) <==> i <= j < stamps@.len()
                && target[j] by {
                assert(places(r@)[r@.len() - 1] == i);
                if before.contains(j) {
                    let m = choose|m: int| 0 <= m < before.len() && before[m] == j;
                    assert(places(r@)[m] == j);
                }
                if places(r@).contains(j) && j != i {
                    let m = choose|m: int| 0 <= m < places(r@).len() && places(r@)[m] == j;
                    assert(before[m] == j);
                }
            }
        } else {
            assert(!target[i as int]);
        }
    }
    r
}

/// What is dropped was run before everything that is kept, and no more than
/// `maximum` commands are kept.
pub proof fn law_dropped_commands_are_the_oldest(times: Seq<i64>, maximum: nat, kept: int, gone: int)
    requires
        0 <= gone < times.len(),
        !newest(times, all_marked(times.len()), maximum).contains(gone),
        newest(times, all_marked(times.len()), maximum).contains(kept),
    ensures
        is_newer(times, kept, gone),
        newest(times, all_marked(times.len()), maximum).len() <= maximum,
{
    let marks = all_marked(times.len());
    law_newest(times, marks, maximum);
    let order = newest(times, marks, maximum);
    assert(marks[gone]);
    assert(is_oldest(times, order, gone));
    let k = choose|k: int| 0 <= k < order.len() && order[k] == kept;
    assert(is_newer(times, order[k], gone));
}

// ---------------------------------------------------------------------------
// What is found, and in which order

/// What is newest comes first: of two that are found the one with the later time,
/// or the later one in the table where the times are the same. What is not found
/// though it is wanted is older than all that is, and left out only where no more
/// may be found.
pub proof fn law_the_newest_come_first(times: Seq<i64>, marks: Seq<bool>, limit: nat)
    requires
        marks.len() == times.len(),
    ensures
        ({
            let order = newest(times, marks, limit);
            &&& order.len() <= limit
            &&& forall|k: int|
                0 <= k < order.len() ==> 0 <= #[trigger] order[k] < times.len() && marks[order[k]]
            &&& forall|k: int, l: int|
                0 <= k < l < order.len() ==> times[#[trigger] order[k]] > times[#[trigger] order[l]]
                    || (times[order[k]] == times[order[l]] && order[k] > order[l])
            &&& forall|i: int|
                0 <= i < times.len() && #[trigger] marks[i] && order.len() < limit
                    ==> order.contains(i)
            &&& forall|i: int, k: int|
                0 <= i < times.len() && #[trigger] marks[i] && !order.contains(i) && 0 <= k
                    < order.len() ==> times[i] < times[#[trigger] order[k]] || (times[i]
                    == times[order[k]] && i < order[k])
        }),
{
    law_newest(times, marks, limit);
    let order = newest(times, marks, limit);
    assert forall|k: int, l: int| 0 <= k < l < order.len() implies times[#[trigger] order[k]]
        > times[#[trigger] order[l]] || (times[order[k]] == times[order[l]] && order[k]
        > order[l]) by {
        assert(is_newer(times, order[k], order[l]));
    }
    assert forall|i: int, k: int|
        0 <= i < times.len() && #[trigger] marks[i] && !order.contains(i) && 0 <= k
            < order.len() implies times[i] < times[#[trigger] order[k]] || (times[i]
        == times[order[k]] && i < order[k]) by {
        assert(is_oldest(times, order, i));
        assert(is_newer(times, order[k], i));
    }
}

/// Sessions that are looked for are found by the time of their last change, the
/// latest first, and none is passed over for an earlier one.
pub proof fn law_sessions_are_found_latest_first(
    rows: Seq<SessionRowView>,
    marks: Seq<bool>,
    limit: nat,
)
    requires
        marks.len() == rows.len(),
    ensures
        ({
            let found = newest_sessions(rows, marks, limit);
            &&& found.len() <= limit
            &&& forall|k: int, l: int|
                0 <= k < l < found.len() ==> (#[trigger] found[k]).updated_at >= (
                #[trigger] found[l]).updated_at
            &&& forall|k: int|
                0 <= k < found.len() ==> exists|i: int|
                    0 <= i < rows.len() && #[trigger] marks[i] && rows[i].session
                        == #[trigger] found[k]
            &&& forall|i: int|
                0 <= i < rows.len() && #[trigger] marks[i] && limit > 0 ==> found.len() > 0
                    && found[0].updated_at >= rows[i].session.updated_at
            &&& forall|i: int|
                0 <= i < rows.len() && #[trigger] marks[i] && found.len() < limit
                    ==> found.contains(rows[i].session)
        }),
{
    let times = session_times(rows);
    law_the_newest_come_first(times, marks, limit);
    let order = newest(times, marks, limit);
    let found = newest_sessions(rows, marks, limit);
    assert forall|k: int| 0 <= k < found.len() implies exists|i: int|
        0 <= i < rows.len() && #[trigger] marks[i] && rows[i].session == #[trigger] found[k] by {
        assert(marks[order[k]]);
    }
    assert forall|k: int, l: int| 0 <= k < l < found.len() implies (#[trigger] found[k]).updated_at
        >= (#[trigger] found[l]).updated_at by {
        assert(times[order[k]] == found[k].updated_at && times[order[l]] == found[l].updated_at);
    }
    assert forall|i: int| 0 <= i < rows.len() && #[trigger] marks[i] && limit > 0 implies found.len()
        > 0 && found[0].updated_at >= rows[i].session.updated_at by {
        if order.len() == 0 {
            assert(order.contains(i));
        }
        assert(times[order[0]] == found[0].updated_at);
        if order.contains(i) {
            let k = choose|k: int| 0 <= k < order.len() && order[k] == i;
            if k > 0 {
                assert(times[order[0]] >= times[order[k]]);
            }
        }
    }
    assert forall|i: int|
        0 <= i < rows.len() && #[trigger] marks[i] && found.len() < limit implies found.contains(
        rows[i].session,
    ) by {
        let k = choose|k: int| 0 <= k < order.len() && order[k] == i;
        assert(found[k] == rows[i].session);
    }
}

/// Sessions are looked for by directory: all of them, those of one shell, or
/// those in which something was said.
pub proof fn law_sessions_are_looked_for_by_directory(
    rows: Seq<SessionRowView>,
    cwd: Seq<char>,
    key: Seq<char>,
    i: int,
)
    requires
        0 <= i < rows.len(),
    ensures
        in_directory(rows, cwd).len() == rows.len(),
        of_shell(rows, cwd, key).len() == rows.len(),
        begun_in(rows, cwd).len() == rows.len(),
        in_directory(rows, cwd)[i] <==> rows[i].session.cwd == cwd,
        of_shell(rows, cwd, key)[i] <==> rows[i].session.cwd == cwd && rows[i].client_session_key
            == Some(key),
        begun_in(rows, cwd)[i] <==> rows[i].session.cwd == cwd && rows[i].has_message,
{
}

/// A shell finds the session that it changed last in a directory, and finds one
/// wherever it has one there; so does a directory.
pub proof fn law_the_last_session_is_found(
    rows: Seq<SessionRowView>,
    cwd: Seq<char>,
    key: Seq<char>,
    i: int,
)
    requires
        0 <= i < rows.len(),
        rows[i].session.cwd == cwd,
    ensures
        first_of(newest_sessions(rows, in_directory(rows, cwd), 1)) matches Some(found) && found.cwd
            == cwd && found.updated_at >= rows[i].session.updated_at,
        rows[i].client_session_key == Some(key) ==> (first_of(
            newest_sessions(rows, of_shell(rows, cwd, key), 1),
        ) matches Some(found) && found.cwd == cwd && found.updated_at
            >= rows[i].session.updated_at),
{
    law_sessions_are_found_latest_first(rows, in_directory(rows, cwd), 1);
    law_sessions_are_found_latest_first(rows, of_shell(rows, cwd, key), 1);
    assert(in_directory(rows, cwd)[i]);
    let all = newest_sessions(rows, in_directory(rows, cwd), 1);
    assert(all[0] == all[0]);
    if rows[i].client_session_key == Some(key) {
        assert(of_shell(rows, cwd, key)[i]);
        let own = newest_sessions(rows, of_shell(rows, cwd, key), 1);
        assert(own[0] == own[0]);
    }
}

/// A new session is empty, of its directory and its model; an item that is kept
/// holds what was given, and follows the one at which the session was; a session
/// that moves stays the same but for its place and the time.
pub proof fn law_sessions_hold_what_was_given(
    new: NewSessionView,
    session: SessionView,
    head: Option<Seq<char>>,
    id: Seq<char>,
    role: Role,
    blocks: Seq<BlockView>,
    usage: Option<Usage>,
    now: i64,
)
    ensures
        ({
            let created = created_session(new, id, now);
            &&& created.id == id && created.cwd == new.cwd && created.model == new.model
            &&& created.provider_type == new.provider_type && created.effort == new.effort
            &&& created.model_profile == new.model_profile
            &&& created.head_item_id is None && created.title is None
            &&& created.reasoning_visible is None
            &&& created.created_at == now && created.updated_at == now
        }),
        ({
            let item = appended(session, id, role, blocks, usage, now);
            &&& item.id == id && item.session_id == session.id
            &&& item.parent_id == session.head_item_id
            &&& item.role == role && item.blocks == blocks && item.usage == usage
            &&& item.created_at == now
        }),
        ({
            let after = moved(session, head, now);
            &&& after.head_item_id == head && after.updated_at == now
            &&& after.id == session.id && after.cwd == session.cwd && after.title == session.title
            &&& after.model == session.model && after.provider_type == session.provider_type
            &&& after.model_profile == session.model_profile && after.effort == session.effort
            &&& after.reasoning_visible == session.reasoning_visible
            &&& after.created_at == session.created_at
        }),
{
}

/// What is looked up by its id is the first with it.
pub proof fn law_rows_are_looked_up_by_id(
    items: Seq<ItemRowView>,
    rows: Seq<SessionRowView>,
    id: Seq<char>,
)
    ensures
        match item_kept(items, id) {
            Some(item) => exists|i: int|
                0 <= i < items.len() && (#[trigger] items[i]).item == item && item.id == id
                    && forall|k: int| 0 <= k < i ==> (#[trigger] items[k]).item.id != id,
            None => forall|k: int| 0 <= k < items.len() ==> (#[trigger] items[k]).item.id != id,
        },
        match binding_of(rows, id) {
            Some((cwd, key)) => exists|i: int|
                0 <= i < rows.len() && (#[trigger] rows[i]).session.id == id && rows[i].session.cwd
                    == cwd && rows[i].client_session_key == key && forall|k: int|
                    0 <= k < i ==> (#[trigger] rows[k]).session.id != id,
            None => forall|k: int| 0 <= k < rows.len() ==> (#[trigger] rows[k]).session.id != id,
        },
{
    lemma_item_looked_up(items, id);
    lemma_binding(rows, id);
}

proof fn lemma_item_looked_up(items: Seq<ItemRowView>, id: Seq<char>)
    ensures
        match item_kept(items, id) {
            Some(item) => exists|i: int|
                0 <= i < items.len() && (#[trigger] items[i]).item == item && item.id == id
                    && forall|k: int| 0 <= k < i ==> (#[trigger] items[k]).item.id != id,
            None => forall|k: int| 0 <= k < items.len() ==> (#[trigger] items[k]).item.id != id,
        },
    decreases items.len(),
{
    if items.len() > 0 {
        let rest = items.skip(1);
        if items[0].item.id == id {
            assert(items[0].item == item_kept(items, id)->Some_0);
        } else {
            lemma_item_looked_up(rest, id);
            if let Some(item) = item_kept(rest, id) {
                let i = choose|i: int|
                    0 <= i < rest.len() && (#[trigger] rest[i]).item == item && item.id == id
                        && forall|k: int| 0 <= k < i ==> (#[trigger] rest[k]).item.id != id;
                assert(items[i + 1].item == item);
                assert forall|k: int| 0 <= k < i + 1 implies (#[trigger] items[k]).item.id != id by {
                    if k > 0 {
                        assert(rest[k - 1] == items[k]);
                    }
                }
            } else {
                assert forall|k: int| 0 <= k < items.len() implies (#[trigger] items[k]).item.id
                    != id by {
                    if k > 0 {
                        assert(rest[k - 1] == items[k]);
                    }
                }
            }
        }
    }
}

proof fn lemma_binding(rows: Seq<SessionRowView>, id: Seq<char>)
    ensures
        match binding_of(rows, id) {
            Some((cwd, key)) => exists|i: int|
                0 <= i < rows.len() && (#[trigger] rows[i]).session.id == id && rows[i].session.cwd
                    == cwd && rows[i].client_session_key == key && forall|k: int|
                    0 <= k < i ==> (#[trigger] rows[k]).session.id != id,
            None => forall|k: int| 0 <= k < rows.len() ==> (#[trigger] rows[k]).session.id != id,
        },
    decreases rows.len(),
{
    if rows.len() > 0 {
        let rest = rows.skip(1);
        if rows[0].session.id == id {
            assert(rows[0].session.id == id);
        } else {
            lemma_binding(rest, id);
            if let Some((cwd, key)) = binding_of(rest, id) {
                let i = choose|i: int|
                    0 <= i < rest.len() && (#[trigger] rest[i]).session.id == id
                        && rest[i].session.cwd == cwd && rest[i].client_session_key == key
                        && forall|k: int| 0 <= k < i ==> (#[trigger] rest[k]).session.id != id;
                assert(rows[i + 1].session.id == id);
                assert forall|k: int| 0 <= k < i + 1 implies (#[trigger] rows[k]).session.id
                    != id by {
                    if k > 0 {
                        assert(rest[k - 1] == rows[k]);
                    }
                }
            } else {
                assert forall|k: int| 0 <= k < rows.len() implies (#[trigger] rows[k]).session.id
                    != id by {
                    if k > 0 {
                        assert(rest[k - 1] == rows[k]);
                    }
                }
            }
        }
    }
}

/// A session that a shell takes over is its own, any other of that shell in the
/// directory is not any more, and the rest stay as they were.
pub proof fn law_taking_over_changes_no_other_session(
    rows: Seq<SessionRowView>,
    cwd: Seq<char>,
    key: Seq<char>,
    id: Seq<char>,
    now: i64,
    i: int,
)
    requires
        0 <= i < rows.len(),
    ensures
        ({
            let after = all_rebound(rows, cwd, key, id, now);
            &&& after.len() == rows.len()
            &&& after[i].has_message == rows[i].has_message
            &&& rows[i].session.id == id ==> after[i].client_session_key == Some(key)
                && after[i].session == (SessionView { updated_at: now, ..rows[i].session })
            &&& rows[i].session.id != id ==> after[i].session == rows[i].session
            &&& rows[i].session.id != id && rows[i].session.cwd == cwd
                && rows[i].client_session_key == Some(key) ==> after[i].client_session_key is None
            &&& rows[i].session.id != id && !(rows[i].session.cwd == cwd
                && rows[i].client_session_key == Some(key)) ==> after[i] == rows[i]
        }),
{
}

/// The checkpoints of a session are all its messages of the user, the earliest
/// first.
pub proof fn law_checkpoints_are_the_messages_in_order(
    rows: Seq<ItemRowView>,
    session_id: Seq<char>,
)
    ensures
        ({
            let found = checkpoints(rows, session_id);
            &&& forall|k: int, l: int|
                0 <= k < l < found.len() ==> (#[trigger] found[k]).created_at <= (
                #[trigger] found[l]).created_at
            &&& forall|k: int|
                0 <= k < found.len() ==> exists|i: int|
                    0 <= i < rows.len() && (#[trigger] rows[i]).item == #[trigger] found[k]
                        && rows[i].item.session_id == session_id && rows[i].kind == USER_MESSAGE@
            &&& forall|i: int|
                0 <= i < rows.len() && (#[trigger] rows[i]).item.session_id == session_id
                    && rows[i].kind == USER_MESSAGE@ ==> found.contains(rows[i].item)
        }),
{
    let times = item_times(rows);
    let marks = messages_in(rows, session_id);
    law_the_newest_come_first(times, marks, rows.len());
    let order = newest(times, marks, rows.len());
    let latest = picked(items_of(rows), order);
    let found = checkpoints(rows, session_id);
    let n = found.len() as int;
    assert forall|k: int| 0 <= k < n implies exists|i: int|
        0 <= i < rows.len() && (#[trigger] rows[i]).item == #[trigger] found[k]
            && rows[i].item.session_id == session_id && rows[i].kind == USER_MESSAGE@ by {
        assert(found[k] == latest[n - 1 - k]);
        assert(marks[order[n - 1 - k]]);
        assert(rows[order[n - 1 - k]].item == found[k]);
    }
    assert forall|k: int, l: int| 0 <= k < l < n implies (#[trigger] found[k]).created_at <= (
    #[trigger] found[l]).created_at by {
        assert(found[k] == latest[n - 1 - k] && found[l] == latest[n - 1 - l]);
        assert(times[order[n - 1 - l]] >= times[order[n - 1 - k]]);
    }
    assert forall|i: int|
        0 <= i < rows.len() && (#[trigger] rows[i]).item.session_id == session_id && rows[i].kind
            == USER_MESSAGE@ implies found.contains(rows[i].item) by {
        assert(marks[i]);
        law_all_are_found(times, marks, rows.len(), i);
        let k = choose|k: int| 0 <= k < order.len() && order[k] == i;
        assert(latest[k] == rows[i].item);
        assert(found[n - 1 - k] == rows[i].item);
    }
}

/// Of the lines that were put in, the last are kept, as many as are wanted.
pub proof fn law_the_last_lines_are_kept(lines: Seq<Seq<char>>, limit: nat)
    ensures
        ({
            let kept = last_lines(lines, limit);
            &&& kept.len() <= limit && kept.len() <= lines.len()
            &&& kept.len() == limit || kept.len() == lines.len()
            &&& forall|i: int|
                0 <= i < kept.len() ==> #[trigger] kept[i] == lines[lines.len() - kept.len() + i]
        }),
{
}

/// The commands of a directory are those that ran there, in one shell where one
/// is named; the snapshots since a moment are those of the session from then on.
pub proof fn law_commands_and_snapshots_are_looked_for(
    rows: Seq<ShellRowView>,
    cwd: Seq<char>,
    key: Option<Seq<char>>,
    stamps: Seq<StampView>,
    session_id: Seq<char>,
    since: Option<i64>,
    i: int,
)
    ensures
        run_in(rows, cwd, key).len() == rows.len(),
        0 <= i < rows.len() ==> (run_in(rows, cwd, key)[i] <==> rows[i].item.cwd == cwd && (
        key matches Some(shell) ==> rows[i].client_session_key == Some(shell))),
        0 <= i < stamps.len() ==> (taken_since(stamps, session_id, since)[i] <==> (
        stamps[i].session_id == session_id && (since matches Some(t) && t
            <= stamps[i].created_at))),
{
}

} // verus!
