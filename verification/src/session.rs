//! Sessions: how conversations are kept, continued and rewound.
use vstd::prelude::*;
use vstd::string::*;

use crate::model::{BlockView, ContentBlock, ConversationItem, ItemView, Role, ToolCall, ToolResult};
use crate::tools::patch::{FileChange, FileSnapshot, SnapshotView, law_change_names};
use crate::tools::path::{join_path, path_in};
use crate::text::{
    begins, copy_maybe, decimal, decimal_text, ends, holds_text, law_decimal_is_read_back, maybe,
    natural, parse_natural, same, texts, views,
};

verus! {

pub const TURN_INTERRUPTED_NOTICE: &'static str = "[The user interrupted the previous turn. Do not continue or retry its unfinished task unless the user explicitly asks you to.]";

pub const CONVERSATION_SUMMARY_PREFIX: &'static str = "[Compacted conversation summary]";

/// A session as it is kept.
#[derive(Debug, PartialEq, Eq)]
pub struct Session {
    pub id: String,
    pub cwd: String,
    pub title: Option<String>,
    pub head_item_id: Option<String>,
    pub provider_type: String,
    pub model: String,
    pub model_profile: Option<String>,
    pub effort: Option<String>,
    /// Whether the reasoning is shown, once that was chosen.
    pub reasoning_visible: Option<bool>,
    pub created_at: i64,
    pub updated_at: i64,
}

/// The model of a [`Session`].
pub struct SessionView {
    pub id: Seq<char>,
    pub cwd: Seq<char>,
    pub title: Option<Seq<char>>,
    pub head_item_id: Option<Seq<char>>,
    pub provider_type: Seq<char>,
    pub model: Seq<char>,
    pub model_profile: Option<Seq<char>>,
    pub effort: Option<Seq<char>>,
    pub reasoning_visible: Option<bool>,
    pub created_at: i64,
    pub updated_at: i64,
}

impl View for Session {
    type V = SessionView;

    open spec fn view(&self) -> SessionView {
        SessionView {
            id: self.id@,
            cwd: self.cwd@,
            title: maybe(self.title),
            head_item_id: maybe(self.head_item_id),
            provider_type: self.provider_type@,
            model: self.model@,
            model_profile: maybe(self.model_profile),
            effort: maybe(self.effort),
            reasoning_visible: self.reasoning_visible,
            created_at: self.created_at,
            updated_at: self.updated_at,
        }
    }
}

impl Clone for Session {
    fn clone(&self) -> (r: Session)
        ensures
            r@ == self@,
    {
        Session {
            id: self.id.clone(),
            cwd: self.cwd.clone(),
            title: copy_maybe(&self.title),
            head_item_id: copy_maybe(&self.head_item_id),
            provider_type: self.provider_type.clone(),
            model: self.model.clone(),
            model_profile: copy_maybe(&self.model_profile),
            effort: copy_maybe(&self.effort),
            reasoning_visible: self.reasoning_visible,
            created_at: self.created_at,
            updated_at: self.updated_at,
        }
    }
}

/// What a session is made with.
#[derive(Debug)]
pub struct NewSession {
    pub cwd: String,
    pub provider_type: String,
    pub model: String,
    pub client_session_key: Option<String>,
    pub model_profile: Option<String>,
    pub effort: Option<String>,
}

/// The model of a [`NewSession`].
pub struct NewSessionView {
    pub cwd: Seq<char>,
    pub provider_type: Seq<char>,
    pub model: Seq<char>,
    pub client_session_key: Option<Seq<char>>,
    pub model_profile: Option<Seq<char>>,
    pub effort: Option<Seq<char>>,
}

impl View for NewSession {
    type V = NewSessionView;

    open spec fn view(&self) -> NewSessionView {
        NewSessionView {
            cwd: self.cwd@,
            provider_type: self.provider_type@,
            model: self.model@,
            client_session_key: maybe(self.client_session_key),
            model_profile: maybe(self.model_profile),
            effort: maybe(self.effort),
        }
    }
}

impl NewSession {
    pub fn new(cwd: &str, provider_type: &str, model: &str) -> (r: NewSession)
        ensures
            r@ == (NewSessionView {
                cwd: cwd@,
                provider_type: provider_type@,
                model: model@,
                client_session_key: None,
                model_profile: None,
                effort: None,
            }),
    {
        NewSession {
            cwd: cwd.to_owned(),
            provider_type: provider_type.to_owned(),
            model: model.to_owned(),
            client_session_key: None,
            model_profile: None,
            effort: None,
        }
    }

    pub fn with_client_session_key(self, key: &str) -> (r: NewSession)
        ensures
            r@ == (NewSessionView { client_session_key: Some(key@), ..self@ }),
    {
        let mut r = self;
        r.client_session_key = Some(key.to_owned());
        r
    }

    pub fn with_model_selection(self, profile: &str, effort: Option<&str>) -> (r: NewSession)
        ensures
            r@ == (NewSessionView {
                model_profile: Some(profile@),
                effort: match effort {
                    Some(e) => Some(e@),
                    None => None,
                },
                ..self@
            }),
    {
        let mut r = self;
        r.model_profile = Some(profile.to_owned());
        r.effort = match effort {
            Some(e) => Some(e.to_owned()),
            None => None,
        };
        r
    }
}

/// A command that was run in the shell.
#[derive(Debug, PartialEq, Eq)]
pub struct ShellHistoryItem {
    pub id: i64,
    pub cwd: String,
    pub command: String,
    pub exit_code: Option<i32>,
    pub pipe_status: Option<String>,
    pub started_at: i64,
    pub duration_ms: Option<i64>,
}

/// The model of a [`ShellHistoryItem`].
pub struct ShellHistoryView {
    pub id: i64,
    pub cwd: Seq<char>,
    pub command: Seq<char>,
    pub exit_code: Option<i32>,
    pub pipe_status: Option<Seq<char>>,
    pub started_at: i64,
    pub duration_ms: Option<i64>,
}

impl View for ShellHistoryItem {
    type V = ShellHistoryView;

    open spec fn view(&self) -> ShellHistoryView {
        ShellHistoryView {
            id: self.id,
            cwd: self.cwd@,
            command: self.command@,
            exit_code: self.exit_code,
            pipe_status: maybe(self.pipe_status),
            started_at: self.started_at,
            duration_ms: self.duration_ms,
        }
    }
}

impl Clone for ShellHistoryItem {
    fn clone(&self) -> (r: ShellHistoryItem)
        ensures
            r@ == self@,
    {
        ShellHistoryItem {
            id: self.id,
            cwd: self.cwd.clone(),
            command: self.command.clone(),
            exit_code: self.exit_code,
            pipe_status: copy_maybe(&self.pipe_status),
            started_at: self.started_at,
            duration_ms: self.duration_ms,
        }
    }
}

// ---------------------------------------------------------------------------
// Identifiers

/// Whether a text is made of lower-case hexadecimal digits.
pub open spec fn is_hex(s: Seq<char>) -> bool {
    forall|i: int| 0 <= i < s.len() ==> '0' <= #[trigger] s[i] <= '9' || 'a' <= s[i] <= 'f'
}

/// Whether a text is a random identifier: 32 lower-case hexadecimal digits, of
/// which one tells that it is random (a four) and one the layout (`8`, `9`, `a`
/// or `b`).
pub open spec fn is_random_id(s: Seq<char>) -> bool {
    &&& s.len() == 32
    &&& is_hex(s)
    &&& s[12] == '4'
    &&& s[16] == '8' || s[16] == '9' || s[16] == 'a' || s[16] == 'b'
}

/// `uuid::Uuid::new_v4` makes a random identifier of version 4, which its simple
/// form shows as 32 lower-case hexadecimal digits: its version stands in the
/// thirteenth, its variant in the seventeenth. Which digits the others are, is
/// left to chance.
#[verifier::external_body]
fn random_hex() -> (r: String)
    ensures
        is_random_id(r@),
{
    uuid::Uuid::new_v4().simple().to_string()
}

/// Whether a text is an identifier of a session.
pub open spec fn is_session_id(s: Seq<char>) -> bool {
    s.len() == 34 && s.take(2) == "a_"@ && is_random_id(s.skip(2))
}

/// Whether a text is an identifier of a conversation item.
pub open spec fn is_item_id(s: Seq<char>) -> bool {
    s.len() == 34 && s.take(2) == "i_"@ && is_random_id(s.skip(2))
}

/// The identifier of a session that was given the digits of a random one.
pub fn session_id_of(digits: &str) -> (r: String)
    ensures
        r@ == "a_"@ + digits@,
{
    "a_".to_owned().concat(digits)
}

/// The identifier of a conversation item that was given the digits of a random
/// one.
pub fn item_id_of(digits: &str) -> (r: String)
    ensures
        r@ == "i_"@ + digits@,
{
    "i_".to_owned().concat(digits)
}

/// A new identifier of a session.
pub fn new_session_id() -> (r: String)
    ensures
        is_session_id(r@),
{
    let digits = random_hex();
    let r = session_id_of(&digits);
    proof {
        reveal_strlit("a_");
        assert(r@.skip(2) =~= digits@);
        assert(r@.take(2) =~= "a_"@);
    }
    r
}

/// A new identifier of a conversation item.
pub fn new_item_id() -> (r: String)
    ensures
        is_item_id(r@),
{
    let digits = random_hex();
    let r = item_id_of(&digits);
    proof {
        reveal_strlit("i_");
        assert(r@.skip(2) =~= digits@);
        assert(r@.take(2) =~= "i_"@);
    }
    r
}

// ---------------------------------------------------------------------------
// Items

/// The name under which a role is kept.
pub open spec fn role_name(role: Role) -> Seq<char> {
    match role {
        Role::System => "system"@,
        Role::User => "user"@,
        Role::Assistant => "assistant"@,
        Role::Tool => "tool"@,
    }
}

pub fn role_to_str(role: Role) -> (r: &'static str)
    ensures
        r@ == role_name(role),
{
    match role {
        Role::System => "system",
        Role::User => "user",
        Role::Assistant => "assistant",
        Role::Tool => "tool",
    }
}

pub fn str_to_role(role: &str) -> (r: Result<Role, String>)
    ensures
        match r {
            Ok(known) => role_name(known) == role@,
            Err(e) => (forall|known: Role| #[trigger] role_name(known) != role@) && e@
                == "unknown conversation role: "@ + role@,
        },
{
    if same(role, "system") {
        Ok(Role::System)
    } else if same(role, "user") {
        Ok(Role::User)
    } else if same(role, "assistant") {
        Ok(Role::Assistant)
    } else if same(role, "tool") {
        Ok(Role::Tool)
    } else {
        Err("unknown conversation role: ".to_owned().concat(role))
    }
}

/// Different roles have different names, so that a name read back gives the role
/// it was written for.
pub proof fn law_role_names(a: Role, b: Role)
    requires
        role_name(a) == role_name(b),
    ensures
        a == b,
{
    reveal_strlit("system");
    reveal_strlit("user");
    reveal_strlit("assistant");
    reveal_strlit("tool");
    assert("system"@[0] == 's');
    assert("user"@[0] == 'u');
    assert("assistant"@[0] == 'a');
    assert("tool"@[0] == 't');
}

/// Whether some block is a call.
pub open spec fn holds_call(blocks: Seq<BlockView>) -> bool {
    exists|i: int| 0 <= i < blocks.len() && #[trigger] blocks[i] is ToolCall
}

/// Whether some block is reasoning.
pub open spec fn holds_reasoning(blocks: Seq<BlockView>) -> bool {
    exists|i: int| 0 <= i < blocks.len() && #[trigger] blocks[i] is Reasoning
}

/// The kind of an item.
pub open spec fn kind_of(role: Role, blocks: Seq<BlockView>) -> Seq<char> {
    match role {
        Role::User => "user_message"@,
        Role::Tool => "tool_result"@,
        Role::System => "system_checkpoint"@,
        Role::Assistant => if holds_call(blocks) {
            "tool_call"@
        } else if holds_reasoning(blocks) {
            "assistant_reasoning"@
        } else {
            "assistant_text"@
        },
    }
}

/// The kind of an item.
pub fn item_kind(role: Role, blocks: &Vec<ContentBlock>) -> (r: &'static str)
    ensures
        r@ == kind_of(role, views(blocks@)),
{
    match role {
        Role::User => "user_message",
        Role::Tool => "tool_result",
        Role::System => "system_checkpoint",
        Role::Assistant => {
            let ghost all = views(blocks@);
            let mut calls = false;
            let mut reasons = false;
            let mut i: usize = 0;
            while i < blocks.len()
                invariant
                    i <= blocks.len(),
                    all == views(blocks@),
                    calls <==> holds_call(all.take(i as int)),
                    reasons <==> holds_reasoning(all.take(i as int)),
                decreases blocks.len() - i,
            {
                let ghost before = all.take(i as int);
                let ghost after = all.take(i + 1);
                assert(after =~= before.push(blocks@[i as int]@));
                assert(after[i as int] == blocks@[i as int]@);
                proof {
                    if holds_call(before) {
                        let k = choose|k: int| 0 <= k < before.len() && #[trigger] before[k] is ToolCall;
                        assert(after[k] is ToolCall);
                    }
                    if holds_reasoning(before) {
                        let k = choose|k: int| 0 <= k < before.len() && #[trigger] before[k] is Reasoning;
                        assert(after[k] is Reasoning);
                    }
                    if holds_call(after) && !(after[i as int] is ToolCall) {
                        let k = choose|k: int| 0 <= k < after.len() && #[trigger] after[k] is ToolCall;
                        assert(before[k] is ToolCall);
                    }
                    if holds_reasoning(after) && !(after[i as int] is Reasoning) {
                        let k = choose|k: int| 0 <= k < after.len() && #[trigger] after[k] is Reasoning;
                        assert(before[k] is Reasoning);
                    }
                }
                match &blocks[i] {
                    ContentBlock::ToolCall(_) => {
                        calls = true;
                    },
                    ContentBlock::Reasoning(_) => {
                        reasons = true;
                    },
                    _ => {},
                }
                i += 1;
            }
            assert(all.take(all.len() as int) =~= all);
            if calls {
                "tool_call"
            } else if reasons {
                "assistant_reasoning"
            } else {
                "assistant_text"
            }
        },
    }
}

/// The first text among blocks.
pub open spec fn first_text(blocks: Seq<BlockView>) -> Option<Seq<char>>
    decreases blocks.len(),
{
    if blocks.len() == 0 {
        None
    } else {
        match blocks[0] {
            BlockView::Text(s) => Some(s),
            _ => first_text(blocks.skip(1)),
        }
    }
}

/// The prompt that a session is known by: the first text of its first message.
pub fn first_user_prompt(blocks: &Vec<ContentBlock>) -> (r: Option<String>)
    ensures
        maybe(r) == first_text(views(blocks@)),
{
    let ghost all = views(blocks@);
    assert(all.skip(0) =~= all);
    let mut i: usize = 0;
    while i < blocks.len()
        invariant
            i <= blocks.len(),
            all == views(blocks@),
            first_text(all) == first_text(all.skip(i as int)),
        decreases blocks.len() - i,
    {
        assert(all.skip(i as int)[0] == blocks@[i as int]@);
        assert(all.skip(i as int).skip(1) =~= all.skip(i + 1));
        match &blocks[i] {
            ContentBlock::Text(s) => return Some(s.clone()),
            _ => {},
        }
        i += 1;
    }
    None
}

/// The text that a summary is kept as.
pub open spec fn summary_text(summary: Seq<char>) -> Seq<char> {
    CONVERSATION_SUMMARY_PREFIX@ + "\n"@ + summary
}

/// The blocks of the item that stands for a conversation that was summarised.
pub fn summary_blocks(summary: &str) -> (r: Vec<ContentBlock>)
    ensures
        views(r@) == seq![BlockView::Text(summary_text(summary@))],
{
    let mut r: Vec<ContentBlock> = Vec::new();
    r.push(
        ContentBlock::Text(
            CONVERSATION_SUMMARY_PREFIX.to_owned().concat("\n").concat(summary),
        ),
    );
    assert(views(r@) =~= seq![BlockView::Text(summary_text(summary@))]);
    r
}

/// The blocks of the item that says that a turn was interrupted.
pub fn interruption_blocks() -> (r: Vec<ContentBlock>)
    ensures
        views(r@) == seq![BlockView::Text(TURN_INTERRUPTED_NOTICE@)],
{
    let mut r: Vec<ContentBlock> = Vec::new();
    r.push(ContentBlock::Text(TURN_INTERRUPTED_NOTICE.to_owned()));
    assert(views(r@) =~= seq![BlockView::Text(TURN_INTERRUPTED_NOTICE@)]);
    r
}

// ---------------------------------------------------------------------------
// Branches

/// Whether the parent of an item is the item before it.
pub open spec fn linked(items: Seq<ItemView>, i: int) -> bool {
    items[i].parent_id == if i == 0 {
        None
    } else {
        Some(items[i - 1].id)
    }
}

/// Whether items follow each other from the first of a conversation, each the
/// parent of the next.
pub open spec fn is_branch(items: Seq<ItemView>) -> bool {
    forall|i: int| 0 <= i < items.len() ==> #[trigger] linked(items, i)
}

/// The item that a branch ends at.
pub open spec fn head_of(items: Seq<ItemView>) -> Option<Seq<char>> {
    if items.len() == 0 {
        None
    } else {
        Some(items.last().id)
    }
}

/// Whether one item of each branch is that of the other wherever their
/// identifiers are the same.
pub open spec fn same_store(a: Seq<ItemView>, b: Seq<ItemView>) -> bool {
    forall|i: int, j: int|
        0 <= i < a.len() && 0 <= j < b.len() && (#[trigger] a[i]).id == (#[trigger] b[j]).id
            ==> a[i] == b[j]
}

/// A head has one branch.
pub proof fn law_branch_is_unique(a: Seq<ItemView>, b: Seq<ItemView>)
    requires
        is_branch(a),
        is_branch(b),
        same_store(a, b),
        head_of(a) == head_of(b),
    ensures
        a == b,
    decreases a.len(),
{
    if a.len() == 0 {
        assert(a =~= b);
    } else {
        let x = a.drop_last();
        let y = b.drop_last();
        let m = a.len() - 1;
        let n = b.len() - 1;
        assert(a[m].id == b[n].id);
        assert(a[m] == b[n]);
        assert forall|i: int| 0 <= i < x.len() implies #[trigger] linked(x, i) by {
            assert(linked(a, i));
        }
        assert forall|i: int| 0 <= i < y.len() implies #[trigger] linked(y, i) by {
            assert(linked(b, i));
        }
        assert(linked(a, m) && linked(b, n));
        assert forall|i: int, j: int|
            0 <= i < x.len() && 0 <= j < y.len() && (#[trigger] x[i]).id == (#[trigger] y[j]).id implies x[i]
            == y[j] by {
            assert(x[i] == a[i] && y[j] == b[j]);
        }
        assert(a[m].parent_id == head_of(x)) by {
            if m > 0 {
                assert(x.last() == a[m - 1]);
            }
        }
        assert(b[n].parent_id == head_of(y)) by {
            if n > 0 {
                assert(y.last() == b[n - 1]);
            }
        }
        law_branch_is_unique(x, y);
        assert(a =~= x.push(a[m]));
        assert(b =~= y.push(b[n]));
    }
}

/// A new item under the head of a branch makes the branch one item longer.
pub proof fn law_append_extends_the_branch(branch: Seq<ItemView>, item: ItemView)
    requires
        is_branch(branch),
        item.parent_id == head_of(branch),
    ensures
        is_branch(branch.push(item)),
        head_of(branch.push(item)) == Some(item.id),
{
    let next = branch.push(item);
    assert forall|i: int| 0 <= i < next.len() implies #[trigger] linked(next, i) by {
        if i < branch.len() {
            assert(linked(branch, i));
        }
    }
}

/// Rewinding to an item of a branch leaves what came up to that item, itself
/// included; the items after it are not touched.
pub proof fn law_rewind_keeps_what_came_before(branch: Seq<ItemView>, n: int)
    requires
        is_branch(branch),
        0 <= n < branch.len(),
    ensures
        is_branch(branch.take(n + 1)),
        head_of(branch.take(n + 1)) == Some(branch[n].id),
{
    let kept = branch.take(n + 1);
    assert forall|i: int| 0 <= i < kept.len() implies #[trigger] linked(kept, i) by {
        assert(linked(branch, i));
    }
}

/// Whether the item before is the child of an item, on the way back from the
/// head.
pub open spec fn leads_back(items: Seq<ItemView>, i: int) -> bool {
    items[i - 1].parent_id == Some(items[i].id)
}

/// Items in the opposite order.
pub open spec fn turned(items: Seq<ItemView>) -> Seq<ItemView> {
    Seq::new(items.len(), |i: int| items[items.len() - 1 - i])
}

/// Following a branch from its head back to its first item.
pub struct BranchWalk {
    pub head: Option<String>,
    /// The items found so far, the head first.
    pub found: Vec<ConversationItem>,
    /// The item to look up next.
    pub next: Option<String>,
}

impl BranchWalk {
    /// Whether what has been found follows on from the head, and leads to the
    /// item that is looked up next.
    pub open spec fn follows(self) -> bool {
        let items = views(self.found@);
        &&& items.len() == 0 ==> maybe(self.next) == maybe(self.head)
        &&& items.len() > 0 ==> maybe(self.head) == Some(items[0].id) && maybe(self.next)
            == items.last().parent_id
        &&& forall|i: int| 0 < i < items.len() ==> #[trigger] leads_back(items, i)
    }

    pub fn new(head: &Option<String>) -> (r: BranchWalk)
        ensures
            r.follows(),
            maybe(r.head) == maybe(*head),
            maybe(r.next) == maybe(*head),
            r.found@.len() == 0,
    {
        BranchWalk { head: copy_maybe(head), found: Vec::new(), next: copy_maybe(head) }
    }

    /// Takes in what was looked up under [`Self::next`].
    pub fn take(&mut self, item: Option<ConversationItem>) -> (r: Result<(), String>)
        requires
            old(self).follows(),
            old(self).next is Some,
            item matches Some(i) ==> i.id@ == old(self).next->Some_0@,
        ensures
            maybe(final(self).head) == maybe(old(self).head),
            match item {
                Some(i) => {
                    &&& r is Ok
                    &&& final(self).follows()
                    &&& views(final(self).found@) == views(old(self).found@).push(i@)
                    &&& maybe(final(self).next) == i@.parent_id
                },
                None => r matches Err(e) && e@ == "conversation item not found: "@
                    + old(self).next->Some_0@,
            },
    {
        match item {
            None => match &self.next {
                Some(id) => Err("conversation item not found: ".to_owned().concat(id)),
                None => Ok(()),
            },
            Some(i) => {
                let ghost before = views(self.found@);
                let ghost added = i@;
                self.next = copy_maybe(&i.parent_id);
                self.found.push(i);
                let ghost after = views(self.found@);
                assert(after =~= before.push(added));
                proof {
                    assert forall|k: int| 0 < k < after.len() implies #[trigger] leads_back(
                        after,
                        k,
                    ) by {
                        if k < before.len() {
                            assert(leads_back(before, k));
                        }
                    }
                }
                Ok(())
            },
        }
    }

    /// The branch, its first item first.
    pub fn finish(self) -> (r: Vec<ConversationItem>)
        requires
            self.follows(),
            self.next is None,
        ensures
            views(r@) == turned(views(self.found@)),
            is_branch(views(r@)),
            head_of(views(r@)) == maybe(self.head),
    {
        let ghost items = views(self.found@);
        let ghost all = turned(items);
        let mut found = self.found;
        let mut r: Vec<ConversationItem> = Vec::new();
        assert(views(r@) =~= all.take(0));
        while found.len() > 0
            invariant
                found@.len() + r@.len() == items.len(),
                all == turned(items),
                views(found@) == items.take(found@.len() as int),
                views(r@) == all.take(r@.len() as int),
            decreases found.len(),
        {
            let ghost n = found@.len() as int;
            let ghost m = r@.len() as int;
            assert(views(found@)[n - 1] == found@[n - 1]@);
            match found.pop() {
                Some(item) => {
                    assert(item@ == items[n - 1]);
                    assert(views(found@) =~= items.take(n - 1));
                    let ghost before = views(r@);
                    r.push(item);
                    assert(views(r@) =~= before.push(item@));
                    assert(all[m] == items[n - 1]);
                    assert(all.take(m + 1) =~= all.take(m).push(all[m]));
                },
                None => {},
            }
        }
        assert(all.take(all.len() as int) =~= all);
        proof {
            assert forall|i: int| 0 <= i < all.len() implies #[trigger] linked(all, i) by {
                if i > 0 {
                    assert(leads_back(items, items.len() - i));
                }
            }
        }
        r
    }
}

// ---------------------------------------------------------------------------
// Decisions on sessions

/// Why a session cannot be continued under a key.
pub open spec fn rebind_problem(
    target: Option<(Seq<char>, Option<Seq<char>>)>,
    cwd: Seq<char>,
    key: Seq<char>,
    id: Seq<char>,
) -> Option<Seq<char>> {
    match target {
        None => Some("session not found: "@ + id),
        Some((target_cwd, target_key)) => if target_cwd != cwd {
            Some("cannot resume a session from a different cwd"@)
        } else if target_key matches Some(other) && other != key {
            Some("session is active in another Fish process"@)
        } else {
            None
        },
    }
}

/// Whether a session can be continued under a key. `target` holds the
/// directory and the key of the session, if there is one.
pub fn check_rebind(
    target: &Option<(String, Option<String>)>,
    cwd: &str,
    key: &str,
    target_session_id: &str,
) -> (r: Result<(), String>)
    ensures
        ({
            let seen = match target {
                Some((c, k)) => Some((c@, maybe(*k))),
                None => None,
            };
            match r {
                Ok(()) => rebind_problem(seen, cwd@, key@, target_session_id@) is None,
                Err(e) => rebind_problem(seen, cwd@, key@, target_session_id@) == Some(e@),
            }
        }),
{
    match target {
        None => Err("session not found: ".to_owned().concat(target_session_id)),
        Some((target_cwd, target_key)) => {
            if !same(target_cwd, cwd) {
                return Err("cannot resume a session from a different cwd".to_owned());
            }
            match target_key {
                Some(other) => {
                    if !same(other, key) {
                        return Err("session is active in another Fish process".to_owned());
                    }
                    Ok(())
                },
                None => Ok(()),
            }
        },
    }
}

/// Whether a session can be rewound to an item. `owner` is the session that the
/// item belongs to, if there is such an item.
pub fn check_rewind(owner: &Option<String>, session_id: &str, item_id: &str) -> (r: Result<
    (),
    String,
>)
    ensures
        match r {
            Ok(()) => maybe(*owner) == Some(session_id@),
            Err(e) => match maybe(*owner) {
                None => e@ == "rewind item not found: "@ + item_id@,
                Some(other) => other != session_id@ && e@
                    == "rewind item does not belong to session "@ + session_id@,
            },
        },
{
    match owner {
        None => Err("rewind item not found: ".to_owned().concat(item_id)),
        Some(other) => {
            if same(other, session_id) {
                Ok(())
            } else {
                Err("rewind item does not belong to session ".to_owned().concat(session_id))
            }
        },
    }
}

/// Where the sessions are kept: below the state directory of the environment,
/// or else the usual one in the home directory.
pub fn default_database_path(home: &str, state_home: &Option<String>) -> (r: String)
    ensures
        r@ == path_in(
            match maybe(*state_home) {
                Some(dir) => dir,
                None => path_in(home@, ".local/state"@),
            },
            "a/sessions.db"@,
        ),
{
    let dir = match state_home {
        Some(dir) => dir.clone(),
        None => join_path(home, ".local/state"),
    };
    join_path(&dir, "a/sessions.db")
}

/// The statement that adds a column to a table that lacks it.
pub fn add_column(columns: &Vec<String>, table: &str, column: &str, kind: &str) -> (r: Option<
    String,
>)
    ensures
        maybe(r) == (if texts(columns@).contains(column@) {
            None
        } else {
            Some("ALTER TABLE "@ + table@ + " ADD COLUMN "@ + column@ + " "@ + kind@)
        }),
{
    if holds_text(columns, column) {
        None
    } else {
        Some(
            "ALTER TABLE ".to_owned().concat(table).concat(" ADD COLUMN ").concat(column).concat(
                " ",
            ).concat(kind),
        )
    }
}

/// Whether a table that only caches must be dropped: it is there, and lacks a
/// column that it has today.
pub fn needs_rebuild(columns: &Vec<String>, expected: &str) -> (r: bool)
    ensures
        r == (columns@.len() > 0 && !texts(columns@).contains(expected@)),
{
    columns.len() > 0 && !holds_text(columns, expected)
}

/// The time from which on what was fetched is still fresh.
pub fn price_cutoff(now: i64, ttl: i64) -> (r: i64)
    requires
        i64::MIN <= now - ttl <= i64::MAX,
    ensures
        r == now - ttl,
{
    now - ttl
}

// ---------------------------------------------------------------------------
// Snapshots as they are kept

/// A snapshot as it is kept: numbers as signed numbers, the fingerprint as a
/// text.
#[derive(Debug)]
pub struct SnapshotRow {
    pub path: String,
    pub change: String,
    pub before: Option<String>,
    pub after_len: i64,
    pub after_hash: String,
    pub added: i64,
    pub removed: i64,
    pub restorable: i64,
}

/// Whether a row holds a snapshot.
pub open spec fn row_of(row: SnapshotRow, s: SnapshotView) -> bool {
    &&& row.path@ == s.path
    &&& row.change@ == s.change.name()
    &&& maybe(row.before) == s.before
    &&& row.after_len == s.after_len as i64
    &&& row.after_hash@ == decimal(s.after_hash as nat)
    &&& row.added == (s.added as u64) as i64
    &&& row.removed == (s.removed as u64) as i64
    &&& row.restorable == (if s.restorable {
        1i64
    } else {
        0i64
    })
}

/// A snapshot as it is kept.
pub fn to_row(s: &FileSnapshot) -> (r: SnapshotRow)
    ensures
        row_of(r, s@),
{
    SnapshotRow {
        path: s.path.clone(),
        change: s.change.as_str().to_owned(),
        before: copy_maybe(&s.before),
        after_len: s.after_len as i64,
        after_hash: decimal_text(s.after_hash),
        added: s.added as u64 as i64,
        removed: s.removed as u64 as i64,
        restorable: if s.restorable {
            1
        } else {
            0
        },
    }
}

/// The change that a name stands for; a name that is not known stands for a
/// modification.
pub open spec fn change_named(name: Seq<char>) -> FileChange {
    if name == FileChange::Added.name() {
        FileChange::Added
    } else if name == FileChange::Deleted.name() {
        FileChange::Deleted
    } else {
        FileChange::Modified
    }
}

/// The fingerprint that a text stands for; zero if it stands for none.
pub open spec fn hash_written(text: Seq<char>) -> u64 {
    match natural(text) {
        Some(n) => if n <= u64::MAX {
            n as u64
        } else {
            0
        },
        None => 0,
    }
}

/// The snapshot that a row holds.
pub fn from_row(row: SnapshotRow) -> (r: FileSnapshot)
    ensures
        r@ == (SnapshotView {
            path: row.path@,
            change: change_named(row.change@),
            before: maybe(row.before),
            after_len: row.after_len as u64,
            after_hash: hash_written(row.after_hash@),
            added: ((row.added as u64) as usize) as nat,
            removed: ((row.removed as u64) as usize) as nat,
            restorable: row.restorable != 0,
        }),
{
    let change = match FileChange::parse(&row.change) {
        Some(change) => change,
        None => FileChange::Modified,
    };
    proof {
        if change_named(row.change@) != change {
            if change_named(row.change@).name() == row.change@ {
                law_change_names(change_named(row.change@), change);
            } else {
                assert(FileChange::Added.name() != row.change@);
                assert(FileChange::Deleted.name() != row.change@);
            }
        }
    }
    let after_hash: u64 = match parse_natural(&row.after_hash, u64::MAX) {
        Some(n) => n,
        None => 0,
    };
    FileSnapshot {
        path: row.path,
        change,
        before: row.before,
        after_len: row.after_len as u64,
        after_hash,
        added: row.added as u64 as usize,
        removed: row.removed as u64 as usize,
        restorable: row.restorable != 0,
    }
}

/// A snapshot that was kept is read back as it was.
pub proof fn law_snapshot_is_read_back(row: SnapshotRow, s: SnapshotView)
    requires
        row_of(row, s),
        s.added <= usize::MAX,
        s.removed <= usize::MAX,
    ensures
        row.path@ == s.path,
        change_named(row.change@) == s.change,
        maybe(row.before) == s.before,
        row.after_len as u64 == s.after_len,
        hash_written(row.after_hash@) == s.after_hash,
        (row.added as u64) as usize == s.added,
        (row.removed as u64) as usize == s.removed,
        (row.restorable != 0) == s.restorable,
{
    law_decimal_is_read_back(s.after_hash as nat);
    let a = s.after_len;
    assert((a as i64) as u64 == a) by (bit_vector);
    let b = s.added as u64;
    assert((b as i64) as u64 == b) by (bit_vector);
    let c = s.removed as u64;
    assert((c as i64) as u64 == c) by (bit_vector);
    if change_named(row.change@) != s.change {
        if change_named(row.change@).name() == s.change.name() {
            law_change_names(change_named(row.change@), s.change);
        } else {
            match s.change {
                FileChange::Added => {},
                FileChange::Deleted => {
                    law_change_names(FileChange::Added, FileChange::Deleted);
                },
                FileChange::Modified => {
                    if FileChange::Added.name() == s.change.name() {
                        law_change_names(FileChange::Added, s.change);
                    }
                    if FileChange::Deleted.name() == s.change.name() {
                        law_change_names(FileChange::Deleted, s.change);
                    }
                },
            }
        }
    }
}

// ---------------------------------------------------------------------------
// What is known of items and sessions

/// The first text of blocks is that of the first block which is text; there is
/// none where no block is.
pub proof fn law_the_first_text_is_found(blocks: Seq<BlockView>)
    ensures
        match first_text(blocks) {
            Some(text) => exists|i: int|
                0 <= i < blocks.len() && #[trigger] blocks[i] == BlockView::Text(text) && forall|
                    k: int,
                |
                    0 <= k < i ==> !(#[trigger] blocks[k] is Text),
            None => forall|k: int| 0 <= k < blocks.len() ==> !(#[trigger] blocks[k] is Text),
        },
    decreases blocks.len(),
{
    if blocks.len() > 0 {
        let rest = blocks.skip(1);
        if blocks[0] is Text {
            assert(blocks[0] == BlockView::Text(first_text(blocks)->Some_0));
        } else {
            law_the_first_text_is_found(rest);
            match first_text(rest) {
                Some(text) => {
                    let i = choose|i: int|
                        0 <= i < rest.len() && #[trigger] rest[i] == BlockView::Text(text)
                            && forall|k: int| 0 <= k < i ==> !(#[trigger] rest[k] is Text);
                    assert(blocks[i + 1] == BlockView::Text(text));
                    assert forall|k: int| 0 <= k < i + 1 implies !(#[trigger] blocks[k] is Text) by {
                        if k > 0 {
                            assert(rest[k - 1] == blocks[k]);
                        }
                    }
                },
                None => {
                    assert forall|k: int| 0 <= k < blocks.len() implies !(
                    #[trigger] blocks[k] is Text) by {
                        if k > 0 {
                            assert(rest[k - 1] == blocks[k]);
                        }
                    }
                },
            }
        }
    }
}

/// An answer is known by what it holds: a call anywhere in it makes it one, or
/// else reasoning, or else it is text. All other items are known by their role.
pub proof fn law_items_are_known_by_what_they_hold(role: Role, blocks: Seq<BlockView>, i: int)
    ensures
        role == Role::User ==> kind_of(role, blocks) == "user_message"@,
        role == Role::Tool ==> kind_of(role, blocks) == "tool_result"@,
        role == Role::System ==> kind_of(role, blocks) == "system_checkpoint"@,
        role == Role::Assistant && 0 <= i < blocks.len() && blocks[i] is ToolCall ==> kind_of(
            role,
            blocks,
        ) == "tool_call"@,
        role == Role::Assistant && 0 <= i < blocks.len() && blocks[i] is Reasoning && (forall|k: int|
            0 <= k < blocks.len() ==> !(#[trigger] blocks[k] is ToolCall)) ==> kind_of(role, blocks)
            == "assistant_reasoning"@,
        role == Role::Assistant && (forall|k: int|
            0 <= k < blocks.len() ==> #[trigger] blocks[k] is Text || blocks[k] is ToolResult)
            ==> kind_of(role, blocks) == "assistant_text"@,
{
}

/// A summary is told from other texts by its beginning, and holds what was
/// summarised after it.
pub proof fn law_summaries_are_known(summary: Seq<char>)
    ensures
        begins(summary_text(summary), CONVERSATION_SUMMARY_PREFIX@),
        ends(summary_text(summary), summary),
{
    let text = summary_text(summary);
    let start = CONVERSATION_SUMMARY_PREFIX@;
    assert(text.subrange(0, start.len() as int) =~= start);
    assert(text.subrange(text.len() - summary.len(), text.len() as int) =~= summary);
}

/// A shell goes on with a session exactly if there is one, it is of the same
/// directory, and no other shell has it.
pub proof fn law_sessions_are_taken_over_where_they_belong(
    target: Option<(Seq<char>, Option<Seq<char>>)>,
    cwd: Seq<char>,
    key: Seq<char>,
    id: Seq<char>,
)
    ensures
        rebind_problem(target, cwd, key, id) is None <==> (target matches Some((place, holder))
            && place == cwd && (holder matches Some(other) ==> other == key)),
{
}

/// Items that were found from the last to the first are a branch from the first
/// to the last.
pub proof fn law_turned_items(items: Seq<ItemView>)
    ensures
        turned(items).len() == items.len(),
        forall|i: int|
            0 <= i < items.len() ==> turned(items)[items.len() - 1 - i] == #[trigger] items[i],
{
}

} // verus!
