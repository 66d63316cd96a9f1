//! The agent: one turn of a conversation, from a prompt to a final answer.
use vstd::prelude::*;
use vstd::string::*;

use crate::json::{Json, JsonView, compact, compact_text, list_json};
use crate::model::{
    BlockView, ContentBlock, ConversationItem, EventView, ItemView, MessageView, ModelMessage,
    ModelRequest, ModelTurn, RequestView, Role, StreamEvent, ToolCall, ToolCallView, ToolResult,
    ToolResultView, TurnView, Usage, capped, capped_sum, copy_blocks, copy_calls,
    law_texts_of_blocks, or_zero, run_together, text_of_block, text_parts, unless_none,
};
use crate::provider::{Answer, offered_tools, tool_definitions};
use crate::seqs::picks;
use crate::session::CONVERSATION_SUMMARY_PREFIX;
use crate::tools::patch::{FileSnapshot, SnapshotView};
use crate::tools::runner::{OutcomeView, ToolOutcome};
use crate::text::{
    begins, decimal, decimal_text, joined, lemma_views_push, maybe, outcomes, starts_with, views,
};

verus! {

// ---------------------------------------------------------------------------
// How full the context is

/// A quarter of a number, rounded up.
pub open spec fn quarter(n: u64) -> u64 {
    ((n + 3) / 4) as u64
}

/// The tokens that a text is taken for: one for every four characters.
pub open spec fn text_tokens(text: Seq<char>) -> u64 {
    quarter(capped(text.len()))
}

/// The characters of a block that are counted.
pub open spec fn block_chars(block: BlockView) -> nat {
    match block {
        BlockView::Text(text) => text.len(),
        BlockView::Reasoning(text) => text.len(),
        BlockView::ToolCall(call) => call.name.len() + call.arguments.len(),
        BlockView::ToolResult(result) => result.output.len(),
    }
}

/// The characters of blocks.
pub open spec fn blocks_chars(blocks: Seq<BlockView>) -> nat
    decreases blocks.len(),
{
    if blocks.len() == 0 {
        0
    } else {
        blocks_chars(blocks.drop_last()) + block_chars(blocks.last())
    }
}

/// The tokens that blocks are taken for.
pub open spec fn blocks_tokens(blocks: Seq<BlockView>) -> u64 {
    quarter(capped(blocks_chars(blocks)))
}

/// The tokens that items are taken for.
pub open spec fn items_tokens(items: Seq<ItemView>) -> nat
    decreases items.len(),
{
    if items.len() == 0 {
        0
    } else {
        items_tokens(items.drop_last()) + blocks_tokens(items.last().blocks) as nat
    }
}

/// The tokens that the provider counted up to an item, if it did.
pub open spec fn reported(item: ItemView) -> Option<u64> {
    match item.usage {
        Some(usage) => match usage.known_context() {
            Some(n) => if item.role == Role::Assistant && n > 0 {
                Some(n)
            } else {
                None
            },
            None => None,
        },
        None => None,
    }
}

/// The last of the first `n` items up to which the provider counted.
pub open spec fn anchor(branch: Seq<ItemView>, n: int) -> Option<int>
    decreases n,
{
    if n <= 0 {
        None
    } else if reported(branch[n - 1]) is Some {
        Some(n - 1)
    } else {
        anchor(branch, n - 1)
    }
}

/// The text of the tools that a model is offered.
pub open spec fn tools_text() -> Seq<char> {
    compact(JsonView::List(offered_tools()))
}

/// The tokens that an additional prompt is taken for.
pub open spec fn prompt_tokens(prompt: Option<Seq<char>>) -> nat {
    match prompt {
        Some(text) => text_tokens(text) as nat,
        None => 0,
    }
}

/// How full the context is: what the provider counted last, and an estimate of
/// what came after it.
pub struct ContextEstimate {
    pub total: u64,
    pub provider: Option<u64>,
    pub estimated: u64,
}

/// The estimate of what the provider has not counted.
pub open spec fn uncounted(
    system_prompt: Seq<char>,
    branch: Seq<ItemView>,
    additional: Option<Seq<char>>,
) -> nat {
    (match anchor(branch, branch.len() as int) {
        Some(i) => items_tokens(branch.skip(i + 1)),
        None => (text_tokens(system_prompt) + text_tokens(tools_text()) + items_tokens(
            branch,
        )) as nat,
    }) + prompt_tokens(additional)
}

/// How full the context is.
pub open spec fn context_of(
    system_prompt: Seq<char>,
    branch: Seq<ItemView>,
    additional: Option<Seq<char>>,
) -> ContextEstimate {
    let provider = match anchor(branch, branch.len() as int) {
        Some(i) => reported(branch[i]),
        None => None,
    };
    let estimated = capped(uncounted(system_prompt, branch, additional));
    ContextEstimate {
        total: capped(or_zero(provider) + estimated as nat),
        provider,
        estimated,
    }
}

fn char_count(text: &str) -> (r: u64)
    ensures
        r == capped(text@.len()),
{
    let n: usize = text.unicode_len();
    n as u64
}

fn quarter_of(n: u64) -> (r: u64)
    ensures
        r == quarter(n),
{
    n / 4 + if n % 4 == 0 {
        0
    } else {
        1
    }
}

fn estimate_text_tokens(text: &str) -> (r: u64)
    ensures
        r == text_tokens(text@),
{
    quarter_of(char_count(text))
}

fn estimate_blocks_tokens(blocks: &Vec<ContentBlock>) -> (r: u64)
    ensures
        r == blocks_tokens(views(blocks@)),
{
    let ghost all = views(blocks@);
    assert(all.take(0) =~= Seq::empty());
    let mut characters: u64 = 0;
    let mut i: usize = 0;
    while i < blocks.len()
        invariant
            i <= blocks.len(),
            all == views(blocks@),
            characters == capped(blocks_chars(all.take(i as int))),
        decreases blocks.len() - i,
    {
        assert(all.take(i + 1).drop_last() =~= all.take(i as int));
        assert(all.take(i + 1).last() == blocks@[i as int]@);
        let more: u64 = match &blocks[i] {
            ContentBlock::Text(text) => char_count(text),
            ContentBlock::Reasoning(text) => char_count(text),
            ContentBlock::ToolCall(call) => capped_sum(
                char_count(&call.name),
                char_count(&call.arguments),
            ),
            ContentBlock::ToolResult(result) => char_count(&result.output),
        };
        assert(more == capped(block_chars(blocks@[i as int]@)));
        characters = capped_sum(characters, more);
        i += 1;
    }
    assert(all.take(all.len() as int) =~= all);
    quarter_of(characters)
}

fn reported_tokens(item: &ConversationItem) -> (r: Option<u64>)
    ensures
        r == reported(item@),
{
    if item.role != Role::Assistant {
        return None;
    }
    match item.usage {
        Some(usage) => match usage.context_tokens() {
            Some(n) => if n > 0 {
                Some(n)
            } else {
                None
            },
            None => None,
        },
        None => None,
    }
}

fn find_anchor(branch: &Vec<ConversationItem>) -> (r: Option<usize>)
    ensures
        match r {
            Some(i) => anchor(views(branch@), branch@.len() as int) == Some(i as int) && i
                < branch.len() && reported(views(branch@)[i as int]) is Some,
            None => anchor(views(branch@), branch@.len() as int) is None,
        },
{
    let ghost all = views(branch@);
    let mut n: usize = branch.len();
    while n > 0
        invariant
            n <= branch.len(),
            all == views(branch@),
            anchor(all, branch@.len() as int) == anchor(all, n as int),
        decreases n,
    {
        assert(all[n - 1] == branch@[n - 1]@);
        if reported_tokens(&branch[n - 1]).is_some() {
            return Some(n - 1);
        }
        n -= 1;
    }
    None
}

/// How full the context is once a prompt has been added.
pub fn estimate_context_tokens(
    system_prompt: &str,
    branch: &Vec<ConversationItem>,
    additional_prompt: Option<&str>,
) -> (r: ContextEstimate)
    ensures
        r == context_of(
            system_prompt@,
            views(branch@),
            match additional_prompt {
                Some(p) => Some(p@),
                None => None,
            },
        ),
{
    let ghost all = views(branch@);
    let found = find_anchor(branch);
    let (start, provider): (usize, Option<u64>) = match found {
        Some(i) => (i + 1, reported_tokens(&branch[i])),
        None => (0, None),
    };
    let mut estimated: u64 = match found {
        Some(_) => 0,
        None => capped_sum(
            estimate_text_tokens(system_prompt),
            estimate_text_tokens(&compact_text(&list_json(tool_definitions()))),
        ),
    };
    let ghost base: nat = match found {
        Some(_) => 0,
        None => (text_tokens(system_prompt@) + text_tokens(tools_text())) as nat,
    };
    let ghost rest = all.skip(start as int);
    assert(rest.take(0) =~= Seq::empty());
    let mut i: usize = start;
    while i < branch.len()
        invariant
            start <= i <= branch.len(),
            all == views(branch@),
            rest == all.skip(start as int),
            estimated == capped(base + items_tokens(rest.take(i - start))),
        decreases branch.len() - i,
    {
        assert(rest.take(i + 1 - start).drop_last() =~= rest.take(i - start));
        assert(rest.take(i + 1 - start).last() == branch@[i as int]@);
        estimated = capped_sum(estimated, estimate_blocks_tokens(&branch[i].blocks));
        i += 1;
    }
    assert(rest.take(rest.len() as int) =~= rest);
    assert(start == 0 ==> rest =~= all);
    if let Some(prompt) = additional_prompt {
        estimated = capped_sum(estimated, estimate_text_tokens(prompt));
    }
    ContextEstimate { total: capped_sum(unless_none(provider), estimated), provider, estimated }
}

// ---------------------------------------------------------------------------
// When to compact

/// Whether an item stands for a conversation that was summarised.
pub open spec fn is_summary(item: ItemView) -> bool {
    exists|i: int|
        0 <= i < item.blocks.len() && (#[trigger] item.blocks[i] matches BlockView::Text(text)
            && begins(text, CONVERSATION_SUMMARY_PREFIX@))
}

/// The last of the first `n` items that is a summary.
pub open spec fn last_summary(branch: Seq<ItemView>, n: int) -> Option<int>
    decreases n,
{
    if n <= 0 {
        None
    } else if is_summary(branch[n - 1]) {
        Some(n - 1)
    } else {
        last_summary(branch, n - 1)
    }
}

/// Whether nothing was counted since the conversation was last summarised.
pub open spec fn freshly_compacted(branch: Seq<ItemView>) -> bool {
    match last_summary(branch, branch.len() as int) {
        Some(i) => anchor(branch, branch.len() as int) matches Some(a) ==> a <= i,
        None => false,
    }
}

/// The tokens from which on a conversation is compacted.
pub open spec fn threshold_of(window: u64, max_output_tokens: u64) -> u64 {
    if window >= max_output_tokens {
        (window - max_output_tokens) as u64
    } else {
        0
    }
}

/// Whether a conversation is to be compacted.
pub open spec fn must_compact(
    settings: AgentView,
    branch: Seq<ItemView>,
    additional: Option<Seq<char>>,
) -> bool {
    match settings.context_window {
        None => false,
        Some(window) => {
            &&& !freshly_compacted(branch)
            &&& branch.len() > 0
            &&& context_of(settings.system_prompt, branch, additional).total > threshold_of(
                window,
                settings.max_output_tokens,
            )
        },
    }
}

/// What an agent is made with.
pub struct Agent {
    pub session_id: String,
    pub system_prompt: String,
    pub max_cycles: usize,
    pub context_window: Option<u64>,
    pub max_output_tokens: u64,
}

/// The model of an [`Agent`].
pub struct AgentView {
    pub session_id: Seq<char>,
    pub system_prompt: Seq<char>,
    pub max_cycles: usize,
    pub context_window: Option<u64>,
    pub max_output_tokens: u64,
}

impl View for Agent {
    type V = AgentView;

    open spec fn view(&self) -> AgentView {
        AgentView {
            session_id: self.session_id@,
            system_prompt: self.system_prompt@,
            max_cycles: self.max_cycles,
            context_window: self.context_window,
            max_output_tokens: self.max_output_tokens,
        }
    }
}

impl Clone for Agent {
    fn clone(&self) -> (r: Agent)
        ensures
            r@ == self@,
    {
        Agent {
            session_id: self.session_id.clone(),
            system_prompt: self.system_prompt.clone(),
            max_cycles: self.max_cycles,
            context_window: self.context_window,
            max_output_tokens: self.max_output_tokens,
        }
    }
}

/// What a turn came to.
#[derive(Debug, PartialEq, Eq)]
pub struct AgentResult {
    pub final_text: Option<String>,
    pub cycles: usize,
}

/// How full the context is and when it is compacted.
#[derive(Debug, Clone, Copy, PartialEq, Eq, Structural)]
pub struct ContextStatus {
    pub used_tokens: u64,
    pub provider_tokens: Option<u64>,
    pub estimated_tokens: u64,
    pub context_window: Option<u64>,
    pub compact_at: Option<u64>,
    pub max_output_tokens: u64,
}

fn is_compaction_summary(item: &ConversationItem) -> (r: bool)
    ensures
        r == is_summary(item@),
{
    let ghost all = item@.blocks;
    let mut i: usize = 0;
    while i < item.blocks.len()
        invariant
            i <= item.blocks.len(),
            all == item@.blocks,
            forall|k: int|
                0 <= k < i ==> !(#[trigger] all[k] matches BlockView::Text(text) && begins(
                    text,
                    CONVERSATION_SUMMARY_PREFIX@,
                )),
        decreases item.blocks.len() - i,
    {
        assert(all[i as int] == item.blocks@[i as int]@);
        if let ContentBlock::Text(text) = &item.blocks[i] {
            if starts_with(text, CONVERSATION_SUMMARY_PREFIX) {
                return true;
            }
        }
        i += 1;
    }
    false
}

fn find_summary(branch: &Vec<ConversationItem>) -> (r: Option<usize>)
    ensures
        match r {
            Some(i) => last_summary(views(branch@), branch@.len() as int) == Some(i as int),
            None => last_summary(views(branch@), branch@.len() as int) is None,
        },
{
    let ghost all = views(branch@);
    let mut n: usize = branch.len();
    while n > 0
        invariant
            n <= branch.len(),
            all == views(branch@),
            last_summary(all, branch@.len() as int) == last_summary(all, n as int),
        decreases n,
    {
        assert(all[n - 1] == branch@[n - 1]@);
        if is_compaction_summary(&branch[n - 1]) {
            return Some(n - 1);
        }
        n -= 1;
    }
    None
}

impl Agent {
    pub fn new(session_id: &str, system_prompt: &str, max_cycles: usize) -> (r: Agent)
        ensures
            r@ == (AgentView {
                session_id: session_id@,
                system_prompt: system_prompt@,
                max_cycles,
                context_window: None,
                max_output_tokens: 0,
            }),
    {
        Agent {
            session_id: session_id.to_owned(),
            system_prompt: system_prompt.to_owned(),
            max_cycles,
            context_window: None,
            max_output_tokens: 0,
        }
    }

    pub fn with_context_budget(
        self,
        context_window: Option<u64>,
        max_output_tokens: u64,
    ) -> (r: Agent)
        ensures
            r@ == (AgentView { context_window, max_output_tokens, ..self@ }),
    {
        let mut r = self;
        r.context_window = context_window;
        r.max_output_tokens = max_output_tokens;
        r
    }

    /// Whether a conversation is to be compacted, with a prompt added or not.
    pub fn needs_compaction(
        &self,
        branch: &Vec<ConversationItem>,
        additional_prompt: Option<&str>,
    ) -> (r: bool)
        ensures
            r == must_compact(
                self@,
                views(branch@),
                match additional_prompt {
                    Some(p) => Some(p@),
                    None => None,
                },
            ),
    {
        let window: u64 = match self.context_window {
            Some(window) => window,
            None => return false,
        };
        let threshold: u64 = if window >= self.max_output_tokens {
            window - self.max_output_tokens
        } else {
            0
        };
        assert(views(branch@).len() == branch.len());
        if let Some(summary) = find_summary(branch) {
            match find_anchor(branch) {
                Some(at) => {
                    if at <= summary {
                        return false;
                    }
                },
                None => return false,
            }
        }
        branch.len() > 0 && estimate_context_tokens(
            &self.system_prompt,
            branch,
            additional_prompt,
        ).total > threshold
    }

    /// How full the context is.
    pub fn context_status(&self, branch: &Vec<ConversationItem>) -> (r: ContextStatus)
        ensures
            ({
                let e = context_of(self@.system_prompt, views(branch@), None);
                r == (ContextStatus {
                    used_tokens: e.total,
                    provider_tokens: e.provider,
                    estimated_tokens: e.estimated,
                    context_window: self.context_window,
                    compact_at: match self.context_window {
                        Some(window) => Some(threshold_of(window, self.max_output_tokens)),
                        None => None,
                    },
                    max_output_tokens: self.max_output_tokens,
                })
            }),
    {
        let e = estimate_context_tokens(&self.system_prompt, branch, None);
        ContextStatus {
            used_tokens: e.total,
            provider_tokens: e.provider,
            estimated_tokens: e.estimated,
            context_window: self.context_window,
            compact_at: match self.context_window {
                Some(window) => Some(
                    if window >= self.max_output_tokens {
                        window - self.max_output_tokens
                    } else {
                        0
                    },
                ),
                None => None,
            },
            max_output_tokens: self.max_output_tokens,
        }
    }
}

/// A conversation that was summarised a moment ago is not summarised again
/// before the provider has counted something.
pub proof fn law_no_compaction_twice(
    settings: AgentView,
    branch: Seq<ItemView>,
    additional: Option<Seq<char>>,
)
    requires
        branch.len() > 0,
        is_summary(branch.last()),
    ensures
        !must_compact(settings, branch, additional),
{
    lemma_anchor(branch, branch.len() as int);
}

proof fn lemma_anchor(branch: Seq<ItemView>, n: int)
    requires
        0 <= n <= branch.len(),
    ensures
        anchor(branch, n) matches Some(i) ==> 0 <= i < n,
    decreases n,
{
    if n > 0 {
        lemma_anchor(branch, n - 1);
    }
}

/// Usage that counts nothing is not taken for a count.
pub proof fn law_zero_usage_is_ignored(item: ItemView)
    requires
        item.usage matches Some(u) && u.known_context() == Some(0u64),
    ensures
        reported(item) is None,
{
}

/// Whether the provider counted tokens up to an item: it is the model's, and its
/// usage is known and not zero.
pub open spec fn is_counted(item: ItemView, n: u64) -> bool {
    &&& item.role == Role::Assistant
    &&& item.usage matches Some(usage) && usage.known_context() == Some(n)
    &&& n > 0
}

/// Whether the last count of a conversation stands at an item.
pub open spec fn is_last_count(branch: Seq<ItemView>, at: int, n: u64) -> bool {
    &&& 0 <= at < branch.len()
    &&& is_counted(branch[at], n)
    &&& forall|i: int, m: u64| at < i < branch.len() ==> !#[trigger] is_counted(branch[i], m)
}

/// Whether an item holds a text that begins as summaries do.
pub open spec fn holds_summary(item: ItemView) -> bool {
    exists|i: int|
        0 <= i < item.blocks.len() && ((#[trigger] item.blocks[i]) matches BlockView::Text(text)
            && begins(text, CONVERSATION_SUMMARY_PREFIX@))
}

proof fn lemma_counted(item: ItemView)
    ensures
        reported(item) matches Some(n) ==> is_counted(item, n),
        reported(item) is None ==> forall|m: u64| !#[trigger] is_counted(item, m),
        forall|m: u64| #[trigger] is_counted(item, m) ==> reported(item) == Some(m),
{
}

proof fn lemma_last_count(branch: Seq<ItemView>, n: int)
    requires
        0 <= n <= branch.len(),
    ensures
        match anchor(branch, n) {
            Some(i) => 0 <= i < n && reported(branch[i]) is Some && forall|k: int|
                i < k < n ==> reported(#[trigger] branch[k]) is None,
            None => forall|k: int| 0 <= k < n ==> reported(#[trigger] branch[k]) is None,
        },
    decreases n,
{
    if n > 0 && reported(branch[n - 1]) is None {
        lemma_last_count(branch, n - 1);
    }
}

proof fn lemma_last_summary(branch: Seq<ItemView>, n: int)
    requires
        0 <= n <= branch.len(),
    ensures
        match last_summary(branch, n) {
            Some(i) => 0 <= i < n && is_summary(branch[i]) && forall|k: int|
                i < k < n ==> !is_summary(#[trigger] branch[k]),
            None => forall|k: int| 0 <= k < n ==> !is_summary(#[trigger] branch[k]),
        },
    decreases n,
{
    if n > 0 && !is_summary(branch[n - 1]) {
        lemma_last_summary(branch, n - 1);
    }
}

/// A conversation whose last count, made after the last summary, leaves no room
/// for the answer in the context window is compacted, whatever else there is.
pub proof fn law_full_conversations_are_compacted(
    settings: AgentView,
    branch: Seq<ItemView>,
    additional: Option<Seq<char>>,
    at: int,
    n: u64,
)
    requires
        settings.context_window is Some,
        is_last_count(branch, at, n),
        forall|i: int| at <= i < branch.len() ==> !holds_summary(#[trigger] branch[i]),
        n + settings.max_output_tokens > settings.context_window->Some_0,
    ensures
        must_compact(settings, branch, additional),
{
    lemma_last_count(branch, branch.len() as int);
    lemma_last_summary(branch, branch.len() as int);
    lemma_counted(branch[at]);
    if let Some(i) = anchor(branch, branch.len() as int) {
        lemma_counted(branch[i]);
        if at < i {
            assert(is_counted(branch[i], reported(branch[i])->Some_0));
        }
    }
    if let Some(s) = last_summary(branch, branch.len() as int) {
        assert(holds_summary(branch[s]));
    }
}

/// A conversation is left as it is where no window is known, where there is
/// nothing in it, and where nothing was counted since it was summarised.
pub proof fn law_other_conversations_are_left(
    settings: AgentView,
    branch: Seq<ItemView>,
    additional: Option<Seq<char>>,
    summary: int,
)
    requires
        settings.context_window is None || branch.len() == 0 || (0 <= summary < branch.len()
            && holds_summary(branch[summary]) && forall|i: int, m: u64|
            summary < i < branch.len() ==> !#[trigger] is_counted(branch[i], m)),
    ensures
        !must_compact(settings, branch, additional),
{
    lemma_last_count(branch, branch.len() as int);
    lemma_last_summary(branch, branch.len() as int);
    if settings.context_window is Some && branch.len() > 0 {
        assert(is_summary(branch[summary]));
        if let Some(i) = anchor(branch, branch.len() as int) {
            lemma_counted(branch[i]);
            if summary < i {
                assert(is_counted(branch[i], reported(branch[i])->Some_0));
            }
        }
    }
}

/// Where nothing was summarised, or something was counted since, a conversation
/// is compacted exactly if what is in it and what the model may answer exceed the
/// context window.
pub proof fn law_compaction_waits_for_the_window(
    settings: AgentView,
    branch: Seq<ItemView>,
    additional: Option<Seq<char>>,
)
    requires
        settings.context_window is Some,
        branch.len() > 0,
        forall|s: int|
            0 <= s < branch.len() && holds_summary(#[trigger] branch[s]) ==> exists|i: int, m: u64|
                s < i < branch.len() && #[trigger] is_counted(branch[i], m),
        context_of(settings.system_prompt, branch, additional).total > 0,
    ensures
        must_compact(settings, branch, additional) <==> context_of(
            settings.system_prompt,
            branch,
            additional,
        ).total + settings.max_output_tokens > settings.context_window->Some_0,
{
    lemma_last_count(branch, branch.len() as int);
    lemma_last_summary(branch, branch.len() as int);
    if let Some(s) = last_summary(branch, branch.len() as int) {
        assert(holds_summary(branch[s]));
        let (i, m) = choose|i: int, m: u64| s < i < branch.len() && #[trigger] is_counted(branch[i], m);
        lemma_counted(branch[i]);
        assert(reported(branch[i]) is Some);
    }
}

/// Whether a number is a quarter of another, rounded up.
pub open spec fn is_quarter(q: int, n: int) -> bool {
    4 * q - 4 < n <= 4 * q
}

/// The characters of a block that take up room in the context: what is said and
/// thought, the name and the arguments of a call, and what a tool gave.
pub proof fn law_characters_are_counted(a: Seq<BlockView>, b: Seq<BlockView>, block: BlockView)
    ensures
        blocks_chars(a + b) == blocks_chars(a) + blocks_chars(b),
        blocks_chars(Seq::<BlockView>::empty()) == 0,
        blocks_chars(seq![block]) == (match block {
            BlockView::Text(text) => text.len(),
            BlockView::Reasoning(text) => text.len(),
            BlockView::ToolCall(call) => call.name.len() + call.arguments.len(),
            BlockView::ToolResult(result) => result.output.len(),
        }),
    decreases b.len(),
{
    assert(seq![block].drop_last() =~= Seq::empty());
    assert(blocks_chars(seq![block].drop_last()) == 0);
    if b.len() == 0 {
        assert(a + b =~= a);
    } else {
        assert((a + b).drop_last() =~= a + b.drop_last());
        law_characters_are_counted(a, b.drop_last(), block);
    }
}

proof fn lemma_anchor_push(branch: Seq<ItemView>, item: ItemView, n: int)
    requires
        0 <= n <= branch.len(),
    ensures
        anchor(branch.push(item), n) == anchor(branch, n),
    decreases n,
{
    if n > 0 {
        lemma_anchor_push(branch, item, n - 1);
        assert(branch.push(item)[n - 1] == branch[n - 1]);
    }
}

/// An item that the provider has counted sets the fill of the context to its
/// count; any other adds a quarter of its characters, and so does a prompt.
/// Before anything was counted, the system prompt and the tools are in it as
/// well.
pub proof fn law_context_grows_with_the_conversation(
    system_prompt: Seq<char>,
    branch: Seq<ItemView>,
    item: ItemView,
    prompt: Seq<char>,
)
    requires
        system_prompt.len() <= u64::MAX,
        tools_text().len() <= u64::MAX,
        prompt.len() <= u64::MAX,
        blocks_chars(item.blocks) <= u64::MAX,
    ensures
        ({
            let before = context_of(system_prompt, branch, None);
            let after = context_of(system_prompt, branch.push(item), None);
            let asked = context_of(system_prompt, branch, Some(prompt));
            let empty = context_of(system_prompt, Seq::<ItemView>::empty(), None);
            &&& forall|n: u64| #[trigger]
                is_counted(item, n) ==> after.provider == Some(n) && after.estimated == 0
                    && after.total == n
            &&& (forall|n: u64| !#[trigger] is_counted(item, n)) ==> after.provider
                == before.provider && (after.estimated == u64::MAX || is_quarter(
                after.estimated - before.estimated,
                blocks_chars(item.blocks) as int,
            ))
            &&& asked.provider == before.provider && (asked.estimated == u64::MAX || is_quarter(
                asked.estimated - before.estimated,
                prompt.len() as int,
            ))
            &&& before.total == u64::MAX || before.total == before.estimated + (
            match before.provider {
                Some(n) => n,
                None => 0,
            })
            &&& empty.provider is None
            &&& empty.estimated == u64::MAX || exists|a: int, b: int| #[trigger]
                is_quarter(a, system_prompt.len() as int) && #[trigger] is_quarter(
                    b,
                    tools_text().len() as int,
                ) && empty.estimated == a + b
        }),
{
    let more = branch.push(item);
    let n = branch.len() as int;
    lemma_anchor_push(branch, item, n);
    lemma_last_count(branch, n);
    lemma_counted(item);
    assert(more[n] == item);
    let none = Seq::<ItemView>::empty();
    assert(anchor(none, 0) is None);
    assert(items_tokens(none) == 0);
    if reported(item) is Some {
        assert(more.skip(n + 1) =~= none);
    } else {
        match anchor(branch, n) {
            Some(i) => {
                assert(more[i] == branch[i]);
                assert(more.skip(i + 1).drop_last() =~= branch.skip(i + 1));
                assert(more.skip(i + 1).last() == item);
            },
            None => {
                assert(more.drop_last() =~= branch);
            },
        }
    }
    let e = context_of(system_prompt, none, None).estimated;
    if e != u64::MAX {
        let a = text_tokens(system_prompt) as int;
        let b = text_tokens(tools_text()) as int;
        assert(is_quarter(a, system_prompt.len() as int));
        assert(is_quarter(b, tools_text().len() as int));
    }
}

// ---------------------------------------------------------------------------
// A turn

/// What is to be done for a turn.
#[derive(Debug)]
pub enum Order {
    /// Tell of an event.
    Emit(StreamEvent),
    /// Keep an item at the end of the conversation.
    Append { role: Role, blocks: Vec<ContentBlock>, usage: Option<Usage> },
    /// Keep a tool's result at the end of the conversation, and what the files
    /// that it changed looked like beforehand.
    AppendResult { result: ToolResult, snapshots: Vec<FileSnapshot> },
    /// Keep what the provider needs to go on.
    KeepState(Json),
    /// Put a summary in the place of the conversation.
    ReplaceBranch(String),
    /// Read the conversation, and reply with it.
    LoadBranch,
    /// Ask the model for a summary, and reply with its turn.
    Summarize(ModelRequest),
    /// Ask the model, and reply with its turn.
    Ask(ModelRequest),
    /// Run tools, and reply with their outcomes in the order of the calls.
    RunTools(Vec<ToolCall>),
    /// The turn is over.
    Finish(AgentResult),
    /// The turn has failed; `cause` is what led to it, where that is known.
    Fail { message: String, cause: Option<String> },
}

/// The model of an [`Order`].
pub enum OrderView {
    Emit(EventView),
    Append { role: Role, blocks: Seq<BlockView>, usage: Option<Usage> },
    AppendResult { result: ToolResultView, snapshots: Seq<SnapshotView> },
    KeepState(JsonView),
    ReplaceBranch(Seq<char>),
    LoadBranch,
    Summarize(RequestView),
    Ask(RequestView),
    RunTools(Seq<ToolCallView>),
    Finish { final_text: Option<Seq<char>>, cycles: usize },
    Fail { message: Seq<char>, cause: Option<Seq<char>> },
}

impl View for Order {
    type V = OrderView;

    open spec fn view(&self) -> OrderView {
        match self {
            Order::Emit(e) => OrderView::Emit(e@),
            Order::Append { role, blocks, usage } => OrderView::Append {
                role: *role,
                blocks: views(blocks@),
                usage: *usage,
            },
            Order::AppendResult { result, snapshots } => OrderView::AppendResult {
                result: result@,
                snapshots: views(snapshots@),
            },
            Order::KeepState(j) => OrderView::KeepState(j@),
            Order::ReplaceBranch(s) => OrderView::ReplaceBranch(s@),
            Order::LoadBranch => OrderView::LoadBranch,
            Order::Summarize(r) => OrderView::Summarize(r@),
            Order::Ask(r) => OrderView::Ask(r@),
            Order::RunTools(calls) => OrderView::RunTools(views(calls@)),
            Order::Finish(r) => OrderView::Finish {
                final_text: maybe(r.final_text),
                cycles: r.cycles,
            },
            Order::Fail { message, cause } => OrderView::Fail {
                message: message@,
                cause: maybe(*cause),
            },
        }
    }
}

/// What a turn waits for.
#[derive(Debug, Clone, Copy, PartialEq, Eq, Structural)]
pub enum Phase {
    /// The conversation, to see whether the prompt still fits.
    CheckPrompt,
    /// A summary, before the prompt is kept.
    SummaryForPrompt,
    /// The conversation, to see whether it still fits.
    CheckCycle,
    /// A summary, before the model is asked.
    SummaryForCycle,
    /// The conversation, to ask the model.
    Load,
    /// The model's turn.
    Answer,
    /// The outcomes of tools.
    Outcomes,
    /// Nothing: the turn is over.
    Over,
}

/// What a turn is told.
#[derive(Debug)]
pub enum Reply {
    Branch(Vec<ConversationItem>),
    Turn(ModelTurn),
    Failed(String),
    Outcomes(Vec<ToolOutcome>),
}

/// The model of a [`Reply`].
pub enum ReplyView {
    Branch(Seq<ItemView>),
    Turn(TurnView),
    Failed(Seq<char>),
    Outcomes(Seq<OutcomeView>),
}

impl View for Reply {
    type V = ReplyView;

    open spec fn view(&self) -> ReplyView {
        match self {
            Reply::Branch(items) => ReplyView::Branch(views(items@)),
            Reply::Turn(t) => ReplyView::Turn(t@),
            Reply::Failed(e) => ReplyView::Failed(e@),
            Reply::Outcomes(v) => ReplyView::Outcomes(views(v@)),
        }
    }
}

/// Whether a reply is what a turn waits for.
pub open spec fn expected(phase: Phase, reply: ReplyView) -> bool {
    match phase {
        Phase::CheckPrompt | Phase::CheckCycle | Phase::Load => reply is Branch,
        Phase::SummaryForPrompt | Phase::SummaryForCycle | Phase::Answer => reply is Turn
            || reply is Failed,
        Phase::Outcomes => reply is Outcomes,
        Phase::Over => false,
    }
}

/// A turn that is under way.
pub struct TurnRun {
    pub agent: Agent,
    pub prompt: String,
    /// How often the model has been asked, or is about to be.
    pub cycle: usize,
    pub phase: Phase,
}

/// The model of a [`TurnRun`].
pub struct TurnRunView {
    pub agent: AgentView,
    pub prompt: Seq<char>,
    pub cycle: usize,
    pub phase: Phase,
}

impl View for TurnRun {
    type V = TurnRunView;

    open spec fn view(&self) -> TurnRunView {
        TurnRunView {
            agent: self.agent@,
            prompt: self.prompt@,
            cycle: self.cycle,
            phase: self.phase,
        }
    }
}

/// The messages of a conversation.
pub open spec fn messages_of(branch: Seq<ItemView>) -> Seq<MessageView> {
    Seq::new(
        branch.len(),
        |i: int| MessageView { role: branch[i].role, blocks: branch[i].blocks },
    )
}

/// What a model is asked in order to summarise a conversation.
pub open spec fn summary_instructions() -> Seq<char> {
    "Summarize this coding-agent conversation for continuation. Preserve user goals, decisions, modified files, tool results, failures, unresolved work, and exact technical constraints. Return only the compact summary and do not call tools."@
}

/// The orders that have a conversation summarised.
pub open spec fn summary_orders(branch: Seq<ItemView>) -> Seq<OrderView> {
    seq![
        OrderView::Emit(EventView::GenerationStart),
        OrderView::Summarize(
            RequestView {
                system_prompt: summary_instructions(),
                messages: messages_of(branch),
                include_tools: false,
            },
        ),
    ]
}

/// What a summary comes to: its text, or why there is none.
pub open spec fn summary_outcome(reply: ReplyView) -> Result<Seq<char>, OrderView> {
    match reply {
        ReplyView::Failed(error) => Err(
            OrderView::Fail { message: "compact conversation"@, cause: Some(error) },
        ),
        ReplyView::Turn(turn) => if turn.tool_calls.len() > 0 {
            Err(
                OrderView::Fail {
                    message: "compaction model attempted to call tools"@,
                    cause: None,
                },
            )
        } else if run_together(text_parts(turn.blocks)).len() == 0 {
            Err(
                OrderView::Fail { message: "compaction model returned no summary"@, cause: None },
            )
        } else {
            Ok(run_together(text_parts(turn.blocks)))
        },
        _ => Err(OrderView::Fail { message: ""@, cause: None }),
    }
}

/// The start of the next cycle: the model is asked again unless that has
/// happened as often as it may, or the user cancelled.
pub open spec fn next_cycle(run: TurnRunView, cancelled: bool) -> (TurnRunView, OrderView) {
    if run.cycle >= run.agent.max_cycles {
        (
            TurnRunView { phase: Phase::Over, ..run },
            OrderView::Fail {
                message: "maximum agent cycles reached before a final response"@,
                cause: Some(
                    "maximum agent cycles ("@ + decimal(run.agent.max_cycles as nat)
                        + ") exceeded"@,
                ),
            },
        )
    } else if cancelled {
        (
            TurnRunView { phase: Phase::Over, ..run },
            OrderView::Fail { message: "agent turn cancelled"@, cause: None },
        )
    } else {
        (
            TurnRunView {
                cycle: (run.cycle + 1) as usize,
                phase: if run.agent.context_window is Some {
                    Phase::CheckCycle
                } else {
                    Phase::Load
                },
                ..run
            },
            OrderView::LoadBranch,
        )
    }
}

/// Keeping the prompt and starting the first cycle.
pub open spec fn keep_prompt(run: TurnRunView, cancelled: bool) -> (TurnRunView, Seq<OrderView>) {
    let (after, order) = next_cycle(run, cancelled);
    (
        after,
        seq![
            OrderView::Append {
                role: Role::User,
                blocks: seq![BlockView::Text(run.prompt)],
                usage: None,
            },
            order,
        ],
    )
}

/// Asking the model to go on with a conversation.
pub open spec fn ask_model(run: TurnRunView, branch: Seq<ItemView>) -> (
    TurnRunView,
    Seq<OrderView>,
) {
    (
        TurnRunView { phase: Phase::Answer, ..run },
        seq![
            OrderView::Emit(EventView::GenerationStart),
            OrderView::Ask(
                RequestView {
                    system_prompt: run.agent.system_prompt,
                    messages: messages_of(branch),
                    include_tools: true,
                },
            ),
        ],
    )
}

/// The events that start tools.
pub open spec fn start_orders(calls: Seq<ToolCallView>) -> Seq<OrderView> {
    Seq::new(
        calls.len(),
        |i: int| OrderView::Emit(EventView::ToolExecutionStart { id: calls[i].id }),
    )
}

/// The orders that follow a model's turn.
pub open spec fn answer_orders(run: TurnRunView, turn: TurnView) -> (TurnRunView, Seq<OrderView>) {
    let keep = if turn.blocks.len() > 0 {
        seq![
            OrderView::Append { role: Role::Assistant, blocks: turn.blocks, usage: turn.usage },
        ]
    } else {
        Seq::empty()
    };
    let state = match turn.provider_state {
        Some(j) => seq![OrderView::KeepState(j)],
        None => Seq::empty(),
    };
    if turn.tool_calls.len() == 0 {
        let text = run_together(text_parts(turn.blocks));
        (
            TurnRunView { phase: Phase::Over, ..run },
            keep + state + seq![
                OrderView::Emit(EventView::Done),
                OrderView::Finish {
                    final_text: if text.len() == 0 {
                        None
                    } else {
                        Some(text)
                    },
                    cycles: run.cycle,
                },
            ],
        )
    } else {
        (
            TurnRunView { phase: Phase::Outcomes, ..run },
            keep + state + start_orders(turn.tool_calls) + seq![
                OrderView::RunTools(turn.tool_calls),
            ],
        )
    }
}

/// The orders that tell of outcomes and keep them, one after another.
pub open spec fn outcome_orders(outcomes: Seq<OutcomeView>) -> Seq<OrderView>
    decreases outcomes.len(),
{
    if outcomes.len() == 0 {
        Seq::empty()
    } else {
        let last = outcomes.last();
        outcome_orders(outcomes.drop_last()) + seq![
            OrderView::Emit(
                EventView::ToolExecutionEnd { id: last.result.call_id, result: last.result },
            ),
            OrderView::AppendResult { result: last.result, snapshots: last.snapshots },
        ]
    }
}

/// The first orders of a turn.
pub open spec fn first_step(run: TurnRunView, cancelled: bool) -> (TurnRunView, Seq<OrderView>) {
    if run.agent.context_window is Some {
        (TurnRunView { phase: Phase::CheckPrompt, ..run }, seq![OrderView::LoadBranch])
    } else {
        keep_prompt(run, cancelled)
    }
}

/// The orders that follow a reply.
pub open spec fn turn_step(run: TurnRunView, reply: ReplyView, cancelled: bool) -> (
    TurnRunView,
    Seq<OrderView>,
) {
    match run.phase {
        Phase::CheckPrompt => {
            let branch = reply->Branch_0;
            if must_compact(run.agent, branch, Some(run.prompt)) {
                (TurnRunView { phase: Phase::SummaryForPrompt, ..run }, summary_orders(branch))
            } else {
                keep_prompt(run, cancelled)
            }
        },
        Phase::SummaryForPrompt => {
            let done = seq![OrderView::Emit(EventView::Done)];
            match summary_outcome(reply) {
                Err(fail) => (TurnRunView { phase: Phase::Over, ..run }, done.push(fail)),
                Ok(summary) => {
                    let (after, orders) = keep_prompt(run, cancelled);
                    (after, done.push(OrderView::ReplaceBranch(summary)) + orders)
                },
            }
        },
        Phase::CheckCycle => {
            let branch = reply->Branch_0;
            if must_compact(run.agent, branch, None) {
                (TurnRunView { phase: Phase::SummaryForCycle, ..run }, summary_orders(branch))
            } else {
                ask_model(run, branch)
            }
        },
        Phase::SummaryForCycle => {
            let done = seq![OrderView::Emit(EventView::Done)];
            match summary_outcome(reply) {
                Err(fail) => (TurnRunView { phase: Phase::Over, ..run }, done.push(fail)),
                Ok(summary) => (
                    TurnRunView { phase: Phase::Load, ..run },
                    done.push(OrderView::ReplaceBranch(summary)).push(OrderView::LoadBranch),
                ),
            }
        },
        Phase::Load => ask_model(run, reply->Branch_0),
        Phase::Answer => match reply {
            ReplyView::Turn(turn) => answer_orders(run, turn),
            ReplyView::Failed(error) => (
                TurnRunView { phase: Phase::Over, ..run },
                seq![OrderView::Fail { message: error, cause: None }],
            ),
            _ => (run, Seq::empty()),
        },
        Phase::Outcomes => {
            let (after, order) = next_cycle(run, cancelled);
            (after, outcome_orders(reply->Outcomes_0).push(order))
        },
        Phase::Over => (run, Seq::empty()),
    }
}

fn make_messages(branch: &Vec<ConversationItem>) -> (r: Vec<ModelMessage>)
    ensures
        views(r@) == messages_of(views(branch@)),
{
    broadcast use lemma_views_push;

    let ghost all = messages_of(views(branch@));
    let mut r: Vec<ModelMessage> = Vec::new();
    assert(views(r@) =~= all.take(0));
    let mut i: usize = 0;
    while i < branch.len()
        invariant
            i <= branch.len(),
            all == messages_of(views(branch@)),
            views(r@) == all.take(i as int),
        decreases branch.len() - i,
    {
        r.push(ModelMessage { role: branch[i].role, blocks: copy_blocks(&branch[i].blocks) });
        assert(all.take(i + 1) =~= all.take(i as int).push(all[i as int]));
        i += 1;
    }
    assert(all.take(all.len() as int) =~= all);
    r
}

fn no_orders() -> (r: Vec<Order>)
    ensures
        views(r@) == Seq::<OrderView>::empty(),
{
    let r: Vec<Order> = Vec::new();
    assert(views(r@) =~= Seq::empty());
    r
}

fn push_order(orders: &mut Vec<Order>, order: Order)
    ensures
        views(final(orders)@) == views(old(orders)@).push(order@),
{
    broadcast use lemma_views_push;

    orders.push(order);
}

/// What a model is asked in order to summarise a conversation.
pub fn summary_request(branch: &Vec<ConversationItem>) -> (r: ModelRequest)
    ensures
        r@ == (RequestView {
            system_prompt: summary_instructions(),
            messages: messages_of(views(branch@)),
            include_tools: false,
        }),
{
    ModelRequest {
        system_prompt: "Summarize this coding-agent conversation for continuation. Preserve user goals, decisions, modified files, tool results, failures, unresolved work, and exact technical constraints. Return only the compact summary and do not call tools.".to_owned(),
        messages: make_messages(branch),
        include_tools: false,
    }
}

fn order_summary(branch: &Vec<ConversationItem>) -> (r: Vec<Order>)
    ensures
        views(r@) == summary_orders(views(branch@)),
{
    let mut r = no_orders();
    push_order(&mut r, Order::Emit(StreamEvent::GenerationStart));
    push_order(&mut r, Order::Summarize(summary_request(branch)));
    assert(views(r@) =~= summary_orders(views(branch@)));
    r
}

/// The summary that a model gave, or the order that says why there is none.
pub fn read_summary(reply: &Reply) -> (r: Result<String, Order>)
    requires
        reply@ is Turn || reply@ is Failed,
    ensures
        match r {
            Ok(s) => summary_outcome(reply@) == Ok::<Seq<char>, OrderView>(s@),
            Err(o) => summary_outcome(reply@) == Err::<Seq<char>, OrderView>(o@),
        },
{
    match reply {
        Reply::Failed(error) => Err(
            Order::Fail { message: "compact conversation".to_owned(), cause: Some(error.clone()) },
        ),
        Reply::Turn(turn) => {
            assert(views(turn.tool_calls@).len() == turn.tool_calls.len());
            if turn.tool_calls.len() > 0 {
                return Err(
                    Order::Fail {
                        message: "compaction model attempted to call tools".to_owned(),
                        cause: None,
                    },
                );
            }
            match turn.final_text() {
                Some(summary) => Ok(summary),
                None => Err(
                    Order::Fail {
                        message: "compaction model returned no summary".to_owned(),
                        cause: None,
                    },
                ),
            }
        },
        _ => Err(Order::Fail { message: "".to_owned(), cause: None }),
    }
}

impl Agent {
    /// The orders that have a conversation summarised; none where there is
    /// nothing to summarise. [`read_summary`] reads the reply.
    pub fn compact(&self, branch: &Vec<ConversationItem>) -> (r: Vec<Order>)
        ensures
            views(r@) == (if branch@.len() == 0 {
                Seq::empty()
            } else {
                summary_orders(views(branch@))
            }),
    {
        if branch.len() == 0 {
            no_orders()
        } else {
            order_summary(branch)
        }
    }

    /// Starts a turn with a prompt, and gives its first orders.
    pub fn submit(&self, prompt: &str, cancelled: bool) -> (r: (TurnRun, Vec<Order>))
        ensures
            (r.0@, views(r.1@)) == first_step(
                TurnRunView { agent: self@, prompt: prompt@, cycle: 0, phase: Phase::Over },
                cancelled,
            ),
    {
        let mut run = TurnRun {
            agent: self.clone(),
            prompt: prompt.to_owned(),
            cycle: 0,
            phase: Phase::Over,
        };
        if self.context_window.is_some() {
            run.phase = Phase::CheckPrompt;
            let mut orders = no_orders();
            push_order(&mut orders, Order::LoadBranch);
            assert(views(orders@) =~= seq![OrderView::LoadBranch]);
            (run, orders)
        } else {
            let orders = run.keep_prompt(cancelled);
            (run, orders)
        }
    }
}

impl TurnRun {
    fn next_cycle(&mut self, cancelled: bool) -> (r: Order)
        ensures
            (final(self)@, r@) == next_cycle(old(self)@, cancelled),
    {
        if self.cycle >= self.agent.max_cycles {
            self.phase = Phase::Over;
            Order::Fail {
                message: "maximum agent cycles reached before a final response".to_owned(),
                cause: Some(
                    "maximum agent cycles (".to_owned().concat(
                        &decimal_text(self.agent.max_cycles as u64),
                    ).concat(") exceeded"),
                ),
            }
        } else if cancelled {
            self.phase = Phase::Over;
            Order::Fail { message: "agent turn cancelled".to_owned(), cause: None }
        } else {
            self.cycle += 1;
            self.phase = if self.agent.context_window.is_some() {
                Phase::CheckCycle
            } else {
                Phase::Load
            };
            Order::LoadBranch
        }
    }

    fn keep_prompt(&mut self, cancelled: bool) -> (r: Vec<Order>)
        ensures
            (final(self)@, views(r@)) == keep_prompt(old(self)@, cancelled),
    {
        let ghost expected = keep_prompt(self@, cancelled);
        let mut blocks: Vec<ContentBlock> = Vec::new();
        blocks.push(ContentBlock::Text(self.prompt.clone()));
        assert(views(blocks@) =~= seq![BlockView::Text(self.prompt@)]);
        let mut orders = no_orders();
        push_order(&mut orders, Order::Append { role: Role::User, blocks, usage: None });
        let order = self.next_cycle(cancelled);
        push_order(&mut orders, order);
        assert(views(orders@) =~= expected.1);
        orders
    }

    fn ask(&mut self, branch: &Vec<ConversationItem>) -> (r: Vec<Order>)
        ensures
            (final(self)@, views(r@)) == ask_model(old(self)@, views(branch@)),
    {
        let ghost expected = ask_model(self@, views(branch@));
        self.phase = Phase::Answer;
        let request = ModelRequest {
            system_prompt: self.agent.system_prompt.clone(),
            messages: make_messages(branch),
            include_tools: true,
        };
        let mut orders = no_orders();
        push_order(&mut orders, Order::Emit(StreamEvent::GenerationStart));
        push_order(&mut orders, Order::Ask(request));
        assert(views(orders@) =~= expected.1);
        orders
    }

    fn answer(&mut self, turn: &ModelTurn) -> (r: Vec<Order>)
        ensures
            (final(self)@, views(r@)) == answer_orders(old(self)@, turn@),
    {
        let ghost expected = answer_orders(self@, turn@);
        let mut orders = no_orders();
        assert(views(turn.blocks@).len() == turn.blocks.len());
        assert(views(turn.tool_calls@).len() == turn.tool_calls.len());
        if turn.blocks.len() > 0 {
            push_order(
                &mut orders,
                Order::Append {
                    role: Role::Assistant,
                    blocks: copy_blocks(&turn.blocks),
                    usage: turn.usage,
                },
            );
        }
        if let Some(state) = &turn.provider_state {
            push_order(&mut orders, Order::KeepState(state.clone()));
        }
        let ghost kept = views(orders@);
        if turn.tool_calls.len() == 0 {
            self.phase = Phase::Over;
            push_order(&mut orders, Order::Emit(StreamEvent::Done));
            push_order(
                &mut orders,
                Order::Finish(AgentResult { final_text: turn.final_text(), cycles: self.cycle }),
            );
        } else {
            self.phase = Phase::Outcomes;
            let ghost starts = start_orders(turn@.tool_calls);
            assert(kept + starts.take(0) =~= kept);
            let mut i: usize = 0;
            while i < turn.tool_calls.len()
                invariant
                    i <= turn.tool_calls.len(),
                    starts == start_orders(turn@.tool_calls),
                    views(orders@) == kept + starts.take(i as int),
                decreases turn.tool_calls.len() - i,
            {
                push_order(
                    &mut orders,
                    Order::Emit(
                        StreamEvent::ToolExecutionStart { id: turn.tool_calls[i].id.clone() },
                    ),
                );
                assert(kept + starts.take(i + 1) =~= (kept + starts.take(i as int)).push(
                    starts[i as int],
                ));
                i += 1;
            }
            assert(starts.take(starts.len() as int) =~= starts);
            push_order(&mut orders, Order::RunTools(copy_calls(&turn.tool_calls)));
        }
        assert(views(orders@) =~= expected.1);
        orders
    }

    fn outcomes(&mut self, outcomes: &Vec<ToolOutcome>, cancelled: bool) -> (r: Vec<Order>)
        ensures
            ({
                let (after, order) = next_cycle(old(self)@, cancelled);
                (final(self)@, views(r@)) == (
                    after,
                    outcome_orders(views(outcomes@)).push(order),
                )
            }),
    {
        let mut orders = no_orders();
        let ghost all = views(outcomes@);
        assert(all.take(0) =~= Seq::empty());
        let mut i: usize = 0;
        while i < outcomes.len()
            invariant
                i <= outcomes.len(),
                all == views(outcomes@),
                views(orders@) == outcome_orders(all.take(i as int)),
            decreases outcomes.len() - i,
        {
            assert(all.take(i + 1).drop_last() =~= all.take(i as int));
            assert(all.take(i + 1).last() == outcomes@[i as int]@);
            let ghost before = views(orders@);
            let outcome = &outcomes[i];
            push_order(
                &mut orders,
                Order::Emit(
                    StreamEvent::ToolExecutionEnd {
                        id: outcome.result.call_id.clone(),
                        result: outcome.result.clone(),
                    },
                ),
            );
            push_order(
                &mut orders,
                Order::AppendResult {
                    result: outcome.result.clone(),
                    snapshots: copy_snapshots(&outcome.snapshots),
                },
            );
            assert(views(orders@) =~= outcome_orders(all.take(i + 1)));
            i += 1;
        }
        assert(all.take(all.len() as int) =~= all);
        let order = self.next_cycle(cancelled);
        push_order(&mut orders, order);
        orders
    }

    /// Takes in a reply and gives the orders that follow it.
    pub fn step(&mut self, reply: &Reply, cancelled: bool) -> (r: Vec<Order>)
        requires
            expected(old(self).phase, reply@),
            old(self).cycle <= old(self).agent.max_cycles,
        ensures
            (final(self)@, views(r@)) == turn_step(old(self)@, reply@, cancelled),
            final(self).cycle <= final(self).agent.max_cycles,
    {
        match self.phase {
            Phase::CheckPrompt => match reply {
                Reply::Branch(branch) => {
                    if self.agent.needs_compaction(branch, Some(self.prompt.as_str())) {
                        self.phase = Phase::SummaryForPrompt;
                        order_summary(branch)
                    } else {
                        self.keep_prompt(cancelled)
                    }
                },
                _ => no_orders(),
            },
            Phase::SummaryForPrompt => {
                let mut orders = no_orders();
                push_order(&mut orders, Order::Emit(StreamEvent::Done));
                assert(views(orders@) =~= seq![OrderView::Emit(EventView::Done)]);
                match read_summary(reply) {
                    Err(fail) => {
                        self.phase = Phase::Over;
                        push_order(&mut orders, fail);
                    },
                    Ok(summary) => {
                        push_order(&mut orders, Order::ReplaceBranch(summary));
                        let ghost front = views(orders@);
                        let mut more = self.keep_prompt(cancelled);
                        let ghost back = views(more@);
                        orders.append(&mut more);
                        assert(views(orders@) =~= front + back);
                    },
                }
                orders
            },
            Phase::CheckCycle => match reply {
                Reply::Branch(branch) => {
                    if self.agent.needs_compaction(branch, None) {
                        self.phase = Phase::SummaryForCycle;
                        order_summary(branch)
                    } else {
                        self.ask(branch)
                    }
                },
                _ => no_orders(),
            },
            Phase::SummaryForCycle => {
                let mut orders = no_orders();
                push_order(&mut orders, Order::Emit(StreamEvent::Done));
                assert(views(orders@) =~= seq![OrderView::Emit(EventView::Done)]);
                match read_summary(reply) {
                    Err(fail) => {
                        self.phase = Phase::Over;
                        push_order(&mut orders, fail);
                    },
                    Ok(summary) => {
                        self.phase = Phase::Load;
                        push_order(&mut orders, Order::ReplaceBranch(summary));
                        push_order(&mut orders, Order::LoadBranch);
                    },
                }
                orders
            },
            Phase::Load => match reply {
                Reply::Branch(branch) => self.ask(branch),
                _ => no_orders(),
            },
            Phase::Answer => match reply {
                Reply::Turn(turn) => self.answer(turn),
                Reply::Failed(error) => {
                    self.phase = Phase::Over;
                    let mut orders = no_orders();
                    push_order(&mut orders, Order::Fail { message: error.clone(), cause: None });
                    assert(views(orders@) =~= seq![
                        OrderView::Fail { message: error@, cause: None },
                    ]);
                    orders
                },
                _ => no_orders(),
            },
            Phase::Outcomes => match reply {
                Reply::Outcomes(outcomes) => self.outcomes(outcomes, cancelled),
                _ => no_orders(),
            },
            Phase::Over => no_orders(),
        }
    }
}

fn copy_snapshots(snapshots: &Vec<FileSnapshot>) -> (r: Vec<FileSnapshot>)
    ensures
        views(r@) == views(snapshots@),
{
    broadcast use lemma_views_push;

    let ghost all = views(snapshots@);
    let mut r: Vec<FileSnapshot> = Vec::new();
    assert(views(r@) =~= all.take(0));
    let mut i: usize = 0;
    while i < snapshots.len()
        invariant
            i <= snapshots.len(),
            all == views(snapshots@),
            views(r@) == all.take(i as int),
        decreases snapshots.len() - i,
    {
        r.push(snapshots[i].clone());
        assert(all.take(i + 1) =~= all.take(i as int).push(all[i as int]));
        i += 1;
    }
    assert(all.take(all.len() as int) =~= all);
    r
}

/// Whether the model is asked.
pub open spec fn asks(orders: Seq<OrderView>) -> bool {
    exists|i: int| 0 <= i < orders.len() && #[trigger] orders[i] is Ask
}

/// The model is asked at most as often as cycles are allowed: it is only asked
/// in a cycle that was counted, and a cycle is counted only while there are
/// cycles left.
pub proof fn law_cycles_are_bounded(run: TurnRunView, reply: ReplyView, cancelled: bool)
    requires
        expected(run.phase, reply),
        run.cycle <= run.agent.max_cycles,
    ensures
        ({
            let (after, orders) = turn_step(run, reply, cancelled);
            &&& run.cycle <= after.cycle <= run.cycle + 1
            &&& after.cycle <= after.agent.max_cycles
            &&& asks(orders) ==> after.cycle == run.cycle && (run.phase == Phase::CheckCycle
                || run.phase == Phase::Load)
        }),
{
    let (after, orders) = turn_step(run, reply, cancelled);
    if asks(orders) && run.phase == Phase::Outcomes {
        let i = choose|i: int| 0 <= i < orders.len() && #[trigger] orders[i] is Ask;
        lemma_outcomes_ask_nothing(reply->Outcomes_0);
        if i < outcome_orders(reply->Outcomes_0).len() {
            assert(outcome_orders(reply->Outcomes_0)[i] is Ask);
        }
    }
}

proof fn lemma_outcomes_ask_nothing(outcomes: Seq<OutcomeView>)
    ensures
        !asks(outcome_orders(outcomes)),
    decreases outcomes.len(),
{
    if outcomes.len() > 0 {
        lemma_outcomes_ask_nothing(outcomes.drop_last());
        let before = outcome_orders(outcomes.drop_last());
        let all = outcome_orders(outcomes);
        assert forall|i: int| 0 <= i < all.len() implies !(#[trigger] all[i] is Ask) by {
            if i < before.len() {
                assert(all[i] == before[i]);
            }
        }
    }
}

/// A turn that calls no tool ends with what was said.
pub proof fn law_a_turn_ends_without_calls(run: TurnRunView, turn: TurnView, cancelled: bool)
    requires
        run.phase == Phase::Answer,
        turn.tool_calls.len() == 0,
    ensures
        ({
            let (after, orders) = turn_step(run, ReplyView::Turn(turn), cancelled);
            &&& after.phase == Phase::Over
            &&& orders.last() is Finish
            &&& orders.last()->final_text == (if run_together(text_parts(turn.blocks)).len() == 0 {
                None
            } else {
                Some(run_together(text_parts(turn.blocks)))
            })
            &&& orders.last()->cycles == run.cycle
        }),
{
}

/// The tools that a model calls are the ones that are run, and the conversation
/// goes on once their outcomes are in.
pub proof fn law_calls_are_run(
    run: TurnRunView,
    turn: TurnView,
    outcomes: Seq<OutcomeView>,
    cancelled: bool,
)
    requires
        run.phase == Phase::Answer,
        turn.tool_calls.len() > 0,
    ensures
        ({
            let (waiting, orders) = turn_step(run, ReplyView::Turn(turn), cancelled);
            let (after, more) = turn_step(waiting, ReplyView::Outcomes(outcomes), cancelled);
            &&& orders.last() == OrderView::RunTools(turn.tool_calls)
            &&& waiting.phase == Phase::Outcomes
            &&& run.cycle < run.agent.max_cycles && !cancelled ==> more.last() == OrderView::LoadBranch
            &&& more.drop_last() == outcome_orders(outcomes)
        }),
{
    let (waiting, orders) = turn_step(run, ReplyView::Turn(turn), cancelled);
    let (after, more) = turn_step(waiting, ReplyView::Outcomes(outcomes), cancelled);
    assert(more.drop_last() =~= outcome_orders(outcomes));
}

// ---------------------------------------------------------------------------
// What is done in a turn

/// Whether messages are those of a conversation: one for each item, in their
/// order, with its role and its blocks.
pub open spec fn tells_conversation(messages: Seq<MessageView>, branch: Seq<ItemView>) -> bool {
    &&& messages.len() == branch.len()
    &&& forall|i: int|
        0 <= i < branch.len() ==> (#[trigger] messages[i]).role == branch[i].role
            && messages[i].blocks == branch[i].blocks
}

/// Whether a run goes on as it was but for its phase and its cycle.
pub open spec fn goes_on(before: TurnRunView, after: TurnRunView, phase: Phase, cycle: int) -> bool {
    &&& after.agent == before.agent
    &&& after.prompt == before.prompt
    &&& after.phase == phase
    &&& after.cycle == cycle
}

/// The model is asked with the whole conversation, in its order, with the system
/// prompt and the tools.
pub proof fn law_the_model_is_asked_with_the_conversation(
    run: TurnRunView,
    branch: Seq<ItemView>,
    cancelled: bool,
)
    requires
        run.phase == Phase::Load || (run.phase == Phase::CheckCycle && !must_compact(
            run.agent,
            branch,
            None,
        )),
    ensures
        ({
            let (after, orders) = turn_step(run, ReplyView::Branch(branch), cancelled);
            &&& orders.len() == 2
            &&& orders[0] == OrderView::Emit(EventView::GenerationStart)
            &&& orders[1] matches OrderView::Ask(request) && tells_conversation(
                request.messages,
                branch,
            ) && request.system_prompt == run.agent.system_prompt && request.include_tools
            &&& goes_on(run, after, Phase::Answer, run.cycle as int)
        }),
{
}

/// Where the context is too full, the model is asked for a summary of the whole
/// conversation, in its order, and without tools.
pub proof fn law_full_conversations_are_summarised(
    run: TurnRunView,
    branch: Seq<ItemView>,
    cancelled: bool,
)
    requires
        (run.phase == Phase::CheckPrompt && must_compact(run.agent, branch, Some(run.prompt))) || (
        run.phase == Phase::CheckCycle && must_compact(run.agent, branch, None)),
    ensures
        ({
            let (after, orders) = turn_step(run, ReplyView::Branch(branch), cancelled);
            &&& orders.len() == 2
            &&& orders[0] == OrderView::Emit(EventView::GenerationStart)
            &&& orders[1] matches OrderView::Summarize(request) && tells_conversation(
                request.messages,
                branch,
            ) && request.system_prompt == summary_instructions() && !request.include_tools
            &&& goes_on(
                run,
                after,
                if run.phase == Phase::CheckPrompt {
                    Phase::SummaryForPrompt
                } else {
                    Phase::SummaryForCycle
                },
                run.cycle as int,
            )
        }),
{
}

/// Whether orders go on with the next cycle: the conversation is read, unless the
/// model was asked as often as it may or the user cancelled, which ends the turn.
pub open spec fn starts_cycle(
    run: TurnRunView,
    after: TurnRunView,
    order: OrderView,
    cancelled: bool,
) -> bool {
    if run.cycle >= run.agent.max_cycles {
        order is Fail && goes_on(run, after, Phase::Over, run.cycle as int)
    } else if cancelled {
        order == (OrderView::Fail { message: "agent turn cancelled"@, cause: None }) && goes_on(
            run,
            after,
            Phase::Over,
            run.cycle as int,
        )
    } else {
        order is LoadBranch && goes_on(
            run,
            after,
            if run.agent.context_window is Some {
                Phase::CheckCycle
            } else {
                Phase::Load
            },
            run.cycle + 1,
        )
    }
}

/// The order that keeps a prompt.
pub open spec fn keeps_prompt(order: OrderView, prompt: Seq<char>) -> bool {
    order matches OrderView::Append { role, blocks, usage } && role == Role::User && blocks.len()
        == 1 && blocks[0] == BlockView::Text(prompt) && usage is None
}

/// A turn keeps its prompt and goes on to ask the model; where a context window
/// is known, the conversation is looked at first.
pub proof fn law_a_turn_begins_with_its_prompt(
    run: TurnRunView,
    branch: Seq<ItemView>,
    cancelled: bool,
)
    ensures
        ({
            let (after, orders) = first_step(run, cancelled);
            if run.agent.context_window is Some {
                orders.len() == 1 && orders[0] is LoadBranch && goes_on(
                    run,
                    after,
                    Phase::CheckPrompt,
                    run.cycle as int,
                )
            } else {
                orders.len() == 2 && keeps_prompt(orders[0], run.prompt) && starts_cycle(
                    run,
                    after,
                    orders[1],
                    cancelled,
                )
            }
        }),
        run.phase == Phase::CheckPrompt && !must_compact(run.agent, branch, Some(run.prompt)) ==> {
            let (after, orders) = turn_step(run, ReplyView::Branch(branch), cancelled);
            orders.len() == 2 && keeps_prompt(orders[0], run.prompt) && starts_cycle(
                run,
                after,
                orders[1],
                cancelled,
            )
        },
{
}

/// Whether a text is what is said in blocks, run together.
pub open spec fn is_said(text: Seq<char>, blocks: Seq<BlockView>) -> bool {
    exists|parts: Seq<Seq<char>>| #[trigger]
        picks(blocks, parts, text_of_block()) && text == joined(parts, Seq::empty())
}

/// A summary takes the place of the conversation, and the turn goes on where it
/// was: the prompt is kept after it, or the conversation is read again. Without a
/// summary the turn fails, and the conversation stays.
pub proof fn law_a_summary_replaces_the_conversation(
    run: TurnRunView,
    turn: TurnView,
    error: Seq<char>,
    cancelled: bool,
)
    requires
        run.phase == Phase::SummaryForPrompt || run.phase == Phase::SummaryForCycle,
    ensures
        ({
            let (after, orders) = turn_step(run, ReplyView::Turn(turn), cancelled);
            let (stopped, failure) = turn_step(run, ReplyView::Failed(error), cancelled);
            let done = OrderView::Emit(EventView::Done);
            &&& orders[0] == done && failure[0] == done
            &&& failure.len() == 2 && failure[1] == (OrderView::Fail {
                message: "compact conversation"@,
                cause: Some(error),
            }) && goes_on(run, stopped, Phase::Over, run.cycle as int)
            &&& exists|text: Seq<char>| #[trigger] is_said(text, turn.blocks) && if text.len() == 0
                || turn.tool_calls.len() > 0 {
                orders.len() == 2 && orders[1] is Fail && goes_on(
                    run,
                    after,
                    Phase::Over,
                    run.cycle as int,
                )
            } else if run.phase == Phase::SummaryForPrompt {
                &&& orders.len() == 4
                &&& orders[1] == OrderView::ReplaceBranch(text)
                &&& keeps_prompt(orders[2], run.prompt)
                &&& starts_cycle(run, after, orders[3], cancelled)
            } else {
                &&& orders.len() == 3
                &&& orders[1] == OrderView::ReplaceBranch(text)
                &&& orders[2] is LoadBranch
                &&& goes_on(run, after, Phase::Load, run.cycle as int)
            }
        }),
{
    law_texts_of_blocks(turn.blocks);
    assert(is_said(run_together(text_parts(turn.blocks)), turn.blocks));
}

/// What a model answers is kept, with what it took and what the provider needs
/// to go on. Its calls are run in their order, each told of; without calls the
/// turn ends with what was said.
pub proof fn law_answers_are_kept_and_calls_run(run: TurnRunView, turn: TurnView, cancelled: bool)
    requires
        run.phase == Phase::Answer,
    ensures
        ({
            let (after, orders) = turn_step(run, ReplyView::Turn(turn), cancelled);
            let kept: int = if turn.blocks.len() > 0 {
                1
            } else {
                0
            };
            let start: int = if turn.provider_state is Some {
                kept + 1
            } else {
                kept
            };
            &&& turn.blocks.len() > 0 ==> orders[0] == (OrderView::Append {
                role: Role::Assistant,
                blocks: turn.blocks,
                usage: turn.usage,
            })
            &&& turn.provider_state matches Some(state) ==> orders[kept] == OrderView::KeepState(
                state,
            )
            &&& turn.tool_calls.len() > 0 ==> {
                &&& orders.len() == start + turn.tool_calls.len() + 1
                &&& forall|i: int|
                    0 <= i < turn.tool_calls.len() ==> orders[start + i] == OrderView::Emit(
                        EventView::ToolExecutionStart { id: (#[trigger] turn.tool_calls[i]).id },
                    )
                &&& orders.last() == OrderView::RunTools(turn.tool_calls)
                &&& goes_on(run, after, Phase::Outcomes, run.cycle as int)
            }
            &&& turn.tool_calls.len() == 0 ==> {
                &&& orders.len() == start + 2
                &&& orders[start] == OrderView::Emit(EventView::Done)
                &&& goes_on(run, after, Phase::Over, run.cycle as int)
                &&& exists|text: Seq<char>| #[trigger]
                    is_said(text, turn.blocks) && orders.last() == (OrderView::Finish {
                        final_text: if text.len() > 0 {
                            Some(text)
                        } else {
                            None
                        },
                        cycles: run.cycle,
                    })
            }
        }),
{
    law_texts_of_blocks(turn.blocks);
    assert(is_said(run_together(text_parts(turn.blocks)), turn.blocks));
}

/// Where the model cannot be asked, the turn ends with the reason.
pub proof fn law_a_turn_fails_with_the_reason(run: TurnRunView, error: Seq<char>, cancelled: bool)
    requires
        run.phase == Phase::Answer,
    ensures
        ({
            let (after, orders) = turn_step(run, ReplyView::Failed(error), cancelled);
            &&& orders.len() == 1
            &&& orders[0] == (OrderView::Fail { message: error, cause: None })
            &&& goes_on(run, after, Phase::Over, run.cycle as int)
        }),
{
}

proof fn lemma_outcome_orders(outcomes: Seq<OutcomeView>)
    ensures
        outcome_orders(outcomes).len() == 2 * outcomes.len(),
        forall|i: int|
            #![trigger outcomes[i]]
            0 <= i < outcomes.len() ==> outcome_orders(outcomes)[2 * i] == OrderView::Emit(
                EventView::ToolExecutionEnd {
                    id: outcomes[i].result.call_id,
                    result: outcomes[i].result,
                },
            ) && outcome_orders(outcomes)[2 * i + 1] == (OrderView::AppendResult {
                result: outcomes[i].result,
                snapshots: outcomes[i].snapshots,
            }),
    decreases outcomes.len(),
{
    if outcomes.len() > 0 {
        let front = outcomes.drop_last();
        lemma_outcome_orders(front);
        let before = outcome_orders(front);
        let all = outcome_orders(outcomes);
        assert forall|i: int| #![trigger outcomes[i]] 0 <= i < outcomes.len() implies all[2 * i]
            == OrderView::Emit(
            EventView::ToolExecutionEnd {
                id: outcomes[i].result.call_id,
                result: outcomes[i].result,
            },
        ) && all[2 * i + 1] == (OrderView::AppendResult {
            result: outcomes[i].result,
            snapshots: outcomes[i].snapshots,
        }) by {
            if i < front.len() {
                assert(front[i] == outcomes[i]);
                assert(all[2 * i] == before[2 * i]);
                assert(all[2 * i + 1] == before[2 * i + 1]);
            }
        }
    }
}

/// What tools gave is told of and kept, each result with what it changed, in the
/// order of the outcomes; and the model is asked again.
pub proof fn law_outcomes_are_kept_in_order(
    run: TurnRunView,
    outcomes: Seq<OutcomeView>,
    cancelled: bool,
)
    requires
        run.phase == Phase::Outcomes,
    ensures
        ({
            let (after, orders) = turn_step(run, ReplyView::Outcomes(outcomes), cancelled);
            &&& orders.len() == 2 * outcomes.len() + 1
            &&& forall|i: int|
                #![trigger outcomes[i]]
                0 <= i < outcomes.len() ==> orders[2 * i] == OrderView::Emit(
                    EventView::ToolExecutionEnd {
                        id: outcomes[i].result.call_id,
                        result: outcomes[i].result,
                    },
                ) && orders[2 * i + 1] == (OrderView::AppendResult {
                    result: outcomes[i].result,
                    snapshots: outcomes[i].snapshots,
                })
            &&& starts_cycle(run, after, orders.last(), cancelled)
        }),
{
    lemma_outcome_orders(outcomes);
}

} // verus!
