//! What passes between the agent, a model and its tools.
use vstd::prelude::*;
use vstd::string::*;

use crate::json::{Json, JsonView};
use crate::seqs::{lemma_picks_last, lemma_picks_nothing, picks};
use crate::text::{
    copy_maybe, join, joined, lemma_texts_push, lemma_views_push, maybe, maybe_view, texts, views,
};

verus! {

/// Who speaks in a conversation.
#[derive(Debug, Clone, Copy, PartialEq, Eq, Structural)]
pub enum Role {
    System,
    User,
    Assistant,
    Tool,
}

/// A tool that a model wants called.
#[derive(Debug, PartialEq, Eq)]
pub struct ToolCall {
    pub id: String,
    pub name: String,
    /// The arguments as the model wrote them.
    pub arguments: String,
}

/// The model of a [`ToolCall`].
pub struct ToolCallView {
    pub id: Seq<char>,
    pub name: Seq<char>,
    pub arguments: Seq<char>,
}

impl View for ToolCall {
    type V = ToolCallView;

    open spec fn view(&self) -> ToolCallView {
        ToolCallView { id: self.id@, name: self.name@, arguments: self.arguments@ }
    }
}

impl Clone for ToolCall {
    fn clone(&self) -> (r: ToolCall)
        ensures
            r@ == self@,
    {
        ToolCall {
            id: self.id.clone(),
            name: self.name.clone(),
            arguments: self.arguments.clone(),
        }
    }
}

impl ToolCall {
    pub fn new(id: &str, name: &str, arguments: &str) -> (r: ToolCall)
        ensures
            r@ == (ToolCallView { id: id@, name: name@, arguments: arguments@ }),
    {
        ToolCall { id: id.to_owned(), name: name.to_owned(), arguments: arguments.to_owned() }
    }
}

/// What a tool answered.
#[derive(Debug, PartialEq, Eq)]
pub struct ToolResult {
    pub call_id: String,
    pub output: String,
    pub is_error: bool,
}

/// The model of a [`ToolResult`].
pub struct ToolResultView {
    pub call_id: Seq<char>,
    pub output: Seq<char>,
    pub is_error: bool,
}

impl View for ToolResult {
    type V = ToolResultView;

    open spec fn view(&self) -> ToolResultView {
        ToolResultView { call_id: self.call_id@, output: self.output@, is_error: self.is_error }
    }
}

impl Clone for ToolResult {
    fn clone(&self) -> (r: ToolResult)
        ensures
            r@ == self@,
    {
        ToolResult {
            call_id: self.call_id.clone(),
            output: self.output.clone(),
            is_error: self.is_error,
        }
    }
}

impl ToolResult {
    pub fn success(call_id: &str, output: &str) -> (r: ToolResult)
        ensures
            r@ == (ToolResultView { call_id: call_id@, output: output@, is_error: false }),
    {
        ToolResult { call_id: call_id.to_owned(), output: output.to_owned(), is_error: false }
    }

    pub fn error(call_id: &str, output: &str) -> (r: ToolResult)
        ensures
            r@ == (ToolResultView { call_id: call_id@, output: output@, is_error: true }),
    {
        ToolResult { call_id: call_id.to_owned(), output: output.to_owned(), is_error: true }
    }
}

/// One part of a message.
#[derive(Debug, PartialEq)]
pub enum ContentBlock {
    Text(String),
    Reasoning(String),
    ToolCall(ToolCall),
    ToolResult(ToolResult),
}

/// The model of a [`ContentBlock`].
pub enum BlockView {
    Text(Seq<char>),
    Reasoning(Seq<char>),
    ToolCall(ToolCallView),
    ToolResult(ToolResultView),
}

impl View for ContentBlock {
    type V = BlockView;

    open spec fn view(&self) -> BlockView {
        match self {
            ContentBlock::Text(s) => BlockView::Text(s@),
            ContentBlock::Reasoning(s) => BlockView::Reasoning(s@),
            ContentBlock::ToolCall(c) => BlockView::ToolCall(c@),
            ContentBlock::ToolResult(r) => BlockView::ToolResult(r@),
        }
    }
}

impl Clone for ContentBlock {
    fn clone(&self) -> (r: ContentBlock)
        ensures
            r@ == self@,
    {
        match self {
            ContentBlock::Text(s) => ContentBlock::Text(s.clone()),
            ContentBlock::Reasoning(s) => ContentBlock::Reasoning(s.clone()),
            ContentBlock::ToolCall(c) => ContentBlock::ToolCall(c.clone()),
            ContentBlock::ToolResult(r) => ContentBlock::ToolResult(r.clone()),
        }
    }
}

/// Copies of blocks.
pub fn copy_blocks(blocks: &Vec<ContentBlock>) -> (r: Vec<ContentBlock>)
    ensures
        views(r@) == views(blocks@),
{
    broadcast use lemma_views_push;

    let mut r: Vec<ContentBlock> = Vec::new();
    assert(views(r@) =~= views(blocks@).take(0));
    let mut i: usize = 0;
    while i < blocks.len()
        invariant
            i <= blocks.len(),
            views(r@) == views(blocks@).take(i as int),
        decreases blocks.len() - i,
    {
        r.push(blocks[i].clone());
        assert(views(blocks@).take(i + 1) =~= views(blocks@).take(i as int).push(
            views(blocks@)[i as int],
        ));
        i += 1;
    }
    assert(views(blocks@).take(blocks@.len() as int) =~= views(blocks@));
    r
}

/// Copies of calls.
pub fn copy_calls(calls: &Vec<ToolCall>) -> (r: Vec<ToolCall>)
    ensures
        views(r@) == views(calls@),
{
    broadcast use lemma_views_push;

    let mut r: Vec<ToolCall> = Vec::new();
    assert(views(r@) =~= views(calls@).take(0));
    let mut i: usize = 0;
    while i < calls.len()
        invariant
            i <= calls.len(),
            views(r@) == views(calls@).take(i as int),
        decreases calls.len() - i,
    {
        r.push(calls[i].clone());
        assert(views(calls@).take(i + 1) =~= views(calls@).take(i as int).push(
            views(calls@)[i as int],
        ));
        i += 1;
    }
    assert(views(calls@).take(calls@.len() as int) =~= views(calls@));
    r
}

/// The tokens that a request took, as far as the provider told.
#[derive(Debug, Clone, Copy, PartialEq, Eq, Structural)]
pub struct Usage {
    pub input_tokens: Option<u64>,
    pub output_tokens: Option<u64>,
    pub cached_tokens: Option<u64>,
    pub cache_write_tokens: Option<u64>,
    pub total_tokens: Option<u64>,
}

impl Default for Usage {
    fn default() -> (r: Usage)
        ensures
            r == (Usage {
                input_tokens: None,
                output_tokens: None,
                cached_tokens: None,
                cache_write_tokens: None,
                total_tokens: None,
            }),
    {
        Usage {
            input_tokens: None,
            output_tokens: None,
            cached_tokens: None,
            cache_write_tokens: None,
            total_tokens: None,
        }
    }
}

/// A number, or zero.
pub open spec fn or_zero(n: Option<u64>) -> nat {
    match n {
        Some(v) => v as nat,
        None => 0,
    }
}

/// A number, or zero.
pub fn unless_none(n: Option<u64>) -> (r: u64)
    ensures
        r == or_zero(n),
{
    match n {
        Some(v) => v,
        None => 0,
    }
}

/// A number, or the largest one that fits.
pub open spec fn capped(n: nat) -> u64 {
    if n <= u64::MAX {
        n as u64
    } else {
        u64::MAX
    }
}

/// The sum of two numbers, or the largest number that fits.
pub fn capped_sum(a: u64, b: u64) -> (r: u64)
    ensures
        r == capped((a + b) as nat),
{
    if a <= u64::MAX - b {
        a + b
    } else {
        u64::MAX
    }
}

impl Usage {
    /// The tokens that are counted one by one.
    pub open spec fn counted(self) -> nat {
        or_zero(self.input_tokens) + or_zero(self.output_tokens) + or_zero(self.cached_tokens)
            + or_zero(self.cache_write_tokens)
    }

    /// The tokens that the context holds, as far as they fit a number.
    pub open spec fn known_context(self) -> Option<u64> {
        match self.in_context() {
            Some(n) => Some(capped(n)),
            None => None,
        }
    }

    /// The tokens that the context holds, if anything is known of them.
    pub open spec fn in_context(self) -> Option<nat> {
        if self.total_tokens matches Some(total) && total > 0 {
            Some(self.total_tokens->Some_0 as nat)
        } else if self.input_tokens is Some || self.output_tokens is Some || self.cached_tokens is Some
            || self.cache_write_tokens is Some {
            Some(self.counted())
        } else {
            None
        }
    }

    /// The tokens that the context holds after the request.
    pub fn context_tokens(self) -> (r: Option<u64>)
        ensures
            r == self.known_context(),
    {
        if let Some(total) = self.total_tokens {
            if total > 0 {
                return Some(total);
            }
        }
        if self.input_tokens.is_some() || self.output_tokens.is_some()
            || self.cached_tokens.is_some() || self.cache_write_tokens.is_some() {
            Some(
                capped_sum(
                    capped_sum(unless_none(self.input_tokens), unless_none(self.output_tokens)),
                    capped_sum(
                        unless_none(self.cached_tokens),
                        unless_none(self.cache_write_tokens),
                    ),
                ),
            )
        } else {
            None
        }
    }
}

/// One message of a request.
#[derive(Debug, PartialEq)]
pub struct ModelMessage {
    pub role: Role,
    pub blocks: Vec<ContentBlock>,
}

/// The model of a [`ModelMessage`].
pub struct MessageView {
    pub role: Role,
    pub blocks: Seq<BlockView>,
}

impl View for ModelMessage {
    type V = MessageView;

    open spec fn view(&self) -> MessageView {
        MessageView { role: self.role, blocks: views(self.blocks@) }
    }
}

impl Clone for ModelMessage {
    fn clone(&self) -> (r: ModelMessage)
        ensures
            r@ == self@,
    {
        ModelMessage { role: self.role, blocks: copy_blocks(&self.blocks) }
    }
}

/// What a model is asked.
#[derive(Debug, PartialEq)]
pub struct ModelRequest {
    pub system_prompt: String,
    pub messages: Vec<ModelMessage>,
    pub include_tools: bool,
}

/// The model of a [`ModelRequest`].
pub struct RequestView {
    pub system_prompt: Seq<char>,
    pub messages: Seq<MessageView>,
    pub include_tools: bool,
}

impl View for ModelRequest {
    type V = RequestView;

    open spec fn view(&self) -> RequestView {
        RequestView {
            system_prompt: self.system_prompt@,
            messages: views(self.messages@),
            include_tools: self.include_tools,
        }
    }
}

/// What a model answered.
#[derive(Debug)]
pub struct ModelTurn {
    pub blocks: Vec<ContentBlock>,
    pub tool_calls: Vec<ToolCall>,
    pub usage: Option<Usage>,
    pub provider_state: Option<Json>,
}

/// The model of a [`ModelTurn`].
pub struct TurnView {
    pub blocks: Seq<BlockView>,
    pub tool_calls: Seq<ToolCallView>,
    pub usage: Option<Usage>,
    pub provider_state: Option<JsonView>,
}

impl View for ModelTurn {
    type V = TurnView;

    open spec fn view(&self) -> TurnView {
        TurnView {
            blocks: views(self.blocks@),
            tool_calls: views(self.tool_calls@),
            usage: self.usage,
            provider_state: maybe_view(self.provider_state),
        }
    }
}

impl Default for ModelTurn {
    fn default() -> (r: ModelTurn)
        ensures
            r@.blocks.len() == 0,
            r@.tool_calls.len() == 0,
            r@.usage is None,
            r@.provider_state is None,
    {
        ModelTurn { blocks: Vec::new(), tool_calls: Vec::new(), usage: None, provider_state: None }
    }
}

impl Clone for ModelTurn {
    fn clone(&self) -> (r: ModelTurn)
        ensures
            r@ == self@,
    {
        ModelTurn {
            blocks: copy_blocks(&self.blocks),
            tool_calls: copy_calls(&self.tool_calls),
            usage: self.usage,
            provider_state: match &self.provider_state {
                Some(j) => Some(j.clone()),
                None => None,
            },
        }
    }
}

/// The texts of the blocks that are texts.
pub open spec fn text_parts(blocks: Seq<BlockView>) -> Seq<Seq<char>>
    decreases blocks.len(),
{
    if blocks.len() == 0 {
        Seq::empty()
    } else {
        match blocks.last() {
            BlockView::Text(s) => text_parts(blocks.drop_last()).push(s),
            _ => text_parts(blocks.drop_last()),
        }
    }
}

/// Texts one after another.
pub open spec fn run_together(parts: Seq<Seq<char>>) -> Seq<char> {
    joined(parts, Seq::empty())
}

/// The texts of the blocks that are texts.
pub fn texts_in(blocks: &Vec<ContentBlock>) -> (r: Vec<String>)
    ensures
        texts(r@) == text_parts(views(blocks@)),
{
    broadcast use lemma_texts_push;

    let ghost all = views(blocks@);
    let mut r: Vec<String> = Vec::new();
    assert(texts(r@) =~= Seq::empty());
    assert(all.take(0) =~= Seq::empty());
    let mut i: usize = 0;
    while i < blocks.len()
        invariant
            i <= blocks.len(),
            all == views(blocks@),
            texts(r@) == text_parts(all.take(i as int)),
        decreases blocks.len() - i,
    {
        assert(all.take(i + 1).drop_last() =~= all.take(i as int));
        assert(all.take(i + 1).last() == blocks@[i as int]@);
        match &blocks[i] {
            ContentBlock::Text(s) => {
                r.push(s.clone());
            },
            _ => {},
        }
        i += 1;
    }
    assert(all.take(all.len() as int) =~= all);
    r
}

impl ModelTurn {
    /// A turn that says something and calls no tool.
    pub fn text(text: &str) -> (r: ModelTurn)
        ensures
            r@ == (TurnView {
                blocks: seq![BlockView::Text(text@)],
                tool_calls: Seq::empty(),
                usage: None,
                provider_state: None,
            }),
    {
        let mut blocks: Vec<ContentBlock> = Vec::new();
        blocks.push(ContentBlock::Text(text.to_owned()));
        let tool_calls: Vec<ToolCall> = Vec::new();
        assert(views(blocks@) =~= seq![BlockView::Text(text@)]);
        assert(views(tool_calls@) =~= Seq::empty());
        ModelTurn { blocks, tool_calls, usage: None, provider_state: None }
    }

    /// A turn that only calls tools.
    pub fn with_tools(tool_calls: Vec<ToolCall>) -> (r: ModelTurn)
        ensures
            r@ == (TurnView {
                blocks: call_blocks(views(tool_calls@)),
                tool_calls: views(tool_calls@),
                usage: None,
                provider_state: None,
            }),
    {
        let mut blocks: Vec<ContentBlock> = Vec::new();
        push_calls(&mut blocks, &tool_calls);
        assert(views(blocks@) =~= call_blocks(views(tool_calls@)));
        ModelTurn { blocks, tool_calls, usage: None, provider_state: None }
    }

    /// What the turn says, if it says anything.
    pub fn final_text(&self) -> (r: Option<String>)
        ensures
            maybe(r) == (if run_together(text_parts(self@.blocks)).len() == 0 {
                None
            } else {
                Some(run_together(text_parts(self@.blocks)))
            }),
    {
        proof {
            reveal_strlit("");
            assert(""@ =~= Seq::empty());
        }
        let text = join(&texts_in(&self.blocks), "");
        if text.as_str().is_empty() {
            None
        } else {
            Some(text)
        }
    }
}

/// The blocks that hold calls.
pub open spec fn call_blocks(calls: Seq<ToolCallView>) -> Seq<BlockView> {
    Seq::new(calls.len(), |i: int| BlockView::ToolCall(calls[i]))
}

/// Appends calls to blocks.
pub fn push_calls(blocks: &mut Vec<ContentBlock>, calls: &Vec<ToolCall>)
    ensures
        views(final(blocks)@) == views(old(blocks)@) + call_blocks(views(calls@)),
{
    broadcast use lemma_views_push;

    let ghost front = views(blocks@);
    let ghost all = call_blocks(views(calls@));
    let mut i: usize = 0;
    assert(front + all.take(0) =~= front);
    while i < calls.len()
        invariant
            i <= calls.len(),
            all == call_blocks(views(calls@)),
            views(blocks@) == front + all.take(i as int),
        decreases calls.len() - i,
    {
        blocks.push(ContentBlock::ToolCall(calls[i].clone()));
        assert(front + all.take(i + 1) =~= (front + all.take(i as int)).push(all[i as int]));
        i += 1;
    }
    assert(all.take(all.len() as int) =~= all);
}

/// What happens while a model answers and tools run.
#[derive(Debug, PartialEq, Eq)]
pub enum StreamEvent {
    GenerationStart,
    TextDelta { delta: String },
    ReasoningDelta { delta: String },
    ToolCallStart { id: String, name: String },
    ToolCallArgsDelta { id: String, delta: String },
    ToolCallEnd { id: String },
    ToolExecutionStart { id: String },
    ToolExecutionOutput { id: String, delta: String },
    ToolExecutionEnd { id: String, result: ToolResult },
    Usage(Usage),
    Done,
    Error { message: String },
}

/// The model of a [`StreamEvent`].
pub enum EventView {
    GenerationStart,
    TextDelta { delta: Seq<char> },
    ReasoningDelta { delta: Seq<char> },
    ToolCallStart { id: Seq<char>, name: Seq<char> },
    ToolCallArgsDelta { id: Seq<char>, delta: Seq<char> },
    ToolCallEnd { id: Seq<char> },
    ToolExecutionStart { id: Seq<char> },
    ToolExecutionOutput { id: Seq<char>, delta: Seq<char> },
    ToolExecutionEnd { id: Seq<char>, result: ToolResultView },
    Usage(Usage),
    Done,
    Error { message: Seq<char> },
}

impl View for StreamEvent {
    type V = EventView;

    open spec fn view(&self) -> EventView {
        match self {
            StreamEvent::GenerationStart => EventView::GenerationStart,
            StreamEvent::TextDelta { delta } => EventView::TextDelta { delta: delta@ },
            StreamEvent::ReasoningDelta { delta } => EventView::ReasoningDelta { delta: delta@ },
            StreamEvent::ToolCallStart { id, name } => EventView::ToolCallStart {
                id: id@,
                name: name@,
            },
            StreamEvent::ToolCallArgsDelta { id, delta } => EventView::ToolCallArgsDelta {
                id: id@,
                delta: delta@,
            },
            StreamEvent::ToolCallEnd { id } => EventView::ToolCallEnd { id: id@ },
            StreamEvent::ToolExecutionStart { id } => EventView::ToolExecutionStart { id: id@ },
            StreamEvent::ToolExecutionOutput { id, delta } => EventView::ToolExecutionOutput {
                id: id@,
                delta: delta@,
            },
            StreamEvent::ToolExecutionEnd { id, result } => EventView::ToolExecutionEnd {
                id: id@,
                result: result@,
            },
            StreamEvent::Usage(usage) => EventView::Usage(*usage),
            StreamEvent::Done => EventView::Done,
            StreamEvent::Error { message } => EventView::Error { message: message@ },
        }
    }
}

/// One entry of a conversation as it is kept.
#[derive(Debug, PartialEq)]
pub struct ConversationItem {
    pub id: String,
    pub session_id: String,
    pub parent_id: Option<String>,
    pub role: Role,
    pub blocks: Vec<ContentBlock>,
    pub usage: Option<Usage>,
    pub created_at: i64,
}

/// The model of a [`ConversationItem`].
pub struct ItemView {
    pub id: Seq<char>,
    pub session_id: Seq<char>,
    pub parent_id: Option<Seq<char>>,
    pub role: Role,
    pub blocks: Seq<BlockView>,
    pub usage: Option<Usage>,
    pub created_at: i64,
}

impl View for ConversationItem {
    type V = ItemView;

    open spec fn view(&self) -> ItemView {
        ItemView {
            id: self.id@,
            session_id: self.session_id@,
            parent_id: maybe(self.parent_id),
            role: self.role,
            blocks: views(self.blocks@),
            usage: self.usage,
            created_at: self.created_at,
        }
    }
}

impl Clone for ConversationItem {
    fn clone(&self) -> (r: ConversationItem)
        ensures
            r@ == self@,
    {
        ConversationItem {
            id: self.id.clone(),
            session_id: self.session_id.clone(),
            parent_id: copy_maybe(&self.parent_id),
            role: self.role,
            blocks: copy_blocks(&self.blocks),
            usage: self.usage,
            created_at: self.created_at,
        }
    }
}

/// What a block says, if it is text.
pub open spec fn text_of_block() -> spec_fn(BlockView) -> Option<Seq<char>> {
    |block: BlockView|
        match block {
            BlockView::Text(text) => Some(text),
            _ => None,
        }
}

/// The texts of blocks are those of the text blocks, in their order.
pub proof fn law_texts_of_blocks(blocks: Seq<BlockView>)
    ensures
        picks(blocks, text_parts(blocks), text_of_block()),
    decreases blocks.len(),
{
    if blocks.len() == 0 {
        lemma_picks_nothing(blocks, text_of_block());
    } else {
        law_texts_of_blocks(blocks.drop_last());
        lemma_picks_last(blocks, text_parts(blocks.drop_last()), text_of_block());
    }
}

/// The tokens in the context are the total that the provider reports, or else
/// the sum of what it counts apart; where it counts nothing they are not known.
pub proof fn law_context_is_the_reported_total(usage: Usage)
    ensures
        usage.total_tokens matches Some(total) && total > 0 ==> usage.known_context()
            == usage.total_tokens,
        !(usage.total_tokens matches Some(total) && total > 0) && (usage.input_tokens is Some
            || usage.output_tokens is Some || usage.cached_tokens is Some
            || usage.cache_write_tokens is Some) ==> (usage.known_context() matches Some(n) && (n
            == u64::MAX || n == or_zero(usage.input_tokens) + or_zero(usage.output_tokens)
            + or_zero(usage.cached_tokens) + or_zero(usage.cache_write_tokens))),
        !(usage.total_tokens matches Some(total) && total > 0) && usage.input_tokens is None
            && usage.output_tokens is None && usage.cached_tokens is None
            && usage.cache_write_tokens is None ==> usage.known_context() is None,
{
}

} // verus!
