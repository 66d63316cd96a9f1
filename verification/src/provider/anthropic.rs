//! The Messages protocol of Anthropic.
use vstd::prelude::*;
use vstd::string::*;

use crate::config::{ProviderConfig, ProviderView};
use crate::json::{
    Json, JsonView, compact, compact_text, json_or_text, lemma_object_view, list_json,
    natural_json, object2, object3, object4, object_json, text_json, value_or_text,
};
use crate::model::{
    BlockView, ContentBlock, EventView, MessageView, ModelMessage, ModelRequest, ModelTurn,
    RequestView, Role, StreamEvent, ToolCall, ToolCallView, TurnView, Usage,
};
use crate::provider::{
    Answer, AnswerView, append_values, call_of_block, closing_events, law_fields_are_merged,
    lemma_fields2, lemma_fields3, lemma_fields4, lemma_told, merge_request_fields, merged_fields,
    no_events, offered_tools, push_closing, push_event, said, thought, tool_definitions,
};
use crate::seqs::{lemma_picks_last, lemma_picks_nothing, picks};
use crate::table::{
    Slots, entry_of, fill_slot, in_slots, law_slots_are_filled, law_with_entry, set_entry,
    slot_value, with_entry,
};
use crate::text::{
    decimal, law_decimal_is_read_back, lemma_views_push, maybe_view, outcome, same, views,
};

verus! {

// ---------------------------------------------------------------------------
// Requests

/// A block as it is sent, if a message of the role can hold it.
pub open spec fn sent_block(role: Role, block: BlockView) -> Option<JsonView> {
    match (role, block) {
        (Role::User, BlockView::Text(text)) | (Role::Assistant, BlockView::Text(text)) => Some(
            JsonView::Object(
                seq![("type"@, JsonView::Str("text"@)), ("text"@, JsonView::Str(text))],
            ),
        ),
        (Role::Assistant, BlockView::ToolCall(call)) => Some(
            JsonView::Object(
                seq![
                    ("type"@, JsonView::Str("tool_use"@)),
                    ("id"@, JsonView::Str(call.id)),
                    ("name"@, JsonView::Str(call.name)),
                    ("input"@, value_or_text(call.arguments)),
                ],
            ),
        ),
        (Role::Tool, BlockView::ToolResult(result)) => Some(
            JsonView::Object(
                seq![
                    ("type"@, JsonView::Str("tool_result"@)),
                    ("tool_use_id"@, JsonView::Str(result.call_id)),
                    ("content"@, JsonView::Str(result.output)),
                    ("is_error"@, JsonView::Bool(result.is_error)),
                ],
            ),
        ),
        _ => None,
    }
}

/// The blocks of a message as they are sent.
pub open spec fn sent_blocks(role: Role, blocks: Seq<BlockView>) -> Seq<JsonView>
    decreases blocks.len(),
{
    if blocks.len() == 0 {
        Seq::empty()
    } else {
        match sent_block(role, blocks.last()) {
            Some(v) => sent_blocks(role, blocks.drop_last()).push(v),
            None => sent_blocks(role, blocks.drop_last()),
        }
    }
}

/// Whether a message is sent as one of the assistant's.
pub open spec fn from_assistant(role: Role) -> bool {
    role == Role::Assistant
}

/// What one side says before the other answers.
pub struct TurnOf {
    pub assistant: bool,
    pub content: Vec<Json>,
}

/// The model of a [`TurnOf`].
pub struct TurnOfView {
    pub assistant: bool,
    pub content: Seq<JsonView>,
}

impl View for TurnOf {
    type V = TurnOfView;

    open spec fn view(&self) -> TurnOfView {
        TurnOfView { assistant: self.assistant, content: views(self.content@) }
    }
}

/// The turns with one more message: it joins the last turn if the same side
/// speaks, and is left out if it is empty.
pub open spec fn add_message(turns: Seq<TurnOfView>, message: MessageView) -> Seq<TurnOfView> {
    let content = sent_blocks(message.role, message.blocks);
    let assistant = from_assistant(message.role);
    if content.len() == 0 {
        turns
    } else if turns.len() > 0 && turns.last().assistant == assistant {
        turns.drop_last().push(
            TurnOfView { assistant, content: turns.last().content + content },
        )
    } else {
        turns.push(TurnOfView { assistant, content })
    }
}

/// The turns that messages make.
pub open spec fn turns_of(messages: Seq<MessageView>) -> Seq<TurnOfView>
    decreases messages.len(),
{
    if messages.len() == 0 {
        Seq::empty()
    } else {
        add_message(turns_of(messages.drop_last()), messages.last())
    }
}

/// The two sides of a conversation take turns.
pub proof fn law_sides_alternate(messages: Seq<MessageView>)
    ensures
        forall|i: int|
            #![trigger turns_of(messages)[i]]
            0 <= i < turns_of(messages).len() ==> turns_of(messages)[i].content.len() > 0,
        forall|i: int|
            #![trigger turns_of(messages)[i]]
            0 < i < turns_of(messages).len() ==> turns_of(messages)[i].assistant != turns_of(
                messages,
            )[i - 1].assistant,
    decreases messages.len(),
{
    if messages.len() > 0 {
        law_sides_alternate(messages.drop_last());
        let before = turns_of(messages.drop_last());
        let after = turns_of(messages);
        assert forall|i: int| #![trigger after[i]] 0 < i < after.len() implies after[i].assistant
            != after[i - 1].assistant by {
            if i < before.len() - 1 {
                assert(after[i] == before[i] && after[i - 1] == before[i - 1]);
            } else if i == before.len() - 1 {
                assert(after[i].assistant == before[i].assistant);
                assert(after[i - 1] == before[i - 1]);
            } else {
                assert(after[i - 1] == before[i - 1]);
            }
        }
    }
}

/// The turns as they are sent.
pub open spec fn turns_json(turns: Seq<TurnOfView>) -> Seq<JsonView> {
    Seq::new(
        turns.len(),
        |i: int|
            JsonView::Object(
                seq![
                    (
                        "role"@,
                        JsonView::Str(
                            if turns[i].assistant {
                                "assistant"@
                            } else {
                                "user"@
                            },
                        ),
                    ),
                    ("content"@, JsonView::List(turns[i].content)),
                ],
            ),
    )
}

/// The tools with their parameters as a schema of their input.
pub open spec fn schema_tools(tools: Seq<JsonView>) -> Seq<JsonView> {
    Seq::new(
        tools.len(),
        |i: int|
            JsonView::Object(
                seq![
                    ("name"@, tools[i].field("name"@)),
                    ("description"@, tools[i].field("description"@)),
                    ("input_schema"@, tools[i].field("parameters"@)),
                ],
            ),
    )
}

/// The body of a request.
pub open spec fn body_of(config: ProviderView, request: RequestView) -> JsonView {
    let body = merged_fields(Seq::empty(), config.request);
    let body = with_entry(body, "model"@, JsonView::Str(config.model));
    let body = with_entry(
        body,
        "max_tokens"@,
        JsonView::Number(decimal(config.max_tokens as nat)),
    );
    let body = with_entry(body, "system"@, JsonView::Str(request.system_prompt));
    let body = with_entry(
        body,
        "messages"@,
        JsonView::List(turns_json(turns_of(request.messages))),
    );
    let body = with_entry(body, "tools"@, JsonView::List(schema_tools(offered_tools())));
    JsonView::Object(with_entry(body, "stream"@, JsonView::Bool(true)))
}

fn make_block(role: Role, block: &ContentBlock) -> (r: Option<Json>)
    ensures
        maybe_view(r) == sent_block(role, block@),
{
    match (role, block) {
        (Role::User, ContentBlock::Text(text)) | (Role::Assistant, ContentBlock::Text(text)) => Some(
            object2("type", text_json("text"), "text", text_json(text)),
        ),
        (Role::Assistant, ContentBlock::ToolCall(call)) => Some(
            object4(
                "type",
                text_json("tool_use"),
                "id",
                text_json(&call.id),
                "name",
                text_json(&call.name),
                "input",
                json_or_text(&call.arguments),
            ),
        ),
        (Role::Tool, ContentBlock::ToolResult(result)) => Some(
            object4(
                "type",
                text_json("tool_result"),
                "tool_use_id",
                text_json(&result.call_id),
                "content",
                text_json(&result.output),
                "is_error",
                Json::Bool(result.is_error),
            ),
        ),
        _ => None,
    }
}

fn make_sent(message: &ModelMessage) -> (r: Vec<Json>)
    ensures
        views(r@) == sent_blocks(message.role, message@.blocks),
{
    broadcast use lemma_views_push;

    let ghost all = message@.blocks;
    let mut r: Vec<Json> = Vec::new();
    assert(views(r@) =~= Seq::empty());
    assert(all.take(0) =~= Seq::empty());
    let mut i: usize = 0;
    while i < message.blocks.len()
        invariant
            i <= message.blocks.len(),
            all == message@.blocks,
            views(r@) == sent_blocks(message.role, all.take(i as int)),
        decreases message.blocks.len() - i,
    {
        assert(all.take(i + 1).drop_last() =~= all.take(i as int));
        assert(all.take(i + 1).last() == message.blocks@[i as int]@);
        if let Some(v) = make_block(message.role, &message.blocks[i]) {
            r.push(v);
        }
        i += 1;
    }
    assert(all.take(all.len() as int) =~= all);
    r
}

fn join_turns(turns: &mut Vec<TurnOf>, message: &ModelMessage)
    ensures
        views(final(turns)@) == add_message(views(old(turns)@), message@),
{
    broadcast use lemma_views_push;

    let ghost before = views(turns@);
    let content = make_sent(message);
    assert(views(content@).len() == content@.len());
    if content.len() == 0 {
        return;
    }
    let assistant = match message.role {
        Role::Assistant => true,
        _ => false,
    };
    assert(before.len() == turns@.len());
    if turns.len() > 0 {
        assert(before.last() == turns@[turns@.len() - 1]@);
        if turns[turns.len() - 1].assistant == assistant {
            match turns.pop() {
                Some(last) => {
                    assert(views(turns@) =~= before.drop_last());
                    let mut all = last.content;
                    append_values(&mut all, content);
                    turns.push(TurnOf { assistant, content: all });
                },
                None => {},
            }
            return;
        }
    }
    turns.push(TurnOf { assistant, content });
}

fn make_turns(turns: &Vec<TurnOf>) -> (r: Vec<Json>)
    ensures
        views(r@) == turns_json(views(turns@)),
{
    broadcast use lemma_views_push;

    let ghost all = turns_json(views(turns@));
    let mut r: Vec<Json> = Vec::new();
    assert(views(r@) =~= all.take(0));
    let mut i: usize = 0;
    while i < turns.len()
        invariant
            i <= turns.len(),
            all == turns_json(views(turns@)),
            views(r@) == all.take(i as int),
        decreases turns.len() - i,
    {
        let mut content: Vec<Json> = Vec::new();
        let ghost blocks = views(turns@[i as int].content@);
        let mut k: usize = 0;
        assert(views(content@) =~= blocks.take(0));
        while k < turns[i as usize].content.len()
            invariant
                i < turns.len(),
                k <= turns[i as int].content.len(),
                blocks == views(turns@[i as int].content@),
                views(content@) == blocks.take(k as int),
            decreases turns[i as int].content.len() - k,
        {
            content.push(turns[i].content[k].clone());
            assert(blocks.take(k + 1) =~= blocks.take(k as int).push(blocks[k as int]));
            k += 1;
        }
        assert(blocks.take(blocks.len() as int) =~= blocks);
        let role = if turns[i].assistant {
            "assistant"
        } else {
            "user"
        };
        let item = object2("role", text_json(role), "content", list_json(content));
        assert(item@ == all[i as int]);
        r.push(item);
        assert(all.take(i + 1) =~= all.take(i as int).push(all[i as int]));
        i += 1;
    }
    assert(all.take(all.len() as int) =~= all);
    r
}

fn copy_field(v: &Json, key: &str) -> (r: Json)
    ensures
        r@ == v@.field(key@),
{
    match v.get(key) {
        Some(field) => field.clone(),
        None => Json::Null,
    }
}

fn make_tools() -> (r: Vec<Json>)
    ensures
        views(r@) == schema_tools(offered_tools()),
{
    broadcast use lemma_views_push;

    let tools = tool_definitions();
    let ghost all = schema_tools(offered_tools());
    let mut r: Vec<Json> = Vec::new();
    assert(views(r@) =~= all.take(0));
    assert(views(tools@).len() == tools@.len());
    let mut i: usize = 0;
    while i < tools.len()
        invariant
            i <= tools.len(),
            tools.len() == all.len(),
            views(tools@) == offered_tools(),
            all == schema_tools(offered_tools()),
            views(r@) == all.take(i as int),
        decreases tools.len() - i,
    {
        assert(views(tools@)[i as int] == tools@[i as int]@);
        r.push(
            object3(
                "name",
                copy_field(&tools[i], "name"),
                "description",
                copy_field(&tools[i], "description"),
                "input_schema",
                copy_field(&tools[i], "parameters"),
            ),
        );
        assert(all.take(i + 1) =~= all.take(i as int).push(all[i as int]));
        i += 1;
    }
    assert(all.take(all.len() as int) =~= all);
    r
}

/// The body of a request.
pub fn request_body(config: &ProviderConfig, request: &ModelRequest) -> (r: Json)
    ensures
        r@ == body_of(config@, request@),
{
    let mut turns: Vec<TurnOf> = Vec::new();
    let ghost all = views(request.messages@);
    assert(all.take(0) =~= Seq::empty());
    assert(views(turns@) =~= Seq::empty());
    let mut i: usize = 0;
    while i < request.messages.len()
        invariant
            i <= request.messages.len(),
            all == views(request.messages@),
            views(turns@) == turns_of(all.take(i as int)),
        decreases request.messages.len() - i,
    {
        assert(all.take(i + 1).drop_last() =~= all.take(i as int));
        assert(all.take(i + 1).last() == request.messages@[i as int]@);
        join_turns(&mut turns, &request.messages[i]);
        i += 1;
    }
    assert(all.take(all.len() as int) =~= all);
    let mut body = merge_request_fields(config);
    set_entry(&mut body, "model", text_json(&config.model));
    set_entry(&mut body, "max_tokens", natural_json(config.max_tokens as u64));
    set_entry(&mut body, "system", text_json(&request.system_prompt));
    set_entry(&mut body, "messages", list_json(make_turns(&turns)));
    set_entry(&mut body, "tools", list_json(make_tools()));
    set_entry(&mut body, "stream", Json::Bool(true));
    object_json(body)
}

// ---------------------------------------------------------------------------
// What a request tells the model

/// The names of fields differ.
proof fn lemma_keys()
    ensures
        "content"@ != "is_error"@,
        "content"@ != "role"@,
        "content"@ != "tool_use_id"@,
        "content"@ != "type"@,
        "description"@ != "input_schema"@,
        "description"@ != "name"@,
        "id"@ != "input"@,
        "id"@ != "name"@,
        "id"@ != "type"@,
        "input"@ != "name"@,
        "input"@ != "type"@,
        "input_schema"@ != "name"@,
        "is_error"@ != "tool_use_id"@,
        "is_error"@ != "type"@,
        "max_tokens"@ != "messages"@,
        "max_tokens"@ != "model"@,
        "max_tokens"@ != "stream"@,
        "max_tokens"@ != "system"@,
        "max_tokens"@ != "tools"@,
        "messages"@ != "model"@,
        "messages"@ != "stream"@,
        "messages"@ != "system"@,
        "messages"@ != "tools"@,
        "model"@ != "stream"@,
        "model"@ != "system"@,
        "model"@ != "tools"@,
        "name"@ != "type"@,
        "stream"@ != "system"@,
        "stream"@ != "tools"@,
        "system"@ != "tools"@,
        "text"@ != "type"@,
        "tool_use_id"@ != "type"@,
{
    reveal_strlit("content");
    reveal_strlit("description");
    reveal_strlit("id");
    reveal_strlit("input");
    reveal_strlit("input_schema");
    reveal_strlit("is_error");
    reveal_strlit("max_tokens");
    reveal_strlit("messages");
    reveal_strlit("model");
    reveal_strlit("name");
    reveal_strlit("role");
    reveal_strlit("stream");
    reveal_strlit("system");
    reveal_strlit("text");
    reveal_strlit("tool_use_id");
    reveal_strlit("tools");
    reveal_strlit("type");
    assert("content"@.len() != "is_error"@.len());
    assert("content"@.len() != "role"@.len());
    assert("content"@.len() != "tool_use_id"@.len());
    assert("content"@.len() != "type"@.len());
    assert("description"@.len() != "input_schema"@.len());
    assert("description"@.len() != "name"@.len());
    assert("id"@.len() != "input"@.len());
    assert("id"@.len() != "name"@.len());
    assert("id"@.len() != "type"@.len());
    assert("input"@.len() != "name"@.len());
    assert("input"@.len() != "type"@.len());
    assert("input_schema"@.len() != "name"@.len());
    assert("is_error"@.len() != "tool_use_id"@.len());
    assert("is_error"@.len() != "type"@.len());
    assert("max_tokens"@.len() != "messages"@.len());
    assert("max_tokens"@.len() != "model"@.len());
    assert("max_tokens"@.len() != "stream"@.len());
    assert("max_tokens"@.len() != "system"@.len());
    assert("max_tokens"@.len() != "tools"@.len());
    assert("messages"@.len() != "model"@.len());
    assert("messages"@.len() != "stream"@.len());
    assert("messages"@.len() != "system"@.len());
    assert("messages"@.len() != "tools"@.len());
    assert("model"@.len() != "stream"@.len());
    assert("model"@.len() != "system"@.len());
    assert("model"@[0] != "tools"@[0]);
    assert("name"@[0] != "type"@[0]);
    assert("stream"@[1] != "system"@[1]);
    assert("stream"@.len() != "tools"@.len());
    assert("system"@.len() != "tools"@.len());
    assert("text"@[1] != "type"@[1]);
    assert("tool_use_id"@.len() != "type"@.len());
}

/// Whether a message of a role can hold a block: users and models say texts,
/// models make calls, and tools give results.
pub open spec fn can_hold(role: Role, block: BlockView) -> bool {
    match block {
        BlockView::Text(_) => role == Role::User || role == Role::Assistant,
        BlockView::ToolCall(_) => role == Role::Assistant,
        BlockView::ToolResult(_) => role == Role::Tool,
        BlockView::Reasoning(_) => false,
    }
}

/// A block that a message of a role can hold.
pub open spec fn held_by(role: Role) -> spec_fn(BlockView) -> Option<BlockView> {
    |block: BlockView|
        if can_hold(role, block) {
            Some(block)
        } else {
            None
        }
}

/// Whether a value tells the model of a block.
pub open spec fn tells_block(v: JsonView, block: BlockView) -> bool {
    match block {
        BlockView::Text(text) => v.text("type"@) == Some("text"@) && v.text("text"@) == Some(text),
        BlockView::ToolCall(call) => {
            &&& v.text("type"@) == Some("tool_use"@)
            &&& v.text("id"@) == Some(call.id)
            &&& v.text("name"@) == Some(call.name)
            &&& v.get("input"@) == Some(value_or_text(call.arguments))
        },
        BlockView::ToolResult(result) => {
            &&& v.text("type"@) == Some("tool_result"@)
            &&& v.text("tool_use_id"@) == Some(result.call_id)
            &&& v.text("content"@) == Some(result.output)
            &&& v.get("is_error"@) == Some(JsonView::Bool(result.is_error))
        },
        BlockView::Reasoning(_) => false,
    }
}

/// Whether values tell the model of a message: one for each block that it can
/// hold, in their order.
pub open spec fn tells_blocks(message: MessageView, values: Seq<JsonView>) -> bool {
    exists|held: Seq<BlockView>|
        {
            &&& #[trigger] picks(message.blocks, held, held_by(message.role))
            &&& values.len() == held.len()
            &&& forall|i: int| 0 <= i < held.len() ==> tells_block(#[trigger] values[i], held[i])
        }
}

proof fn lemma_blocks_sent(role: Role, blocks: Seq<BlockView>) -> (held: Seq<BlockView>)
    ensures
        picks(blocks, held, held_by(role)),
        sent_blocks(role, blocks).len() == held.len(),
        forall|i: int|
            0 <= i < held.len() ==> tells_block(#[trigger] sent_blocks(role, blocks)[i], held[i]),
    decreases blocks.len(),
{
    if blocks.len() == 0 {
        lemma_picks_nothing(blocks, held_by(role));
        Seq::empty()
    } else {
        let before = lemma_blocks_sent(role, blocks.drop_last());
        lemma_picks_last(blocks, before, held_by(role));
        let block = blocks.last();
        lemma_keys();
        match block {
            BlockView::Text(text) => {
                lemma_fields2("type"@, JsonView::Str("text"@), "text"@, JsonView::Str(text));
            },
            BlockView::ToolCall(call) => {
                lemma_fields4(
                    "type"@,
                    JsonView::Str("tool_use"@),
                    "id"@,
                    JsonView::Str(call.id),
                    "name"@,
                    JsonView::Str(call.name),
                    "input"@,
                    value_or_text(call.arguments),
                );
            },
            BlockView::ToolResult(result) => {
                lemma_fields4(
                    "type"@,
                    JsonView::Str("tool_result"@),
                    "tool_use_id"@,
                    JsonView::Str(result.call_id),
                    "content"@,
                    JsonView::Str(result.output),
                    "is_error"@,
                    JsonView::Bool(result.is_error),
                );
            },
            BlockView::Reasoning(_) => {},
        }
        if can_hold(role, block) {
            before.push(block)
        } else {
            before
        }
    }
}

/// The fields of a body that are set in every request.
pub open spec fn is_own_field(key: Seq<char>) -> bool {
    key == "model"@ || key == "max_tokens"@ || key == "system"@ || key == "messages"@ || key == "tools"@ || key == "stream"@
}

proof fn lemma_kept(
    b0: Seq<(Seq<char>, JsonView)>,
    values: Seq<JsonView>,
    key: Seq<char>,
) -> (body: Seq<(Seq<char>, JsonView)>)
    ensures
        ({
            let b1 = with_entry(b0, "model"@, values[0]);
            let b2 = with_entry(b1, "max_tokens"@, values[1]);
            let b3 = with_entry(b2, "system"@, values[2]);
            let b4 = with_entry(b3, "messages"@, values[3]);
            let b5 = with_entry(b4, "tools"@, values[4]);
            let b6 = with_entry(b5, "stream"@, values[5]);
            &&& body == b6
            &&& entry_of(b6, "model"@) == Some(values[0])
            &&& entry_of(b6, "max_tokens"@) == Some(values[1])
            &&& entry_of(b6, "system"@) == Some(values[2])
            &&& entry_of(b6, "messages"@) == Some(values[3])
            &&& entry_of(b6, "tools"@) == Some(values[4])
            &&& entry_of(b6, "stream"@) == Some(values[5])
            &&& !is_own_field(key) ==> entry_of(b6, key) == entry_of(b0, key)
        }),
{
    lemma_keys();
    let b1 = with_entry(b0, "model"@, values[0]);
    law_with_entry(b0, "model"@, values[0], key);
    let b2 = with_entry(b1, "max_tokens"@, values[1]);
    law_with_entry(b1, "max_tokens"@, values[1], "model"@);
    law_with_entry(b1, "max_tokens"@, values[1], key);
    let b3 = with_entry(b2, "system"@, values[2]);
    law_with_entry(b2, "system"@, values[2], "model"@);
    law_with_entry(b2, "system"@, values[2], "max_tokens"@);
    law_with_entry(b2, "system"@, values[2], key);
    let b4 = with_entry(b3, "messages"@, values[3]);
    law_with_entry(b3, "messages"@, values[3], "model"@);
    law_with_entry(b3, "messages"@, values[3], "max_tokens"@);
    law_with_entry(b3, "messages"@, values[3], "system"@);
    law_with_entry(b3, "messages"@, values[3], key);
    let b5 = with_entry(b4, "tools"@, values[4]);
    law_with_entry(b4, "tools"@, values[4], "model"@);
    law_with_entry(b4, "tools"@, values[4], "max_tokens"@);
    law_with_entry(b4, "tools"@, values[4], "system"@);
    law_with_entry(b4, "tools"@, values[4], "messages"@);
    law_with_entry(b4, "tools"@, values[4], key);
    let b6 = with_entry(b5, "stream"@, values[5]);
    law_with_entry(b5, "stream"@, values[5], "model"@);
    law_with_entry(b5, "stream"@, values[5], "max_tokens"@);
    law_with_entry(b5, "stream"@, values[5], "system"@);
    law_with_entry(b5, "stream"@, values[5], "messages"@);
    law_with_entry(b5, "stream"@, values[5], "tools"@);
    law_with_entry(b5, "stream"@, values[5], key);
    b6
}

proof fn lemma_body_fields(config: ProviderView, request: RequestView, key: Seq<char>)
    ensures
        ({
            let body = body_of(config, request);
            &&& body.get("model"@) == Some(JsonView::Str(config.model))
            &&& body.get("max_tokens"@) == Some(JsonView::Number(decimal(config.max_tokens as nat)))
            &&& body.get("system"@) == Some(JsonView::Str(request.system_prompt))
            &&& body.get("messages"@) == Some(
                JsonView::List(turns_json(turns_of(request.messages))),
            )
            &&& body.get("tools"@) == Some(JsonView::List(schema_tools(offered_tools())))
            &&& body.get("stream"@) == Some(JsonView::Bool(true))
            &&& !is_own_field(key) ==> body.get(key) == entry_of(
                merged_fields(Seq::empty(), config.request),
                key,
            )
        }),
{
    let values = seq![
        JsonView::Str(config.model),
        JsonView::Number(decimal(config.max_tokens as nat)),
        JsonView::Str(request.system_prompt),
        JsonView::List(turns_json(turns_of(request.messages))),
        JsonView::List(schema_tools(offered_tools())),
        JsonView::Bool(true),
    ];
    let body = lemma_kept(merged_fields(Seq::empty(), config.request), values, key);
    assert(body_of(config, request) == JsonView::Object(body));
}

/// The values that tell the model of a conversation.
pub open spec fn told_to_model(config: ProviderView, request: RequestView) -> Seq<JsonView> {
    body_of(config, request).field("messages"@).items()
}

proof fn lemma_turns_told(turns: Seq<TurnOfView>, i: int)
    requires
        0 <= i < turns.len(),
    ensures
        turns_json(turns)[i].text("role"@) == Some(
            if turns[i].assistant {
                "assistant"@
            } else {
                "user"@
            },
        ),
        turns_json(turns)[i].field("content"@).items() == turns[i].content,
{
    lemma_keys();
    lemma_fields2(
        "role"@,
        JsonView::Str(
            if turns[i].assistant {
                "assistant"@
            } else {
                "user"@
            },
        ),
        "content"@,
        JsonView::List(turns[i].content),
    );
}

/// Every message adds to a request what tells of its blocks, after all that came
/// before: to the last value where that is of the same side, else as a value of
/// its own. The model is one side, the user and the tools are the other. A
/// message of which nothing can be told adds nothing. The system prompt stands
/// apart.
pub proof fn law_requests_tell_the_conversation_in_order(
    config: ProviderView,
    request: RequestView,
    message: MessageView,
)
    ensures
        ({
            let longer = RequestView { messages: request.messages.push(message), ..request };
            let before = told_to_model(config, request);
            let after = told_to_model(config, longer);
            let side = if message.role == Role::Assistant {
                "assistant"@
            } else {
                "user"@
            };
            &&& request.messages.len() == 0 ==> before.len() == 0
            &&& body_of(config, request).text("system"@) == Some(request.system_prompt)
            &&& exists|values: Seq<JsonView>|
                {
                    &&& #[trigger] tells_blocks(message, values)
                    &&& if values.len() == 0 {
                        after == before
                    } else if before.len() > 0 && before.last().text("role"@) == Some(side) {
                        &&& after.len() == before.len()
                        &&& after.drop_last() == before.drop_last()
                        &&& after.last().text("role"@) == Some(side)
                        &&& after.last().field("content"@).items() == before.last().field(
                            "content"@,
                        ).items() + values
                    } else {
                        &&& after.len() == before.len() + 1
                        &&& after.drop_last() == before
                        &&& after.last().text("role"@) == Some(side)
                        &&& after.last().field("content"@).items() == values
                    }
                }
        }),
{
    let longer = RequestView { messages: request.messages.push(message), ..request };
    lemma_body_fields(config, request, Seq::empty());
    lemma_body_fields(config, longer, Seq::empty());
    let before = told_to_model(config, request);
    let after = told_to_model(config, longer);
    assert(longer.messages.drop_last() =~= request.messages);
    let old = turns_of(request.messages);
    let new = turns_of(longer.messages);
    let values = sent_blocks(message.role, message.blocks);
    let held = lemma_blocks_sent(message.role, message.blocks);
    assert(picks(message.blocks, held, held_by(message.role)));
    assert(tells_blocks(message, values));
    reveal_strlit("assistant");
    reveal_strlit("user");
    assert("assistant"@.len() != "user"@.len());
    if old.len() > 0 {
        lemma_turns_told(old, old.len() - 1);
    }
    if new.len() > 0 {
        lemma_turns_told(new, new.len() - 1);
    }
    if values.len() > 0 {
        if old.len() > 0 && old.last().assistant == from_assistant(message.role) {
            assert(new.drop_last() =~= old.drop_last());
            assert(after.drop_last() =~= before.drop_last());
        } else {
            assert(new.drop_last() =~= old);
            assert(after.drop_last() =~= before);
        }
    }
}

/// A request is for the model that is configured, offers the tools with their
/// schemas, and is answered as a stream. What else is configured stands in it as
/// it is.
pub proof fn law_requests_follow_the_configuration(
    config: ProviderView,
    request: RequestView,
    key: Seq<char>,
    i: int,
)
    ensures
        ({
            let body = body_of(config, request);
            let tools = body.field("tools"@).items();
            &&& body.text("model"@) == Some(config.model)
            &&& body.natural("max_tokens"@) == Some(config.max_tokens as u64)
            &&& body.get("stream"@) == Some(JsonView::Bool(true))
            &&& tools.len() == offered_tools().len()
            &&& forall|k: int|
                0 <= k < tools.len() ==> (#[trigger] tools[k]).field("name"@)
                    == offered_tools()[k].field("name"@) && tools[k].field("description"@)
                    == offered_tools()[k].field("description"@) && tools[k].field("input_schema"@)
                    == offered_tools()[k].field("parameters"@)
            &&& 0 <= i < config.request.len() && config.request[i].0 == key && !is_own_field(key)
                && (forall|j: int| i < j < config.request.len() ==> (#[trigger] config.request[j]).0
                != key) ==> body.get(key) == Some(config.request[i].1)
        }),
{
    lemma_keys();
    lemma_body_fields(config, request, key);
    law_fields_are_merged(Seq::empty(), config.request, key);
    law_decimal_is_read_back(config.max_tokens as nat);
    let tools = body_of(config, request).field("tools"@).items();
    assert forall|k: int| 0 <= k < tools.len() implies (#[trigger] tools[k]).field("name"@)
        == offered_tools()[k].field("name"@) && tools[k].field("description"@)
        == offered_tools()[k].field("description"@) && tools[k].field("input_schema"@)
        == offered_tools()[k].field("parameters"@) by {
        lemma_fields3(
            "name"@,
            offered_tools()[k].field("name"@),
            "description"@,
            offered_tools()[k].field("description"@),
            "input_schema"@,
            offered_tools()[k].field("parameters"@),
        );
    }
}

// ---------------------------------------------------------------------------
// Answers

/// A block that is coming in.
pub enum PendingBlock {
    Text(String),
    Reasoning(String),
    Tool(ToolCall),
    Ignore,
}

/// The model of a [`PendingBlock`].
pub enum PendingView {
    Text(Seq<char>),
    Reasoning(Seq<char>),
    Tool(ToolCallView),
    Ignore,
}

impl View for PendingBlock {
    type V = PendingView;

    open spec fn view(&self) -> PendingView {
        match self {
            PendingBlock::Text(s) => PendingView::Text(s@),
            PendingBlock::Reasoning(s) => PendingView::Reasoning(s@),
            PendingBlock::Tool(c) => PendingView::Tool(c@),
            PendingBlock::Ignore => PendingView::Ignore,
        }
    }
}

impl Clone for PendingBlock {
    fn clone(&self) -> (r: PendingBlock)
        ensures
            r@ == self@,
    {
        match self {
            PendingBlock::Text(s) => PendingBlock::Text(s.clone()),
            PendingBlock::Reasoning(s) => PendingBlock::Reasoning(s.clone()),
            PendingBlock::Tool(c) => PendingBlock::Tool(c.clone()),
            PendingBlock::Ignore => PendingBlock::Ignore,
        }
    }
}

/// The slot of a block.
pub open spec fn block_index(value: JsonView) -> u64 {
    match value.natural("index"@) {
        Some(i) => i,
        None => 0,
    }
}

/// Whether a value is an object without entries.
pub open spec fn is_empty_object(v: JsonView) -> bool {
    v matches JsonView::Object(entries) && entries.len() == 0
}

/// The input that a call comes with, as a text.
pub open spec fn first_input(block: JsonView) -> Seq<char> {
    match block.get("input"@) {
        None => Seq::empty(),
        Some(v) => if is_empty_object(v) {
            Seq::empty()
        } else {
            compact(v)
        },
    }
}

/// The call that a block begins.
pub open spec fn call_of(block: JsonView) -> ToolCallView {
    ToolCallView {
        id: block.text_or_empty("id"@),
        name: block.text_or_empty("name"@),
        arguments: first_input(block),
    }
}

/// The events that begin a call.
pub open spec fn begin_events(call: ToolCallView) -> Seq<EventView> {
    let start = seq![EventView::ToolCallStart { id: call.id, name: call.name }];
    if call.arguments.len() == 0 {
        start
    } else {
        start.push(EventView::ToolCallArgsDelta { id: call.id, delta: call.arguments })
    }
}

/// An answer that is coming in.
pub struct IncomingView {
    pub blocks: Seq<(u64, PendingView)>,
    pub events: Seq<EventView>,
    pub usage: Usage,
    pub has_usage: bool,
}

/// The answer with the beginning of a block.
pub open spec fn begin_block(a: IncomingView, index: u64, block: JsonView) -> IncomingView {
    let kind = block.text_or_empty("type"@);
    if kind == "text"@ {
        IncomingView {
            blocks: fill_slot(a.blocks, index, PendingView::Text(block.text_or_empty("text"@))),
            ..a
        }
    } else if kind == "thinking"@ || kind == "redacted_thinking"@ {
        IncomingView {
            blocks: fill_slot(
                a.blocks,
                index,
                PendingView::Reasoning(block.text_or_empty("thinking"@)),
            ),
            ..a
        }
    } else if kind == "tool_use"@ {
        let call = call_of(block);
        IncomingView {
            blocks: fill_slot(a.blocks, index, PendingView::Tool(call)),
            events: a.events + begin_events(call),
            ..a
        }
    } else {
        IncomingView { blocks: fill_slot(a.blocks, index, PendingView::Ignore), ..a }
    }
}

/// The answer with more of a block.
pub open spec fn grow_block(a: IncomingView, index: u64, delta: JsonView) -> IncomingView {
    let kind = delta.text("type"@);
    match slot_value(a.blocks, index) {
        Some(PendingView::Text(text)) => if kind == Some("text_delta"@) {
            let part = delta.text_or_empty("text"@);
            IncomingView {
                blocks: fill_slot(a.blocks, index, PendingView::Text(text + part)),
                events: a.events.push(EventView::TextDelta { delta: part }),
                ..a
            }
        } else {
            a
        },
        Some(PendingView::Reasoning(text)) => if kind == Some("thinking_delta"@) {
            let part = delta.text_or_empty("thinking"@);
            IncomingView {
                blocks: fill_slot(a.blocks, index, PendingView::Reasoning(text + part)),
                events: a.events.push(EventView::ReasoningDelta { delta: part }),
                ..a
            }
        } else {
            a
        },
        Some(PendingView::Tool(call)) => if kind == Some("input_json_delta"@) {
            let part = delta.text_or_empty("partial_json"@);
            IncomingView {
                blocks: fill_slot(
                    a.blocks,
                    index,
                    PendingView::Tool(
                        ToolCallView { arguments: call.arguments + part, ..call },
                    ),
                ),
                events: a.events.push(EventView::ToolCallArgsDelta { id: call.id, delta: part }),
                ..a
            }
        } else {
            a
        },
        _ => a,
    }
}

/// The answer with one more value of the stream.
pub open spec fn take_value(a: IncomingView, value: JsonView) -> Result<IncomingView, Seq<char>> {
    let index = block_index(value);
    let kind = value.text_or_empty("type"@);
    if kind == "message_start"@ {
        let raw = value.field("message"@).field("usage"@);
        Ok(
            IncomingView {
                usage: Usage {
                    input_tokens: raw.natural("input_tokens"@),
                    cached_tokens: raw.natural("cache_read_input_tokens"@),
                    ..a.usage
                },
                has_usage: true,
                ..a
            },
        )
    } else if kind == "content_block_start"@ {
        Ok(begin_block(a, index, value.field("content_block"@)))
    } else if kind == "content_block_delta"@ {
        Ok(grow_block(a, index, value.field("delta"@)))
    } else if kind == "content_block_stop"@ {
        match slot_value(a.blocks, index) {
            Some(PendingView::Tool(call)) => Ok(
                IncomingView { events: a.events.push(EventView::ToolCallEnd { id: call.id }), ..a },
            ),
            _ => Ok(a),
        }
    } else if kind == "message_delta"@ {
        Ok(
            IncomingView {
                usage: Usage {
                    output_tokens: value.field("usage"@).natural("output_tokens"@),
                    ..a.usage
                },
                has_usage: true,
                ..a
            },
        )
    } else if kind == "error"@ {
        Err("provider error: "@ + compact(value.field("error"@)))
    } else {
        Ok(a)
    }
}

/// No usage known.
pub open spec fn no_usage() -> Usage {
    Usage {
        input_tokens: None,
        output_tokens: None,
        cached_tokens: None,
        cache_write_tokens: None,
        total_tokens: None,
    }
}

/// The answer after values of the stream; the first error ends it.
pub open spec fn take_values(values: Seq<JsonView>) -> Result<IncomingView, Seq<char>>
    decreases values.len(),
{
    if values.len() == 0 {
        Ok(
            IncomingView {
                blocks: Seq::empty(),
                events: Seq::empty(),
                usage: no_usage(),
                has_usage: false,
            },
        )
    } else {
        match take_values(values.drop_last()) {
            Err(e) => Err(e),
            Ok(a) => take_value(a, values.last()),
        }
    }
}

/// A finished block, unless there is nothing in it.
pub open spec fn finished(block: PendingView) -> Option<BlockView> {
    match block {
        PendingView::Text(s) => if s.len() > 0 {
            Some(BlockView::Text(s))
        } else {
            None
        },
        PendingView::Reasoning(s) => if s.len() > 0 {
            Some(BlockView::Reasoning(s))
        } else {
            None
        },
        PendingView::Tool(call) => Some(BlockView::ToolCall(call)),
        PendingView::Ignore => None,
    }
}

/// The blocks of an answer, in the order of their slots.
pub open spec fn finished_blocks(blocks: Seq<(u64, PendingView)>) -> Seq<BlockView>
    decreases blocks.len(),
{
    if blocks.len() == 0 {
        Seq::empty()
    } else {
        match finished(blocks.last().1) {
            Some(b) => finished_blocks(blocks.drop_last()).push(b),
            None => finished_blocks(blocks.drop_last()),
        }
    }
}

/// The calls among blocks.
pub open spec fn calls_among(blocks: Seq<BlockView>) -> Seq<ToolCallView>
    decreases blocks.len(),
{
    if blocks.len() == 0 {
        Seq::empty()
    } else {
        match blocks.last() {
            BlockView::ToolCall(call) => calls_among(blocks.drop_last()).push(call),
            _ => calls_among(blocks.drop_last()),
        }
    }
}

/// The answer that a stream comes to.
pub open spec fn answer_of(values: Seq<JsonView>) -> Result<AnswerView, Seq<char>> {
    match take_values(values) {
        Err(e) => Err(e),
        Ok(a) => {
            let blocks = finished_blocks(a.blocks);
            let usage = if a.has_usage {
                Some(a.usage)
            } else {
                None
            };
            Ok(
                AnswerView {
                    turn: TurnView {
                        blocks,
                        tool_calls: calls_among(blocks),
                        usage,
                        provider_state: None,
                    },
                    events: a.events + closing_events(usage),
                },
            )
        },
    }
}

fn read_input(block: &Json) -> (r: String)
    ensures
        r@ == first_input(block@),
{
    match block.get("input") {
        None => String::new(),
        Some(v) => {
            if holds_nothing(v) {
                String::new()
            } else {
                compact_text(v)
            }
        },
    }
}

fn holds_nothing(v: &Json) -> (r: bool)
    ensures
        r == is_empty_object(v@),
{
    match v {
        Json::Object(entries) => {
            proof {
                lemma_object_view(*entries);
            }
            entries.len() == 0
        },
        _ => false,
    }
}

fn read_call(block: &Json) -> (r: ToolCall)
    ensures
        r@ == call_of(block@),
{
    ToolCall {
        id: block.text_or_empty("id"),
        name: block.text_or_empty("name"),
        arguments: read_input(block),
    }
}

fn read_index(value: &Json) -> (r: u64)
    ensures
        r == block_index(value@),
{
    match value.natural("index") {
        Some(i) => i,
        None => 0,
    }
}

/// An answer that is coming in.
struct Incoming {
    blocks: Slots<PendingBlock>,
    events: Vec<StreamEvent>,
    usage: Usage,
    has_usage: bool,
}

impl View for Incoming {
    type V = IncomingView;

    closed spec fn view(&self) -> IncomingView {
        IncomingView {
            blocks: self.blocks@,
            events: views(self.events@),
            usage: self.usage,
            has_usage: self.has_usage,
        }
    }
}

impl Incoming {
    fn begin(&mut self, index: u64, block: &Json)
        ensures
            final(self)@ == begin_block(old(self)@, index, block@),
    {
        let kind = block.text_or_empty("type");
        if same(&kind, "text") {
            self.blocks.fill(index, PendingBlock::Text(block.text_or_empty("text")));
        } else if same(&kind, "thinking") || same(&kind, "redacted_thinking") {
            self.blocks.fill(index, PendingBlock::Reasoning(block.text_or_empty("thinking")));
        } else if same(&kind, "tool_use") {
            let call = read_call(block);
            let ghost before = views(self.events@);
            push_event(
                &mut self.events,
                StreamEvent::ToolCallStart { id: call.id.clone(), name: call.name.clone() },
            );
            if !call.arguments.as_str().is_empty() {
                push_event(
                    &mut self.events,
                    StreamEvent::ToolCallArgsDelta {
                        id: call.id.clone(),
                        delta: call.arguments.clone(),
                    },
                );
            }
            assert(views(self.events@) =~= before + begin_events(call@));
            self.blocks.fill(index, PendingBlock::Tool(call));
        } else {
            self.blocks.fill(index, PendingBlock::Ignore);
        }
    }

    fn grow(&mut self, index: u64, delta: &Json)
        ensures
            final(self)@ == grow_block(old(self)@, index, delta@),
    {
        let kind = match delta.text("type") {
            Some(kind) => kind,
            None => return,
        };
        let block = match self.blocks.get(index) {
            Some(block) => block.clone(),
            None => return,
        };
        match block {
            PendingBlock::Text(text) => {
                if same(&kind, "text_delta") {
                    let part = delta.text_or_empty("text");
                    let mut text = text;
                    text.append(&part);
                    self.blocks.fill(index, PendingBlock::Text(text));
                    push_event(&mut self.events, StreamEvent::TextDelta { delta: part });
                }
            },
            PendingBlock::Reasoning(text) => {
                if same(&kind, "thinking_delta") {
                    let part = delta.text_or_empty("thinking");
                    let mut text = text;
                    text.append(&part);
                    self.blocks.fill(index, PendingBlock::Reasoning(text));
                    push_event(&mut self.events, StreamEvent::ReasoningDelta { delta: part });
                }
            },
            PendingBlock::Tool(call) => {
                if same(&kind, "input_json_delta") {
                    let part = delta.text_or_empty("partial_json");
                    let mut call = call;
                    call.arguments.append(&part);
                    push_event(
                        &mut self.events,
                        StreamEvent::ToolCallArgsDelta { id: call.id.clone(), delta: part },
                    );
                    self.blocks.fill(index, PendingBlock::Tool(call));
                }
            },
            PendingBlock::Ignore => {},
        }
    }

    fn take(&mut self, value: &Json) -> (r: Result<(), String>)
        ensures
            match r {
                Ok(()) => take_value(old(self)@, value@) == Ok::<IncomingView, Seq<char>>(
                    final(self)@,
                ),
                Err(e) => take_value(old(self)@, value@) == Err::<IncomingView, Seq<char>>(e@),
            },
    {
        let index: u64 = read_index(value);
        let kind = value.text_or_empty("type");
        if same(&kind, "message_start") {
            let message = copy_field(value, "message");
            let raw = copy_field(&message, "usage");
            self.usage.input_tokens = raw.natural("input_tokens");
            self.usage.cached_tokens = raw.natural("cache_read_input_tokens");
            self.has_usage = true;
            Ok(())
        } else if same(&kind, "content_block_start") {
            self.begin(index, &copy_field(value, "content_block"));
            Ok(())
        } else if same(&kind, "content_block_delta") {
            self.grow(index, &copy_field(value, "delta"));
            Ok(())
        } else if same(&kind, "content_block_stop") {
            if let Some(PendingBlock::Tool(call)) = self.blocks.get(index) {
                let id = call.id.clone();
                push_event(&mut self.events, StreamEvent::ToolCallEnd { id });
            }
            Ok(())
        } else if same(&kind, "message_delta") {
            self.usage.output_tokens = copy_field(value, "usage").natural("output_tokens");
            self.has_usage = true;
            Ok(())
        } else if same(&kind, "error") {
            Err(
                "provider error: ".to_owned().concat(&compact_text(&copy_field(value, "error"))),
            )
        } else {
            Ok(())
        }
    }
}

/// The answer that a stream comes to.
pub fn normalize_events(values: &Vec<Json>) -> (r: Result<Answer, String>)
    ensures
        outcome(r) == answer_of(views(values@)),
{
    broadcast use lemma_views_push;

    let mut incoming = Incoming {
        blocks: Slots::new(),
        events: no_events(),
        usage: Usage::default(),
        has_usage: false,
    };
    let ghost all = views(values@);
    assert(all.take(0) =~= Seq::empty());
    let mut i: usize = 0;
    while i < values.len()
        invariant
            i <= values.len(),
            all == views(values@),
            take_values(all.take(i as int)) == Ok::<IncomingView, Seq<char>>(incoming@),
        decreases values.len() - i,
    {
        assert(all.take(i + 1).drop_last() =~= all.take(i as int));
        assert(all.take(i + 1).last() == values@[i as int]@);
        match incoming.take(&values[i]) {
            Ok(()) => {},
            Err(e) => {
                proof {
                    lemma_take_error(all, i + 1);
                }
                return Err(e);
            },
        }
        i += 1;
    }
    assert(all.take(all.len() as int) =~= all);
    let mut content: Vec<ContentBlock> = Vec::new();
    let mut tool_calls: Vec<ToolCall> = Vec::new();
    let ghost slots = incoming.blocks@;
    assert(views(content@) =~= Seq::empty());
    assert(views(tool_calls@) =~= Seq::empty());
    assert(slots.take(0) =~= Seq::empty());
    i = 0;
    while i < incoming.blocks.entries.len()
        invariant
            i <= incoming.blocks.entries.len(),
            slots == incoming.blocks@,
            views(content@) == finished_blocks(slots.take(i as int)),
            views(tool_calls@) == calls_among(views(content@)),
        decreases incoming.blocks.entries.len() - i,
    {
        assert(slots.take(i + 1).drop_last() =~= slots.take(i as int));
        assert(slots.take(i + 1).last().1 == incoming.blocks.entries@[i as int].1@);
        let ghost before = views(content@);
        match &incoming.blocks.entries[i].1 {
            PendingBlock::Text(value) => {
                if !value.as_str().is_empty() {
                    content.push(ContentBlock::Text(value.clone()));
                    assert(views(content@).drop_last() =~= before);
                }
            },
            PendingBlock::Reasoning(value) => {
                if !value.as_str().is_empty() {
                    content.push(ContentBlock::Reasoning(value.clone()));
                    assert(views(content@).drop_last() =~= before);
                }
            },
            PendingBlock::Tool(call) => {
                tool_calls.push(call.clone());
                content.push(ContentBlock::ToolCall(call.clone()));
                assert(views(content@).drop_last() =~= before);
            },
            PendingBlock::Ignore => {},
        }
        i += 1;
    }
    assert(slots.take(slots.len() as int) =~= slots);
    let usage = if incoming.has_usage {
        Some(incoming.usage)
    } else {
        None
    };
    let mut events = incoming.events;
    push_closing(&mut events, usage);
    Ok(
        Answer {
            turn: ModelTurn { blocks: content, tool_calls, usage, provider_state: None },
            events,
        },
    )
}

proof fn lemma_take_error(values: Seq<JsonView>, i: int)
    requires
        0 <= i <= values.len(),
        take_values(values.take(i)) is Err,
    ensures
        take_values(values) == take_values(values.take(i)),
    decreases values.len(),
{
    if i == values.len() {
        assert(values.take(i) =~= values);
    } else {
        assert(values.drop_last().take(i) =~= values.take(i));
        lemma_take_error(values.drop_last(), i);
    }
}

// ---------------------------------------------------------------------------
// Events as they happen

/// The events that one value of the stream causes, and after it the calls under
/// their slots.
pub open spec fn live_step(calls: Seq<(u64, Seq<char>)>, value: JsonView) -> (
    Seq<(u64, Seq<char>)>,
    Seq<EventView>,
) {
    let index = block_index(value);
    let kind = value.text_or_empty("type"@);
    let block = value.field("content_block"@);
    let delta = value.field("delta"@);
    if kind == "content_block_start"@ && block.text("type"@) == Some("tool_use"@) {
        let id = block.text_or_empty("id"@);
        let start = seq![EventView::ToolCallStart { id, name: block.text_or_empty("name"@) }];
        (
            fill_slot(calls, index, id),
            match block.get("input"@) {
                Some(v) => if is_empty_object(v) {
                    start
                } else {
                    start.push(EventView::ToolCallArgsDelta { id, delta: compact(v) })
                },
                None => start,
            },
        )
    } else if kind == "content_block_delta"@ {
        let part = delta.text_or_empty("type"@);
        if part == "text_delta"@ {
            (calls, seq![EventView::TextDelta { delta: delta.text_or_empty("text"@) }])
        } else if part == "thinking_delta"@ {
            (calls, seq![EventView::ReasoningDelta { delta: delta.text_or_empty("thinking"@) }])
        } else if part == "input_json_delta"@ {
            match slot_value(calls, index) {
                Some(id) => (
                    calls,
                    seq![
                        EventView::ToolCallArgsDelta {
                            id,
                            delta: delta.text_or_empty("partial_json"@),
                        },
                    ],
                ),
                None => (calls, Seq::empty()),
            }
        } else {
            (calls, Seq::empty())
        }
    } else if kind == "content_block_stop"@ {
        match slot_value(calls, index) {
            Some(id) => (calls, seq![EventView::ToolCallEnd { id }]),
            None => (calls, Seq::empty()),
        }
    } else if kind == "message_stop"@ {
        (calls, seq![EventView::Done])
    } else if kind == "error"@ {
        (calls, seq![EventView::Error { message: compact(value) }])
    } else {
        (calls, Seq::empty())
    }
}

/// The events that values of a stream cause one after another, with what is
/// kept of the calls.
pub open spec fn live_values(values: Seq<JsonView>) -> (Seq<(u64, Seq<char>)>, Seq<EventView>)
    decreases values.len(),
{
    if values.len() == 0 {
        (Seq::empty(), Seq::empty())
    } else {
        let (calls, events) = live_values(values.drop_last());
        let (after, more) = live_step(calls, values.last());
        (after, events + more)
    }
}

/// Whether what a value adds to a text or to reasoning meets a block of that
/// sort.
pub open spec fn is_placed(a: IncomingView, value: JsonView) -> bool {
    let block = slot_value(a.blocks, block_index(value));
    let delta = value.field("delta"@);
    value.text_or_empty("type"@) == "content_block_delta"@ ==> {
        &&& delta.text("type"@) == Some("text_delta"@) && delta.text_or_empty("text"@).len() > 0
            ==> (block matches Some(b) && b is Text)
        &&& delta.text("type"@) == Some("thinking_delta"@) && delta.text_or_empty(
            "thinking"@,
        ).len() > 0 ==> (block matches Some(b) && b is Reasoning)
    }
}

/// Whether all that the values of a stream add meets a block of its sort.
pub open spec fn all_placed(values: Seq<JsonView>) -> bool
    decreases values.len(),
{
    values.len() == 0 || (all_placed(values.drop_last()) && (take_values(
        values.drop_last(),
    ) matches Ok(a) ==> is_placed(a, values.last())))
}

proof fn lemma_step_told(a: IncomingView, calls: Seq<(u64, Seq<char>)>, value: JsonView)
    requires
        is_placed(a, value),
        take_value(a, value) is Ok,
    ensures
        ({
            let b = take_value(a, value)->Ok_0;
            let more = live_step(calls, value).1;
            said(b.events) == said(a.events) + said(more) && thought(b.events) == thought(a.events)
                + thought(more)
        }),
{
    let b = take_value(a, value)->Ok_0;
    let more = live_step(calls, value).1;
    let kind = value.text_or_empty("type"@);
    let block = value.field("content_block"@);
    let delta = value.field("delta"@);
    let slot = slot_value(a.blocks, block_index(value));
    lemma_kinds_differ();
    reveal_with_fuel(said, 3);
    reveal_with_fuel(thought, 3);
    assert(said(a.events) + Seq::empty() =~= said(a.events));
    assert(thought(a.events) + Seq::empty() =~= thought(a.events));
    if b.events.len() == a.events.len() + 1 {
        assert(b.events =~= a.events.push(b.events.last()));
        assert(b.events.drop_last() =~= a.events);
    }
    if kind == "content_block_start"@ {
        let begun = begin_events(call_of(block));
        lemma_told(a.events, begun);
        assert(said(begun) =~= Seq::empty());
        assert(thought(begun) =~= Seq::empty());
        assert(said(more) =~= Seq::empty());
        assert(thought(more) =~= Seq::empty());
    } else if kind == "content_block_delta"@ {
        let text = delta.text_or_empty("text"@);
        let reasoning = delta.text_or_empty("thinking"@);
        assert(Seq::<char>::empty() + text =~= text);
        assert(Seq::<char>::empty() + reasoning =~= reasoning);
        if delta.text("type"@) == Some("text_delta"@) {
            assert(said(more) == text);
            if !(slot matches Some(p) && p is Text) {
                assert(text =~= Seq::empty());
            }
        } else if delta.text("type"@) == Some("thinking_delta"@) {
            assert(thought(more) == reasoning);
            if !(slot matches Some(p) && p is Reasoning) {
                assert(reasoning =~= Seq::empty());
            }
        } else {
            assert(said(more) =~= Seq::empty());
            assert(thought(more) =~= Seq::empty());
        }
    } else {
        assert(said(more) =~= Seq::empty());
        assert(thought(more) =~= Seq::empty());
    }
}

/// The kinds of values and of deltas differ from each other.
proof fn lemma_kinds_differ()
    ensures
        "content_block_start"@ != "content_block_delta"@,
        "content_block_start"@ != "content_block_stop"@,
        "content_block_start"@ != "message_stop"@,
        "content_block_start"@ != "message_start"@,
        "content_block_start"@ != "error"@,
        "content_block_delta"@ != "message_start"@,
        "text_delta"@ != "thinking_delta"@,
        "text_delta"@ != "input_json_delta"@,
        "thinking_delta"@ != "input_json_delta"@,
        "text_delta"@ != Seq::<char>::empty(),
        "thinking_delta"@ != Seq::<char>::empty(),
{
    reveal_strlit("content_block_start");
    reveal_strlit("content_block_delta");
    reveal_strlit("content_block_stop");
    reveal_strlit("message_start");
    reveal_strlit("message_stop");
    reveal_strlit("error");
    reveal_strlit("text_delta");
    reveal_strlit("thinking_delta");
    reveal_strlit("input_json_delta");
    assert("content_block_start"@[14] == 's');
    assert("content_block_delta"@[14] == 'd');
    assert("content_block_start"@.len() == 19);
    assert("content_block_delta"@.len() == 19);
    assert("content_block_stop"@.len() == 18);
    assert("message_start"@.len() == 13);
    assert("message_stop"@.len() == 12);
    assert("error"@.len() == 5);
    assert("text_delta"@.len() == 10);
    assert("thinking_delta"@.len() == 14);
    assert("input_json_delta"@.len() == 16);
}

proof fn lemma_shown(values: Seq<JsonView>)
    requires
        all_placed(values),
    ensures
        take_values(values) matches Ok(a) ==> said(live_values(values).1) == said(a.events)
            && thought(live_values(values).1) == thought(a.events),
    decreases values.len(),
{
    if values.len() > 0 {
        lemma_shown(values.drop_last());
        if let Ok(a) = take_values(values.drop_last()) {
            if take_value(a, values.last()) is Ok {
                let (calls, events) = live_values(values.drop_last());
                lemma_step_told(a, calls, values.last());
                lemma_told(events, live_step(calls, values.last()).1);
            }
        }
    }
}

/// What is shown of an answer while it comes in is what the answer tells of, as
/// long as each piece meets a block of its sort: its text and its reasoning,
/// each piece by piece.
pub proof fn law_shown_is_told(values: Seq<JsonView>)
    requires
        all_placed(values),
    ensures
        answer_of(values) matches Ok(a) ==> said(live_values(values).1) == said(a.events)
            && thought(live_values(values).1) == thought(a.events),
{
    lemma_shown(values);
    if let Ok(a) = take_values(values) {
        let usage = if a.has_usage {
            Some(a.usage)
        } else {
            None
        };
        let closing = closing_events(usage);
        lemma_told(a.events, closing);
        reveal_with_fuel(said, 3);
        reveal_with_fuel(thought, 3);
        assert(said(closing) =~= Seq::empty());
        assert(thought(closing) =~= Seq::empty());
        assert(said(a.events) + Seq::empty() =~= said(a.events));
        assert(thought(a.events) + Seq::empty() =~= thought(a.events));
    }
}

/// The calls of an answer while it is shown, under their slots.
pub struct AnthropicLive {
    pub calls: Slots<String>,
}

impl Default for AnthropicLive {
    fn default() -> (r: AnthropicLive)
        ensures
            r.calls@.len() == 0,
    {
        AnthropicLive { calls: Slots::new() }
    }
}

impl AnthropicLive {
    /// The events that one value of the stream causes.
    pub fn emit(&mut self, value: &Json) -> (r: Vec<StreamEvent>)
        ensures
            (final(self).calls@, views(r@)) == live_step(old(self).calls@, value@),
    {
        let ghost expected = live_step(self.calls@, value@);
        let mut events = no_events();
        let index: u64 = read_index(value);
        let kind = value.text_or_empty("type");
        let block = copy_field(value, "content_block");
        let delta = copy_field(value, "delta");
        let begins_call = match block.get("type") {
            Some(v) => v.is_text("tool_use"),
            None => false,
        };
        assert(begins_call == (block@.text("type"@) == Some("tool_use"@)));
        if same(&kind, "content_block_start") && begins_call {
            let id = block.text_or_empty("id");
            push_event(
                &mut events,
                StreamEvent::ToolCallStart { id: id.clone(), name: block.text_or_empty("name") },
            );
            if let Some(v) = block.get("input") {
                if !holds_nothing(v) {
                    push_event(
                        &mut events,
                        StreamEvent::ToolCallArgsDelta { id: id.clone(), delta: compact_text(v) },
                    );
                }
            }
            self.calls.fill(index, id);
        } else if same(&kind, "content_block_delta") {
            let part = delta.text_or_empty("type");
            if same(&part, "text_delta") {
                push_event(
                    &mut events,
                    StreamEvent::TextDelta { delta: delta.text_or_empty("text") },
                );
            } else if same(&part, "thinking_delta") {
                push_event(
                    &mut events,
                    StreamEvent::ReasoningDelta { delta: delta.text_or_empty("thinking") },
                );
            } else if same(&part, "input_json_delta") {
                if let Some(id) = self.calls.get(index) {
                    push_event(
                        &mut events,
                        StreamEvent::ToolCallArgsDelta {
                            id: id.clone(),
                            delta: delta.text_or_empty("partial_json"),
                        },
                    );
                }
            }
        } else if same(&kind, "content_block_stop") {
            if let Some(id) = self.calls.get(index) {
                push_event(&mut events, StreamEvent::ToolCallEnd { id: id.clone() });
            }
        } else if same(&kind, "message_stop") {
            push_event(&mut events, StreamEvent::Done);
        } else if same(&kind, "error") {
            push_event(&mut events, StreamEvent::Error { message: compact_text(value) });
        }
        assert(views(events@) =~= expected.1);
        events
    }
}

// ---------------------------------------------------------------------------
// How an answer grows

/// The kinds of values differ.
proof fn lemma_kinds()
    ensures
        "content_block_delta"@ != "content_block_start"@,
        "content_block_delta"@ != "content_block_stop"@,
        "content_block_delta"@ != "error"@,
        "content_block_delta"@ != "message_delta"@,
        "content_block_delta"@ != "message_start"@,
        "content_block_delta"@ != "message_stop"@,
        "content_block_start"@ != "content_block_stop"@,
        "content_block_start"@ != "error"@,
        "content_block_start"@ != "message_delta"@,
        "content_block_start"@ != "message_start"@,
        "content_block_start"@ != "message_stop"@,
        "content_block_stop"@ != "error"@,
        "content_block_stop"@ != "message_delta"@,
        "content_block_stop"@ != "message_start"@,
        "content_block_stop"@ != "message_stop"@,
        "error"@ != "message_delta"@,
        "error"@ != "message_start"@,
        "error"@ != "message_stop"@,
        "input_json_delta"@ != "text_delta"@,
        "input_json_delta"@ != "thinking_delta"@,
        "message_delta"@ != "message_start"@,
        "message_delta"@ != "message_stop"@,
        "message_start"@ != "message_stop"@,
        "redacted_thinking"@ != "text"@,
        "redacted_thinking"@ != "thinking"@,
        "redacted_thinking"@ != "tool_use"@,
        "text"@ != "thinking"@,
        "text"@ != "tool_use"@,
        "text_delta"@ != "thinking_delta"@,
        "thinking"@ != "tool_use"@,
{
    reveal_strlit("content_block_delta");
    reveal_strlit("content_block_start");
    reveal_strlit("content_block_stop");
    reveal_strlit("error");
    reveal_strlit("input_json_delta");
    reveal_strlit("message_delta");
    reveal_strlit("message_start");
    reveal_strlit("message_stop");
    reveal_strlit("redacted_thinking");
    reveal_strlit("text");
    reveal_strlit("text_delta");
    reveal_strlit("thinking");
    reveal_strlit("thinking_delta");
    reveal_strlit("tool_use");
    assert("content_block_delta"@[14] != "content_block_start"@[14]);
    assert("content_block_delta"@.len() != "content_block_stop"@.len());
    assert("content_block_delta"@.len() != "error"@.len());
    assert("content_block_delta"@.len() != "message_delta"@.len());
    assert("content_block_delta"@.len() != "message_start"@.len());
    assert("content_block_delta"@.len() != "message_stop"@.len());
    assert("content_block_start"@.len() != "content_block_stop"@.len());
    assert("content_block_start"@.len() != "error"@.len());
    assert("content_block_start"@.len() != "message_delta"@.len());
    assert("content_block_start"@.len() != "message_start"@.len());
    assert("content_block_start"@.len() != "message_stop"@.len());
    assert("content_block_stop"@.len() != "error"@.len());
    assert("content_block_stop"@.len() != "message_delta"@.len());
    assert("content_block_stop"@.len() != "message_start"@.len());
    assert("content_block_stop"@.len() != "message_stop"@.len());
    assert("error"@.len() != "message_delta"@.len());
    assert("error"@.len() != "message_start"@.len());
    assert("error"@.len() != "message_stop"@.len());
    assert("input_json_delta"@.len() != "text_delta"@.len());
    assert("input_json_delta"@.len() != "thinking_delta"@.len());
    assert("message_delta"@[8] != "message_start"@[8]);
    assert("message_delta"@.len() != "message_stop"@.len());
    assert("message_start"@.len() != "message_stop"@.len());
    assert("redacted_thinking"@.len() != "text"@.len());
    assert("redacted_thinking"@.len() != "thinking"@.len());
    assert("redacted_thinking"@.len() != "tool_use"@.len());
    assert("text"@.len() != "thinking"@.len());
    assert("text"@.len() != "tool_use"@.len());
    assert("text_delta"@.len() != "thinking_delta"@.len());
    assert("thinking"@[1] != "tool_use"@[1]);
}

proof fn lemma_blocks_in_slots(values: Seq<JsonView>)
    ensures
        take_values(values) matches Ok(a) ==> in_slots(a.blocks),
    decreases values.len(),
{
    if values.len() > 0 {
        lemma_blocks_in_slots(values.drop_last());
        if let Ok(a) = take_values(values.drop_last()) {
            lemma_value_in_slots(a, values.last(), 0);
        }
    }
}

proof fn lemma_value_in_slots(a: IncomingView, value: JsonView, other: u64)
    requires
        in_slots(a.blocks),
    ensures
        take_value(a, value) matches Ok(b) ==> in_slots(b.blocks) && (other != block_index(value)
            ==> slot_value(b.blocks, other) == slot_value(a.blocks, other)),
{
    let index = block_index(value);
    if let Ok(b) = take_value(a, value) {
        if b.blocks != a.blocks {
            let kind = value.text_or_empty("type"@);
            let block = value.field("content_block"@);
            let delta = value.field("delta"@);
            if kind == "content_block_start"@ {
                law_slots_are_filled(
                    a.blocks,
                    index,
                    PendingView::Text(block.text_or_empty("text"@)),
                    other,
                );
                law_slots_are_filled(
                    a.blocks,
                    index,
                    PendingView::Reasoning(block.text_or_empty("thinking"@)),
                    other,
                );
                law_slots_are_filled(a.blocks, index, PendingView::Tool(call_of(block)), other);
                law_slots_are_filled(a.blocks, index, PendingView::Ignore, other);
            } else {
                match slot_value(a.blocks, index) {
                    Some(PendingView::Text(text)) => {
                        let part = delta.text_or_empty("text"@);
                        law_slots_are_filled(
                            a.blocks,
                            index,
                            PendingView::Text(text + part),
                            other,
                        );
                    },
                    Some(PendingView::Reasoning(text)) => {
                        let part = delta.text_or_empty("thinking"@);
                        law_slots_are_filled(
                            a.blocks,
                            index,
                            PendingView::Reasoning(text + part),
                            other,
                        );
                    },
                    Some(PendingView::Tool(call)) => {
                        let part = delta.text_or_empty("partial_json"@);
                        law_slots_are_filled(
                            a.blocks,
                            index,
                            PendingView::Tool(
                                ToolCallView { arguments: call.arguments + part, ..call },
                            ),
                            other,
                        );
                    },
                    _ => {},
                }
            }
        }
    }
}

/// A block of an answer begins as its kind, and grows by the pieces that come for
/// its index, each after the others; the other blocks stay. An error ends the
/// answer with it.
pub proof fn law_values_grow_their_block(values: Seq<JsonView>, value: JsonView, other: u64)
    requires
        take_values(values) is Ok,
    ensures
        ({
            let s = take_values(values)->Ok_0;
            let kind = value.text_or_empty("type"@);
            let index = match value.natural("index"@) {
                Some(i) => i,
                None => 0,
            };
            let block = value.field("content_block"@);
            let begun = block.text_or_empty("type"@);
            let delta = value.field("delta"@);
            let part = delta.text_or_empty("type"@);
            if kind == "error"@ {
                take_values(values.push(value)) == Err::<IncomingView, Seq<char>>(
                    "provider error: "@ + compact(value.field("error"@)),
                )
            } else {
                take_values(values.push(value)) matches Ok(t) && {
                    let new = slot_value(t.blocks, index);
                    &&& in_slots(t.blocks)
                    &&& other != index ==> slot_value(t.blocks, other) == slot_value(
                        s.blocks,
                        other,
                    )
                    &&& kind != "content_block_start"@ && kind != "content_block_delta"@ ==> t.blocks
                        == s.blocks
                    &&& kind == "content_block_start"@ ==> {
                        &&& begun == "text"@ ==> new == Some(
                            PendingView::Text(block.text_or_empty("text"@)),
                        )
                        &&& begun == "thinking"@ || begun == "redacted_thinking"@ ==> new == Some(
                            PendingView::Reasoning(block.text_or_empty("thinking"@)),
                        )
                        &&& begun == "tool_use"@ ==> (new matches Some(PendingView::Tool(call)) && {
                            &&& call.id == block.text_or_empty("id"@)
                            &&& call.name == block.text_or_empty("name"@)
                            &&& match block.get("input"@) {
                                None => call.arguments.len() == 0,
                                Some(JsonView::Object(fields)) => if fields.len() == 0 {
                                    call.arguments.len() == 0
                                } else {
                                    call.arguments == compact(block.field("input"@))
                                },
                                Some(input) => call.arguments == compact(input),
                            }
                        })
                    }
                    &&& kind == "content_block_delta"@ ==> match slot_value(s.blocks, index) {
                        Some(PendingView::Text(text)) => new == Some(
                            PendingView::Text(
                                if part == "text_delta"@ {
                                    text + delta.text_or_empty("text"@)
                                } else {
                                    text
                                },
                            ),
                        ),
                        Some(PendingView::Reasoning(text)) => new == Some(
                            PendingView::Reasoning(
                                if part == "thinking_delta"@ {
                                    text + delta.text_or_empty("thinking"@)
                                } else {
                                    text
                                },
                            ),
                        ),
                        Some(PendingView::Tool(call)) => new == Some(
                            PendingView::Tool(
                                ToolCallView {
                                    arguments: if part == "input_json_delta"@ {
                                        call.arguments + delta.text_or_empty("partial_json"@)
                                    } else {
                                        call.arguments
                                    },
                                    ..call
                                },
                            ),
                        ),
                        _ => t.blocks == s.blocks,
                    }
                }
            }
        }),
        take_values(Seq::<JsonView>::empty()) matches Ok(none) && none.blocks.len() == 0
            && none.events.len() == 0 && !none.has_usage,
{
    let more = values.push(value);
    assert(more.drop_last() =~= values);
    lemma_kinds();
    lemma_blocks_in_slots(values);
    let s = take_values(values)->Ok_0;
    lemma_value_in_slots(s, value, other);
    let index = block_index(value);
    let block = value.field("content_block"@);
    let delta = value.field("delta"@);
    law_slots_are_filled(s.blocks, index, PendingView::Text(block.text_or_empty("text"@)), index);
    law_slots_are_filled(
        s.blocks,
        index,
        PendingView::Reasoning(block.text_or_empty("thinking"@)),
        index,
    );
    law_slots_are_filled(s.blocks, index, PendingView::Tool(call_of(block)), index);
    reveal_strlit("");
    match slot_value(s.blocks, index) {
        Some(PendingView::Text(text)) => {
            law_slots_are_filled(
                s.blocks,
                index,
                PendingView::Text(text + delta.text_or_empty("text"@)),
                index,
            );
        },
        Some(PendingView::Reasoning(text)) => {
            law_slots_are_filled(
                s.blocks,
                index,
                PendingView::Reasoning(text + delta.text_or_empty("thinking"@)),
                index,
            );
        },
        Some(PendingView::Tool(call)) => {
            let part = delta.text_or_empty("partial_json"@);
            law_slots_are_filled(
                s.blocks,
                index,
                PendingView::Tool(ToolCallView { arguments: call.arguments + part, ..call }),
                index,
            );
        },
        _ => {},
    }
    lemma_delta_kinds(delta);
}

proof fn lemma_delta_kinds(delta: JsonView)
    ensures
        delta.text("type"@) == Some("text_delta"@) <==> delta.text_or_empty("type"@)
            == "text_delta"@,
        delta.text("type"@) == Some("thinking_delta"@) <==> delta.text_or_empty("type"@)
            == "thinking_delta"@,
        delta.text("type"@) == Some("input_json_delta"@) <==> delta.text_or_empty("type"@)
            == "input_json_delta"@,
{
    reveal_strlit("text_delta");
    reveal_strlit("thinking_delta");
    reveal_strlit("input_json_delta");
    assert("text_delta"@.len() > 0);
    assert("thinking_delta"@.len() > 0);
    assert("input_json_delta"@.len() > 0);
}

/// What is left of a block once an answer is complete, if something is.
pub open spec fn left_of_block() -> spec_fn((u64, PendingView)) -> Option<BlockView> {
    |b: (u64, PendingView)|
        match b.1 {
            PendingView::Text(text) => if text.len() == 0 {
                None
            } else {
                Some(BlockView::Text(text))
            },
            PendingView::Reasoning(text) => if text.len() == 0 {
                None
            } else {
                Some(BlockView::Reasoning(text))
            },
            PendingView::Tool(call) => Some(BlockView::ToolCall(call)),
            PendingView::Ignore => None,
        }
}

proof fn lemma_finished(blocks: Seq<(u64, PendingView)>)
    ensures
        picks(blocks, finished_blocks(blocks), left_of_block()),
    decreases blocks.len(),
{
    if blocks.len() == 0 {
        lemma_picks_nothing(blocks, left_of_block());
    } else {
        lemma_finished(blocks.drop_last());
        lemma_picks_last(blocks, finished_blocks(blocks.drop_last()), left_of_block());
    }
}

proof fn lemma_calls_among(blocks: Seq<BlockView>)
    ensures
        picks(blocks, calls_among(blocks), call_of_block()),
    decreases blocks.len(),
{
    if blocks.len() == 0 {
        lemma_picks_nothing(blocks, call_of_block());
    } else {
        lemma_calls_among(blocks.drop_last());
        lemma_picks_last(blocks, calls_among(blocks.drop_last()), call_of_block());
    }
}

/// An answer holds its blocks in the order of their indexes, but for those that
/// hold nothing; its calls are those of its blocks. It ends with what was counted
/// and with the word that all is done.
pub proof fn law_answers_hold_their_blocks(values: Seq<JsonView>)
    ensures
        answer_of(values) is Ok <==> take_values(values) is Ok,
        answer_of(values) matches Err(e) ==> take_values(values) == Err::<IncomingView, Seq<char>>(e),
        answer_of(values) matches Ok(a) ==> ({
            let s = take_values(values)->Ok_0;
            &&& in_slots(s.blocks)
            &&& picks(s.blocks, a.turn.blocks, left_of_block())
            &&& picks(a.turn.blocks, a.turn.tool_calls, call_of_block())
            &&& a.turn.usage == if s.has_usage {
                Some(s.usage)
            } else {
                None
            }
            &&& a.events.last() == EventView::Done
            &&& a.turn.usage matches Some(u) ==> a.events[a.events.len() - 2] == EventView::Usage(u)
        }),
{
    lemma_blocks_in_slots(values);
    if let Ok(a) = take_values(values) {
        lemma_finished(a.blocks);
        lemma_calls_among(finished_blocks(a.blocks));
    }
}

/// What was read is counted at the start of an answer, and what was written at
/// its end; each count stays until it comes again.
pub proof fn law_usage_comes_in_two_parts(values: Seq<JsonView>, value: JsonView)
    requires
        take_values(values) is Ok,
        take_values(values.push(value)) is Ok,
    ensures
        ({
            let s = take_values(values)->Ok_0;
            let t = take_values(values.push(value))->Ok_0;
            let kind = value.text_or_empty("type"@);
            let read = value.field("message"@).field("usage"@);
            &&& kind == "message_start"@ ==> {
                &&& t.usage.input_tokens == read.natural("input_tokens"@)
                &&& t.usage.cached_tokens == read.natural("cache_read_input_tokens"@)
                &&& t.usage.output_tokens == s.usage.output_tokens
                &&& t.has_usage
            }
            &&& kind == "message_delta"@ ==> {
                &&& t.usage.output_tokens == value.field("usage"@).natural("output_tokens"@)
                &&& t.usage.input_tokens == s.usage.input_tokens
                &&& t.usage.cached_tokens == s.usage.cached_tokens
                &&& t.has_usage
            }
            &&& kind != "message_start"@ && kind != "message_delta"@ ==> t.usage == s.usage
                && t.has_usage == s.has_usage
            &&& t.usage.cache_write_tokens == s.usage.cache_write_tokens
            &&& t.usage.total_tokens == s.usage.total_tokens
        }),
{
    assert(values.push(value).drop_last() =~= values);
    lemma_kinds();
}

/// Every value adds at the end of what is told: the pieces of what is said and
/// thought, the start of a call with its id and its name, the pieces of its
/// arguments, and its end.
pub proof fn law_values_are_told_as_they_come(values: Seq<JsonView>, value: JsonView)
    requires
        take_values(values) is Ok,
        take_values(values.push(value)) is Ok,
    ensures
        ({
            let s = take_values(values)->Ok_0;
            let t = take_values(values.push(value))->Ok_0;
            let n = s.events.len() as int;
            let kind = value.text_or_empty("type"@);
            let index = match value.natural("index"@) {
                Some(i) => i,
                None => 0,
            };
            let delta = value.field("delta"@);
            let part = delta.text_or_empty("type"@);
            let old = slot_value(s.blocks, index);
            let new = slot_value(t.blocks, index);
            &&& t.events.len() >= n && t.events.take(n) == s.events
            &&& kind == "content_block_delta"@ && part == "text_delta"@ && (old matches Some(b)
                && b is Text) ==> t.events.skip(n) == seq![
                EventView::TextDelta { delta: delta.text_or_empty("text"@) },
            ]
            &&& kind == "content_block_delta"@ && part == "thinking_delta"@ && (old matches Some(b)
                && b is Reasoning) ==> t.events.skip(n) == seq![
                EventView::ReasoningDelta { delta: delta.text_or_empty("thinking"@) },
            ]
            &&& kind == "content_block_delta"@ && part == "input_json_delta"@ ==> (
            old matches Some(PendingView::Tool(call)) ==> t.events.skip(n) == seq![
                EventView::ToolCallArgsDelta {
                    id: call.id,
                    delta: delta.text_or_empty("partial_json"@),
                },
            ])
            &&& kind == "content_block_start"@ && value.field("content_block"@).text_or_empty(
                "type"@,
            ) == "tool_use"@ ==> (new matches Some(PendingView::Tool(call)) && {
                let start = EventView::ToolCallStart { id: call.id, name: call.name };
                &&& call.arguments.len() == 0 ==> t.events.skip(n) == seq![start]
                &&& call.arguments.len() > 0 ==> t.events.skip(n) == seq![
                    start,
                    EventView::ToolCallArgsDelta { id: call.id, delta: call.arguments },
                ]
            })
            &&& kind == "content_block_stop"@ ==> match old {
                Some(PendingView::Tool(call)) => t.events.skip(n) == seq![
                    EventView::ToolCallEnd { id: call.id },
                ],
                _ => t.events == s.events,
            }
            &&& kind == "message_start"@ || kind == "message_delta"@ || kind == "message_stop"@
                ==> t.events == s.events
        }),
{
    assert(values.push(value).drop_last() =~= values);
    lemma_kinds();
    lemma_delta_kinds(value.field("delta"@));
    law_values_grow_their_block(values, value, 0);
    let s = take_values(values)->Ok_0;
    let t = take_values(values.push(value))->Ok_0;
    let n = s.events.len() as int;
    assert(t.events.take(n) =~= s.events);
    let more = t.events.skip(n);
    if more.len() == 1 {
        assert(more =~= seq![t.events[n]]);
    } else if more.len() == 2 {
        assert(more =~= seq![t.events[n], t.events[n + 1]]);
    }
}

/// A call is shown under its id from its start to its end: the pieces of its
/// arguments and its end come with the number of its block alone. Blocks that are no
/// calls have no end of their own.
pub proof fn law_calls_are_shown_under_their_id(
    calls: Seq<(u64, Seq<char>)>,
    start: JsonView,
    piece: JsonView,
    stop: JsonView,
)
    requires
        in_slots(calls),
        start.text("type"@) == Some("content_block_start"@),
        start.field("content_block"@).text("type"@) == Some("tool_use"@),
        piece.text("type"@) == Some("content_block_delta"@),
        piece.field("delta"@).text("type"@) == Some("input_json_delta"@),
        stop.text("type"@) == Some("content_block_stop"@),
    ensures
        ({
            let block = start.field("content_block"@);
            let id = block.text_or_empty("id"@);
            let (after, events) = live_step(calls, start);
            let same_piece = block_index(piece) == block_index(start);
            let same_stop = block_index(stop) == block_index(start);
            &&& in_slots(after)
            &&& events.len() > 0 && events[0] == (EventView::ToolCallStart {
                id,
                name: block.text_or_empty("name"@),
            })
            &&& (match block.get("input"@) {
                None => events.len() == 1,
                Some(JsonView::Object(fields)) => if fields.len() == 0 {
                    events.len() == 1
                } else {
                    events.len() == 2 && events[1] == (EventView::ToolCallArgsDelta {
                        id,
                        delta: compact(block.field("input"@)),
                    })
                },
                Some(input) => events.len() == 2 && events[1] == (EventView::ToolCallArgsDelta {
                    id,
                    delta: compact(input),
                }),
            })
            &&& same_piece ==> live_step(after, piece) == (
                after,
                seq![
                    EventView::ToolCallArgsDelta {
                        id,
                        delta: piece.field("delta"@).text_or_empty("partial_json"@),
                    },
                ],
            )
            &&& same_stop ==> live_step(after, stop) == (after, seq![EventView::ToolCallEnd { id }])
            &&& !same_piece ==> live_step(after, piece).1 == live_step(calls, piece).1
            &&& !same_stop ==> live_step(after, stop).1 == live_step(calls, stop).1
        }),
        live_step(Seq::empty(), stop).1 == Seq::<EventView>::empty(),
{
    lemma_kinds();
    lemma_kinds_differ();
    let id = start.field("content_block"@).text_or_empty("id"@);
    law_slots_are_filled(calls, block_index(start), id, block_index(piece));
    law_slots_are_filled(calls, block_index(start), id, block_index(stop));
}

/// Text and reasoning are shown as they come; the end of the message ends the
/// answer, and an error is shown as it is. Nothing else changes what is known of the
/// calls.
pub proof fn law_values_are_shown_as_they_come(calls: Seq<(u64, Seq<char>)>, value: JsonView)
    ensures
        ({
            let kind = value.text_or_empty("type"@);
            let delta = value.field("delta"@);
            let part = delta.text_or_empty("type"@);
            let (after, events) = live_step(calls, value);
            &&& kind == "content_block_delta"@ && part == "text_delta"@ ==> events == seq![
                EventView::TextDelta { delta: delta.text_or_empty("text"@) },
            ]
            &&& kind == "content_block_delta"@ && part == "thinking_delta"@ ==> events == seq![
                EventView::ReasoningDelta { delta: delta.text_or_empty("thinking"@) },
            ]
            &&& kind == "message_stop"@ ==> events == seq![EventView::Done]
            &&& kind == "error"@ ==> events == seq![EventView::Error { message: compact(value) }]
            &&& kind != "content_block_start"@ ==> after == calls
            &&& kind != "content_block_start"@ && kind != "content_block_delta"@ && kind
                != "content_block_stop"@ && kind != "message_stop"@ && kind != "error"@
                ==> events.len() == 0
        }),
{
    lemma_kinds();
    lemma_kinds_differ();
}

} // verus!
