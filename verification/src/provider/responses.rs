//! The Responses protocol.
use vstd::prelude::*;
use vstd::string::*;

use crate::config::{ProviderConfig, ProviderView};
use crate::json::{
    Json, JsonView, compact, compact_text, lemma_object_view, list_json, natural_json, object2,
    object3, object4, object_json, text_json,
};
use crate::model::{
    BlockView, ContentBlock, EventView, MessageView, ModelMessage, ModelRequest, ModelTurn,
    RequestView, Role, StreamEvent, ToolCall, ToolCallView, ToolResultView, TurnView, Usage,
    law_texts_of_blocks, text_of_block, text_parts,
};
use crate::provider::{
    Answer, AnswerView, answer_blocks, append_events, append_values, call_of_block, closing_events,
    detail, find_detail, law_fields_are_merged, lemma_fields2, lemma_fields3, lemma_fields4,
    lemma_told, make_blocks, merge_request_fields, merged_fields, message_text, no_events,
    offered_tools, push_closing, push_event, result_of_block, said, text_blocks, thought,
    tool_definitions,
};
use crate::seqs::{lemma_picks_last, lemma_picks_nothing, picks};
use crate::table::{entry_of, find_key, law_with_entry, lemma_key_at, pairs, set_entry, with_entry};
use crate::text::{
    decimal, joined, law_decimal_is_read_back, lemma_views_push, outcome, same, views,
};

verus! {

// ---------------------------------------------------------------------------
// Requests

/// A spoken text as an item.
pub open spec fn spoken_item(role: Seq<char>, text: Seq<char>) -> Seq<JsonView> {
    if text.len() == 0 {
        Seq::empty()
    } else {
        seq![
            JsonView::Object(
                seq![("role"@, JsonView::Str(role)), ("content"@, JsonView::Str(text))],
            ),
        ]
    }
}

/// The calls among blocks, each as an item.
pub open spec fn call_items(blocks: Seq<BlockView>) -> Seq<JsonView>
    decreases blocks.len(),
{
    if blocks.len() == 0 {
        Seq::empty()
    } else {
        match blocks.last() {
            BlockView::ToolCall(call) => call_items(blocks.drop_last()).push(
                JsonView::Object(
                    seq![
                        ("type"@, JsonView::Str("function_call"@)),
                        ("call_id"@, JsonView::Str(call.id)),
                        ("name"@, JsonView::Str(call.name)),
                        ("arguments"@, JsonView::Str(call.arguments)),
                    ],
                ),
            ),
            _ => call_items(blocks.drop_last()),
        }
    }
}

/// The results among blocks, each as an item.
pub open spec fn result_items(blocks: Seq<BlockView>) -> Seq<JsonView>
    decreases blocks.len(),
{
    if blocks.len() == 0 {
        Seq::empty()
    } else {
        match blocks.last() {
            BlockView::ToolResult(result) => result_items(blocks.drop_last()).push(
                JsonView::Object(
                    seq![
                        ("type"@, JsonView::Str("function_call_output"@)),
                        ("call_id"@, JsonView::Str(result.call_id)),
                        ("output"@, JsonView::Str(result.output)),
                    ],
                ),
            ),
            _ => result_items(blocks.drop_last()),
        }
    }
}

/// The items that one message is sent as.
pub open spec fn items_of(message: MessageView) -> Seq<JsonView> {
    match message.role {
        Role::User => spoken_item("user"@, message_text(message.blocks)),
        Role::Assistant => spoken_item("assistant"@, message_text(message.blocks)) + call_items(
            message.blocks,
        ),
        Role::Tool => result_items(message.blocks),
        Role::System => Seq::empty(),
    }
}

/// The items that messages are sent as.
pub open spec fn all_items(messages: Seq<MessageView>) -> Seq<JsonView>
    decreases messages.len(),
{
    if messages.len() == 0 {
        Seq::empty()
    } else {
        all_items(messages.drop_last()) + items_of(messages.last())
    }
}

/// The tools, each marked as a function.
pub open spec fn marked_tools(tools: Seq<JsonView>) -> Seq<JsonView> {
    Seq::new(
        tools.len(),
        |i: int|
            match tools[i] {
                JsonView::Object(entries) => JsonView::Object(
                    with_entry(entries, "type"@, JsonView::Str("function"@)),
                ),
                other => other,
            },
    )
}

/// The body of a request.
pub open spec fn body_of(config: ProviderView, request: RequestView) -> JsonView {
    let body = merged_fields(Seq::empty(), config.request);
    let body = with_entry(body, "model"@, JsonView::Str(config.model));
    let body = with_entry(
        body,
        "max_output_tokens"@,
        JsonView::Number(decimal(config.max_tokens as nat)),
    );
    let body = with_entry(body, "instructions"@, JsonView::Str(request.system_prompt));
    let body = with_entry(body, "input"@, JsonView::List(all_items(request.messages)));
    let body = with_entry(body, "tools"@, JsonView::List(marked_tools(offered_tools())));
    JsonView::Object(with_entry(body, "stream"@, JsonView::Bool(true)))
}

fn make_spoken_item(role: &str, text: String) -> (r: Vec<Json>)
    ensures
        views(r@) == spoken_item(role@, text@),
{
    let mut r: Vec<Json> = Vec::new();
    if !text.as_str().is_empty() {
        r.push(object2("role", text_json(role), "content", Json::Str(text)));
    }
    assert(views(r@) =~= spoken_item(role@, text@));
    r
}

fn make_call_items(blocks: &Vec<ContentBlock>) -> (r: Vec<Json>)
    ensures
        views(r@) == call_items(views(blocks@)),
{
    broadcast use lemma_views_push;

    let ghost all = views(blocks@);
    let mut r: Vec<Json> = Vec::new();
    assert(views(r@) =~= Seq::empty());
    assert(all.take(0) =~= Seq::empty());
    let mut i: usize = 0;
    while i < blocks.len()
        invariant
            i <= blocks.len(),
            all == views(blocks@),
            views(r@) == call_items(all.take(i as int)),
        decreases blocks.len() - i,
    {
        assert(all.take(i + 1).drop_last() =~= all.take(i as int));
        assert(all.take(i + 1).last() == blocks@[i as int]@);
        match &blocks[i] {
            ContentBlock::ToolCall(call) => {
                r.push(
                    object4(
                        "type",
                        text_json("function_call"),
                        "call_id",
                        text_json(&call.id),
                        "name",
                        text_json(&call.name),
                        "arguments",
                        text_json(&call.arguments),
                    ),
                );
            },
            _ => {},
        }
        i += 1;
    }
    assert(all.take(all.len() as int) =~= all);
    r
}

fn make_result_items(blocks: &Vec<ContentBlock>) -> (r: Vec<Json>)
    ensures
        views(r@) == result_items(views(blocks@)),
{
    broadcast use lemma_views_push;

    let ghost all = views(blocks@);
    let mut r: Vec<Json> = Vec::new();
    assert(views(r@) =~= Seq::empty());
    assert(all.take(0) =~= Seq::empty());
    let mut i: usize = 0;
    while i < blocks.len()
        invariant
            i <= blocks.len(),
            all == views(blocks@),
            views(r@) == result_items(all.take(i as int)),
        decreases blocks.len() - i,
    {
        assert(all.take(i + 1).drop_last() =~= all.take(i as int));
        assert(all.take(i + 1).last() == blocks@[i as int]@);
        match &blocks[i] {
            ContentBlock::ToolResult(result) => {
                r.push(
                    object3(
                        "type",
                        text_json("function_call_output"),
                        "call_id",
                        text_json(&result.call_id),
                        "output",
                        text_json(&result.output),
                    ),
                );
            },
            _ => {},
        }
        i += 1;
    }
    assert(all.take(all.len() as int) =~= all);
    r
}

fn make_items(message: &ModelMessage) -> (r: Vec<Json>)
    ensures
        views(r@) == items_of(message@),
{
    match message.role {
        Role::User => make_spoken_item("user", text_blocks(&message.blocks)),
        Role::Assistant => {
            let mut r = make_spoken_item("assistant", text_blocks(&message.blocks));
            append_values(&mut r, make_call_items(&message.blocks));
            r
        },
        Role::Tool => make_result_items(&message.blocks),
        Role::System => {
            let r: Vec<Json> = Vec::new();
            assert(views(r@) =~= Seq::empty());
            r
        },
    }
}

fn mark_tool(tool: Json) -> (r: Json)
    ensures
        r@ == (match tool@ {
            JsonView::Object(entries) => JsonView::Object(
                with_entry(entries, "type"@, JsonView::Str("function"@)),
            ),
            other => other,
        }),
{
    match tool {
        Json::Object(entries) => {
            proof {
                lemma_object_view(entries);
            }
            let mut entries = entries;
            set_entry(&mut entries, "type", text_json("function"));
            object_json(entries)
        },
        other => other,
    }
}

fn make_tools() -> (r: Vec<Json>)
    ensures
        views(r@) == marked_tools(offered_tools()),
{
    broadcast use lemma_views_push;

    let tools = tool_definitions();
    let ghost all = marked_tools(offered_tools());
    let mut r: Vec<Json> = Vec::new();
    assert(views(r@) =~= all.take(0));
    assert(views(tools@).len() == tools@.len());
    let mut i: usize = 0;
    while i < tools.len()
        invariant
            i <= tools.len(),
            tools.len() == all.len(),
            views(tools@) == offered_tools(),
            all == marked_tools(offered_tools()),
            views(r@) == all.take(i as int),
        decreases tools.len() - i,
    {
        assert(views(tools@)[i as int] == tools@[i as int]@);
        r.push(mark_tool(tools[i].clone()));
        assert(all.take(i + 1) =~= all.take(i as int).push(all[i as int]));
        i += 1;
    }
    assert(all.take(all.len() as int) =~= all);
    r
}

/// The body of a request.
pub fn request_body(config: &ProviderConfig, request: &ModelRequest) -> (r: Json)
    ensures
        r@ == body_of(config@, request@),
{
    let mut input: Vec<Json> = Vec::new();
    let ghost all = views(request.messages@);
    assert(all.take(0) =~= Seq::empty());
    assert(views(input@) =~= Seq::empty());
    let mut i: usize = 0;
    while i < request.messages.len()
        invariant
            i <= request.messages.len(),
            all == views(request.messages@),
            views(input@) == all_items(all.take(i as int)),
        decreases request.messages.len() - i,
    {
        assert(all.take(i + 1).drop_last() =~= all.take(i as int));
        assert(all.take(i + 1).last() == request.messages@[i as int]@);
        append_values(&mut input, make_items(&request.messages[i]));
        i += 1;
    }
    assert(all.take(all.len() as int) =~= all);
    let mut body = merge_request_fields(config);
    set_entry(&mut body, "model", text_json(&config.model));
    set_entry(&mut body, "max_output_tokens", natural_json(config.max_tokens as u64));
    set_entry(&mut body, "instructions", text_json(&request.system_prompt));
    set_entry(&mut body, "input", list_json(input));
    set_entry(&mut body, "tools", list_json(make_tools()));
    set_entry(&mut body, "stream", Json::Bool(true));
    object_json(body)
}

// ---------------------------------------------------------------------------
// What a request tells the model

/// The names of fields differ.
proof fn lemma_keys()
    ensures
        "arguments"@ != "call_id"@,
        "arguments"@ != "name"@,
        "arguments"@ != "type"@,
        "call_id"@ != "name"@,
        "call_id"@ != "output"@,
        "call_id"@ != "type"@,
        "content"@ != "role"@,
        "input"@ != "instructions"@,
        "input"@ != "max_output_tokens"@,
        "input"@ != "model"@,
        "input"@ != "stream"@,
        "input"@ != "tools"@,
        "instructions"@ != "max_output_tokens"@,
        "instructions"@ != "model"@,
        "instructions"@ != "stream"@,
        "instructions"@ != "tools"@,
        "max_output_tokens"@ != "model"@,
        "max_output_tokens"@ != "stream"@,
        "max_output_tokens"@ != "tools"@,
        "model"@ != "stream"@,
        "model"@ != "tools"@,
        "name"@ != "type"@,
        "output"@ != "type"@,
        "stream"@ != "tools"@,
{
    reveal_strlit("arguments");
    reveal_strlit("call_id");
    reveal_strlit("content");
    reveal_strlit("input");
    reveal_strlit("instructions");
    reveal_strlit("max_output_tokens");
    reveal_strlit("model");
    reveal_strlit("name");
    reveal_strlit("output");
    reveal_strlit("role");
    reveal_strlit("stream");
    reveal_strlit("tools");
    reveal_strlit("type");
    assert("arguments"@.len() != "call_id"@.len());
    assert("arguments"@.len() != "name"@.len());
    assert("arguments"@.len() != "type"@.len());
    assert("call_id"@.len() != "name"@.len());
    assert("call_id"@.len() != "output"@.len());
    assert("call_id"@.len() != "type"@.len());
    assert("content"@.len() != "role"@.len());
    assert("input"@.len() != "instructions"@.len());
    assert("input"@.len() != "max_output_tokens"@.len());
    assert("input"@[0] != "model"@[0]);
    assert("input"@.len() != "stream"@.len());
    assert("input"@[0] != "tools"@[0]);
    assert("instructions"@.len() != "max_output_tokens"@.len());
    assert("instructions"@.len() != "model"@.len());
    assert("instructions"@.len() != "stream"@.len());
    assert("instructions"@.len() != "tools"@.len());
    assert("max_output_tokens"@.len() != "model"@.len());
    assert("max_output_tokens"@.len() != "stream"@.len());
    assert("max_output_tokens"@.len() != "tools"@.len());
    assert("model"@.len() != "stream"@.len());
    assert("model"@[0] != "tools"@[0]);
    assert("name"@[0] != "type"@[0]);
    assert("output"@.len() != "type"@.len());
    assert("stream"@.len() != "tools"@.len());
}

/// Whether a value is the call that a model made, as it is sent back to it.
pub open spec fn is_sent_call(v: JsonView, call: ToolCallView) -> bool {
    &&& v.text("type"@) == Some("function_call"@)
    &&& v.text("call_id"@) == Some(call.id)
    &&& v.text("name"@) == Some(call.name)
    &&& v.text("arguments"@) == Some(call.arguments)
}

/// Whether a value tells the model what a tool gave for a call.
pub open spec fn is_sent_result(v: JsonView, result: ToolResultView) -> bool {
    &&& v.text("type"@) == Some("function_call_output"@)
    &&& v.text("call_id"@) == Some(result.call_id)
    &&& v.text("output"@) == Some(result.output)
}

/// Whether values begin with what was said, on lines of their own and under a
/// role; where nothing was said there is no such value.
pub open spec fn tells_spoken(
    values: Seq<JsonView>,
    n: int,
    role: Seq<char>,
    blocks: Seq<BlockView>,
) -> bool {
    exists|texts: Seq<Seq<char>>|
        {
            &&& #[trigger] picks(blocks, texts, text_of_block())
            &&& joined(texts, "\n"@).len() == 0 ==> n == 0
            &&& joined(texts, "\n"@).len() > 0 ==> n == 1 && values.len() >= 1 && values[0].text(
                "role"@,
            ) == Some(role) && values[0].text("content"@) == Some(joined(texts, "\n"@))
        }
}

/// Whether values tell the model of a message: what was said, and then the calls
/// of the model or the results of tools, each as a value of its own, in their
/// order.
pub open spec fn tells_message(message: MessageView, values: Seq<JsonView>) -> bool {
    match message.role {
        Role::User => tells_spoken(values, values.len() as int, "user"@, message.blocks),
        Role::Assistant => exists|n: int, calls: Seq<ToolCallView>|
            {
                &&& #[trigger] tells_spoken(values, n, "assistant"@, message.blocks)
                &&& #[trigger] picks(message.blocks, calls, call_of_block())
                &&& values.len() == n + calls.len()
                &&& forall|i: int|
                    0 <= i < calls.len() ==> is_sent_call(values[n + i], #[trigger] calls[i])
            },
        Role::Tool => exists|results: Seq<ToolResultView>|
            {
                &&& #[trigger] picks(message.blocks, results, result_of_block())
                &&& values.len() == results.len()
                &&& forall|i: int|
                    0 <= i < results.len() ==> is_sent_result(#[trigger] values[i], results[i])
            },
        Role::System => values.len() == 0,
    }
}

proof fn lemma_calls_sent(blocks: Seq<BlockView>) -> (calls: Seq<ToolCallView>)
    ensures
        picks(blocks, calls, call_of_block()),
        call_items(blocks).len() == calls.len(),
        forall|i: int| 0 <= i < calls.len() ==> is_sent_call(#[trigger] call_items(blocks)[i], calls[i]),
    decreases blocks.len(),
{
    if blocks.len() == 0 {
        lemma_picks_nothing(blocks, call_of_block());
        Seq::empty()
    } else {
        let before = lemma_calls_sent(blocks.drop_last());
        lemma_picks_last(blocks, before, call_of_block());
        match blocks.last() {
            BlockView::ToolCall(call) => {
                lemma_keys();
                lemma_fields4(
                    "type"@,
                    JsonView::Str("function_call"@),
                    "call_id"@,
                    JsonView::Str(call.id),
                    "name"@,
                    JsonView::Str(call.name),
                    "arguments"@,
                    JsonView::Str(call.arguments),
                );
                before.push(call)
            },
            _ => before,
        }
    }
}

proof fn lemma_results_sent(blocks: Seq<BlockView>) -> (results: Seq<ToolResultView>)
    ensures
        picks(blocks, results, result_of_block()),
        result_items(blocks).len() == results.len(),
        forall|i: int|
            0 <= i < results.len() ==> is_sent_result(
                #[trigger] result_items(blocks)[i],
                results[i],
            ),
    decreases blocks.len(),
{
    if blocks.len() == 0 {
        lemma_picks_nothing(blocks, result_of_block());
        Seq::empty()
    } else {
        let before = lemma_results_sent(blocks.drop_last());
        lemma_picks_last(blocks, before, result_of_block());
        match blocks.last() {
            BlockView::ToolResult(result) => {
                lemma_keys();
                lemma_fields3(
                    "type"@,
                    JsonView::Str("function_call_output"@),
                    "call_id"@,
                    JsonView::Str(result.call_id),
                    "output"@,
                    JsonView::Str(result.output),
                );
                before.push(result)
            },
            _ => before,
        }
    }
}

proof fn lemma_message_told(message: MessageView)
    ensures
        tells_message(message, items_of(message)),
{
    let blocks = message.blocks;
    law_texts_of_blocks(blocks);
    let texts = text_parts(blocks);
    let text = message_text(blocks);
    let calls = lemma_calls_sent(blocks);
    let results = lemma_results_sent(blocks);
    let values = items_of(message);
    lemma_keys();
    lemma_fields2("role"@, JsonView::Str("user"@), "content"@, JsonView::Str(text));
    lemma_fields2("role"@, JsonView::Str("assistant"@), "content"@, JsonView::Str(text));
    assert(picks(blocks, texts, text_of_block()));
    assert(picks(blocks, calls, call_of_block()));
    assert(picks(blocks, results, result_of_block()));
    let n: int = if text.len() == 0 {
        0
    } else {
        1
    };
    if message.role == Role::Assistant {
        assert(tells_spoken(values, n, "assistant"@, blocks));
        assert forall|i: int| 0 <= i < calls.len() implies is_sent_call(
            values[n + i],
            #[trigger] calls[i],
        ) by {
            assert(values[n + i] == call_items(blocks)[i]);
        }
    } else if message.role == Role::User {
        assert(tells_spoken(values, n, "user"@, blocks));
    }
}

/// The fields of a body that are set in every request.
pub open spec fn is_own_field(key: Seq<char>) -> bool {
    key == "model"@ || key == "max_output_tokens"@ || key == "instructions"@ || key == "input"@ || key == "tools"@ || key == "stream"@
}

proof fn lemma_kept(
    b0: Seq<(Seq<char>, JsonView)>,
    values: Seq<JsonView>,
    key: Seq<char>,
) -> (body: Seq<(Seq<char>, JsonView)>)
    ensures
        ({
            let b1 = with_entry(b0, "model"@, values[0]);
            let b2 = with_entry(b1, "max_output_tokens"@, values[1]);
            let b3 = with_entry(b2, "instructions"@, values[2]);
            let b4 = with_entry(b3, "input"@, values[3]);
            let b5 = with_entry(b4, "tools"@, values[4]);
            let b6 = with_entry(b5, "stream"@, values[5]);
            &&& body == b6
            &&& entry_of(b6, "model"@) == Some(values[0])
            &&& entry_of(b6, "max_output_tokens"@) == Some(values[1])
            &&& entry_of(b6, "instructions"@) == Some(values[2])
            &&& entry_of(b6, "input"@) == Some(values[3])
            &&& entry_of(b6, "tools"@) == Some(values[4])
            &&& entry_of(b6, "stream"@) == Some(values[5])
            &&& !is_own_field(key) ==> entry_of(b6, key) == entry_of(b0, key)
        }),
{
    lemma_keys();
    let b1 = with_entry(b0, "model"@, values[0]);
    law_with_entry(b0, "model"@, values[0], key);
    let b2 = with_entry(b1, "max_output_tokens"@, values[1]);
    law_with_entry(b1, "max_output_tokens"@, values[1], "model"@);
    law_with_entry(b1, "max_output_tokens"@, values[1], key);
    let b3 = with_entry(b2, "instructions"@, values[2]);
    law_with_entry(b2, "instructions"@, values[2], "model"@);
    law_with_entry(b2, "instructions"@, values[2], "max_output_tokens"@);
    law_with_entry(b2, "instructions"@, values[2], key);
    let b4 = with_entry(b3, "input"@, values[3]);
    law_with_entry(b3, "input"@, values[3], "model"@);
    law_with_entry(b3, "input"@, values[3], "max_output_tokens"@);
    law_with_entry(b3, "input"@, values[3], "instructions"@);
    law_with_entry(b3, "input"@, values[3], key);
    let b5 = with_entry(b4, "tools"@, values[4]);
    law_with_entry(b4, "tools"@, values[4], "model"@);
    law_with_entry(b4, "tools"@, values[4], "max_output_tokens"@);
    law_with_entry(b4, "tools"@, values[4], "instructions"@);
    law_with_entry(b4, "tools"@, values[4], "input"@);
    law_with_entry(b4, "tools"@, values[4], key);
    let b6 = with_entry(b5, "stream"@, values[5]);
    law_with_entry(b5, "stream"@, values[5], "model"@);
    law_with_entry(b5, "stream"@, values[5], "max_output_tokens"@);
    law_with_entry(b5, "stream"@, values[5], "instructions"@);
    law_with_entry(b5, "stream"@, values[5], "input"@);
    law_with_entry(b5, "stream"@, values[5], "tools"@);
    law_with_entry(b5, "stream"@, values[5], key);
    b6
}

proof fn lemma_body_fields(config: ProviderView, request: RequestView, key: Seq<char>)
    ensures
        ({
            let body = body_of(config, request);
            &&& body.get("model"@) == Some(JsonView::Str(config.model))
            &&& body.get("max_output_tokens"@) == Some(
                JsonView::Number(decimal(config.max_tokens as nat)),
            )
            &&& body.get("instructions"@) == Some(JsonView::Str(request.system_prompt))
            &&& body.get("input"@) == Some(JsonView::List(all_items(request.messages)))
            &&& body.get("tools"@) == Some(JsonView::List(marked_tools(offered_tools())))
            &&& body.get("stream"@) == Some(JsonView::Bool(true))
            &&& !is_own_field(key) ==> body.get(key) == entry_of(
                merged_fields(Seq::empty(), config.request),
                key,
            )
        }),
{
    let values = seq![
        JsonView::Str(config.model),
        JsonView::Number(decimal(config.max_tokens as nat)),
        JsonView::Str(request.system_prompt),
        JsonView::List(all_items(request.messages)),
        JsonView::List(marked_tools(offered_tools())),
        JsonView::Bool(true),
    ];
    let body = lemma_kept(merged_fields(Seq::empty(), config.request), values, key);
    assert(body_of(config, request) == JsonView::Object(body));
}

/// The values that tell the model of a conversation.
pub open spec fn told_to_model(config: ProviderView, request: RequestView) -> Seq<JsonView> {
    body_of(config, request).field("input"@).items()
}

/// Every message adds to a request what tells of it, after all that came before;
/// without messages nothing is told. The system prompt stands apart.
pub proof fn law_requests_tell_the_conversation_in_order(
    config: ProviderView,
    request: RequestView,
    message: MessageView,
)
    ensures
        ({
            let longer = RequestView { messages: request.messages.push(message), ..request };
            let before = told_to_model(config, request);
            let after = told_to_model(config, longer);
            &&& before.len() <= after.len()
            &&& after.take(before.len() as int) == before
            &&& tells_message(message, after.skip(before.len() as int))
            &&& request.messages.len() == 0 ==> before.len() == 0
            &&& body_of(config, request).text("instructions"@) == Some(request.system_prompt)
        }),
{
    let longer = RequestView { messages: request.messages.push(message), ..request };
    lemma_body_fields(config, request, Seq::empty());
    lemma_body_fields(config, longer, Seq::empty());
    let before = told_to_model(config, request);
    let after = told_to_model(config, longer);
    assert(longer.messages.drop_last() =~= request.messages);
    assert(after =~= before + items_of(message));
    assert(after.take(before.len() as int) =~= before);
    assert(after.skip(before.len() as int) =~= items_of(message));
    lemma_message_told(message);
}

/// A request is for the model that is configured, offers the tools, and is
/// answered as a stream. What else is configured stands in it as it is.
pub proof fn law_requests_follow_the_configuration(
    config: ProviderView,
    request: RequestView,
    key: Seq<char>,
    i: int,
)
    ensures
        ({
            let body = body_of(config, request);
            let tools = body.field("tools"@).items();
            &&& body.text("model"@) == Some(config.model)
            &&& body.natural("max_output_tokens"@) == Some(config.max_tokens as u64)
            &&& body.get("stream"@) == Some(JsonView::Bool(true))
            &&& tools.len() == offered_tools().len()
            &&& forall|k: int|
                0 <= k < tools.len() ==> (#[trigger] tools[k]).text("type"@) == Some("function"@)
            &&& forall|k: int|
                0 <= k < tools.len() && key != "type"@ ==> (#[trigger] tools[k]).get(key)
                    == offered_tools()[k].get(key)
            &&& 0 <= i < config.request.len() && config.request[i].0 == key && !is_own_field(key)
                && (forall|j: int| i < j < config.request.len() ==> (#[trigger] config.request[j]).0
                != key) ==> body.get(key) == Some(config.request[i].1)
        }),
{
    lemma_body_fields(config, request, key);
    law_fields_are_merged(Seq::empty(), config.request, key);
    law_decimal_is_read_back(config.max_tokens as nat);
    let tools = body_of(config, request).field("tools"@).items();
    assert forall|k: int| 0 <= k < tools.len() implies (#[trigger] tools[k]).text("type"@) == Some(
        "function"@,
    ) && (key != "type"@ ==> tools[k].get(key) == offered_tools()[k].get(key)) by {
        assert(offered_tools()[k] is Object);
        law_with_entry(
            offered_tools()[k]->Object_0,
            "type"@,
            JsonView::Str("function"@),
            key,
        );
    }
}

// ---------------------------------------------------------------------------
// Answers

/// The tokens that a finished response counts.
pub open spec fn usage_of(value: JsonView) -> Usage {
    let raw = value.field("response"@).field("usage"@);
    Usage {
        input_tokens: raw.natural("input_tokens"@),
        output_tokens: raw.natural("output_tokens"@),
        cached_tokens: detail(raw, "input_tokens_details"@, "cached_tokens"@),
        cache_write_tokens: None,
        total_tokens: None,
    }
}

/// Whether an item is a call.
pub open spec fn is_call(item: JsonView) -> bool {
    item.text("type"@) == Some("function_call"@)
}

/// The call that an item begins.
pub open spec fn call_of(item: JsonView) -> ToolCallView {
    ToolCallView {
        id: match item.text("call_id"@) {
            Some(id) => id,
            None => item.text_or_empty("id"@),
        },
        name: item.text_or_empty("name"@),
        arguments: item.text_or_empty("arguments"@),
    }
}

/// The events that begin a call.
pub open spec fn begin_events(call: ToolCallView) -> Seq<EventView> {
    let start = seq![EventView::ToolCallStart { id: call.id, name: call.name }];
    if call.arguments.len() == 0 {
        start
    } else {
        start.push(EventView::ToolCallArgsDelta { id: call.id, delta: call.arguments })
    }
}

/// An answer that is coming in; the calls under the items that they came in.
pub struct IncomingView {
    pub text: Seq<char>,
    pub reasoning: Seq<char>,
    pub calls: Seq<(Seq<char>, ToolCallView)>,
    pub events: Seq<EventView>,
    pub usage: Option<Usage>,
}

/// The answer with one more value of the stream.
pub open spec fn take_value(a: IncomingView, value: JsonView) -> Result<IncomingView, Seq<char>> {
    let kind = value.text_or_empty("type"@);
    let delta = value.text_or_empty("delta"@);
    let item = value.field("item"@);
    if kind == "response.output_text.delta"@ {
        Ok(
            IncomingView {
                text: a.text + delta,
                events: a.events.push(EventView::TextDelta { delta }),
                ..a
            },
        )
    } else if kind == "response.reasoning_summary_text.delta"@ || kind
        == "response.reasoning_text.delta"@ {
        Ok(
            IncomingView {
                reasoning: a.reasoning + delta,
                events: a.events.push(EventView::ReasoningDelta { delta }),
                ..a
            },
        )
    } else if kind == "response.output_item.added"@ {
        if is_call(item) {
            let call = call_of(item);
            Ok(
                IncomingView {
                    calls: with_entry(a.calls, item.text_or_empty("id"@), call),
                    events: a.events + begin_events(call),
                    ..a
                },
            )
        } else {
            Ok(a)
        }
    } else if kind == "response.function_call_arguments.delta"@ {
        let item_id = value.text_or_empty("item_id"@);
        match entry_of(a.calls, item_id) {
            None => Err("arguments for unknown function call item "@ + item_id),
            Some(call) => Ok(
                IncomingView {
                    calls: with_entry(
                        a.calls,
                        item_id,
                        (ToolCallView { arguments: call.arguments + delta, ..call }),
                    ),
                    events: a.events.push(EventView::ToolCallArgsDelta { id: call.id, delta }),
                    ..a
                },
            ),
        }
    } else if kind == "response.output_item.done"@ {
        let item_id = item.text_or_empty("id"@);
        let arguments = item.text_or_empty("arguments"@);
        if !is_call(item) {
            Ok(a)
        } else {
            match entry_of(a.calls, item_id) {
                None => Ok(a),
                Some(call) => Ok(
                    IncomingView {
                        calls: with_entry(
                            a.calls,
                            item_id,
                            if arguments.len() == 0 {
                                call
                            } else {
                                ToolCallView { arguments, ..call }
                            },
                        ),
                        events: a.events.push(EventView::ToolCallEnd { id: call.id }),
                        ..a
                    },
                ),
            }
        }
    } else if kind == "response.completed"@ {
        Ok(IncomingView { usage: Some(usage_of(value)), ..a })
    } else if kind == "response.failed"@ || kind == "response.incomplete"@ {
        Err("provider response did not complete: "@ + compact(value))
    } else if kind == "error"@ {
        Err(
            "provider error: "@ + value.text_or_empty("message"@) + " ("@ + value.text_or_empty(
                "code"@,
            ) + ")"@,
        )
    } else {
        Ok(a)
    }
}

/// The answer after values of the stream; the first error ends it.
pub open spec fn take_values(values: Seq<JsonView>) -> Result<IncomingView, Seq<char>>
    decreases values.len(),
{
    if values.len() == 0 {
        Ok(
            IncomingView {
                text: Seq::empty(),
                reasoning: Seq::empty(),
                calls: Seq::empty(),
                events: Seq::empty(),
                usage: None,
            },
        )
    } else {
        match take_values(values.drop_last()) {
            Err(e) => Err(e),
            Ok(a) => take_value(a, values.last()),
        }
    }
}

/// The calls in the order in which their items came up.
pub open spec fn finished_calls(calls: Seq<(Seq<char>, ToolCallView)>) -> Seq<ToolCallView> {
    Seq::new(calls.len(), |i: int| calls[i].1)
}

/// The answer that a stream comes to.
pub open spec fn answer_of(values: Seq<JsonView>) -> Result<AnswerView, Seq<char>> {
    match take_values(values) {
        Err(e) => Err(e),
        Ok(a) => {
            let calls = finished_calls(a.calls);
            Ok(
                AnswerView {
                    turn: TurnView {
                        blocks: answer_blocks(a.reasoning, a.text, calls),
                        tool_calls: calls,
                        usage: a.usage,
                        provider_state: None,
                    },
                    events: a.events + closing_events(a.usage),
                },
            )
        },
    }
}

fn read_usage(value: &Json) -> (r: Usage)
    ensures
        r == usage_of(value@),
{
    let raw = match value.get("response") {
        Some(response) => response.get("usage"),
        None => None,
    };
    match raw {
        Some(raw) => Usage {
            input_tokens: raw.natural("input_tokens"),
            output_tokens: raw.natural("output_tokens"),
            cached_tokens: find_detail(raw, "input_tokens_details", "cached_tokens"),
            cache_write_tokens: None,
            total_tokens: None,
        },
        None => Usage::default(),
    }
}

fn read_call(item: &Json) -> (r: ToolCall)
    ensures
        r@ == call_of(item@),
{
    ToolCall {
        id: match item.text("call_id") {
            Some(id) => id,
            None => item.text_or_empty("id"),
        },
        name: item.text_or_empty("name"),
        arguments: item.text_or_empty("arguments"),
    }
}

fn holds_call(item: &Json) -> (r: bool)
    ensures
        r == is_call(item@),
{
    match item.get("type") {
        Some(v) => v.is_text("function_call"),
        None => false,
    }
}

fn tell_begin(call: &ToolCall) -> (r: Vec<StreamEvent>)
    ensures
        views(r@) == begin_events(call@),
{
    let mut events = no_events();
    push_event(
        &mut events,
        StreamEvent::ToolCallStart { id: call.id.clone(), name: call.name.clone() },
    );
    if !call.arguments.as_str().is_empty() {
        push_event(
            &mut events,
            StreamEvent::ToolCallArgsDelta { id: call.id.clone(), delta: call.arguments.clone() },
        );
    }
    assert(views(events@) =~= begin_events(call@));
    events
}

/// An answer that is coming in.
struct Incoming {
    text: String,
    reasoning: String,
    calls: Vec<(String, ToolCall)>,
    events: Vec<StreamEvent>,
    usage: Option<Usage>,
}

impl View for Incoming {
    type V = IncomingView;

    closed spec fn view(&self) -> IncomingView {
        IncomingView {
            text: self.text@,
            reasoning: self.reasoning@,
            calls: pairs(self.calls@),
            events: views(self.events@),
            usage: self.usage,
        }
    }
}

impl Incoming {
    fn take(&mut self, value: &Json) -> (r: Result<(), String>)
        ensures
            match r {
                Ok(()) => take_value(old(self)@, value@) == Ok::<IncomingView, Seq<char>>(
                    final(self)@,
                ),
                Err(e) => take_value(old(self)@, value@) == Err::<IncomingView, Seq<char>>(e@),
            },
    {
        let kind = value.text_or_empty("type");
        let delta = value.text_or_empty("delta");
        let null = Json::Null;
        let item = match value.get("item") {
            Some(item) => item,
            None => &null,
        };
        assert(item@ == value@.field("item"@));
        if same(&kind, "response.output_text.delta") {
            self.text.append(&delta);
            push_event(&mut self.events, StreamEvent::TextDelta { delta });
            Ok(())
        } else if same(&kind, "response.reasoning_summary_text.delta") || same(
            &kind,
            "response.reasoning_text.delta",
        ) {
            self.reasoning.append(&delta);
            push_event(&mut self.events, StreamEvent::ReasoningDelta { delta });
            Ok(())
        } else if same(&kind, "response.output_item.added") {
            if holds_call(item) {
                let call = read_call(item);
                append_events(&mut self.events, tell_begin(&call));
                set_entry(&mut self.calls, &item.text_or_empty("id"), call);
            }
            Ok(())
        } else if same(&kind, "response.function_call_arguments.delta") {
            let item_id = value.text_or_empty("item_id");
            match find_key(&self.calls, &item_id) {
                None => Err(
                    "arguments for unknown function call item ".to_owned().concat(&item_id),
                ),
                Some(i) => {
                    assert(pairs(self.calls@)[i as int].1 == self.calls@[i as int].1@);
                    let mut call = self.calls[i].1.clone();
                    call.arguments.append(&delta);
                    push_event(
                        &mut self.events,
                        StreamEvent::ToolCallArgsDelta { id: call.id.clone(), delta },
                    );
                    set_entry(&mut self.calls, &item_id, call);
                    Ok(())
                },
            }
        } else if same(&kind, "response.output_item.done") {
            if holds_call(item) {
                let item_id = item.text_or_empty("id");
                let arguments = item.text_or_empty("arguments");
                if let Some(i) = find_key(&self.calls, &item_id) {
                    assert(pairs(self.calls@)[i as int].1 == self.calls@[i as int].1@);
                    let mut call = self.calls[i].1.clone();
                    if !arguments.as_str().is_empty() {
                        call.arguments = arguments;
                    }
                    push_event(&mut self.events, StreamEvent::ToolCallEnd { id: call.id.clone() });
                    set_entry(&mut self.calls, &item_id, call);
                }
            }
            Ok(())
        } else if same(&kind, "response.completed") {
            self.usage = Some(read_usage(value));
            Ok(())
        } else if same(&kind, "response.failed") || same(&kind, "response.incomplete") {
            Err("provider response did not complete: ".to_owned().concat(&compact_text(value)))
        } else if same(&kind, "error") {
            Err(
                "provider error: ".to_owned().concat(&value.text_or_empty("message")).concat(
                    " (",
                ).concat(&value.text_or_empty("code")).concat(")"),
            )
        } else {
            Ok(())
        }
    }
}

fn collect_calls(calls: &Vec<(String, ToolCall)>) -> (r: Vec<ToolCall>)
    ensures
        views(r@) == finished_calls(pairs(calls@)),
{
    broadcast use lemma_views_push;

    let ghost all = finished_calls(pairs(calls@));
    let mut r: Vec<ToolCall> = Vec::new();
    assert(views(r@) =~= all.take(0));
    let mut i: usize = 0;
    while i < calls.len()
        invariant
            i <= calls.len(),
            all == finished_calls(pairs(calls@)),
            views(r@) == all.take(i as int),
        decreases calls.len() - i,
    {
        r.push(calls[i].1.clone());
        assert(all.take(i + 1) =~= all.take(i as int).push(all[i as int]));
        i += 1;
    }
    assert(all.take(all.len() as int) =~= all);
    r
}

/// The answer that a stream comes to.
pub fn normalize_events(values: &Vec<Json>) -> (r: Result<Answer, String>)
    ensures
        outcome(r) == answer_of(views(values@)),
{
    let calls: Vec<(String, ToolCall)> = Vec::new();
    assert(pairs(calls@) =~= Seq::empty());
    let mut incoming = Incoming {
        text: String::new(),
        reasoning: String::new(),
        calls,
        events: no_events(),
        usage: None,
    };
    let ghost all = views(values@);
    assert(all.take(0) =~= Seq::empty());
    let mut i: usize = 0;
    while i < values.len()
        invariant
            i <= values.len(),
            all == views(values@),
            take_values(all.take(i as int)) == Ok::<IncomingView, Seq<char>>(incoming@),
        decreases values.len() - i,
    {
        assert(all.take(i + 1).drop_last() =~= all.take(i as int));
        assert(all.take(i + 1).last() == values@[i as int]@);
        match incoming.take(&values[i]) {
            Ok(()) => {},
            Err(e) => {
                proof {
                    lemma_take_error(all, i + 1);
                }
                return Err(e);
            },
        }
        i += 1;
    }
    assert(all.take(all.len() as int) =~= all);
    let tool_calls = collect_calls(&incoming.calls);
    let mut events = incoming.events;
    push_closing(&mut events, incoming.usage);
    let blocks = make_blocks(incoming.reasoning, incoming.text, &tool_calls);
    Ok(
        Answer {
            turn: ModelTurn { blocks, tool_calls, usage: incoming.usage, provider_state: None },
            events,
        },
    )
}

proof fn lemma_take_error(values: Seq<JsonView>, i: int)
    requires
        0 <= i <= values.len(),
        take_values(values.take(i)) is Err,
    ensures
        take_values(values) == take_values(values.take(i)),
    decreases values.len(),
{
    if i == values.len() {
        assert(values.take(i) =~= values);
    } else {
        assert(values.drop_last().take(i) =~= values.take(i));
        lemma_take_error(values.drop_last(), i);
    }
}

proof fn lemma_taken_told(values: Seq<JsonView>)
    ensures
        take_values(values) matches Ok(a) ==> said(a.events) == a.text && thought(a.events)
            == a.reasoning,
    decreases values.len(),
{
    if values.len() > 0 {
        lemma_taken_told(values.drop_last());
        if let Ok(a) = take_values(values.drop_last()) {
            if let Ok(b) = take_value(a, values.last()) {
                let begin = begin_events(call_of(values.last().field("item"@)));
                lemma_told(a.events, begin);
                reveal_with_fuel(said, 3);
                reveal_with_fuel(thought, 3);
                assert(said(begin) =~= Seq::empty());
                assert(thought(begin) =~= Seq::empty());
                assert(a.text + Seq::empty() =~= a.text);
                assert(a.reasoning + Seq::empty() =~= a.reasoning);
                if b.events.len() == a.events.len() + 1 {
                    assert(b.events.drop_last() =~= a.events);
                }
            }
        }
    }
}

/// The text and the reasoning of an answer are what its events told of.
pub proof fn law_events_tell_the_answer(values: Seq<JsonView>)
    ensures
        answer_of(values) matches Ok(a) ==> a.turn.blocks == answer_blocks(
            thought(a.events),
            said(a.events),
            a.turn.tool_calls,
        ),
{
    lemma_taken_told(values);
    if let Ok(a) = take_values(values) {
        let closing = closing_events(a.usage);
        lemma_told(a.events, closing);
        reveal_with_fuel(said, 3);
        reveal_with_fuel(thought, 3);
        assert(said(closing) =~= Seq::empty());
        assert(thought(closing) =~= Seq::empty());
        assert(said(a.events + closing) =~= a.text);
        assert(thought(a.events + closing) =~= a.reasoning);
    }
}

// ---------------------------------------------------------------------------
// Events as they happen

/// The events that one value of the stream causes, and after it the calls under
/// the items that they came in.
pub open spec fn live_step(calls: Seq<(Seq<char>, Seq<char>)>, value: JsonView) -> (
    Seq<(Seq<char>, Seq<char>)>,
    Seq<EventView>,
) {
    let kind = value.text_or_empty("type"@);
    let delta = value.text_or_empty("delta"@);
    let item = value.field("item"@);
    if kind == "response.output_text.delta"@ {
        (calls, seq![EventView::TextDelta { delta }])
    } else if kind == "response.reasoning_summary_text.delta"@ || kind
        == "response.reasoning_text.delta"@ {
        (calls, seq![EventView::ReasoningDelta { delta }])
    } else if kind == "response.output_item.added"@ && is_call(item) {
        let call = call_of(item);
        (with_entry(calls, item.text_or_empty("id"@), call.id), begin_events(call))
    } else if kind == "response.function_call_arguments.delta"@ {
        match entry_of(calls, value.text_or_empty("item_id"@)) {
            Some(id) => (calls, seq![EventView::ToolCallArgsDelta { id, delta }]),
            None => (calls, Seq::empty()),
        }
    } else if kind == "response.output_item.done"@ && is_call(item) {
        match entry_of(calls, item.text_or_empty("id"@)) {
            Some(id) => (calls, seq![EventView::ToolCallEnd { id }]),
            None => (calls, Seq::empty()),
        }
    } else if kind == "response.completed"@ {
        (calls, seq![EventView::Usage(usage_of(value)), EventView::Done])
    } else if kind == "error"@ {
        (calls, seq![EventView::Error { message: compact(value) }])
    } else {
        (calls, Seq::empty())
    }
}

/// The events that values of a stream cause one after another, with what is
/// kept of the calls.
pub open spec fn live_values(values: Seq<JsonView>) -> (Seq<(Seq<char>, Seq<char>)>, Seq<EventView>)
    decreases values.len(),
{
    if values.len() == 0 {
        (Seq::empty(), Seq::empty())
    } else {
        let (calls, events) = live_values(values.drop_last());
        let (after, more) = live_step(calls, values.last());
        (after, events + more)
    }
}

proof fn lemma_shown(values: Seq<JsonView>)
    ensures
        take_values(values) matches Ok(a) ==> said(live_values(values).1) == a.text && thought(
            live_values(values).1,
        ) == a.reasoning,
    decreases values.len(),
{
    if values.len() > 0 {
        lemma_shown(values.drop_last());
        if let Ok(a) = take_values(values.drop_last()) {
            let (calls, events) = live_values(values.drop_last());
            let more = live_step(calls, values.last()).1;
            lemma_told(events, more);
            reveal_with_fuel(said, 3);
            reveal_with_fuel(thought, 3);
            let delta = values.last().text_or_empty("delta"@);
            assert(Seq::<char>::empty() + delta =~= delta);
            assert(a.text + Seq::empty() =~= a.text);
            assert(a.reasoning + Seq::empty() =~= a.reasoning);
        }
    }
}

/// What is shown of an answer while it comes in is what is kept of it: its text
/// and its reasoning, each piece by piece.
pub proof fn law_shown_is_kept(values: Seq<JsonView>)
    ensures
        answer_of(values) matches Ok(a) ==> a.turn.blocks == answer_blocks(
            thought(live_values(values).1),
            said(live_values(values).1),
            a.turn.tool_calls,
        ),
{
    lemma_shown(values);
}

/// The calls of an answer while it is shown, under the items that they came in.
pub struct ResponsesLive {
    pub calls: Vec<(String, String)>,
}

impl Default for ResponsesLive {
    fn default() -> (r: ResponsesLive)
        ensures
            r.calls@.len() == 0,
    {
        ResponsesLive { calls: Vec::new() }
    }
}

impl ResponsesLive {
    /// The events that one value of the stream causes.
    pub fn emit(&mut self, value: &Json) -> (r: Vec<StreamEvent>)
        ensures
            (pairs(final(self).calls@), views(r@)) == live_step(pairs(old(self).calls@), value@),
    {
        let kind = value.text_or_empty("type");
        let delta = value.text_or_empty("delta");
        let null = Json::Null;
        let item = match value.get("item") {
            Some(item) => item,
            None => &null,
        };
        assert(item@ == value@.field("item"@));
        let ghost expected = live_step(pairs(self.calls@), value@);
        let mut events = no_events();
        if same(&kind, "response.output_text.delta") {
            push_event(&mut events, StreamEvent::TextDelta { delta });
        } else if same(&kind, "response.reasoning_summary_text.delta") || same(
            &kind,
            "response.reasoning_text.delta",
        ) {
            push_event(&mut events, StreamEvent::ReasoningDelta { delta });
        } else if same(&kind, "response.output_item.added") && holds_call(item) {
            let call = read_call(item);
            append_events(&mut events, tell_begin(&call));
            set_entry(&mut self.calls, &item.text_or_empty("id"), call.id);
        } else if same(&kind, "response.function_call_arguments.delta") {
            if let Some(i) = find_key(&self.calls, &value.text_or_empty("item_id")) {
                assert(pairs(self.calls@)[i as int].1 == self.calls@[i as int].1@);
                push_event(
                    &mut events,
                    StreamEvent::ToolCallArgsDelta { id: self.calls[i].1.clone(), delta },
                );
            }
        } else if same(&kind, "response.output_item.done") && holds_call(item) {
            if let Some(i) = find_key(&self.calls, &item.text_or_empty("id")) {
                assert(pairs(self.calls@)[i as int].1 == self.calls@[i as int].1@);
                push_event(&mut events, StreamEvent::ToolCallEnd { id: self.calls[i].1.clone() });
            }
        } else if same(&kind, "response.completed") {
            push_event(&mut events, StreamEvent::Usage(read_usage(value)));
            push_event(&mut events, StreamEvent::Done);
        } else if same(&kind, "error") {
            push_event(&mut events, StreamEvent::Error { message: compact_text(value) });
        }
        assert(views(events@) =~= expected.1);
        events
    }
}

// ---------------------------------------------------------------------------
// How an answer grows

/// The kinds of values differ.
proof fn lemma_kinds()
    ensures
        "error"@ != "response.completed"@,
        "error"@ != "response.failed"@,
        "error"@ != "response.function_call_arguments.delta"@,
        "error"@ != "response.incomplete"@,
        "error"@ != "response.output_item.added"@,
        "error"@ != "response.output_item.done"@,
        "error"@ != "response.output_text.delta"@,
        "error"@ != "response.reasoning_summary_text.delta"@,
        "error"@ != "response.reasoning_text.delta"@,
        "response.completed"@ != "response.failed"@,
        "response.completed"@ != "response.function_call_arguments.delta"@,
        "response.completed"@ != "response.incomplete"@,
        "response.completed"@ != "response.output_item.added"@,
        "response.completed"@ != "response.output_item.done"@,
        "response.completed"@ != "response.output_text.delta"@,
        "response.completed"@ != "response.reasoning_summary_text.delta"@,
        "response.completed"@ != "response.reasoning_text.delta"@,
        "response.failed"@ != "response.function_call_arguments.delta"@,
        "response.failed"@ != "response.incomplete"@,
        "response.failed"@ != "response.output_item.added"@,
        "response.failed"@ != "response.output_item.done"@,
        "response.failed"@ != "response.output_text.delta"@,
        "response.failed"@ != "response.reasoning_summary_text.delta"@,
        "response.failed"@ != "response.reasoning_text.delta"@,
        "response.function_call_arguments.delta"@ != "response.incomplete"@,
        "response.function_call_arguments.delta"@ != "response.output_item.added"@,
        "response.function_call_arguments.delta"@ != "response.output_item.done"@,
        "response.function_call_arguments.delta"@ != "response.output_text.delta"@,
        "response.function_call_arguments.delta"@ != "response.reasoning_summary_text.delta"@,
        "response.function_call_arguments.delta"@ != "response.reasoning_text.delta"@,
        "response.incomplete"@ != "response.output_item.added"@,
        "response.incomplete"@ != "response.output_item.done"@,
        "response.incomplete"@ != "response.output_text.delta"@,
        "response.incomplete"@ != "response.reasoning_summary_text.delta"@,
        "response.incomplete"@ != "response.reasoning_text.delta"@,
        "response.output_item.added"@ != "response.output_item.done"@,
        "response.output_item.added"@ != "response.output_text.delta"@,
        "response.output_item.added"@ != "response.reasoning_summary_text.delta"@,
        "response.output_item.added"@ != "response.reasoning_text.delta"@,
        "response.output_item.done"@ != "response.output_text.delta"@,
        "response.output_item.done"@ != "response.reasoning_summary_text.delta"@,
        "response.output_item.done"@ != "response.reasoning_text.delta"@,
        "response.output_text.delta"@ != "response.reasoning_summary_text.delta"@,
        "response.output_text.delta"@ != "response.reasoning_text.delta"@,
        "response.reasoning_summary_text.delta"@ != "response.reasoning_text.delta"@,
{
    reveal_strlit("error");
    reveal_strlit("response.completed");
    reveal_strlit("response.failed");
    reveal_strlit("response.function_call_arguments.delta");
    reveal_strlit("response.incomplete");
    reveal_strlit("response.output_item.added");
    reveal_strlit("response.output_item.done");
    reveal_strlit("response.output_text.delta");
    reveal_strlit("response.reasoning_summary_text.delta");
    reveal_strlit("response.reasoning_text.delta");
    assert("error"@.len() != "response.completed"@.len());
    assert("error"@.len() != "response.failed"@.len());
    assert("error"@.len() != "response.function_call_arguments.delta"@.len());
    assert("error"@.len() != "response.incomplete"@.len());
    assert("error"@.len() != "response.output_item.added"@.len());
    assert("error"@.len() != "response.output_item.done"@.len());
    assert("error"@.len() != "response.output_text.delta"@.len());
    assert("error"@.len() != "response.reasoning_summary_text.delta"@.len());
    assert("error"@.len() != "response.reasoning_text.delta"@.len());
    assert("response.completed"@.len() != "response.failed"@.len());
    assert("response.completed"@.len() != "response.function_call_arguments.delta"@.len());
    assert("response.completed"@.len() != "response.incomplete"@.len());
    assert("response.completed"@.len() != "response.output_item.added"@.len());
    assert("response.completed"@.len() != "response.output_item.done"@.len());
    assert("response.completed"@.len() != "response.output_text.delta"@.len());
    assert("response.completed"@.len() != "response.reasoning_summary_text.delta"@.len());
    assert("response.completed"@.len() != "response.reasoning_text.delta"@.len());
    assert("response.failed"@.len() != "response.function_call_arguments.delta"@.len());
    assert("response.failed"@.len() != "response.incomplete"@.len());
    assert("response.failed"@.len() != "response.output_item.added"@.len());
    assert("response.failed"@.len() != "response.output_item.done"@.len());
    assert("response.failed"@.len() != "response.output_text.delta"@.len());
    assert("response.failed"@.len() != "response.reasoning_summary_text.delta"@.len());
    assert("response.failed"@.len() != "response.reasoning_text.delta"@.len());
    assert("response.function_call_arguments.delta"@.len() != "response.incomplete"@.len());
    assert("response.function_call_arguments.delta"@.len() != "response.output_item.added"@.len());
    assert("response.function_call_arguments.delta"@.len() != "response.output_item.done"@.len());
    assert("response.function_call_arguments.delta"@.len() != "response.output_text.delta"@.len());
    assert("response.function_call_arguments.delta"@.len() != "response.reasoning_summary_text.delta"@.len());
    assert("response.function_call_arguments.delta"@.len() != "response.reasoning_text.delta"@.len());
    assert("response.incomplete"@.len() != "response.output_item.added"@.len());
    assert("response.incomplete"@.len() != "response.output_item.done"@.len());
    assert("response.incomplete"@.len() != "response.output_text.delta"@.len());
    assert("response.incomplete"@.len() != "response.reasoning_summary_text.delta"@.len());
    assert("response.incomplete"@.len() != "response.reasoning_text.delta"@.len());
    assert("response.output_item.added"@.len() != "response.output_item.done"@.len());
    assert("response.output_item.added"@[16] != "response.output_text.delta"@[16]);
    assert("response.output_item.added"@.len() != "response.reasoning_summary_text.delta"@.len());
    assert("response.output_item.added"@.len() != "response.reasoning_text.delta"@.len());
    assert("response.output_item.done"@.len() != "response.output_text.delta"@.len());
    assert("response.output_item.done"@.len() != "response.reasoning_summary_text.delta"@.len());
    assert("response.output_item.done"@.len() != "response.reasoning_text.delta"@.len());
    assert("response.output_text.delta"@.len() != "response.reasoning_summary_text.delta"@.len());
    assert("response.output_text.delta"@.len() != "response.reasoning_text.delta"@.len());
    assert("response.reasoning_summary_text.delta"@.len() != "response.reasoning_text.delta"@.len());
}

proof fn lemma_answer_told(values: Seq<JsonView>)
    ensures
        answer_of(values) matches Ok(a) ==> (take_values(values) matches Ok(s) && said(a.events)
            == s.text && thought(a.events) == s.reasoning && a.turn.usage == s.usage
            && a.turn.tool_calls.len() == s.calls.len() && forall|i: int|
            0 <= i < s.calls.len() ==> #[trigger] a.turn.tool_calls[i] == s.calls[i].1),
{
    lemma_taken_told(values);
    if let Ok(s) = take_values(values) {
        let closing = closing_events(s.usage);
        lemma_told(s.events, closing);
        reveal_with_fuel(said, 3);
        reveal_with_fuel(thought, 3);
        assert(said(closing) =~= Seq::empty());
        assert(thought(closing) =~= Seq::empty());
        assert(said(s.events + closing) =~= s.text);
        assert(thought(s.events + closing) =~= s.reasoning);
    }
}

/// What is said and thought grows by the pieces that come, each after the others,
/// and only by them; what is counted comes at the end. A stream that fails gives
/// no answer but the reason.
pub proof fn law_values_grow_the_answer(values: Seq<JsonView>, value: JsonView)
    ensures
        answer_of(values) matches Err(e) ==> answer_of(values.push(value)) == Err::<
            AnswerView,
            Seq<char>,
        >(e),
        answer_of(values) matches Ok(a) ==> ({
            let kind = value.text_or_empty("type"@);
            let delta = value.text_or_empty("delta"@);
            let unknown = kind == "response.function_call_arguments.delta"@ && entry_of(
                take_values(values)->Ok_0.calls,
                value.text_or_empty("item_id"@),
            ) is None;
            if kind == "response.failed"@ || kind == "response.incomplete"@ {
                answer_of(values.push(value)) == Err::<AnswerView, Seq<char>>(
                    "provider response did not complete: "@ + compact(value),
                )
            } else if kind == "error"@ {
                answer_of(values.push(value)) == Err::<AnswerView, Seq<char>>(
                    "provider error: "@ + value.text_or_empty("message"@) + " ("@
                        + value.text_or_empty("code"@) + ")"@,
                )
            } else if unknown {
                answer_of(values.push(value)) == Err::<AnswerView, Seq<char>>(
                    "arguments for unknown function call item "@ + value.text_or_empty("item_id"@),
                )
            } else {
                answer_of(values.push(value)) matches Ok(b) && {
                    &&& said(b.events) == if kind == "response.output_text.delta"@ {
                        said(a.events) + delta
                    } else {
                        said(a.events)
                    }
                    &&& thought(b.events) == if kind == "response.reasoning_summary_text.delta"@
                        || kind == "response.reasoning_text.delta"@ {
                        thought(a.events) + delta
                    } else {
                        thought(a.events)
                    }
                    &&& b.turn.usage == if kind == "response.completed"@ {
                        let raw = value.field("response"@).field("usage"@);
                        Some(
                            Usage {
                                input_tokens: raw.natural("input_tokens"@),
                                output_tokens: raw.natural("output_tokens"@),
                                cached_tokens: raw.field("input_tokens_details"@).natural(
                                    "cached_tokens"@,
                                ),
                                cache_write_tokens: None,
                                total_tokens: None,
                            },
                        )
                    } else {
                        a.turn.usage
                    }
                    &&& b.events.last() == EventView::Done
                    &&& b.turn.usage matches Some(u) ==> b.events[b.events.len() - 2]
                        == EventView::Usage(u)
                }
            }
        }),
        answer_of(Seq::<JsonView>::empty()) matches Ok(a) && a.turn.blocks.len() == 0
            && a.turn.tool_calls.len() == 0 && a.turn.usage is None,
{
    let more = values.push(value);
    assert(more.drop_last() =~= values);
    lemma_kinds();
    lemma_answer_told(values);
    lemma_answer_told(more);
    assert(JsonView::Null.get("cached_tokens"@) is None);
    assert(answer_blocks(Seq::empty(), Seq::empty(), Seq::empty()) =~= Seq::empty());
}

/// A call is kept under the id of its item from when it comes up. Its arguments
/// are those it came with and every piece that comes for it, unless all of them
/// come again at its end. The other calls stay, and calls keep the order in which
/// they came up.
pub proof fn law_items_grow_their_call(values: Seq<JsonView>, value: JsonView, other: Seq<char>)
    requires
        take_values(values) is Ok,
        take_values(values.push(value)) is Ok,
    ensures
        ({
            let calls = take_values(values)->Ok_0.calls;
            let after = take_values(values.push(value))->Ok_0.calls;
            let kind = value.text_or_empty("type"@);
            let item = value.field("item"@);
            let called = item.text("type"@) == Some("function_call"@);
            let id = if kind == "response.function_call_arguments.delta"@ {
                value.text_or_empty("item_id"@)
            } else {
                item.text_or_empty("id"@)
            };
            &&& other != id ==> entry_of(after, other) == entry_of(calls, other)
            &&& after.len() >= calls.len() && forall|i: int|
                0 <= i < calls.len() ==> (#[trigger] after[i]).0 == calls[i].0
            &&& kind == "response.output_item.added"@ && called ==> (entry_of(
                after,
                id,
            ) matches Some(call) && {
                &&& call.id == (match item.text("call_id"@) {
                    Some(given) => given,
                    None => id,
                })
                &&& call.name == item.text_or_empty("name"@)
                &&& call.arguments == item.text_or_empty("arguments"@)
            })
            &&& kind == "response.function_call_arguments.delta"@ ==> (entry_of(
                calls,
                id,
            ) matches Some(call) && entry_of(after, id) == Some(
                ToolCallView {
                    arguments: call.arguments + value.text_or_empty("delta"@),
                    ..call
                },
            ))
            &&& kind == "response.output_item.done"@ && called ==> match entry_of(calls, id) {
                None => entry_of(after, id) is None,
                Some(call) => entry_of(after, id) == Some(
                    ToolCallView {
                        arguments: if item.text_or_empty("arguments"@).len() > 0 {
                            item.text_or_empty("arguments"@)
                        } else {
                            call.arguments
                        },
                        ..call
                    },
                ),
            }
            &&& !(kind == "response.output_item.added"@ && called) && kind
                != "response.function_call_arguments.delta"@ && !(kind
                == "response.output_item.done"@ && called) ==> after == calls
        }),
{
    let more = values.push(value);
    assert(more.drop_last() =~= values);
    lemma_kinds();
    let calls = take_values(values)->Ok_0.calls;
    let kind = value.text_or_empty("type"@);
    let item = value.field("item"@);
    let delta = value.text_or_empty("delta"@);
    if kind == "response.output_item.added"@ {
        law_with_entry(calls, item.text_or_empty("id"@), call_of(item), other);
        lemma_key_at(calls, item.text_or_empty("id"@), 0);
    } else if kind == "response.function_call_arguments.delta"@ {
        let id = value.text_or_empty("item_id"@);
        if let Some(call) = entry_of(calls, id) {
            law_with_entry(
                calls,
                id,
                (ToolCallView { arguments: call.arguments + delta, ..call }),
                other,
            );
            lemma_key_at(calls, id, 0);
        }
    } else if kind == "response.output_item.done"@ {
        let id = item.text_or_empty("id"@);
        let arguments = item.text_or_empty("arguments"@);
        if let Some(call) = entry_of(calls, id) {
            law_with_entry(
                calls,
                id,
                if arguments.len() == 0 {
                    call
                } else {
                    ToolCallView { arguments, ..call }
                },
                other,
            );
            lemma_key_at(calls, id, 0);
        }
    }
}

/// The calls of an answer are those that came up, in their order.
pub proof fn law_calls_of_an_answer(values: Seq<JsonView>)
    ensures
        answer_of(values) matches Ok(a) ==> (take_values(values) matches Ok(s)
            && a.turn.tool_calls.len() == s.calls.len() && forall|i: int|
            0 <= i < s.calls.len() ==> #[trigger] a.turn.tool_calls[i] == s.calls[i].1),
{
    lemma_answer_told(values);
}

/// While an answer comes in, the same is shown of it as is told of it in the end,
/// piece by piece, up to its completion.
pub proof fn law_shown_events_are_those_told(values: Seq<JsonView>)
    requires
        take_values(values) is Ok,
        forall|i: int|
            0 <= i < values.len() ==> (#[trigger] values[i]).text_or_empty("type"@)
                != "response.completed"@,
    ensures
        live_values(values).1 == take_values(values)->Ok_0.events,
        forall|id: Seq<char>| #[trigger]
            entry_of(live_values(values).0, id) == (match entry_of(
                take_values(values)->Ok_0.calls,
                id,
            ) {
                Some(call) => Some(call.id),
                None => None,
            }),
    decreases values.len(),
{
    if values.len() > 0 {
        let front = values.drop_last();
        let value = values[values.len() - 1];
        assert forall|i: int| 0 <= i < front.len() implies (#[trigger] front[i]).text_or_empty(
            "type"@,
        ) != "response.completed"@ by {
            assert(front[i] == values[i]);
        }
        law_shown_events_are_those_told(front);
        lemma_kinds();
        let s = take_values(front)->Ok_0;
        let t = take_values(values)->Ok_0;
        let (ids, events) = live_values(front);
        let (after, more) = live_step(ids, value);
        assert(front.push(value) =~= values);
        assert(events + more =~= t.events);
        let item = value.field("item"@);
        assert forall|id: Seq<char>| #[trigger]
            entry_of(after, id) == (match entry_of(t.calls, id) {
                Some(call) => Some(call.id),
                None => None,
            }) by {
            law_items_grow_their_call(front, value, id);
            assert(entry_of(ids, id) == (match entry_of(s.calls, id) {
                Some(call) => Some(call.id),
                None => None,
            }));
            if value.text_or_empty("type"@) == "response.output_item.added"@ && is_call(item) {
                law_with_entry(ids, item.text_or_empty("id"@), call_of(item).id, id);
            }
        }
    } else {
        assert forall|id: Seq<char>| #[trigger]
            entry_of(live_values(values).0, id) == (match entry_of(
                take_values(values)->Ok_0.calls,
                id,
            ) {
                Some(call) => Some(call.id),
                None => None,
            }) by {
            assert(entry_of(Seq::<(Seq<char>, ToolCallView)>::empty(), id) is None);
            assert(entry_of(Seq::<(Seq<char>, Seq<char>)>::empty(), id) is None);
        }
    }
}

/// Every value adds at the end of what is told: the pieces of what is said and
/// thought, the start of a call with its id and its name, the pieces of its
/// arguments, and its end.
pub proof fn law_values_are_told_as_they_come(values: Seq<JsonView>, value: JsonView)
    requires
        take_values(values) is Ok,
        take_values(values.push(value)) is Ok,
    ensures
        ({
            let s = take_values(values)->Ok_0;
            let t = take_values(values.push(value))->Ok_0;
            let n = s.events.len() as int;
            let kind = value.text_or_empty("type"@);
            let delta = value.text_or_empty("delta"@);
            let item = value.field("item"@);
            let called = item.text("type"@) == Some("function_call"@);
            &&& t.events.len() >= n && t.events.take(n) == s.events
            &&& kind == "response.output_text.delta"@ ==> t.events.skip(n) == seq![
                EventView::TextDelta { delta },
            ]
            &&& kind == "response.reasoning_summary_text.delta"@ || kind
                == "response.reasoning_text.delta"@ ==> t.events.skip(n) == seq![
                EventView::ReasoningDelta { delta },
            ]
            &&& kind == "response.output_item.added"@ && called ==> (entry_of(
                t.calls,
                item.text_or_empty("id"@),
            ) matches Some(call) && {
                let start = EventView::ToolCallStart { id: call.id, name: call.name };
                &&& call.arguments.len() == 0 ==> t.events.skip(n) == seq![start]
                &&& call.arguments.len() > 0 ==> t.events.skip(n) == seq![
                    start,
                    EventView::ToolCallArgsDelta { id: call.id, delta: call.arguments },
                ]
            })
            &&& kind == "response.function_call_arguments.delta"@ ==> (entry_of(
                s.calls,
                value.text_or_empty("item_id"@),
            ) matches Some(call) && t.events.skip(n) == seq![
                EventView::ToolCallArgsDelta { id: call.id, delta },
            ])
            &&& kind == "response.output_item.done"@ && called ==> match entry_of(
                s.calls,
                item.text_or_empty("id"@),
            ) {
                Some(call) => t.events.skip(n) == seq![EventView::ToolCallEnd { id: call.id }],
                None => t.events == s.events,
            }
            &&& kind == "response.completed"@ ==> t.events == s.events
        }),
{
    assert(values.push(value).drop_last() =~= values);
    lemma_kinds();
    law_items_grow_their_call(values, value, Seq::empty());
    let s = take_values(values)->Ok_0;
    let t = take_values(values.push(value))->Ok_0;
    let n = s.events.len() as int;
    assert(t.events.take(n) =~= s.events);
    let more = t.events.skip(n);
    if more.len() == 1 {
        assert(more =~= seq![t.events[n]]);
    } else if more.len() == 2 {
        assert(more =~= seq![t.events[n], t.events[n + 1]]);
    }
}

} // verus!
