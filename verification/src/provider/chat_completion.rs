//! The Chat Completions protocol.
use vstd::prelude::*;
use vstd::string::*;

use crate::config::{ProviderConfig, ProviderView};
use crate::json::{
    Json, JsonView, compact, compact_text, has_entry, lemma_list_view, list_json, natural_json,
    no_entries, object1, object2, object3, object_json, seen, text_json,
};
use crate::model::{
    BlockView, ContentBlock, EventView, MessageView, ModelMessage, ModelRequest, ModelTurn,
    RequestView, Role, StreamEvent, ToolCall, ToolCallView, ToolResult, ToolResultView, TurnView,
    Usage, law_texts_of_blocks, or_zero, text_of_block, text_parts, unless_none,
};
use crate::provider::{
    Answer, AnswerView, answer_blocks, append_events, append_values, call_of_block, closing_events,
    detail, find_detail, law_fields_are_merged, lemma_fields2, lemma_fields3, lemma_told,
    make_blocks, merge_request_fields, merged_fields, message_text, no_events, offered_tools,
    or_empty, push_closing, push_event, result_of_block, said, text_blocks, thought,
    tool_definitions,
};
use crate::seqs::{lemma_picks_last, lemma_picks_nothing, picked_at, picks};
use crate::table::{
    Slots, entry_of, fill_slot, in_slots, key_at, law_entries_are_found, law_slots_are_filled,
    law_with_entry, lemma_entry_at, pairs, push_entry, set_entry, slot_value, with_entry,
};
use crate::text::{
    decimal, joined, law_decimal_is_read_back, lemma_views_push, maybe, outcome, views,
};

verus! {

// ---------------------------------------------------------------------------
// Requests

/// A call as it is sent back.
pub open spec fn call_json(call: ToolCallView) -> JsonView {
    JsonView::Object(
        seq![
            ("id"@, JsonView::Str(call.id)),
            ("type"@, JsonView::Str("function"@)),
            (
                "function"@,
                JsonView::Object(
                    seq![
                        ("name"@, JsonView::Str(call.name)),
                        ("arguments"@, JsonView::Str(call.arguments)),
                    ],
                ),
            ),
        ],
    )
}

/// The calls among blocks, as they are sent back.
pub open spec fn calls_json(blocks: Seq<BlockView>) -> Seq<JsonView>
    decreases blocks.len(),
{
    if blocks.len() == 0 {
        Seq::empty()
    } else {
        match blocks.last() {
            BlockView::ToolCall(call) => calls_json(blocks.drop_last()).push(call_json(call)),
            _ => calls_json(blocks.drop_last()),
        }
    }
}

/// The results among blocks, each as a message.
pub open spec fn results_json(blocks: Seq<BlockView>) -> Seq<JsonView>
    decreases blocks.len(),
{
    if blocks.len() == 0 {
        Seq::empty()
    } else {
        match blocks.last() {
            BlockView::ToolResult(result) => results_json(blocks.drop_last()).push(
                JsonView::Object(
                    seq![
                        ("role"@, JsonView::Str("tool"@)),
                        ("tool_call_id"@, JsonView::Str(result.call_id)),
                        ("content"@, JsonView::Str(result.output)),
                    ],
                ),
            ),
            _ => results_json(blocks.drop_last()),
        }
    }
}

/// A message with a role and a text.
pub open spec fn spoken(role: Seq<char>, content: JsonView) -> Seq<(Seq<char>, JsonView)> {
    seq![("role"@, JsonView::Str(role)), ("content"@, content)]
}

/// The messages that one message is sent as.
pub open spec fn sent_as(message: MessageView) -> Seq<JsonView> {
    match message.role {
        Role::User => seq![
            JsonView::Object(spoken("user"@, JsonView::Str(message_text(message.blocks)))),
        ],
        Role::Assistant => {
            let text = message_text(message.blocks);
            let calls = calls_json(message.blocks);
            let said = spoken(
                "assistant"@,
                if text.len() == 0 {
                    JsonView::Null
                } else {
                    JsonView::Str(text)
                },
            );
            seq![
                JsonView::Object(
                    if calls.len() == 0 {
                        said
                    } else {
                        said.push(("tool_calls"@, JsonView::List(calls)))
                    },
                ),
            ]
        },
        Role::Tool => results_json(message.blocks),
        Role::System => Seq::empty(),
    }
}

/// The messages that messages are sent as.
pub open spec fn all_sent(messages: Seq<MessageView>) -> Seq<JsonView>
    decreases messages.len(),
{
    if messages.len() == 0 {
        Seq::empty()
    } else {
        all_sent(messages.drop_last()) + sent_as(messages.last())
    }
}

/// The tools as functions.
pub open spec fn as_functions(tools: Seq<JsonView>) -> Seq<JsonView> {
    Seq::new(
        tools.len(),
        |i: int|
            JsonView::Object(
                seq![("type"@, JsonView::Str("function"@)), ("function"@, tools[i])],
            ),
    )
}

/// The fields with a default under a key that is not there yet.
pub open spec fn with_default(
    entries: Seq<(Seq<char>, JsonView)>,
    key: Seq<char>,
    value: JsonView,
) -> Seq<(Seq<char>, JsonView)> {
    if key_at(entries, key, 0) is Some {
        entries
    } else {
        with_entry(entries, key, value)
    }
}

/// The body of a request.
pub open spec fn body_of(config: ProviderView, request: RequestView) -> JsonView {
    let messages = seq![
        JsonView::Object(spoken("system"@, JsonView::Str(request.system_prompt))),
    ] + all_sent(request.messages);
    let tools = if request.include_tools {
        as_functions(offered_tools())
    } else {
        Seq::empty()
    };
    let body = with_default(
        merged_fields(Seq::empty(), config.request),
        "stream_options"@,
        JsonView::Object(seq![("include_usage"@, JsonView::Bool(true))]),
    );
    let body = with_entry(body, "model"@, JsonView::Str(config.model));
    let body = with_entry(
        body,
        "max_tokens"@,
        JsonView::Number(decimal(config.max_tokens as nat)),
    );
    let body = with_entry(body, "messages"@, JsonView::List(messages));
    let body = with_entry(body, "tools"@, JsonView::List(tools));
    JsonView::Object(with_entry(body, "stream"@, JsonView::Bool(true)))
}

fn make_call(call: &ToolCall) -> (r: Json)
    ensures
        r@ == call_json(call@),
{
    object3(
        "id",
        text_json(&call.id),
        "type",
        text_json("function"),
        "function",
        object2("name", text_json(&call.name), "arguments", text_json(&call.arguments)),
    )
}

fn make_calls(blocks: &Vec<ContentBlock>) -> (r: Vec<Json>)
    ensures
        views(r@) == calls_json(views(blocks@)),
{
    broadcast use lemma_views_push;

    let ghost all = views(blocks@);
    let mut r: Vec<Json> = Vec::new();
    assert(views(r@) =~= Seq::empty());
    assert(all.take(0) =~= Seq::empty());
    let mut i: usize = 0;
    while i < blocks.len()
        invariant
            i <= blocks.len(),
            all == views(blocks@),
            views(r@) == calls_json(all.take(i as int)),
        decreases blocks.len() - i,
    {
        assert(all.take(i + 1).drop_last() =~= all.take(i as int));
        assert(all.take(i + 1).last() == blocks@[i as int]@);
        match &blocks[i] {
            ContentBlock::ToolCall(call) => {
                r.push(make_call(call));
            },
            _ => {},
        }
        i += 1;
    }
    assert(all.take(all.len() as int) =~= all);
    r
}

fn make_results(blocks: &Vec<ContentBlock>) -> (r: Vec<Json>)
    ensures
        views(r@) == results_json(views(blocks@)),
{
    broadcast use lemma_views_push;

    let ghost all = views(blocks@);
    let mut r: Vec<Json> = Vec::new();
    assert(views(r@) =~= Seq::empty());
    assert(all.take(0) =~= Seq::empty());
    let mut i: usize = 0;
    while i < blocks.len()
        invariant
            i <= blocks.len(),
            all == views(blocks@),
            views(r@) == results_json(all.take(i as int)),
        decreases blocks.len() - i,
    {
        assert(all.take(i + 1).drop_last() =~= all.take(i as int));
        assert(all.take(i + 1).last() == blocks@[i as int]@);
        match &blocks[i] {
            ContentBlock::ToolResult(result) => {
                r.push(
                    object3(
                        "role",
                        text_json("tool"),
                        "tool_call_id",
                        text_json(&result.call_id),
                        "content",
                        text_json(&result.output),
                    ),
                );
            },
            _ => {},
        }
        i += 1;
    }
    assert(all.take(all.len() as int) =~= all);
    r
}

fn make_spoken(role: &str, content: Json) -> (r: Vec<(String, Json)>)
    ensures
        pairs(r@) == spoken(role@, content@),
{
    let mut e = no_entries();
    push_entry(&mut e, "role", text_json(role));
    push_entry(&mut e, "content", content);
    e
}

fn make_message(message: &ModelMessage) -> (r: Vec<Json>)
    ensures
        views(r@) == sent_as(message@),
{
    let mut r: Vec<Json> = Vec::new();
    match message.role {
        Role::User => {
            r.push(object_json(make_spoken("user", Json::Str(text_blocks(&message.blocks)))));
            assert(views(r@) =~= sent_as(message@));
            r
        },
        Role::Assistant => {
            let text = text_blocks(&message.blocks);
            let calls = make_calls(&message.blocks);
            assert(views(calls@).len() == calls@.len());
            let content = if text.as_str().is_empty() {
                Json::Null
            } else {
                Json::Str(text)
            };
            let mut item = make_spoken("assistant", content);
            if calls.len() > 0 {
                push_entry(&mut item, "tool_calls", list_json(calls));
            }
            r.push(object_json(item));
            assert(views(r@) =~= sent_as(message@));
            r
        },
        Role::Tool => make_results(&message.blocks),
        Role::System => {
            assert(views(r@) =~= sent_as(message@));
            r
        },
    }
}

fn make_functions() -> (r: Vec<Json>)
    ensures
        views(r@) == as_functions(offered_tools()),
{
    broadcast use lemma_views_push;

    let tools = tool_definitions();
    let ghost all = as_functions(offered_tools());
    let mut r: Vec<Json> = Vec::new();
    assert(views(r@) =~= all.take(0));
    assert(views(tools@).len() == tools@.len());
    let mut i: usize = 0;
    while i < tools.len()
        invariant
            i <= tools.len(),
            tools.len() == all.len(),
            views(tools@) == offered_tools(),
            all == as_functions(offered_tools()),
            views(r@) == all.take(i as int),
        decreases tools.len() - i,
    {
        assert(views(tools@)[i as int] == tools@[i as int]@);
        r.push(object2("type", text_json("function"), "function", tools[i].clone()));
        assert(all.take(i + 1) =~= all.take(i as int).push(all[i as int]));
        i += 1;
    }
    assert(all.take(all.len() as int) =~= all);
    r
}

/// The body of a request.
pub fn request_body(config: &ProviderConfig, request: &ModelRequest) -> (r: Json)
    ensures
        r@ == body_of(config@, request@),
{
    let mut messages: Vec<Json> = Vec::new();
    messages.push(object_json(make_spoken("system", text_json(&request.system_prompt))));
    let ghost first = seq![
        JsonView::Object(spoken("system"@, JsonView::Str(request.system_prompt@))),
    ];
    let ghost all = views(request.messages@);
    assert(views(messages@) =~= first);
    assert(all.take(0) =~= Seq::empty());
    assert(first + all_sent(all.take(0)) =~= first);
    let mut i: usize = 0;
    while i < request.messages.len()
        invariant
            i <= request.messages.len(),
            all == views(request.messages@),
            views(messages@) == first + all_sent(all.take(i as int)),
        decreases request.messages.len() - i,
    {
        assert(all.take(i + 1).drop_last() =~= all.take(i as int));
        assert(all.take(i + 1).last() == request.messages@[i as int]@);
        let more = make_message(&request.messages[i]);
        let ghost sent = views(more@);
        append_values(&mut messages, more);
        assert(first + (all_sent(all.take(i as int)) + sent) =~= first + all_sent(
            all.take(i as int),
        ) + sent);
        i += 1;
    }
    assert(all.take(all.len() as int) =~= all);
    let tools = if request.include_tools {
        make_functions()
    } else {
        Vec::new()
    };
    assert(!request.include_tools ==> views(tools@) =~= Seq::empty());
    let mut body = merge_request_fields(config);
    if !has_entry(&body, "stream_options") {
        set_entry(&mut body, "stream_options", object1("include_usage", Json::Bool(true)));
    }
    set_entry(&mut body, "model", text_json(&config.model));
    set_entry(&mut body, "max_tokens", natural_json(config.max_tokens as u64));
    set_entry(&mut body, "messages", list_json(messages));
    set_entry(&mut body, "tools", list_json(tools));
    set_entry(&mut body, "stream", Json::Bool(true));
    object_json(body)
}

// ---------------------------------------------------------------------------
// What a request tells the model

/// The names of fields differ.
proof fn lemma_keys()
    ensures
        "arguments"@ != "name"@,
        "content"@ != "role"@,
        "content"@ != "tool_call_id"@,
        "content"@ != "tool_calls"@,
        "function"@ != "id"@,
        "function"@ != "type"@,
        "id"@ != "type"@,
        "max_tokens"@ != "messages"@,
        "max_tokens"@ != "model"@,
        "max_tokens"@ != "stream"@,
        "max_tokens"@ != "stream_options"@,
        "max_tokens"@ != "tools"@,
        "messages"@ != "model"@,
        "messages"@ != "stream"@,
        "messages"@ != "stream_options"@,
        "messages"@ != "tools"@,
        "model"@ != "stream"@,
        "model"@ != "stream_options"@,
        "model"@ != "tools"@,
        "role"@ != "tool_call_id"@,
        "role"@ != "tool_calls"@,
        "stream"@ != "stream_options"@,
        "stream"@ != "tools"@,
        "stream_options"@ != "tools"@,
{
    reveal_strlit("arguments");
    reveal_strlit("content");
    reveal_strlit("function");
    reveal_strlit("id");
    reveal_strlit("max_tokens");
    reveal_strlit("messages");
    reveal_strlit("model");
    reveal_strlit("name");
    reveal_strlit("role");
    reveal_strlit("stream");
    reveal_strlit("stream_options");
    reveal_strlit("tool_call_id");
    reveal_strlit("tool_calls");
    reveal_strlit("tools");
    reveal_strlit("type");
    assert("arguments"@.len() != "name"@.len());
    assert("content"@.len() != "role"@.len());
    assert("content"@.len() != "tool_call_id"@.len());
    assert("content"@.len() != "tool_calls"@.len());
    assert("function"@.len() != "id"@.len());
    assert("function"@.len() != "type"@.len());
    assert("id"@.len() != "type"@.len());
    assert("max_tokens"@.len() != "messages"@.len());
    assert("max_tokens"@.len() != "model"@.len());
    assert("max_tokens"@.len() != "stream"@.len());
    assert("max_tokens"@.len() != "stream_options"@.len());
    assert("max_tokens"@.len() != "tools"@.len());
    assert("messages"@.len() != "model"@.len());
    assert("messages"@.len() != "stream"@.len());
    assert("messages"@.len() != "stream_options"@.len());
    assert("messages"@.len() != "tools"@.len());
    assert("model"@.len() != "stream"@.len());
    assert("model"@.len() != "stream_options"@.len());
    assert("model"@[0] != "tools"@[0]);
    assert("role"@.len() != "tool_call_id"@.len());
    assert("role"@.len() != "tool_calls"@.len());
    assert("stream"@.len() != "stream_options"@.len());
    assert("stream"@.len() != "tools"@.len());
    assert("stream_options"@.len() != "tools"@.len());
}

/// Whether a value is the call that a model made, as it is sent back to it.
pub open spec fn is_sent_call(v: JsonView, call: ToolCallView) -> bool {
    &&& v.text("id"@) == Some(call.id)
    &&& v.text("type"@) == Some("function"@)
    &&& v.get("function"@) matches Some(f) && f.text("name"@) == Some(call.name) && f.text(
        "arguments"@,
    ) == Some(call.arguments)
}

/// Whether a value tells the model what a tool gave for a call.
pub open spec fn is_sent_result(v: JsonView, result: ToolResultView) -> bool {
    &&& v.text("role"@) == Some("tool"@)
    &&& v.text("tool_call_id"@) == Some(result.call_id)
    &&& v.text("content"@) == Some(result.output)
}

/// Whether values tell the model of a message. What the user and the model said
/// is one value with the texts on lines of their own, with the calls of the model
/// in their order; every result of a tool is a value of its own, in their order.
pub open spec fn tells_message(message: MessageView, values: Seq<JsonView>) -> bool {
    match message.role {
        Role::User => values.len() == 1 && exists|texts: Seq<Seq<char>>|
            {
                &&& #[trigger] picks(message.blocks, texts, text_of_block())
                &&& values[0].text("role"@) == Some("user"@)
                &&& values[0].text("content"@) == Some(joined(texts, "\n"@))
                &&& values[0].get("tool_calls"@) is None
            },
        Role::Assistant => values.len() == 1 && exists|
            texts: Seq<Seq<char>>,
            calls: Seq<ToolCallView>,
        |
            {
                &&& #[trigger] picks(message.blocks, texts, text_of_block())
                &&& #[trigger] picks(message.blocks, calls, call_of_block())
                &&& values[0].text("role"@) == Some("assistant"@)
                &&& values[0].get("content"@) == Some(
                    if joined(texts, "\n"@).len() == 0 {
                        JsonView::Null
                    } else {
                        JsonView::Str(joined(texts, "\n"@))
                    },
                )
                &&& calls.len() == 0 ==> values[0].get("tool_calls"@) is None
                &&& calls.len() > 0 ==> (values[0].get("tool_calls"@) matches Some(
                    JsonView::List(sent),
                ) && sent.len() == calls.len() && forall|i: int|
                    0 <= i < calls.len() ==> is_sent_call(#[trigger] sent[i], calls[i]))
            },
        Role::Tool => exists|results: Seq<ToolResultView>|
            {
                &&& #[trigger] picks(message.blocks, results, result_of_block())
                &&& values.len() == results.len()
                &&& forall|i: int|
                    0 <= i < results.len() ==> is_sent_result(#[trigger] values[i], results[i])
            },
        Role::System => values.len() == 0,
    }
}

proof fn lemma_calls_sent(blocks: Seq<BlockView>) -> (calls: Seq<ToolCallView>)
    ensures
        picks(blocks, calls, call_of_block()),
        calls_json(blocks).len() == calls.len(),
        forall|i: int| 0 <= i < calls.len() ==> is_sent_call(#[trigger] calls_json(blocks)[i], calls[i]),
    decreases blocks.len(),
{
    if blocks.len() == 0 {
        lemma_picks_nothing(blocks, call_of_block());
        Seq::empty()
    } else {
        let before = lemma_calls_sent(blocks.drop_last());
        lemma_picks_last(blocks, before, call_of_block());
        match blocks.last() {
            BlockView::ToolCall(call) => {
                lemma_keys();
                let f = JsonView::Object(
                    seq![
                        ("name"@, JsonView::Str(call.name)),
                        ("arguments"@, JsonView::Str(call.arguments)),
                    ],
                );
                lemma_fields2(
                    "name"@,
                    JsonView::Str(call.name),
                    "arguments"@,
                    JsonView::Str(call.arguments),
                );
                lemma_fields3(
                    "id"@,
                    JsonView::Str(call.id),
                    "type"@,
                    JsonView::Str("function"@),
                    "function"@,
                    f,
                );
                assert(is_sent_call(call_json(call), call));
                before.push(call)
            },
            _ => before,
        }
    }
}

proof fn lemma_results_sent(blocks: Seq<BlockView>) -> (results: Seq<ToolResultView>)
    ensures
        picks(blocks, results, result_of_block()),
        results_json(blocks).len() == results.len(),
        forall|i: int|
            0 <= i < results.len() ==> is_sent_result(
                #[trigger] results_json(blocks)[i],
                results[i],
            ),
    decreases blocks.len(),
{
    if blocks.len() == 0 {
        lemma_picks_nothing(blocks, result_of_block());
        Seq::empty()
    } else {
        let before = lemma_results_sent(blocks.drop_last());
        lemma_picks_last(blocks, before, result_of_block());
        match blocks.last() {
            BlockView::ToolResult(result) => {
                lemma_keys();
                lemma_fields3(
                    "role"@,
                    JsonView::Str("tool"@),
                    "tool_call_id"@,
                    JsonView::Str(result.call_id),
                    "content"@,
                    JsonView::Str(result.output),
                );
                before.push(result)
            },
            _ => before,
        }
    }
}

proof fn lemma_spoken(role: Seq<char>, content: JsonView, calls: JsonView)
    ensures
        ({
            let said = JsonView::Object(spoken(role, content));
            &&& said.get("role"@) == Some(JsonView::Str(role))
            &&& said.get("content"@) == Some(content)
            &&& said.get("tool_calls"@) is None
        }),
        ({
            let said = JsonView::Object(spoken(role, content).push(("tool_calls"@, calls)));
            &&& said.get("role"@) == Some(JsonView::Str(role))
            &&& said.get("content"@) == Some(content)
            &&& said.get("tool_calls"@) == Some(calls)
        }),
{
    lemma_keys();
    lemma_fields2("role"@, JsonView::Str(role), "content"@, content);
    law_entries_are_found(spoken(role, content), "tool_calls"@);
    if JsonView::Object(spoken(role, content)).get("tool_calls"@) is Some {
        let i = choose|i: int| 0 <= i < 2 && (#[trigger] spoken(role, content)[i]).0 == "tool_calls"@;
    }
    lemma_fields3("role"@, JsonView::Str(role), "content"@, content, "tool_calls"@, calls);
    assert(spoken(role, content).push(("tool_calls"@, calls)) =~= seq![
        ("role"@, JsonView::Str(role)),
        ("content"@, content),
        ("tool_calls"@, calls),
    ]);
}

proof fn lemma_message_told(message: MessageView)
    ensures
        tells_message(message, sent_as(message)),
{
    let blocks = message.blocks;
    law_texts_of_blocks(blocks);
    let texts = text_parts(blocks);
    let text = message_text(blocks);
    let calls = lemma_calls_sent(blocks);
    let results = lemma_results_sent(blocks);
    let content = if text.len() == 0 {
        JsonView::Null
    } else {
        JsonView::Str(text)
    };
    lemma_spoken("user"@, JsonView::Str(text), JsonView::Null);
    lemma_spoken("assistant"@, content, JsonView::List(calls_json(blocks)));
    assert(picks(blocks, texts, text_of_block()));
    assert(picks(blocks, calls, call_of_block()));
    assert(picks(blocks, results, result_of_block()));
}

/// The fields of a body that are set in every request.
pub open spec fn is_own_field(key: Seq<char>) -> bool {
    key == "model"@ || key == "max_tokens"@ || key == "messages"@ || key == "tools"@ || key
        == "stream"@
}

proof fn lemma_body_fields(config: ProviderView, request: RequestView, key: Seq<char>)
    ensures
        ({
            let body = body_of(config, request);
            let fields = merged_fields(Seq::empty(), config.request);
            &&& body.get("model"@) == Some(JsonView::Str(config.model))
            &&& body.get("max_tokens"@) == Some(JsonView::Number(decimal(config.max_tokens as nat)))
            &&& body.get("messages"@) == Some(
                JsonView::List(
                    seq![
                        JsonView::Object(spoken("system"@, JsonView::Str(request.system_prompt))),
                    ] + all_sent(request.messages),
                ),
            )
            &&& body.get("tools"@) == Some(
                JsonView::List(
                    if request.include_tools {
                        as_functions(offered_tools())
                    } else {
                        Seq::empty()
                    },
                ),
            )
            &&& body.get("stream"@) == Some(JsonView::Bool(true))
            &&& !is_own_field(key) && key != "stream_options"@ ==> body.get(key) == entry_of(
                fields,
                key,
            )
            &&& body.get("stream_options"@) == (match entry_of(fields, "stream_options"@) {
                Some(v) => Some(v),
                None => Some(
                    JsonView::Object(seq![("include_usage"@, JsonView::Bool(true))]),
                ),
            })
        }),
{
    lemma_keys();
    let fields = merged_fields(Seq::empty(), config.request);
    let usage = JsonView::Object(seq![("include_usage"@, JsonView::Bool(true))]);
    let options = "stream_options"@;
    let b0 = with_default(fields, options, usage);
    law_with_entry(fields, options, usage, key);
    let messages = JsonView::List(
        seq![JsonView::Object(spoken("system"@, JsonView::Str(request.system_prompt)))]
            + all_sent(request.messages),
    );
    let tools = JsonView::List(
        if request.include_tools {
            as_functions(offered_tools())
        } else {
            Seq::empty()
        },
    );
    let v1 = JsonView::Str(config.model);
    let v2 = JsonView::Number(decimal(config.max_tokens as nat));
    let v5 = JsonView::Bool(true);
    let b1 = with_entry(b0, "model"@, v1);
    let b2 = with_entry(b1, "max_tokens"@, v2);
    let b3 = with_entry(b2, "messages"@, messages);
    let b4 = with_entry(b3, "tools"@, tools);
    let b5 = with_entry(b4, "stream"@, v5);
    assert(body_of(config, request) == JsonView::Object(b5));
    lemma_kept(b0, b1, b2, b3, b4, v1, v2, messages, tools, v5, key);
    lemma_kept(b0, b1, b2, b3, b4, v1, v2, messages, tools, v5, options);
}

proof fn lemma_kept(
    b0: Seq<(Seq<char>, JsonView)>,
    b1: Seq<(Seq<char>, JsonView)>,
    b2: Seq<(Seq<char>, JsonView)>,
    b3: Seq<(Seq<char>, JsonView)>,
    b4: Seq<(Seq<char>, JsonView)>,
    v1: JsonView,
    v2: JsonView,
    v3: JsonView,
    v4: JsonView,
    v5: JsonView,
    key: Seq<char>,
)
    requires
        b1 == with_entry(b0, "model"@, v1),
        b2 == with_entry(b1, "max_tokens"@, v2),
        b3 == with_entry(b2, "messages"@, v3),
        b4 == with_entry(b3, "tools"@, v4),
    ensures
        ({
            let b5 = with_entry(b4, "stream"@, v5);
            &&& entry_of(b5, "model"@) == Some(v1)
            &&& entry_of(b5, "max_tokens"@) == Some(v2)
            &&& entry_of(b5, "messages"@) == Some(v3)
            &&& entry_of(b5, "tools"@) == Some(v4)
            &&& entry_of(b5, "stream"@) == Some(v5)
            &&& !is_own_field(key) ==> entry_of(b5, key) == entry_of(b0, key)
        }),
{
    lemma_keys();
    law_with_entry(b0, "model"@, v1, key);
    law_with_entry(b1, "max_tokens"@, v2, "model"@);
    law_with_entry(b1, "max_tokens"@, v2, key);
    law_with_entry(b2, "messages"@, v3, "model"@);
    law_with_entry(b2, "messages"@, v3, "max_tokens"@);
    law_with_entry(b2, "messages"@, v3, key);
    law_with_entry(b3, "tools"@, v4, "model"@);
    law_with_entry(b3, "tools"@, v4, "max_tokens"@);
    law_with_entry(b3, "tools"@, v4, "messages"@);
    law_with_entry(b3, "tools"@, v4, key);
    law_with_entry(b4, "stream"@, v5, "model"@);
    law_with_entry(b4, "stream"@, v5, "max_tokens"@);
    law_with_entry(b4, "stream"@, v5, "messages"@);
    law_with_entry(b4, "stream"@, v5, "tools"@);
    law_with_entry(b4, "stream"@, v5, key);
}

/// The values that tell the model of a conversation.
pub open spec fn told_to_model(config: ProviderView, request: RequestView) -> Seq<JsonView> {
    body_of(config, request).field("messages"@).items()
}

/// A request begins with the system prompt, and every message adds to it what
/// tells of the message, after all that came before.
pub proof fn law_requests_tell_the_conversation_in_order(
    config: ProviderView,
    request: RequestView,
    message: MessageView,
)
    ensures
        ({
            let longer = RequestView { messages: request.messages.push(message), ..request };
            let before = told_to_model(config, request);
            let after = told_to_model(config, longer);
            &&& before.len() <= after.len()
            &&& after.take(before.len() as int) == before
            &&& tells_message(message, after.skip(before.len() as int))
            &&& request.messages.len() == 0 ==> before.len() == 1
            &&& before.len() > 0 && before[0].text("role"@) == Some("system"@) && before[0].text(
                "content"@,
            ) == Some(request.system_prompt)
        }),
{
    let longer = RequestView { messages: request.messages.push(message), ..request };
    lemma_body_fields(config, request, Seq::empty());
    lemma_body_fields(config, longer, Seq::empty());
    let before = told_to_model(config, request);
    let after = told_to_model(config, longer);
    assert(longer.messages.drop_last() =~= request.messages);
    assert(after =~= before + sent_as(message));
    assert(after.take(before.len() as int) =~= before);
    assert(after.skip(before.len() as int) =~= sent_as(message));
    lemma_message_told(message);
    lemma_spoken("system"@, JsonView::Str(request.system_prompt), JsonView::Null);
}

/// Every result of a tool in a conversation is told to the model, under the call
/// that it is for.
pub proof fn law_results_reach_the_model(
    config: ProviderView,
    request: RequestView,
    m: int,
    b: int,
)
    requires
        0 <= m < request.messages.len(),
        request.messages[m].role == Role::Tool,
        0 <= b < request.messages[m].blocks.len(),
        request.messages[m].blocks[b] is ToolResult,
    ensures
        exists|k: int|
            0 <= k < told_to_model(config, request).len() && is_sent_result(
                #[trigger] told_to_model(config, request)[k],
                request.messages[m].blocks[b]->ToolResult_0,
            ),
    decreases request.messages.len(),
{
    let front = RequestView { messages: request.messages.drop_last(), ..request };
    let last = request.messages.len() - 1;
    let message = request.messages[last];
    law_requests_tell_the_conversation_in_order(config, front, message);
    assert(front.messages.push(message) =~= request.messages);
    let before = told_to_model(config, front);
    let after = told_to_model(config, request);
    if m < last {
        assert(front.messages[m] == request.messages[m]);
        law_results_reach_the_model(config, front, m, b);
        let k = choose|k: int|
            0 <= k < before.len() && is_sent_result(
                #[trigger] before[k],
                request.messages[m].blocks[b]->ToolResult_0,
            );
        assert(after.take(before.len() as int)[k] == after[k]);
    } else {
        let values = after.skip(before.len() as int);
        let results = choose|results: Seq<ToolResultView>|
            {
                &&& #[trigger] picks(message.blocks, results, result_of_block())
                &&& values.len() == results.len()
                &&& forall|i: int|
                    0 <= i < results.len() ==> is_sent_result(#[trigger] values[i], results[i])
            };
        let at = choose|at: Seq<int>| picked_at(message.blocks, results, result_of_block(), at);
        assert(result_of_block()(message.blocks[b]) is Some);
        let i = choose|i: int| 0 <= i < at.len() && at[i] == b;
        assert(is_sent_result(values[i], results[i]));
        assert(values[i] == after[before.len() + i]);
    }
}

/// A request is for the model that is configured, offers the tools where they are
/// to be offered, and is answered as a stream that tells of its usage. What else
/// is configured stands in it as it is.
pub proof fn law_requests_follow_the_configuration(
    config: ProviderView,
    request: RequestView,
    key: Seq<char>,
    i: int,
)
    ensures
        ({
            let body = body_of(config, request);
            let tools = body.field("tools"@).items();
            &&& body.text("model"@) == Some(config.model)
            &&& body.natural("max_tokens"@) == Some(config.max_tokens as u64)
            &&& body.get("stream"@) == Some(JsonView::Bool(true))
            &&& !request.include_tools ==> tools.len() == 0
            &&& request.include_tools ==> tools.len() == offered_tools().len() && forall|k: int|
                0 <= k < tools.len() ==> (#[trigger] tools[k]).text("type"@) == Some("function"@)
                    && tools[k].get("function"@) == Some(offered_tools()[k])
            &&& 0 <= i < config.request.len() && config.request[i].0 == key && !is_own_field(key)
                && (forall|j: int| i < j < config.request.len() ==> (#[trigger] config.request[j]).0
                != key) ==> body.get(key) == Some(config.request[i].1)
            &&& (forall|j: int|
                0 <= j < config.request.len() ==> (#[trigger] config.request[j]).0
                    != "stream_options"@) ==> (body.get("stream_options"@) matches Some(
                options,
            ) && options.get("include_usage"@) == Some(JsonView::Bool(true)))
        }),
{
    lemma_keys();
    lemma_body_fields(config, request, key);
    law_fields_are_merged(Seq::empty(), config.request, key);
    law_fields_are_merged(Seq::empty(), config.request, "stream_options"@);
    law_decimal_is_read_back(config.max_tokens as nat);
    lemma_entry_at(seq![("include_usage"@, JsonView::Bool(true))], 0);
    let tools = body_of(config, request).field("tools"@).items();
    if request.include_tools {
        assert forall|k: int| 0 <= k < tools.len() implies (#[trigger] tools[k]).text("type"@)
            == Some("function"@) && tools[k].get("function"@) == Some(offered_tools()[k]) by {
            lemma_fields2(
                "type"@,
                JsonView::Str("function"@),
                "function"@,
                offered_tools()[k],
            );
        }
    }
}

// ---------------------------------------------------------------------------
// Answers

/// A call that is coming in.
pub struct PartialCall {
    pub call: ToolCall,
    /// Whether its start was told.
    pub started: bool,
}

/// The model of a [`PartialCall`].
pub struct PartialView {
    pub call: ToolCallView,
    pub started: bool,
}

impl View for PartialCall {
    type V = PartialView;

    open spec fn view(&self) -> PartialView {
        PartialView { call: self.call@, started: self.started }
    }
}

/// A call of which nothing is known yet.
pub open spec fn unknown_call() -> PartialView {
    PartialView {
        call: ToolCallView { id: Seq::empty(), name: Seq::empty(), arguments: Seq::empty() },
        started: false,
    }
}

/// A text of the function that a call names.
pub open spec fn function_text(raw: JsonView, key: Seq<char>) -> Option<Seq<char>> {
    match raw.get("function"@) {
        Some(f) => f.text(key),
        None => None,
    }
}

/// The slot that a piece of a call goes to.
pub open spec fn call_index(raw: JsonView) -> u64 {
    match raw.natural("index"@) {
        Some(i) => i,
        None => 0,
    }
}

/// A call with one more piece of it, and the events that the piece causes.
pub open spec fn grown_call(before: PartialView, raw: JsonView) -> (PartialView, Seq<EventView>) {
    let id = before.call.id + raw.text_or_empty("id"@);
    let name = before.call.name + or_empty(function_text(raw, "name"@));
    let part = function_text(raw, "arguments"@);
    let starts = !before.started && id.len() > 0 && name.len() > 0;
    let start = if starts {
        seq![EventView::ToolCallStart { id, name }]
    } else {
        Seq::empty()
    };
    let more = match part {
        Some(delta) => seq![EventView::ToolCallArgsDelta { id, delta }],
        None => Seq::empty(),
    };
    (
        PartialView {
            call: ToolCallView { id, name, arguments: before.call.arguments + or_empty(part) },
            started: before.started || starts,
        },
        start + more,
    )
}

/// The calls with one more piece, and the events that the piece causes.
pub open spec fn take_piece(calls: Seq<(u64, PartialView)>, raw: JsonView) -> (
    Seq<(u64, PartialView)>,
    Seq<EventView>,
) {
    let before = match slot_value(calls, call_index(raw)) {
        Some(c) => c,
        None => unknown_call(),
    };
    let (after, events) = grown_call(before, raw);
    (fill_slot(calls, call_index(raw), after), events)
}

/// The calls with more pieces, one after another.
pub open spec fn take_pieces(calls: Seq<(u64, PartialView)>, raw: Seq<JsonView>) -> (
    Seq<(u64, PartialView)>,
    Seq<EventView>,
)
    decreases raw.len(),
{
    if raw.len() == 0 {
        (calls, Seq::empty())
    } else {
        let (before, events) = take_pieces(calls, raw.drop_last());
        let (after, more) = take_piece(before, raw.last());
        (after, events + more)
    }
}

/// The first choice of an answer.
pub open spec fn choice_of(value: JsonView) -> Option<JsonView> {
    match value.get("choices"@) {
        Some(choices) => choices.zeroth(),
        None => None,
    }
}

/// What is new in an answer.
pub open spec fn delta_of(value: JsonView) -> Option<JsonView> {
    match choice_of(value) {
        Some(choice) => choice.get("delta"@),
        None => None,
    }
}

/// What is newly thought.
pub open spec fn reasoning_of(delta: JsonView) -> Option<Seq<char>> {
    match delta.get("reasoning_content"@) {
        Some(v) => v.as_text(),
        None => delta.text("reasoning"@),
    }
}

/// The events of what is newly said and thought.
pub open spec fn spoken_events(delta: JsonView) -> Seq<EventView> {
    (match delta.text("content"@) {
        Some(part) => seq![EventView::TextDelta { delta: part }],
        None => Seq::empty(),
    }) + (match reasoning_of(delta) {
        Some(part) => seq![EventView::ReasoningDelta { delta: part }],
        None => Seq::empty(),
    })
}

/// The pieces of calls in a delta.
pub open spec fn pieces_of(delta: JsonView) -> Seq<JsonView> {
    match delta.get("tool_calls"@) {
        Some(v) => v.items(),
        None => Seq::empty(),
    }
}

/// The tokens that a usage report counts, cached input apart from the rest.
pub open spec fn usage_of(raw: JsonView) -> Usage {
    let details = "prompt_tokens_details"@;
    let cached = if let Some(n) = detail(raw, details, "cached_tokens"@) {
        Some(n)
    } else if let Some(n) = raw.natural("prompt_cache_hit_tokens"@) {
        Some(n)
    } else {
        raw.natural("cached_tokens"@)
    };
    let written = detail(raw, details, "cache_write_tokens"@);
    Usage {
        input_tokens: match raw.natural("prompt_tokens"@) {
            Some(n) => Some(
                if n >= or_zero(cached) + or_zero(written) {
                    (n - or_zero(cached) - or_zero(written)) as u64
                } else {
                    0
                },
            ),
            None => None,
        },
        output_tokens: raw.natural("completion_tokens"@),
        cached_tokens: cached,
        cache_write_tokens: written,
        total_tokens: raw.natural("total_tokens"@),
    }
}

/// An answer that is coming in.
pub struct IncomingView {
    pub text: Seq<char>,
    pub reasoning: Seq<char>,
    pub calls: Seq<(u64, PartialView)>,
    pub events: Seq<EventView>,
    pub usage: Option<Usage>,
}

/// The answer with one more value of the stream.
pub open spec fn take_value(a: IncomingView, value: JsonView) -> Result<IncomingView, Seq<char>> {
    match value.get("error"@) {
        Some(error) => Err("provider error: "@ + compact(error)),
        None => {
            let usage = match value.get("usage"@) {
                Some(raw) => Some(usage_of(raw)),
                None => a.usage,
            };
            match delta_of(value) {
                None => Ok(IncomingView { usage, ..a }),
                Some(delta) => {
                    let (calls, events) = take_pieces(a.calls, pieces_of(delta));
                    Ok(
                        IncomingView {
                            text: a.text + or_empty(delta.text("content"@)),
                            reasoning: a.reasoning + or_empty(reasoning_of(delta)),
                            calls,
                            events: a.events + spoken_events(delta) + events,
                            usage,
                        },
                    )
                },
            }
        },
    }
}

/// The answer after values of the stream; the first error ends it.
pub open spec fn take_values(values: Seq<JsonView>) -> Result<IncomingView, Seq<char>>
    decreases values.len(),
{
    if values.len() == 0 {
        Ok(
            IncomingView {
                text: Seq::empty(),
                reasoning: Seq::empty(),
                calls: Seq::empty(),
                events: Seq::empty(),
                usage: None,
            },
        )
    } else {
        match take_values(values.drop_last()) {
            Err(e) => Err(e),
            Ok(a) => take_value(a, values.last()),
        }
    }
}

/// The calls as they have come in, in the order of their slots.
pub open spec fn finished_calls(calls: Seq<(u64, PartialView)>) -> Seq<ToolCallView> {
    Seq::new(calls.len(), |i: int| calls[i].1.call)
}

/// The events that end calls.
pub open spec fn end_events(calls: Seq<ToolCallView>) -> Seq<EventView> {
    Seq::new(calls.len(), |i: int| EventView::ToolCallEnd { id: calls[i].id })
}

/// The answer that a stream comes to.
pub open spec fn answer_of(values: Seq<JsonView>) -> Result<AnswerView, Seq<char>> {
    match take_values(values) {
        Err(e) => Err(e),
        Ok(a) => {
            let calls = finished_calls(a.calls);
            Ok(
                AnswerView {
                    turn: TurnView {
                        blocks: answer_blocks(a.reasoning, a.text, calls),
                        tool_calls: calls,
                        usage: a.usage,
                        provider_state: None,
                    },
                    events: a.events + end_events(calls) + closing_events(a.usage),
                },
            )
        },
    }
}

fn function_part(raw: &Json, key: &str) -> (r: Option<String>)
    ensures
        maybe(r) == function_text(raw@, key@),
{
    match raw.get("function") {
        Some(f) => f.text(key),
        None => None,
    }
}

fn take_one(calls: &mut Slots<PartialCall>, raw: &Json) -> (r: Vec<StreamEvent>)
    ensures
        (final(calls)@, views(r@)) == take_piece(old(calls)@, raw@),
{
    let mut events = no_events();
    let index: u64 = match raw.natural("index") {
        Some(i) => i,
        None => 0,
    };
    let mut state = match calls.get(index) {
        Some(c) => PartialCall { call: c.call.clone(), started: c.started },
        None => {
            proof {
                reveal_strlit("");
                assert(""@ =~= Seq::empty());
            }
            PartialCall { call: ToolCall::new("", "", ""), started: false }
        },
    };
    let ghost before = state@;
    state.call.id.append(&raw.text_or_empty("id"));
    if let Some(name) = function_part(raw, "name") {
        state.call.name.append(&name);
    }
    assert(state@.call.name =~= before.call.name + or_empty(function_text(raw@, "name"@)));
    if !state.started && !state.call.id.as_str().is_empty() && !state.call.name.as_str().is_empty()
    {
        state.started = true;
        push_event(
            &mut events,
            StreamEvent::ToolCallStart {
                id: state.call.id.clone(),
                name: state.call.name.clone(),
            },
        );
    }
    let part = function_part(raw, "arguments");
    if let Some(delta) = &part {
        state.call.arguments.append(delta);
        push_event(
            &mut events,
            StreamEvent::ToolCallArgsDelta { id: state.call.id.clone(), delta: delta.clone() },
        );
    }
    proof {
        let (after, told) = grown_call(before, raw@);
        assert(state@.call.arguments =~= after.call.arguments);
        assert(state@ == after);
        assert(views(events@) =~= told);
    }
    calls.fill(index, state);
    events
}

fn take_all(calls: &mut Slots<PartialCall>, delta: &Json) -> (r: Vec<StreamEvent>)
    ensures
        (final(calls)@, views(r@)) == take_pieces(old(calls)@, pieces_of(delta@)),
{
    let mut events = no_events();
    if let Some(list) = delta.get("tool_calls") {
        if let Json::List(items) = list {
            proof {
                lemma_list_view(*items);
            }
            let ghost first = calls@;
            let ghost all = views(items@);
            assert(all.take(0) =~= Seq::empty());
            let mut i: usize = 0;
            while i < items.len()
                invariant
                    i <= items.len(),
                    all == views(items@),
                    (calls@, views(events@)) == take_pieces(first, all.take(i as int)),
                decreases items.len() - i,
            {
                assert(all.take(i + 1).drop_last() =~= all.take(i as int));
                assert(all.take(i + 1).last() == items@[i as int]@);
                let more = take_one(calls, &items[i]);
                append_events(&mut events, more);
                i += 1;
            }
            assert(all.take(all.len() as int) =~= all);
        }
    }
    events
}

fn find_choice(value: &Json) -> (r: Option<&Json>)
    ensures
        seen(r) == choice_of(value@),
{
    match value.get("choices") {
        Some(choices) => choices.zeroth(),
        None => None,
    }
}

fn find_delta(value: &Json) -> (r: Option<&Json>)
    ensures
        seen(r) == delta_of(value@),
{
    match find_choice(value) {
        Some(choice) => choice.get("delta"),
        None => None,
    }
}

fn find_reasoning(delta: &Json) -> (r: Option<String>)
    ensures
        maybe(r) == reasoning_of(delta@),
{
    match delta.get("reasoning_content") {
        Some(v) => v.as_text(),
        None => delta.text("reasoning"),
    }
}

fn tell_spoken(delta: &Json) -> (r: Vec<StreamEvent>)
    ensures
        views(r@) == spoken_events(delta@),
{
    let mut events = no_events();
    if let Some(part) = delta.text("content") {
        push_event(&mut events, StreamEvent::TextDelta { delta: part });
    }
    if let Some(part) = find_reasoning(delta) {
        push_event(&mut events, StreamEvent::ReasoningDelta { delta: part });
    }
    assert(views(events@) =~= spoken_events(delta@));
    events
}

fn normalize_usage(raw: &Json) -> (r: Usage)
    ensures
        r == usage_of(raw@),
{
    let cached: Option<u64> = match find_detail(raw, "prompt_tokens_details", "cached_tokens") {
        Some(n) => Some(n),
        None => match raw.natural("prompt_cache_hit_tokens") {
            Some(n) => Some(n),
            None => raw.natural("cached_tokens"),
        },
    };
    let written = find_detail(raw, "prompt_tokens_details", "cache_write_tokens");
    let apart: u128 = unless_none(cached) as u128 + unless_none(written) as u128;
    Usage {
        input_tokens: match raw.natural("prompt_tokens") {
            Some(n) => Some(
                if n as u128 >= apart {
                    (n as u128 - apart) as u64
                } else {
                    0
                },
            ),
            None => None,
        },
        output_tokens: raw.natural("completion_tokens"),
        cached_tokens: cached,
        cache_write_tokens: written,
        total_tokens: raw.natural("total_tokens"),
    }
}

fn tell_ends(events: &mut Vec<StreamEvent>, calls: &Vec<ToolCall>)
    ensures
        views(final(events)@) == views(old(events)@) + end_events(views(calls@)),
{
    let ghost front = views(events@);
    let ghost all = end_events(views(calls@));
    assert(front + all.take(0) =~= front);
    let mut i: usize = 0;
    while i < calls.len()
        invariant
            i <= calls.len(),
            all == end_events(views(calls@)),
            views(events@) == front + all.take(i as int),
        decreases calls.len() - i,
    {
        push_event(events, StreamEvent::ToolCallEnd { id: calls[i].id.clone() });
        assert(front + all.take(i + 1) =~= (front + all.take(i as int)).push(all[i as int]));
        i += 1;
    }
    assert(all.take(all.len() as int) =~= all);
}

fn collect_calls(slots: &Slots<PartialCall>) -> (r: Vec<ToolCall>)
    ensures
        views(r@) == finished_calls(slots@),
{
    broadcast use lemma_views_push;

    let ghost all = finished_calls(slots@);
    let mut r: Vec<ToolCall> = Vec::new();
    assert(views(r@) =~= all.take(0));
    let mut i: usize = 0;
    while i < slots.entries.len()
        invariant
            i <= slots.entries.len(),
            all == finished_calls(slots@),
            views(r@) == all.take(i as int),
        decreases slots.entries.len() - i,
    {
        r.push(slots.entries[i].1.call.clone());
        assert(all.take(i + 1) =~= all.take(i as int).push(all[i as int]));
        i += 1;
    }
    assert(all.take(all.len() as int) =~= all);
    r
}

/// The answer that a stream comes to.
pub fn normalize_events(values: &Vec<Json>) -> (r: Result<Answer, String>)
    ensures
        outcome(r) == answer_of(views(values@)),
{
    let mut text = String::new();
    let mut reasoning = String::new();
    let mut calls: Slots<PartialCall> = Slots::new();
    let mut events = no_events();
    let mut usage: Option<Usage> = None;
    let ghost all = views(values@);
    assert(all.take(0) =~= Seq::empty());
    let mut i: usize = 0;
    while i < values.len()
        invariant
            i <= values.len(),
            all == views(values@),
            take_values(all.take(i as int)) == Ok::<IncomingView, Seq<char>>(
                IncomingView {
                    text: text@,
                    reasoning: reasoning@,
                    calls: calls@,
                    events: views(events@),
                    usage,
                },
            ),
        decreases values.len() - i,
    {
        assert(all.take(i + 1).drop_last() =~= all.take(i as int));
        assert(all.take(i + 1).last() == values@[i as int]@);
        let value = &values[i];
        if let Some(error) = value.get("error") {
            proof {
                lemma_take_error(all, i + 1);
            }
            return Err("provider error: ".to_owned().concat(&compact_text(error)));
        }
        if let Some(raw) = value.get("usage") {
            usage = Some(normalize_usage(raw));
        }
        if let Some(delta) = find_delta(value) {
            let ghost before = text@;
            let ghost thought_before = reasoning@;
            if let Some(part) = delta.text("content") {
                text.append(&part);
            }
            if let Some(part) = find_reasoning(delta) {
                reasoning.append(&part);
            }
            assert(text@ =~= before + or_empty(delta@.text("content"@)));
            assert(reasoning@ =~= thought_before + or_empty(reasoning_of(delta@)));
            append_events(&mut events, tell_spoken(delta));
            let more = take_all(&mut calls, delta);
            append_events(&mut events, more);
        }
        i += 1;
    }
    assert(all.take(all.len() as int) =~= all);
    let tool_calls = collect_calls(&calls);
    tell_ends(&mut events, &tool_calls);
    push_closing(&mut events, usage);
    let blocks = make_blocks(reasoning, text, &tool_calls);
    Ok(Answer { turn: ModelTurn { blocks, tool_calls, usage, provider_state: None }, events })
}

proof fn lemma_take_error(values: Seq<JsonView>, i: int)
    requires
        0 <= i <= values.len(),
        take_values(values.take(i)) is Err,
    ensures
        take_values(values) == take_values(values.take(i)),
    decreases values.len(),
{
    if i == values.len() {
        assert(values.take(i) =~= values);
    } else {
        assert(values.drop_last().take(i) =~= values.take(i));
        lemma_take_error(values.drop_last(), i);
    }
}

/// Events of calls tell of no text.
proof fn lemma_pieces_untold(calls: Seq<(u64, PartialView)>, raw: Seq<JsonView>)
    ensures
        said(take_pieces(calls, raw).1) == Seq::<char>::empty(),
        thought(take_pieces(calls, raw).1) == Seq::<char>::empty(),
    decreases raw.len(),
{
    if raw.len() > 0 {
        lemma_pieces_untold(calls, raw.drop_last());
        let before = take_pieces(calls, raw.drop_last());
        let more = take_piece(before.0, raw.last()).1;
        lemma_told(before.1, more);
        reveal_with_fuel(said, 3);
        reveal_with_fuel(thought, 3);
        assert(said(more) =~= Seq::empty());
        assert(thought(more) =~= Seq::empty());
    }
}

proof fn lemma_taken_told(values: Seq<JsonView>)
    ensures
        take_values(values) matches Ok(a) ==> said(a.events) == a.text && thought(a.events)
            == a.reasoning,
    decreases values.len(),
{
    if values.len() > 0 {
        lemma_taken_told(values.drop_last());
        if let Ok(a) = take_values(values.drop_last()) {
            if let Some(delta) = delta_of(values.last()) {
                let spoken = spoken_events(delta);
                let more = take_pieces(a.calls, pieces_of(delta)).1;
                lemma_pieces_untold(a.calls, pieces_of(delta));
                lemma_told(a.events, spoken);
                lemma_told(a.events + spoken, more);
                reveal_with_fuel(said, 3);
                reveal_with_fuel(thought, 3);
                assert(said(spoken) =~= or_empty(delta.text("content"@)));
                assert(thought(spoken) =~= or_empty(reasoning_of(delta)));
                assert(said(a.events + spoken + more) =~= a.text + or_empty(
                    delta.text("content"@),
                ));
                assert(thought(a.events + spoken + more) =~= a.reasoning + or_empty(
                    reasoning_of(delta),
                ));
            }
        }
    }
}

/// The text and the reasoning of an answer are what its events told of.
pub proof fn law_events_tell_the_answer(values: Seq<JsonView>)
    ensures
        answer_of(values) matches Ok(a) ==> a.turn.blocks == answer_blocks(
            thought(a.events),
            said(a.events),
            a.turn.tool_calls,
        ),
{
    lemma_taken_told(values);
    if let Ok(a) = take_values(values) {
        let ends = end_events(finished_calls(a.calls));
        let closing = closing_events(a.usage);
        lemma_told(a.events, ends);
        lemma_told(a.events + ends, closing);
        lemma_ends_untold(finished_calls(a.calls));
        reveal_with_fuel(said, 3);
        reveal_with_fuel(thought, 3);
        assert(said(closing) =~= Seq::empty());
        assert(thought(closing) =~= Seq::empty());
        assert(said(a.events + ends + closing) =~= a.text);
        assert(thought(a.events + ends + closing) =~= a.reasoning);
    }
}

proof fn lemma_ends_untold(calls: Seq<ToolCallView>)
    ensures
        said(end_events(calls)) == Seq::<char>::empty(),
        thought(end_events(calls)) == Seq::<char>::empty(),
    decreases calls.len(),
{
    if calls.len() > 0 {
        lemma_ends_untold(calls.drop_last());
        assert(end_events(calls).drop_last() =~= end_events(calls.drop_last()));
    }
}

// ---------------------------------------------------------------------------
// Events as they happen

/// The ends of the calls whose start was told.
pub open spec fn started_ends(calls: Seq<(u64, PartialView)>) -> Seq<EventView>
    decreases calls.len(),
{
    if calls.len() == 0 {
        Seq::empty()
    } else if calls.last().1.started {
        started_ends(calls.drop_last()).push(
            EventView::ToolCallEnd { id: calls.last().1.call.id },
        )
    } else {
        started_ends(calls.drop_last())
    }
}

/// Whether a value gives a reason for ending.
pub open spec fn finishes(value: JsonView) -> bool {
    match choice_of(value) {
        Some(choice) => match choice.get("finish_reason"@) {
            Some(reason) => !(reason is Null),
            None => false,
        },
        None => false,
    }
}

/// The events that one value of the stream causes, and the calls after it.
pub open spec fn live_step(calls: Seq<(u64, PartialView)>, value: JsonView) -> (
    Seq<(u64, PartialView)>,
    Seq<EventView>,
) {
    let counted = match value.get("usage"@) {
        Some(raw) => seq![EventView::Usage(usage_of(raw))],
        None => Seq::empty(),
    };
    match delta_of(value) {
        None => (calls, counted),
        Some(delta) => {
            let (after, events) = take_pieces(calls, pieces_of(delta));
            let ending = if finishes(value) {
                started_ends(after).push(EventView::Done)
            } else {
                Seq::empty()
            };
            (after, counted + spoken_events(delta) + events + ending)
        },
    }
}

/// The events that values of a stream cause one after another, with what is
/// kept of the calls.
pub open spec fn live_values(values: Seq<JsonView>) -> (Seq<(u64, PartialView)>, Seq<EventView>)
    decreases values.len(),
{
    if values.len() == 0 {
        (Seq::empty(), Seq::empty())
    } else {
        let (calls, events) = live_values(values.drop_last());
        let (after, more) = live_step(calls, values.last());
        (after, events + more)
    }
}

proof fn lemma_started_ends_untold(calls: Seq<(u64, PartialView)>)
    ensures
        said(started_ends(calls)) == Seq::<char>::empty(),
        thought(started_ends(calls)) == Seq::<char>::empty(),
    decreases calls.len(),
{
    if calls.len() > 0 {
        lemma_started_ends_untold(calls.drop_last());
        let before = started_ends(calls.drop_last());
        if started_ends(calls).len() > before.len() {
            assert(started_ends(calls).drop_last() =~= before);
        }
    }
}

/// What one value of a stream says.
spec fn said_by(value: JsonView) -> Seq<char> {
    match delta_of(value) {
        Some(delta) => or_empty(delta.text("content"@)),
        None => Seq::empty(),
    }
}

/// What one value of a stream reasons.
spec fn thought_by(value: JsonView) -> Seq<char> {
    match delta_of(value) {
        Some(delta) => or_empty(reasoning_of(delta)),
        None => Seq::empty(),
    }
}

proof fn lemma_spoken_told(delta: JsonView)
    ensures
        said(spoken_events(delta)) == or_empty(delta.text("content"@)),
        thought(spoken_events(delta)) == or_empty(reasoning_of(delta)),
{
    reveal_with_fuel(said, 3);
    reveal_with_fuel(thought, 3);
    assert(said(spoken_events(delta)) =~= or_empty(delta.text("content"@)));
    assert(thought(spoken_events(delta)) =~= or_empty(reasoning_of(delta)));
}

proof fn lemma_one_untold(event: EventView)
    requires
        !(event is TextDelta),
        !(event is ReasoningDelta),
    ensures
        said(seq![event]) == Seq::<char>::empty(),
        thought(seq![event]) == Seq::<char>::empty(),
{
    reveal_with_fuel(said, 2);
    reveal_with_fuel(thought, 2);
}

proof fn lemma_step_told(calls: Seq<(u64, PartialView)>, value: JsonView)
    ensures
        said(live_step(calls, value).1) == said_by(value),
        thought(live_step(calls, value).1) == thought_by(value),
{
    let counted = match value.get("usage"@) {
        Some(raw) => seq![EventView::Usage(usage_of(raw))],
        None => Seq::empty(),
    };
    if let Some(raw) = value.get("usage"@) {
        lemma_one_untold(EventView::Usage(usage_of(raw)));
    }
    assert(said(counted) == Seq::<char>::empty());
    assert(thought(counted) == Seq::<char>::empty());
    if let Some(delta) = delta_of(value) {
        let spoken = spoken_events(delta);
        let (after, told) = take_pieces(calls, pieces_of(delta));
        let ends = started_ends(after);
        let done = seq![EventView::Done];
        let ending = if finishes(value) {
            ends.push(EventView::Done)
        } else {
            Seq::empty()
        };
        lemma_spoken_told(delta);
        lemma_pieces_untold(calls, pieces_of(delta));
        lemma_started_ends_untold(after);
        lemma_one_untold(EventView::Done);
        lemma_told(ends, done);
        assert(ends + done =~= ends.push(EventView::Done));
        assert(said(ending) =~= Seq::empty());
        assert(thought(ending) =~= Seq::empty());
        lemma_told(counted, spoken);
        lemma_told(counted + spoken, told);
        lemma_told(counted + spoken + told, ending);
        assert(said(live_step(calls, value).1) =~= said_by(value));
        assert(thought(live_step(calls, value).1) =~= thought_by(value));
    }
}

proof fn lemma_shown(values: Seq<JsonView>)
    ensures
        take_values(values) matches Ok(a) ==> said(live_values(values).1) == a.text && thought(
            live_values(values).1,
        ) == a.reasoning,
    decreases values.len(),
{
    if values.len() > 0 {
        let value = values.last();
        lemma_shown(values.drop_last());
        if let Ok(a) = take_values(values.drop_last()) {
            let (calls, events) = live_values(values.drop_last());
            lemma_step_told(calls, value);
            lemma_told(events, live_step(calls, value).1);
            assert(a.text + Seq::empty() =~= a.text);
            assert(a.reasoning + Seq::empty() =~= a.reasoning);
        }
    }
}

/// What is shown of an answer while it comes in is what is kept of it: its text
/// and its reasoning, each piece by piece.
pub proof fn law_shown_is_kept(values: Seq<JsonView>)
    ensures
        answer_of(values) matches Ok(a) ==> a.turn.blocks == answer_blocks(
            thought(live_values(values).1),
            said(live_values(values).1),
            a.turn.tool_calls,
        ),
{
    lemma_shown(values);
}

/// The calls of an answer while it is shown.
pub struct ChatLive {
    pub calls: Slots<PartialCall>,
}

impl Default for ChatLive {
    fn default() -> (r: ChatLive)
        ensures
            r.calls@.len() == 0,
    {
        ChatLive { calls: Slots::new() }
    }
}

impl ChatLive {
    /// The events that one value of the stream causes.
    pub fn emit(&mut self, value: &Json) -> (r: Vec<StreamEvent>)
        ensures
            (final(self).calls@, views(r@)) == live_step(old(self).calls@, value@),
    {
        let mut events = no_events();
        if let Some(raw) = value.get("usage") {
            push_event(&mut events, StreamEvent::Usage(normalize_usage(raw)));
        }
        let ghost counted = match value@.get("usage"@) {
            Some(raw) => seq![EventView::Usage(usage_of(raw))],
            None => Seq::empty(),
        };
        assert(views(events@) =~= counted);
        let delta = match find_delta(value) {
            Some(delta) => delta,
            None => return events,
        };
        append_events(&mut events, tell_spoken(delta));
        let more = take_all(&mut self.calls, delta);
        append_events(&mut events, more);
        let finished = match find_choice(value) {
            Some(choice) => match choice.get("finish_reason") {
                Some(Json::Null) => false,
                Some(_) => true,
                None => false,
            },
            None => false,
        };
        assert(finished == finishes(value@));
        let ghost told = views(events@);
        if finished {
            let ghost all = self.calls@;
            assert(all.take(0) =~= Seq::empty());
            assert(told + started_ends(all.take(0)) =~= told);
            let mut i: usize = 0;
            while i < self.calls.entries.len()
                invariant
                    i <= self.calls.entries.len(),
                    all == self.calls@,
                    views(events@) == told + started_ends(all.take(i as int)),
                decreases self.calls.entries.len() - i,
            {
                assert(all.take(i + 1).drop_last() =~= all.take(i as int));
                assert(all.take(i + 1).last() == all[i as int]);
                let call = &self.calls.entries[i].1;
                if call.started {
                    push_event(&mut events, StreamEvent::ToolCallEnd { id: call.call.id.clone() });
                    assert(views(events@) =~= told + started_ends(all.take(i + 1)));
                }
                i += 1;
            }
            assert(all.take(all.len() as int) =~= all);
            push_event(&mut events, StreamEvent::Done);
            assert(views(events@) =~= told + started_ends(all).push(EventView::Done));
        } else {
            assert(told + Seq::empty() =~= told);
        }
        events
    }
}

// ---------------------------------------------------------------------------
// How an answer grows

/// A piece of a call is added to what came before under its index: to the id, to
/// the name and to the arguments. The start of a call is told of once its id and
/// its name are known, and every piece of its arguments as it comes. The other
/// calls stay, and all stay in the order of their indexes.
pub proof fn law_pieces_grow_their_call(
    calls: Seq<(u64, PartialView)>,
    raw: JsonView,
    other: u64,
)
    requires
        in_slots(calls),
    ensures
        ({
            let index = match raw.natural("index"@) {
                Some(i) => i,
                None => 0,
            };
            let f = raw.field("function"@);
            let (after, events) = take_piece(calls, raw);
            let old = slot_value(calls, index);
            &&& in_slots(after)
            &&& other != index ==> slot_value(after, other) == slot_value(calls, other)
            &&& slot_value(after, index) matches Some(new) && {
                &&& old matches Some(c) ==> {
                    &&& new.call.id == c.call.id + raw.text_or_empty("id"@)
                    &&& new.call.name == c.call.name + f.text_or_empty("name"@)
                    &&& new.call.arguments == c.call.arguments + f.text_or_empty("arguments"@)
                }
                &&& old is None ==> {
                    &&& new.call.id == raw.text_or_empty("id"@)
                    &&& new.call.name == f.text_or_empty("name"@)
                    &&& new.call.arguments == f.text_or_empty("arguments"@)
                }
                &&& new.started <==> (old matches Some(c) && c.started) || (new.call.id.len() > 0
                    && new.call.name.len() > 0)
                &&& ({
                    let starts = new.started && !(old matches Some(c) && c.started);
                    let n: int = if starts {
                        1
                    } else {
                        0
                    };
                    &&& starts ==> events[0] == (EventView::ToolCallStart {
                        id: new.call.id,
                        name: new.call.name,
                    })
                    &&& f.text("arguments"@) matches Some(delta) ==> events.len() == n + 1
                        && events[n] == (EventView::ToolCallArgsDelta { id: new.call.id, delta })
                    &&& f.text("arguments"@) is None ==> events.len() == n
                })
            }
        }),
{
    let index = call_index(raw);
    let before = match slot_value(calls, index) {
        Some(c) => c,
        None => unknown_call(),
    };
    let (grown, events) = grown_call(before, raw);
    law_slots_are_filled(calls, index, grown, other);
    let f = raw.field("function"@);
    if raw.get("function"@) is None {
        assert(f.get("name"@) is None);
    }
    assert(Seq::<char>::empty() + raw.text_or_empty("id"@) =~= raw.text_or_empty("id"@));
    assert(Seq::<char>::empty() + f.text_or_empty("name"@) =~= f.text_or_empty("name"@));
    assert(Seq::<char>::empty() + f.text_or_empty("arguments"@) =~= f.text_or_empty("arguments"@));
}

/// Pieces are taken in one after another.
pub proof fn law_pieces_come_one_after_another(
    calls: Seq<(u64, PartialView)>,
    a: Seq<JsonView>,
    b: Seq<JsonView>,
)
    ensures
        ({
            let first = take_pieces(calls, a);
            let second = take_pieces(first.0, b);
            take_pieces(calls, a + b) == (second.0, first.1 + second.1)
        }),
        take_pieces(calls, Seq::<JsonView>::empty()) == (calls, Seq::<EventView>::empty()),
        b.len() == 1 ==> take_pieces(calls, b) == take_piece(calls, b[0]),
    decreases b.len(),
{
    if b.len() == 0 {
        assert(a + b =~= a);
        assert(take_pieces(calls, a).1 + Seq::empty() =~= take_pieces(calls, a).1);
    } else {
        law_pieces_come_one_after_another(calls, a, b.drop_last());
        assert((a + b).drop_last() =~= a + b.drop_last());
        let first = take_pieces(calls, a);
        let middle = take_pieces(first.0, b.drop_last());
        let last = take_piece(middle.0, b.last());
        assert(first.1 + middle.1 + last.1 =~= first.1 + (middle.1 + last.1));
        if b.len() == 1 {
            assert(b.drop_last() =~= Seq::empty());
            assert(take_pieces(calls, b.drop_last()) == (calls, Seq::<EventView>::empty()));
            assert(Seq::empty() + take_piece(calls, b[0]).1 =~= take_piece(calls, b[0]).1);
        }
    }
}

proof fn lemma_pieces_in_slots(calls: Seq<(u64, PartialView)>, raw: Seq<JsonView>)
    requires
        in_slots(calls),
    ensures
        in_slots(take_pieces(calls, raw).0),
    decreases raw.len(),
{
    if raw.len() > 0 {
        lemma_pieces_in_slots(calls, raw.drop_last());
        law_pieces_grow_their_call(take_pieces(calls, raw.drop_last()).0, raw.last(), 0);
    }
}

/// Every value of a stream adds to the answer what it says and what it thinks,
/// and the pieces of calls that it holds; what it counts takes the place of what
/// was counted before. An error ends the answer with it. The calls come in the
/// order of their indexes, and the end of each is told of, then what was counted
/// and that all is done.
pub proof fn law_values_grow_the_answer(values: Seq<JsonView>, value: JsonView)
    ensures
        take_values(Seq::<JsonView>::empty()) matches Ok(none) && none.calls.len() == 0
            && none.usage is None && none.events.len() == 0,
        answer_of(values) matches Err(e) ==> answer_of(values.push(value)) == Err::<
            AnswerView,
            Seq<char>,
        >(e),
        answer_of(values) matches Ok(a) ==> match value.get("error"@) {
            Some(error) => answer_of(values.push(value)) == Err::<AnswerView, Seq<char>>(
                "provider error: "@ + compact(error),
            ),
            None => answer_of(values.push(value)) matches Ok(b) && ({
                let part = match value.field("choices"@).zeroth() {
                    Some(choice) => choice.get("delta"@),
                    None => None,
                };
                let calls = take_values(values)->Ok_0.calls;
                let after = take_values(values.push(value))->Ok_0.calls;
                &&& b.turn.usage == (match value.get("usage"@) {
                    Some(raw) => Some(usage_of(raw)),
                    None => a.turn.usage,
                })
                &&& match part {
                    None => said(b.events) == said(a.events) && thought(b.events) == thought(
                        a.events,
                    ) && after == calls,
                    Some(new) => {
                        &&& said(b.events) == said(a.events) + new.text_or_empty("content"@)
                        &&& thought(b.events) == thought(a.events) + (match new.get(
                            "reasoning_content"@,
                        ) {
                            Some(JsonView::Str(part)) => part,
                            Some(_) => Seq::empty(),
                            None => new.text_or_empty("reasoning"@),
                        })
                        &&& after == take_pieces(calls, new.field("tool_calls"@).items()).0
                    },
                }
                &&& in_slots(after)
                &&& b.turn.tool_calls.len() == after.len()
                &&& forall|i: int|
                    0 <= i < after.len() ==> #[trigger] b.turn.tool_calls[i] == after[i].1.call
                &&& ends_with_calls(b)
            }),
        },
{
    let more = values.push(value);
    assert(more.drop_last() =~= values);
    law_events_tell_the_answer(values);
    law_events_tell_the_answer(more);
    lemma_answer_told(values);
    lemma_answer_told(more);
    lemma_slots_kept(more);
    if let Ok(b) = answer_of(more) {
        lemma_ends_with_calls(more);
        assert(JsonView::Null.get("0"@) is None);
        if let Some(delta) = delta_of(value) {
            if delta.get("tool_calls"@) is None {
                assert(pieces_of(delta) =~= delta.field("tool_calls"@).items());
            }
        } else {
            let a = take_values(values)->Ok_0;
            assert(a.text + Seq::empty() =~= a.text);
        }
    }
}

proof fn lemma_answer_told(values: Seq<JsonView>)
    ensures
        answer_of(values) matches Ok(a) ==> (take_values(values) matches Ok(s) && said(a.events)
            == s.text && thought(a.events) == s.reasoning),
{
    lemma_taken_told(values);
    if let Ok(a) = take_values(values) {
        let ends = end_events(finished_calls(a.calls));
        let closing = closing_events(a.usage);
        lemma_told(a.events, ends);
        lemma_told(a.events + ends, closing);
        lemma_ends_untold(finished_calls(a.calls));
        reveal_with_fuel(said, 3);
        reveal_with_fuel(thought, 3);
        assert(said(closing) =~= Seq::empty());
        assert(thought(closing) =~= Seq::empty());
        assert(said(a.events + ends + closing) =~= a.text);
        assert(thought(a.events + ends + closing) =~= a.reasoning);
    }
}

proof fn lemma_slots_kept(values: Seq<JsonView>)
    ensures
        take_values(values) matches Ok(a) ==> in_slots(a.calls),
    decreases values.len(),
{
    if values.len() > 0 {
        lemma_slots_kept(values.drop_last());
        if let Ok(a) = take_values(values.drop_last()) {
            if let Some(delta) = delta_of(values.last()) {
                lemma_pieces_in_slots(a.calls, pieces_of(delta));
            }
        }
    }
}

/// Whether the events of an answer end with the ends of its calls, in their
/// order, with what was counted, and with the word that all is done.
pub open spec fn ends_with_calls(a: AnswerView) -> bool {
    let calls = a.turn.tool_calls;
    let n: int = if a.turn.usage is Some {
        2
    } else {
        1
    };
    let start = a.events.len() - n - calls.len();
    &&& start >= 0
    &&& forall|i: int|
        0 <= i < calls.len() ==> a.events[start + i] == (EventView::ToolCallEnd {
            id: (#[trigger] calls[i]).id,
        })
    &&& a.turn.usage matches Some(u) ==> a.events[a.events.len() - 2] == EventView::Usage(u)
    &&& a.events.last() == EventView::Done
}

proof fn lemma_ends_with_calls(values: Seq<JsonView>)
    requires
        answer_of(values) is Ok,
    ensures
        ends_with_calls(answer_of(values)->Ok_0),
{
    let a = answer_of(values)->Ok_0;
    let s = take_values(values)->Ok_0;
    let calls = finished_calls(s.calls);
    let ends = end_events(calls);
    assert forall|i: int| 0 <= i < calls.len() implies a.events[s.events.len() + i] == (
    EventView::ToolCallEnd { id: (#[trigger] calls[i]).id }) by {
        assert(ends[i] == (EventView::ToolCallEnd { id: calls[i].id }));
    }
}

/// The tokens of a prompt are counted once: those that were cached or written to
/// a cache are taken out of the others.
pub proof fn law_usage_adds_up(raw: JsonView)
    ensures
        ({
            let u = usage_of(raw);
            let apart = or_zero(u.cached_tokens) + or_zero(u.cache_write_tokens);
            &&& u.input_tokens is Some <==> raw.natural("prompt_tokens"@) is Some
            &&& raw.natural("prompt_tokens"@) matches Some(n) ==> if apart <= n {
                or_zero(u.input_tokens) + apart == n
            } else {
                u.input_tokens == Some(0u64)
            }
            &&& u.output_tokens == raw.natural("completion_tokens"@)
            &&& u.total_tokens == raw.natural("total_tokens"@)
            &&& u.cache_write_tokens == raw.field("prompt_tokens_details"@).natural(
                "cache_write_tokens"@,
            )
            &&& raw.field("prompt_tokens_details"@).natural("cached_tokens"@) is Some
                ==> u.cached_tokens == raw.field("prompt_tokens_details"@).natural(
                "cached_tokens"@,
            )
            &&& raw.field("prompt_tokens_details"@).natural("cached_tokens"@) is None
                && raw.natural("prompt_cache_hit_tokens"@) is Some ==> u.cached_tokens
                == raw.natural("prompt_cache_hit_tokens"@)
            &&& raw.field("prompt_tokens_details"@).natural("cached_tokens"@) is None
                && raw.natural("prompt_cache_hit_tokens"@) is None ==> u.cached_tokens
                == raw.natural("cached_tokens"@)
        }),
{
    if raw.get("prompt_tokens_details"@) is None {
        assert(JsonView::Null.get("cached_tokens"@) is None);
        assert(JsonView::Null.get("cache_write_tokens"@) is None);
    }
}

/// What ends a call that was shown.
pub open spec fn end_of_call() -> spec_fn((u64, PartialView)) -> Option<EventView> {
    |c: (u64, PartialView)|
        if c.1.started {
            Some(EventView::ToolCallEnd { id: c.1.call.id })
        } else {
            None
        }
}

proof fn lemma_started_calls_end(calls: Seq<(u64, PartialView)>)
    ensures
        picks(calls, started_ends(calls), end_of_call()),
    decreases calls.len(),
{
    if calls.len() == 0 {
        lemma_picks_nothing(calls, end_of_call());
    } else {
        lemma_started_calls_end(calls.drop_last());
        lemma_picks_last(calls, started_ends(calls.drop_last()), end_of_call());
    }
}

/// What a value says is shown at once: first what was used, then the text, the
/// reasoning and the pieces of calls. Where it finishes the answer, every call that
/// was shown is ended, in order, and then the answer.
pub proof fn law_values_are_shown_as_they_come(calls: Seq<(u64, PartialView)>, value: JsonView)
    ensures
        ({
            let (after, events) = live_step(calls, value);
            let choice = value.field("choices"@).zeroth();
            let used = match value.get("usage"@) {
                Some(raw) => seq![EventView::Usage(usage_of(raw))],
                None => Seq::<EventView>::empty(),
            };
            let part = match choice {
                Some(choice) => choice.get("delta"@),
                None => None,
            };
            match part {
                None => after == calls && events == used,
                Some(new) => {
                    let (grown, pieces) = take_pieces(calls, new.field("tool_calls"@).items());
                    let spoken = (match new.text("content"@) {
                        Some(delta) => seq![EventView::TextDelta { delta }],
                        None => Seq::<EventView>::empty(),
                    }) + (match new.get("reasoning_content"@) {
                        Some(JsonView::Str(delta)) => seq![EventView::ReasoningDelta { delta }],
                        Some(_) => Seq::<EventView>::empty(),
                        None => match new.text("reasoning"@) {
                            Some(delta) => seq![EventView::ReasoningDelta { delta }],
                            None => Seq::<EventView>::empty(),
                        },
                    });
                    let told = used + spoken + pieces;
                    let n = told.len() as int;
                    &&& after == grown
                    &&& events.len() >= n && events.take(n) == told
                    &&& choice->Some_0.field("finish_reason"@) is Null ==> events == told
                    &&& !(choice->Some_0.field("finish_reason"@) is Null) ==> events.len() > n
                        && events.last() == EventView::Done && picks(
                        after,
                        events.subrange(n, events.len() - 1),
                        end_of_call(),
                    )
                },
            }
        }),
{
    let none = JsonView::Null;
    assert(none.items() =~= Seq::empty());
    assert(none.get("0"@) is None);
    let (after, events) = live_step(calls, value);
    let used = match value.get("usage"@) {
        Some(raw) => seq![EventView::Usage(usage_of(raw))],
        None => Seq::<EventView>::empty(),
    };
    if let Some(new) = delta_of(value) {
        let pieces = take_pieces(calls, pieces_of(new)).1;
        let told = used + spoken_events(new) + pieces;
        let n = told.len() as int;
        lemma_started_calls_end(after);
        if finishes(value) {
            let ends = started_ends(after);
            assert(events =~= told + ends.push(EventView::Done));
            assert(events.take(n) =~= told);
            assert(events.subrange(n, events.len() - 1) =~= ends);
        } else {
            assert(events =~= told);
            assert(events.take(n) =~= told);
        }
    }
}

} // verus!
