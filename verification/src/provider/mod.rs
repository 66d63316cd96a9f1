//! Talking to model providers: what is sent and what comes back.
pub mod anthropic;
pub mod chat_completion;
pub mod responses;

use vstd::prelude::*;
use vstd::string::*;

use crate::config::{ProviderConfig, ProviderKind, ProviderView};
use crate::json::{
    Json, JsonView, list_json, natural_json, no_entries, object1, object2, object3, object4,
    text_json,
};
use crate::model::{
    BlockView, ContentBlock, EventView, ModelTurn, StreamEvent, ToolCall, ToolCallView,
    ToolResultView, TurnView, Usage, call_blocks, push_calls, text_parts, texts_in,
};
use crate::table::{entry_of, law_with_entry, lemma_entry_at, pairs, set_entry, with_entry};
use crate::text::{
    copy_maybe, decimal, join, joined, lemma_views_push, maybe, trim_end_of, trimmed_end_of, views,
};

verus! {

/// Where the OpenAI protocols are spoken unless a base URL is configured.
pub const OPENAI_BASE_URL: &'static str = "https://api.openai.com/v1";

/// The address under which a provider is reached, without slashes at its end;
/// nothing where the provider's own library knows it.
pub open spec fn base_url_of(p: ProviderView) -> Option<Seq<char>> {
    match p.kind {
        ProviderKind::Anthropic => p.base_url,
        _ => Some(
            trimmed_end_of(
                match p.base_url {
                    Some(url) => url,
                    None => OPENAI_BASE_URL@,
                },
                '/',
            ),
        ),
    }
}

/// The address under which a provider is reached.
pub fn base_url(config: &ProviderConfig) -> (r: Option<String>)
    ensures
        maybe(r) == base_url_of(config@),
{
    match config.kind {
        ProviderKind::Anthropic => copy_maybe(&config.base_url),
        _ => Some(
            match &config.base_url {
                Some(url) => trim_end_of(url, '/'),
                None => trim_end_of(OPENAI_BASE_URL, '/'),
            },
        ),
    }
}

/// The model of a JSON object with one type.
pub open spec fn typed(kind: Seq<char>) -> JsonView {
    JsonView::Object(seq![("type"@, JsonView::Str(kind))])
}

/// The model of a JSON number type with a least value.
pub open spec fn integer_from(least: nat) -> JsonView {
    JsonView::Object(
        seq![
            ("type"@, JsonView::Str("integer"@)),
            ("minimum"@, JsonView::Number(decimal(least))),
        ],
    )
}

/// The description of a tool with its parameters, one of which is required.
pub open spec fn tool_view(
    name: Seq<char>,
    description: Seq<char>,
    properties: Seq<(Seq<char>, JsonView)>,
    required: Seq<char>,
) -> JsonView {
    JsonView::Object(
        seq![
            ("name"@, JsonView::Str(name)),
            ("description"@, JsonView::Str(description)),
            (
                "parameters"@,
                JsonView::Object(
                    seq![
                        ("type"@, JsonView::Str("object"@)),
                        ("properties"@, JsonView::Object(properties)),
                        ("required"@, JsonView::List(seq![JsonView::Str(required)])),
                        ("additionalProperties"@, JsonView::Bool(false)),
                    ],
                ),
            ),
        ],
    )
}

/// The tools that a model is offered.
pub open spec fn offered_tools() -> Seq<JsonView> {
    seq![
        tool_view(
            "read"@,
            "Read a UTF-8 text file with line numbers. Use offset and limit for targeted ranges."@,
            seq![
                ("path"@, typed("string"@)),
                ("offset"@, integer_from(0)),
                ("limit"@, integer_from(1)),
            ],
            "path"@,
        ),
        tool_view(
            "apply_patch"@,
            "Apply a deterministic V4A patch. Supports Add File, Delete File, and Update File operations."@,
            seq![("patch"@, typed("string"@))],
            "patch"@,
        ),
        tool_view(
            "bash"@,
            "Run a shell command in the current workspace and return bounded stdout, stderr, and exit status."@,
            seq![("command"@, typed("string"@)), ("timeout_seconds"@, integer_from(1))],
            "command"@,
        ),
    ]
}

fn typed_json(kind: &str) -> (r: Json)
    ensures
        r@ == typed(kind@),
{
    object1("type", text_json(kind))
}

fn integer_json(least: u64) -> (r: Json)
    ensures
        r@ == integer_from(least as nat),
{
    object2("type", text_json("integer"), "minimum", natural_json(least))
}

fn tool_json(name: &str, description: &str, properties: Json, required: &str) -> (r: Json)
    requires
        properties@ is Object,
    ensures
        r@ == tool_view(name@, description@, properties@->Object_0, required@),
{
    let mut needed: Vec<Json> = Vec::new();
    needed.push(text_json(required));
    assert(views(needed@) =~= seq![JsonView::Str(required@)]);
    object3(
        "name",
        text_json(name),
        "description",
        text_json(description),
        "parameters",
        object4(
            "type",
            text_json("object"),
            "properties",
            properties,
            "required",
            list_json(needed),
            "additionalProperties",
            Json::Bool(false),
        ),
    )
}

/// The tools that a model is offered.
pub fn tool_definitions() -> (r: Vec<Json>)
    ensures
        views(r@) == offered_tools(),
{
    let read = tool_json(
        "read",
        "Read a UTF-8 text file with line numbers. Use offset and limit for targeted ranges.",
        object3(
            "path",
            typed_json("string"),
            "offset",
            integer_json(0),
            "limit",
            integer_json(1),
        ),
        "path",
    );
    let patch = tool_json(
        "apply_patch",
        "Apply a deterministic V4A patch. Supports Add File, Delete File, and Update File operations.",
        object1("patch", typed_json("string")),
        "patch",
    );
    let bash = tool_json(
        "bash",
        "Run a shell command in the current workspace and return bounded stdout, stderr, and exit status.",
        object2("command", typed_json("string"), "timeout_seconds", integer_json(1)),
        "command",
    );
    let mut r: Vec<Json> = Vec::new();
    r.push(read);
    r.push(patch);
    r.push(bash);
    assert(views(r@) =~= offered_tools());
    r
}

/// Request fields put into a body one after another.
pub open spec fn merged_fields(
    body: Seq<(Seq<char>, JsonView)>,
    fields: Seq<(Seq<char>, JsonView)>,
) -> Seq<(Seq<char>, JsonView)>
    decreases fields.len(),
{
    if fields.len() == 0 {
        body
    } else {
        with_entry(
            merged_fields(body, fields.drop_last()),
            fields.last().0,
            fields.last().1,
        )
    }
}

/// The configured request fields, as the beginning of a body.
pub fn merge_request_fields(config: &ProviderConfig) -> (r: Vec<(String, Json)>)
    ensures
        pairs(r@) == merged_fields(Seq::empty(), config@.request),
{
    let ghost fields = config@.request;
    let mut body = no_entries();
    assert(fields.take(0) =~= Seq::empty());
    let mut i: usize = 0;
    while i < config.request.entries.len()
        invariant
            i <= config.request.entries.len(),
            fields == config@.request,
            pairs(body@) == merged_fields(Seq::empty(), fields.take(i as int)),
        decreases config.request.entries.len() - i,
    {
        assert(fields.take(i + 1).drop_last() =~= fields.take(i as int));
        let entry = &config.request.entries[i];
        assert(fields.take(i + 1).last() == (entry.0@, entry.1@));
        set_entry(&mut body, &entry.0, entry.1.clone());
        i += 1;
    }
    assert(fields.take(fields.len() as int) =~= fields);
    body
}

/// The texts of a message, a line feed between neighbours.
pub open spec fn message_text(blocks: Seq<BlockView>) -> Seq<char> {
    joined(text_parts(blocks), "\n"@)
}

/// The texts of a message, a line feed between neighbours.
pub fn text_blocks(blocks: &Vec<ContentBlock>) -> (r: String)
    ensures
        r@ == message_text(views(blocks@)),
{
    join(&texts_in(blocks), "\n")
}

/// What a finished answer is made of: what was thought and said, if anything,
/// and the calls.
pub open spec fn answer_blocks(
    reasoning: Seq<char>,
    text: Seq<char>,
    calls: Seq<ToolCallView>,
) -> Seq<BlockView> {
    (if reasoning.len() > 0 {
        seq![BlockView::Reasoning(reasoning)]
    } else {
        Seq::empty()
    }) + (if text.len() > 0 {
        seq![BlockView::Text(text)]
    } else {
        Seq::empty()
    }) + call_blocks(calls)
}

/// What a finished answer is made of.
pub fn make_blocks(reasoning: String, text: String, calls: &Vec<ToolCall>) -> (r: Vec<ContentBlock>)
    ensures
        views(r@) == answer_blocks(reasoning@, text@, views(calls@)),
{
    let mut blocks: Vec<ContentBlock> = Vec::new();
    let ghost front = (if reasoning@.len() > 0 {
        seq![BlockView::Reasoning(reasoning@)]
    } else {
        Seq::empty()
    }) + (if text@.len() > 0 {
        seq![BlockView::Text(text@)]
    } else {
        Seq::empty()
    });
    if !reasoning.as_str().is_empty() {
        blocks.push(ContentBlock::Reasoning(reasoning));
    }
    if !text.as_str().is_empty() {
        blocks.push(ContentBlock::Text(text));
    }
    assert(views(blocks@) =~= front);
    push_calls(&mut blocks, calls);
    blocks
}

/// The events that close an answer.
pub open spec fn closing_events(usage: Option<Usage>) -> Seq<EventView> {
    match usage {
        Some(u) => seq![EventView::Usage(u), EventView::Done],
        None => seq![EventView::Done],
    }
}

/// Appends the events that close an answer.
pub fn push_closing(events: &mut Vec<StreamEvent>, usage: Option<Usage>)
    ensures
        views(final(events)@) == views(old(events)@) + closing_events(usage),
{
    let ghost before = views(events@);
    if let Some(u) = usage {
        events.push(StreamEvent::Usage(u));
    }
    events.push(StreamEvent::Done);
    assert(views(events@) =~= before + closing_events(usage));
}

/// What an answer comes to: the turn and the events on the way.
#[derive(Debug)]
pub struct Answer {
    pub turn: ModelTurn,
    pub events: Vec<StreamEvent>,
}

/// The model of an [`Answer`].
pub struct AnswerView {
    pub turn: TurnView,
    pub events: Seq<EventView>,
}

impl View for Answer {
    type V = AnswerView;

    open spec fn view(&self) -> AnswerView {
        AnswerView { turn: self.turn@, events: views(self.events@) }
    }
}

/// The text that events tell of, piece by piece.
pub open spec fn said(events: Seq<EventView>) -> Seq<char>
    decreases events.len(),
{
    if events.len() == 0 {
        Seq::empty()
    } else {
        match events.last() {
            EventView::TextDelta { delta } => said(events.drop_last()) + delta,
            _ => said(events.drop_last()),
        }
    }
}

/// The reasoning that events tell of, piece by piece.
pub open spec fn thought(events: Seq<EventView>) -> Seq<char>
    decreases events.len(),
{
    if events.len() == 0 {
        Seq::empty()
    } else {
        match events.last() {
            EventView::ReasoningDelta { delta } => thought(events.drop_last()) + delta,
            _ => thought(events.drop_last()),
        }
    }
}

/// What events tell of adds up.
pub proof fn lemma_told(a: Seq<EventView>, b: Seq<EventView>)
    ensures
        said(a + b) == said(a) + said(b),
        thought(a + b) == thought(a) + thought(b),
    decreases b.len(),
{
    if b.len() == 0 {
        assert(a + b =~= a);
        assert(said(a) + said(b) =~= said(a));
        assert(thought(a) + thought(b) =~= thought(a));
    } else {
        lemma_told(a, b.drop_last());
        assert((a + b).drop_last() =~= a + b.drop_last());
        assert((a + b).last() == b.last());
        assert(said(a + b) =~= said(a) + said(b));
        assert(thought(a + b) =~= thought(a) + thought(b));
    }
}

/// Appends events.
pub fn append_events(events: &mut Vec<StreamEvent>, more: Vec<StreamEvent>)
    ensures
        views(final(events)@) == views(old(events)@) + views(more@),
{
    let ghost a = views(events@);
    let ghost b = views(more@);
    let mut more = more;
    events.append(&mut more);
    assert(views(events@) =~= a + b);
}

/// No events yet.
pub fn no_events() -> (r: Vec<StreamEvent>)
    ensures
        views(r@) == Seq::<EventView>::empty(),
{
    let r: Vec<StreamEvent> = Vec::new();
    assert(views(r@) =~= Seq::empty());
    r
}

/// Appends one event.
pub fn push_event(events: &mut Vec<StreamEvent>, event: StreamEvent)
    ensures
        views(final(events)@) == views(old(events)@).push(event@),
{
    broadcast use lemma_views_push;

    events.push(event);
}

/// Appends values.
pub fn append_values(v: &mut Vec<Json>, more: Vec<Json>)
    ensures
        views(final(v)@) == views(old(v)@) + views(more@),
{
    let ghost a = views(v@);
    let ghost b = views(more@);
    let mut more = more;
    v.append(&mut more);
    assert(views(v@) =~= a + b);
}

/// A text, or the empty text.
pub open spec fn or_empty(s: Option<Seq<char>>) -> Seq<char> {
    match s {
        Some(t) => t,
        None => Seq::empty(),
    }
}

/// The natural number at a key of an object under a key.
pub open spec fn detail(raw: JsonView, object: Seq<char>, key: Seq<char>) -> Option<u64> {
    match raw.get(object) {
        Some(v) => v.natural(key),
        None => None,
    }
}

/// The natural number at a key of an object under a key.
pub fn find_detail(raw: &Json, object: &str, key: &str) -> (r: Option<u64>)
    ensures
        r == detail(raw@, object@, key@),
{
    match raw.get(object) {
        Some(v) => v.natural(key),
        None => None,
    }
}

// ---------------------------------------------------------------------------
// What messages hold

/// The call that a block holds, if it holds one.
pub open spec fn call_of_block() -> spec_fn(BlockView) -> Option<ToolCallView> {
    |block: BlockView|
        match block {
            BlockView::ToolCall(call) => Some(call),
            _ => None,
        }
}

/// The result that a block holds, if it holds one.
pub open spec fn result_of_block() -> spec_fn(BlockView) -> Option<ToolResultView> {
    |block: BlockView|
        match block {
            BlockView::ToolResult(result) => Some(result),
            _ => None,
        }
}

/// An object gives the values of its fields.
pub proof fn lemma_fields2(k1: Seq<char>, v1: JsonView, k2: Seq<char>, v2: JsonView)
    requires
        k1 != k2,
    ensures
        JsonView::Object(seq![(k1, v1), (k2, v2)]).get(k1) == Some(v1),
        JsonView::Object(seq![(k1, v1), (k2, v2)]).get(k2) == Some(v2),
{
    let e = seq![(k1, v1), (k2, v2)];
    lemma_entry_at(e, 0);
    lemma_entry_at(e, 1);
}

/// An object gives the values of its fields.
pub proof fn lemma_fields3(
    k1: Seq<char>,
    v1: JsonView,
    k2: Seq<char>,
    v2: JsonView,
    k3: Seq<char>,
    v3: JsonView,
)
    requires
        k1 != k2,
        k1 != k3,
        k2 != k3,
    ensures
        JsonView::Object(seq![(k1, v1), (k2, v2), (k3, v3)]).get(k1) == Some(v1),
        JsonView::Object(seq![(k1, v1), (k2, v2), (k3, v3)]).get(k2) == Some(v2),
        JsonView::Object(seq![(k1, v1), (k2, v2), (k3, v3)]).get(k3) == Some(v3),
{
    let e = seq![(k1, v1), (k2, v2), (k3, v3)];
    lemma_entry_at(e, 0);
    lemma_entry_at(e, 1);
    lemma_entry_at(e, 2);
}

/// An object gives the values of its fields.
pub proof fn lemma_fields4(
    k1: Seq<char>,
    v1: JsonView,
    k2: Seq<char>,
    v2: JsonView,
    k3: Seq<char>,
    v3: JsonView,
    k4: Seq<char>,
    v4: JsonView,
)
    requires
        k1 != k2,
        k1 != k3,
        k1 != k4,
        k2 != k3,
        k2 != k4,
        k3 != k4,
    ensures
        JsonView::Object(seq![(k1, v1), (k2, v2), (k3, v3), (k4, v4)]).get(k1) == Some(v1),
        JsonView::Object(seq![(k1, v1), (k2, v2), (k3, v3), (k4, v4)]).get(k2) == Some(v2),
        JsonView::Object(seq![(k1, v1), (k2, v2), (k3, v3), (k4, v4)]).get(k3) == Some(v3),
        JsonView::Object(seq![(k1, v1), (k2, v2), (k3, v3), (k4, v4)]).get(k4) == Some(v4),
{
    let e = seq![(k1, v1), (k2, v2), (k3, v3), (k4, v4)];
    lemma_entry_at(e, 0);
    lemma_entry_at(e, 1);
    lemma_entry_at(e, 2);
    lemma_entry_at(e, 3);
}

/// The fields of a configuration stand in a body, the last one under each key,
/// over those that were there before.
pub proof fn law_fields_are_merged(
    body: Seq<(Seq<char>, JsonView)>,
    fields: Seq<(Seq<char>, JsonView)>,
    key: Seq<char>,
)
    ensures
        (forall|i: int| 0 <= i < fields.len() ==> (#[trigger] fields[i]).0 != key) ==> entry_of(
            merged_fields(body, fields),
            key,
        ) == entry_of(body, key),
        forall|i: int|
            0 <= i < fields.len() && (#[trigger] fields[i]).0 == key && (forall|j: int|
                i < j < fields.len() ==> (#[trigger] fields[j]).0 != key) ==> entry_of(
                merged_fields(body, fields),
                key,
            ) == Some(fields[i].1),
    decreases fields.len(),
{
    if fields.len() > 0 {
        let front = fields.drop_last();
        let last = fields[fields.len() - 1];
        law_fields_are_merged(body, front, key);
        law_with_entry(merged_fields(body, front), last.0, last.1, key);
        if forall|i: int| 0 <= i < fields.len() ==> (#[trigger] fields[i]).0 != key {
            assert forall|i: int| 0 <= i < front.len() implies (#[trigger] front[i]).0 != key by {
                assert(fields[i].0 != key);
            }
        }
        assert forall|i: int|
            0 <= i < fields.len() && (#[trigger] fields[i]).0 == key && (forall|j: int|
                i < j < fields.len() ==> (#[trigger] fields[j]).0 != key) implies entry_of(
            merged_fields(body, fields),
            key,
        ) == Some(fields[i].1) by {
            if i < front.len() {
                assert(fields[fields.len() - 1].0 != key);
                assert(front[i].0 == key);
                assert forall|j: int| i < j < front.len() implies (#[trigger] front[j]).0 != key by {
                    assert(fields[j].0 != key);
                }
            }
        }
    }
}

/// What is said in an answer is told piece by piece, and so is what is thought.
pub proof fn law_told_pieces_run_together(a: Seq<EventView>, b: Seq<EventView>, event: EventView)
    ensures
        said(a + b) == said(a) + said(b),
        thought(a + b) == thought(a) + thought(b),
        said(seq![event]) == (match event {
            EventView::TextDelta { delta } => delta,
            _ => Seq::empty(),
        }),
        thought(seq![event]) == (match event {
            EventView::ReasoningDelta { delta } => delta,
            _ => Seq::empty(),
        }),
{
    lemma_told(a, b);
    assert(seq![event].drop_last() =~= Seq::empty());
    assert(said(seq![event].drop_last()) =~= Seq::empty());
    assert(thought(seq![event].drop_last()) =~= Seq::empty());
    assert(said(seq![event]) =~= (match event {
        EventView::TextDelta { delta } => delta,
        _ => Seq::empty(),
    }));
    assert(thought(seq![event]) =~= (match event {
        EventView::ReasoningDelta { delta } => delta,
        _ => Seq::empty(),
    }));
}

/// The blocks of an answer are what was thought and what was said, where there is
/// some, and then its calls in their order.
pub proof fn law_answers_hold_thoughts_text_and_calls(
    reasoning: Seq<char>,
    text: Seq<char>,
    calls: Seq<ToolCallView>,
)
    ensures
        ({
            let blocks = answer_blocks(reasoning, text, calls);
            let first: int = if reasoning.len() > 0 {
                1
            } else {
                0
            };
            let start: int = if text.len() > 0 {
                first + 1
            } else {
                first
            };
            &&& blocks.len() == start + calls.len()
            &&& reasoning.len() > 0 ==> blocks[0] == BlockView::Reasoning(reasoning)
            &&& text.len() > 0 ==> blocks[first] == BlockView::Text(text)
            &&& forall|i: int|
                0 <= i < calls.len() ==> blocks[start + i] == BlockView::ToolCall(
                    #[trigger] calls[i],
                )
        }),
{
}

} // verus!
