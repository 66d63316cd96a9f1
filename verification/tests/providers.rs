use a_agent::config::{ProviderConfig, ProviderKind};
use a_agent::json::{Json, compact_text, lay_out, parse_json, text_json};
use a_agent::model::{
    ContentBlock, ModelMessage, ModelRequest, Role, StreamEvent, ToolCall, ToolResult,
};
use a_agent::provider::{anthropic, base_url, chat_completion, responses, tool_definitions};
use a_agent::table::Table;

fn json(text: &str) -> Json {
    parse_json(text).expect("valid JSON")
}

fn values(texts: &[&str]) -> Vec<Json> {
    texts.iter().map(|text| json(text)).collect()
}

fn provider(kind: ProviderKind, url: &str) -> ProviderConfig {
    let mut headers = Table::new();
    headers.put("X-Tenant", "acme".to_owned());
    ProviderConfig {
        kind,
        base_url: Some(url.to_owned()),
        model: "test-model".to_owned(),
        api_key_env: "TEST_KEY".to_owned(),
        api_key: None,
        headers,
        max_tokens: 1024,
        request: Table::new(),
    }
}

fn request() -> ModelRequest {
    ModelRequest {
        system_prompt: "system rules".to_owned(),
        messages: vec![ModelMessage {
            role: Role::User,
            blocks: vec![ContentBlock::Text("hello".to_owned())],
        }],
        include_tools: true,
    }
}

fn items(value: Option<&Json>) -> usize {
    match value {
        Some(Json::List(items)) => items.len(),
        _ => 0,
    }
}

#[test]
fn responses_normalizes_text_reasoning_tools_and_usage() {
    let values = values(&[
        r#"{"type":"response.output_text.delta","delta":"done"}"#,
        r#"{"type":"response.reasoning_summary_text.delta","delta":"checking"}"#,
        r#"{"type":"response.output_item.added","item":{"type":"function_call","id":"item_1","call_id":"call_1","name":"read","arguments":""}}"#,
        r#"{"type":"response.function_call_arguments.delta","item_id":"item_1","delta":"{\"path\":"}"#,
        r#"{"type":"response.function_call_arguments.delta","item_id":"item_1","delta":"\"a.rs\"}"}"#,
        r#"{"type":"response.output_item.done","item":{"type":"function_call","id":"item_1","call_id":"call_1","name":"read","arguments":"{\"path\":\"a.rs\"}"}}"#,
        r#"{"type":"response.completed","response":{"usage":{"input_tokens":10,"output_tokens":4,"input_tokens_details":{"cached_tokens":3}}}}"#,
    ]);
    let answer = responses::normalize_events(&values).unwrap();
    let (turn, events) = (answer.turn, answer.events);
    assert_eq!(turn.tool_calls[0].arguments, "{\"path\":\"a.rs\"}");
    assert!(
        turn.blocks
            .iter()
            .any(|block| matches!(block, ContentBlock::Text(text) if text == "done"))
    );
    assert_eq!(turn.usage.unwrap().cached_tokens, Some(3));
    assert!(
        events
            .iter()
            .any(|event| matches!(event, StreamEvent::ReasoningDelta { .. }))
    );
}

#[test]
fn anthropic_normalizes_fragmented_tool_json() {
    let values = values(&[
        r#"{"type":"message_start","message":{"usage":{"input_tokens":8,"cache_read_input_tokens":2}}}"#,
        r#"{"type":"content_block_start","index":0,"content_block":{"type":"thinking","thinking":""}}"#,
        r#"{"type":"content_block_delta","index":0,"delta":{"type":"thinking_delta","thinking":"plan"}}"#,
        r#"{"type":"content_block_start","index":1,"content_block":{"type":"tool_use","id":"tool_1","name":"bash","input":{}}}"#,
        r#"{"type":"content_block_delta","index":1,"delta":{"type":"input_json_delta","partial_json":"{\"command\":"}}"#,
        r#"{"type":"content_block_delta","index":1,"delta":{"type":"input_json_delta","partial_json":"\"pwd\"}"}}"#,
        r#"{"type":"content_block_stop","index":1}"#,
        r#"{"type":"message_delta","usage":{"output_tokens":5}}"#,
        r#"{"type":"message_stop"}"#,
    ]);
    let turn = anthropic::normalize_events(&values).unwrap().turn;
    assert_eq!(turn.tool_calls[0].arguments, "{\"command\":\"pwd\"}");
    assert_eq!(turn.usage.unwrap().input_tokens, Some(8));
}

#[test]
fn chat_completion_normalizes_indexed_tool_deltas_and_reasoning() {
    let values = values(&[
        r#"{"choices":[{"delta":{"reasoning_content":"think","tool_calls":[{"index":0,"id":"call_1","function":{"name":"read","arguments":"{\"pa"}}]}}]}"#,
        r#"{"choices":[{"delta":{"content":"ok","tool_calls":[{"index":0,"function":{"arguments":"th\":\"x\"}"}}]},"finish_reason":"tool_calls"}],"usage":{"prompt_tokens":3,"completion_tokens":6,"prompt_tokens_details":{"cached_tokens":1}}}"#,
    ]);
    let answer = chat_completion::normalize_events(&values).unwrap();
    let (turn, events) = (answer.turn, answer.events);
    assert_eq!(turn.tool_calls[0].arguments, "{\"path\":\"x\"}");
    assert!(
        turn.blocks
            .iter()
            .any(|block| matches!(block, ContentBlock::Text(text) if text == "ok"))
    );
    assert!(
        events
            .iter()
            .any(|event| matches!(event, StreamEvent::ReasoningDelta { .. }))
    );
}

#[test]
fn provider_errors_are_actionable() {
    let message = responses::normalize_events(&values(&[
        r#"{"type":"error","message":"bad request","code":"invalid"}"#,
    ]))
    .unwrap_err();
    assert!(message.contains("bad request"));
    assert!(message.contains("invalid"));
}

#[test]
fn responses_requests_hold_what_is_configured() {
    let config = provider(ProviderKind::Responses, "https://host.example/v1/");
    assert_eq!(base_url(&config).as_deref(), Some("https://host.example/v1"));
    let body = responses::request_body(&config, &request());
    assert_eq!(body.text("model").as_deref(), Some("test-model"));
    assert!(matches!(body.get("stream"), Some(Json::Bool(true))));
    assert_eq!(body.text("instructions").as_deref(), Some("system rules"));
    assert_eq!(body.natural("max_output_tokens"), Some(1024));
    assert_eq!(items(body.get("tools")), 3);

    let answer = responses::normalize_events(&values(&[
        r#"{"type":"response.output_text.delta","delta":"hello"}"#,
        r#"{"type":"response.completed","response":{"usage":{"input_tokens":2,"output_tokens":1}}}"#,
    ]))
    .unwrap();
    assert_eq!(answer.turn.final_text().as_deref(), Some("hello"));
    assert!(
        answer
            .events
            .iter()
            .any(|event| matches!(event, StreamEvent::TextDelta { delta } if delta == "hello"))
    );
}

#[test]
fn chat_requests_hold_what_is_configured() {
    let config = provider(ProviderKind::Chatcompletion, "https://host.example/v1");
    assert_eq!(base_url(&config).as_deref(), Some("https://host.example/v1"));
    let body = chat_completion::request_body(&config, &request());
    assert_eq!(body.text("model").as_deref(), Some("test-model"));
    assert!(matches!(body.get("stream"), Some(Json::Bool(true))));
    assert_eq!(body.natural("max_tokens"), Some(1024));
    let turn = chat_completion::normalize_events(&values(&[
        r#"{"choices":[{"delta":{"content":"hi"}}]}"#,
        r#"{"choices":[{"delta":{},"finish_reason":"stop"}],"usage":{"prompt_tokens":2,"completion_tokens":1}}"#,
    ]))
    .unwrap()
    .turn;
    assert_eq!(turn.final_text().as_deref(), Some("hi"));
}

#[test]
fn anthropic_requests_hold_what_is_configured() {
    let config = provider(ProviderKind::Anthropic, "https://host.example");
    assert_eq!(base_url(&config).as_deref(), Some("https://host.example"));
    let body = anthropic::request_body(&config, &request());
    assert_eq!(body.text("model").as_deref(), Some("test-model"));
    assert!(matches!(body.get("stream"), Some(Json::Bool(true))));
    assert_eq!(body.text("system").as_deref(), Some("system rules"));
    assert_eq!(body.natural("max_tokens"), Some(1024));
    assert_eq!(items(body.get("tools")), 3);
    let turn = anthropic::normalize_events(&values(&[
        r#"{"type":"message_start","message":{"id":"msg_1","type":"message","role":"assistant","content":[],"model":"test-model","stop_reason":null,"stop_sequence":null,"usage":{"input_tokens":2,"output_tokens":0}}}"#,
        r#"{"type":"content_block_start","index":0,"content_block":{"type":"text","text":"","citations":null}}"#,
        r#"{"type":"content_block_delta","index":0,"delta":{"type":"text_delta","text":"hey"}}"#,
        r#"{"type":"content_block_stop","index":0}"#,
        r#"{"type":"message_delta","delta":{"stop_reason":"end_turn","stop_sequence":null},"usage":{"output_tokens":1}}"#,
        r#"{"type":"message_stop"}"#,
    ]))
    .unwrap()
    .turn;
    assert_eq!(turn.final_text().as_deref(), Some("hey"));
}

#[test]
fn configured_api_key_takes_precedence_without_reading_the_environment() {
    let mut config = provider(ProviderKind::Responses, "https://host.example/v1");
    config.api_key = Some("config-secret".to_owned());
    config.api_key_env = "A_AGENT_INTENTIONALLY_MISSING_KEY".to_owned();
    assert_eq!(config.resolve_api_key(&None).unwrap(), "config-secret");
    config.api_key = None;
    assert_eq!(
        config.resolve_api_key(&Some("found".to_owned())).unwrap(),
        "found"
    );
    assert!(
        config
            .resolve_api_key(&None)
            .unwrap_err()
            .contains("A_AGENT_INTENTIONALLY_MISSING_KEY")
    );
    config.api_key = Some("config-secret".to_owned());
    assert_ne!(
        config.redacted().api_key.as_deref(),
        Some("config-secret")
    );
}

#[test]
fn the_openai_address_is_the_default() {
    let mut config = provider(ProviderKind::Responses, "");
    config.base_url = None;
    assert_eq!(
        base_url(&config).as_deref(),
        Some("https://api.openai.com/v1")
    );
    config.kind = ProviderKind::Anthropic;
    assert_eq!(base_url(&config), None);
}

#[test]
fn live_events_tell_what_the_finished_answer_tells() {
    let chunks = values(&[
        r#"{"choices":[{"delta":{"reasoning_content":"think"}}]}"#,
        r#"{"choices":[{"delta":{"content":"one "}}]}"#,
        r#"{"choices":[{"delta":{"content":"two"}}]}"#,
    ]);
    let mut live = chat_completion::ChatLive::default();
    let mut text = String::new();
    for chunk in &chunks {
        for event in live.emit(chunk) {
            if let StreamEvent::TextDelta { delta } = event {
                text.push_str(&delta);
            }
        }
    }
    let turn = chat_completion::normalize_events(&chunks).unwrap().turn;
    assert_eq!(turn.final_text().as_deref(), Some(text.as_str()));
    assert_eq!(text, "one two");
}

fn said(events: &[StreamEvent]) -> String {
    events
        .iter()
        .filter_map(|event| match event {
            StreamEvent::TextDelta { delta } => Some(delta.as_str()),
            _ => None,
        })
        .collect()
}

#[test]
fn what_is_shown_of_an_answer_is_what_is_kept() {
    let chat = values(&[
        r#"{"choices":[{"delta":{"content":"one "}}]}"#,
        r#"{"choices":[{"delta":{"reasoning":"why"}}]}"#,
        r#"{"choices":[{"delta":{"content":"two"},"finish_reason":"stop"}],"usage":{}}"#,
    ]);
    let mut live = chat_completion::ChatLive::default();
    let shown = chat.iter().flat_map(|value| live.emit(value)).collect::<Vec<_>>();
    let kept = chat_completion::normalize_events(&chat).unwrap();
    assert_eq!(said(&shown), "one two");
    assert_eq!(kept.turn.final_text().as_deref(), Some("one two"));
    assert_eq!(said(&kept.events), "one two");

    let anthropic = values(&[
        r#"{"type":"content_block_start","index":0,"content_block":{"type":"text","text":""}}"#,
        r#"{"type":"content_block_delta","index":0,"delta":{"type":"text_delta","text":"one "}}"#,
        r#"{"type":"content_block_delta","index":0,"delta":{"type":"text_delta","text":"two"}}"#,
        r#"{"type":"content_block_stop","index":0}"#,
        r#"{"type":"message_stop"}"#,
    ]);
    let mut live = anthropic::AnthropicLive::default();
    let shown = anthropic.iter().flat_map(|value| live.emit(value)).collect::<Vec<_>>();
    let kept = anthropic::normalize_events(&anthropic).unwrap();
    assert_eq!(said(&shown), "one two");
    assert_eq!(said(&kept.events), "one two");
    assert_eq!(kept.turn.final_text().as_deref(), Some("one two"));
}

#[test]
fn anthropic_sides_alternate() {
    let mut conversation = request();
    conversation.messages.push(ModelMessage {
        role: Role::Assistant,
        blocks: vec![ContentBlock::ToolCall(ToolCall::new("c1", "read", "{}"))],
    });
    conversation.messages.push(ModelMessage {
        role: Role::Tool,
        blocks: vec![ContentBlock::ToolResult(ToolResult::success("c1", "code"))],
    });
    conversation.messages.push(ModelMessage {
        role: Role::User,
        blocks: vec![ContentBlock::Text("next".to_owned())],
    });
    let config = provider(ProviderKind::Anthropic, "https://host.example");
    let body = anthropic::request_body(&config, &conversation);
    let roles = match body.get("messages") {
        Some(Json::List(messages)) => messages
            .iter()
            .map(|message| message.text("role").unwrap())
            .collect::<Vec<_>>(),
        _ => panic!("no messages"),
    };
    assert_eq!(roles, ["user", "assistant", "user"]);
}

#[test]
fn objects_are_written_in_the_order_of_their_keys() {
    let entry = |key: &str, value: &str| (key.to_owned(), text_json(value));
    let object = Json::Object(vec![entry("b", "first"), entry("a", "x"), entry("b", "last")]);
    assert_eq!(compact_text(&object), r#"{"a":"x","b":"last"}"#);
    assert_eq!(compact_text(&json(r#"{"b":1,"a":2,"b":3}"#)), r#"{"a":2,"b":3}"#);
}

#[test]
fn json_is_read_and_written_as_it_stands() {
    assert!(parse_json("{not json").is_none());
    let value = json(r#"{ "a" : [1, 2.5, true, null], "b": "x\ny" }"#);
    assert_eq!(compact_text(&value), r#"{"a":[1,2.5,true,null],"b":"x\ny"}"#);
    assert_eq!(compact_text(&text_json("say \"hi\"")), r#""say \"hi\"""#);
    assert_eq!(lay_out(r#"{"a":1}"#), "{\n  \"a\": 1\n}");
    assert_eq!(lay_out("plain"), "plain");
    assert_eq!(tool_definitions().len(), 3);
    for tool in &tool_definitions() {
        assert!(!compact_text(tool).is_empty());
    }
}
