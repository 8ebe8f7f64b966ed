use squire::chat::StreamEvent;
use squire::events::{
    anthropic_payload_events, anthropic_stream_closed, apply_openai_chunk, openai_payload_events, openai_stream_closed,
    OpenAiChoice, OpenAiChunk, PendingToolInputs,
};
use squire::chat::{ChatMessage, ChatRole, FinishReason, LlmError};
use squire::stream::{
    anthropic_http_error, anthropic_max_tokens, anthropic_messages_url, anthropic_role, anthropic_sse_payloads,
    anthropic_system_text, anthropic_tool_id, openai_chat_url, openai_finish, openai_http_error, openai_sse_payloads,
    openai_thinking, OpenAiThinking, PartialJson, PendingToolCalls,
};

fn msg(role: ChatRole, content: &str) -> ChatMessage {
    ChatMessage { role, content: content.to_string(), tool_call_id: None, tool_calls: None, reasoning_content: None }
}

#[test]
fn endpoint_urls_append_the_path_once() {
    assert_eq!(openai_chat_url("https://api.openai.com/v1"), "https://api.openai.com/v1/chat/completions");
    assert_eq!(openai_chat_url("http://h/v1/chat/completions"), "http://h/v1/chat/completions");
    assert_eq!(openai_chat_url("http://h/v1/responses"), "http://h/v1/responses");
    assert_eq!(anthropic_messages_url("https://api.anthropic.com/v1"), "https://api.anthropic.com/v1/messages");
    assert_eq!(anthropic_messages_url("http://x/messages"), "http://x/messages");
}

#[test]
fn openai_payloads_keep_data_lines_only() {
    let chunk = "data: {\"a\":1}\n\n: keep-alive\n  data:data: [DONE]  \nevent: x";
    assert_eq!(openai_sse_payloads(chunk), vec!["{\"a\":1}".to_string(), "[DONE]".to_string()]);
    assert!(openai_sse_payloads("").is_empty());
}

#[test]
fn anthropic_payloads_need_data_and_a_space() {
    let chunk = "event: message_start\ndata: {}\r\ndata:{\"x\":1}\ndata: [DONE]";
    assert_eq!(anthropic_sse_payloads(chunk), vec!["{}".to_string(), "[DONE]".to_string()]);
}

#[test]
fn http_errors_are_classified() {
    assert_eq!(openai_http_error(401, "401 Unauthorized", "x"), LlmError::Auth);
    assert_eq!(openai_http_error(429, "429 Too Many Requests", ""), LlmError::RateLimited);
    assert_eq!(
        openai_http_error(500, "500 Internal Server Error", ""),
        LlmError::Api("HTTP 500 (500 Internal Server Error)".to_string())
    );
    assert_eq!(openai_http_error(502, "502 Bad Gateway", "oops"), LlmError::Api("HTTP 502: oops".to_string()));
    let long = "é".repeat(600);
    match openai_http_error(500, "500", &long) {
        LlmError::Api(m) => assert_eq!(m, format!("HTTP 500: {}...", "é".repeat(500))),
        other => panic!("unexpected {other:?}"),
    }
    assert_eq!(
        anthropic_http_error(500, "500 Internal Server Error", "boom"),
        LlmError::Api("HTTP 500 Internal Server Error: boom".to_string())
    );
    assert_eq!(anthropic_http_error(401, "401", ""), LlmError::Auth);
}

#[test]
fn thinking_parameters_follow_model_family() {
    let none = OpenAiThinking { thinking: None, reasoning_effort: None, reasoning: None };
    assert_eq!(
        openai_thinking("deepseek-chat", "none"),
        OpenAiThinking { thinking: Some("disabled".to_string()), reasoning_effort: None, reasoning: None }
    );
    assert_eq!(
        openai_thinking("DeepSeek-Reasoner", "high"),
        OpenAiThinking { thinking: Some("enabled".to_string()), reasoning_effort: Some("max".to_string()), reasoning: None }
    );
    assert_eq!(
        openai_thinking("deepseek-chat", "low"),
        OpenAiThinking { thinking: Some("enabled".to_string()), reasoning_effort: Some("high".to_string()), reasoning: None }
    );
    assert_eq!(openai_thinking("deepseek-chat", "default"), none);
    assert_eq!(
        openai_thinking("o3-mini", "mid"),
        OpenAiThinking { thinking: None, reasoning_effort: None, reasoning: Some("medium".to_string()) }
    );
    assert_eq!(
        openai_thinking("qwen-max", "high"),
        OpenAiThinking { thinking: None, reasoning_effort: Some("high".to_string()), reasoning: None }
    );
    assert_eq!(openai_thinking("gpt-4o", "low"), none);
    assert_eq!(openai_thinking("o3", "none"), none);
}

#[test]
fn finish_reasons_end_the_stream() {
    assert_eq!(openai_finish("tool_calls"), Some(FinishReason::ToolCalls));
    assert_eq!(openai_finish("stop"), Some(FinishReason::Stop));
    assert_eq!(openai_finish("length"), None);
}

#[test]
fn anthropic_request_parts() {
    let ms = vec![msg(ChatRole::System, "a"), msg(ChatRole::User, "u"), msg(ChatRole::System, "b")];
    assert_eq!(anthropic_system_text(&ms), Some("a\nb".to_string()));
    assert_eq!(anthropic_system_text(&vec![msg(ChatRole::User, "u")]), None);
    assert_eq!(anthropic_max_tokens(None, Some(1024)), 16384);
    assert_eq!(anthropic_max_tokens(None, None), 4096);
    assert_eq!(anthropic_max_tokens(Some(77), Some(1024)), 77);
    assert_eq!(anthropic_role(ChatRole::Assistant), "assistant");
    assert_eq!(anthropic_role(ChatRole::Tool), "user");
    assert_eq!(anthropic_tool_id(3), "anthropic-tool-3");
}

#[test]
fn partial_json_waits_for_a_whole_document() {
    let mut p = PartialJson::new();
    assert!(p.feed("{\"a\":").is_none());
    assert_eq!(p.buffer, "{\"a\":");
    let v = p.feed("1}").unwrap();
    assert_eq!(v["a"], serde_json::Value::from(1));
    assert_eq!(p.buffer, "");
}

#[test]
fn pending_tool_calls_flush_in_slot_order() {
    let mut t = PendingToolCalls::new();
    t.accumulate(1, Some("b".to_string()), Some("g".to_string()), Some("{\"x\"".to_string()));
    t.accumulate(0, Some("a".to_string()), Some("f".to_string()), None);
    t.accumulate(1, None, None, Some(":2}".to_string()));
    t.accumulate(2, Some("c".to_string()), None, Some("{}".to_string()));
    t.accumulate(3, Some("d".to_string()), Some("h".to_string()), Some("{bad".to_string()));
    let calls = t.flush();
    let ids: Vec<&str> = calls.iter().map(|c| c.id.as_str()).collect();
    assert_eq!(ids, vec!["a", "b"]);
    assert_eq!(calls[0].name, "f");
    assert_eq!(calls[0].arguments, serde_json::Value::Object(serde_json::Map::new()));
    assert_eq!(calls[1].arguments["x"], serde_json::Value::from(2));
    assert!(t.flush().is_empty());
}


fn describe(events: &[StreamEvent]) -> Vec<String> {
    events
        .iter()
        .map(|e| match e {
            StreamEvent::Chunk(t) => format!("chunk:{}", t),
            StreamEvent::Thinking(t) => format!("thinking:{}", t),
            StreamEvent::ToolCall(c) => format!("call:{}:{}:{}", c.id, c.name, c.arguments),
            StreamEvent::Log(t) => format!("log:{}", t),
            StreamEvent::Done(f) => format!("done:{:?}", f),
            StreamEvent::Error(t) => format!("error:{}", t),
        })
        .collect()
}

#[test]
fn openai_payloads_become_text_reasoning_and_tool_call_events() {
    let mut pending = PendingToolCalls::new();
    let (ev, fin) = openai_payload_events(
        r#"{"choices":[{"delta":{"content":"Hel","reasoning_content":"think"}}]}"#,
        &mut pending,
    );
    assert_eq!(describe(&ev), vec!["chunk:Hel", "thinking:think"]);
    assert_eq!(fin, None);
    let (ev, _) = openai_payload_events(
        r#"{"choices":[{"delta":{"tool_calls":[{"index":0,"id":"call_1","function":{"name":"read","arguments":"{\"pa"}}]}}]}"#,
        &mut pending,
    );
    assert!(ev.is_empty());
    let (ev, _) = openai_payload_events(
        r#"{"choices":[{"delta":{"tool_calls":[{"index":0,"function":{"arguments":"th\":1}"}}]}}]}"#,
        &mut pending,
    );
    assert!(ev.is_empty());
    let (ev, fin) = openai_payload_events(r#"{"choices":[{"delta":{},"finish_reason":"tool_calls"}]}"#, &mut pending);
    assert_eq!(describe(&ev), vec!["call:call_1:read:{\"path\":1}", "done:ToolCalls"]);
    assert_eq!(fin, Some(FinishReason::ToolCalls));
    // Not JSON: passed over.
    let (ev, fin) = openai_payload_events("{\"choices\": [", &mut pending);
    assert!(ev.is_empty() && fin.is_none());
    let (ev, fin) = openai_payload_events("[DONE]", &mut pending);
    assert_eq!(describe(&ev), vec!["done:Stop"]);
    assert_eq!(fin, Some(FinishReason::Stop));
    let mut pending = PendingToolCalls::new();
    openai_payload_events(
        r#"{"choices":[{"delta":{"tool_calls":[{"id":"c","function":{"name":"ls"}}]}}]}"#,
        &mut pending,
    );
    assert_eq!(describe(&openai_stream_closed(&mut pending)), vec!["call:c:ls:{}", "done:Stop"]);
}

#[test]
fn openai_chunk_stops_at_the_first_finishing_choice() {
    let choice = |content: &str, finish: Option<&str>| OpenAiChoice {
        content: Some(content.to_string()),
        reasoning: None,
        tool_calls: vec![],
        finish_reason: finish.map(|f| f.to_string()),
    };
    let chunk = OpenAiChunk { choices: vec![choice("a", Some("length")), choice("b", Some("stop")), choice("c", None)] };
    let mut pending = PendingToolCalls::new();
    let (ev, fin) = apply_openai_chunk(&chunk, &mut pending);
    assert_eq!(describe(&ev), vec!["chunk:a", "chunk:b", "done:Stop"]);
    assert_eq!(fin, Some(FinishReason::Stop));
}

#[test]
fn anthropic_events_give_text_thinking_tool_calls_and_the_end() {
    let mut partial = PartialJson::new();
    let mut pending = PendingToolInputs::new();
    let (ev, end) = anthropic_payload_events(
        &mut partial,
        r#"{"type":"content_block_delta","index":0,"delta":{"type":"text_delta","text":"Hi"}}"#,
        &mut pending,
    );
    assert_eq!(describe(&ev), vec!["chunk:Hi"]);
    assert!(!end);
    let (ev, _) = anthropic_payload_events(
        &mut partial,
        r#"{"type":"content_block_delta","index":0,"delta":{"thinking":"hmm"}}"#,
        &mut pending,
    );
    assert_eq!(describe(&ev), vec!["thinking:hmm"]);
    // A payload split over two lines is held until it parses.
    let (ev, _) = anthropic_payload_events(
        &mut partial,
        r#"{"type":"content_block_delta","index":1,"content_block":{"name":"read_file"},"#,
        &mut pending,
    );
    assert!(ev.is_empty());
    let (ev, _) = anthropic_payload_events(&mut partial, r#""delta":{"partial_json":" "}}"#, &mut pending);
    assert!(ev.is_empty());
    let (ev, _) =
        anthropic_payload_events(&mut partial, r#"{"type":"content_block_stop","index":1}"#, &mut pending);
    assert_eq!(describe(&ev), vec!["call:anthropic-tool-1:read_file:{}"]);
    // A block closed again, or one without a tool name, hands out nothing.
    let (ev, _) =
        anthropic_payload_events(&mut partial, r#"{"type":"content_block_stop","index":1}"#, &mut pending);
    assert!(ev.is_empty());
    let (ev, end) = anthropic_payload_events(&mut partial, r#"{"type":"message_stop"}"#, &mut pending);
    assert_eq!(describe(&ev), vec!["done:Stop"]);
    assert!(end);
    let (ev, end) = anthropic_payload_events(&mut partial, "[DONE]", &mut pending);
    assert_eq!(describe(&ev), vec!["done:Stop"]);
    assert!(end);
    assert!(anthropic_stream_closed(true).is_empty());
    assert_eq!(describe(&anthropic_stream_closed(false)), vec!["done:Stop"]);
}
