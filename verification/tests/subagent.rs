use squire::subagent::subagent_task;
use squire::chat::{ChatMessage, ChatRole, FinishReason, StreamEvent, ToolCall};
use squire::subagent::{
    assign_mcp_local_name, begin_round, ensure_system_message, mcp_local_description, round_outcome_of,
    subagent_session_title, subagent_started_output, unknown_tool_result, RoundCollector, RoundOutcome,
    MAX_SUBAGENT_ROUNDS,
};

fn msg(role: ChatRole, content: &str) -> ChatMessage {
    ChatMessage { role, content: content.to_string(), tool_call_id: None, tool_calls: None, reasoning_content: None }
}

#[test]
fn session_title_keeps_short_tasks_whole() {
    assert_eq!(subagent_session_title("find the bug"), "Subagent: find the bug");
    let sixty = "a".repeat(60);
    assert_eq!(subagent_session_title(&sixty), format!("Subagent: {sixty}"));
}

#[test]
fn session_title_cuts_long_tasks_to_57_bytes() {
    let long = "b".repeat(61);
    assert_eq!(subagent_session_title(&long), format!("Subagent: {}...", "b".repeat(57)));
    let mixed = format!("{}é{}", "x".repeat(55), "y".repeat(10));
    assert_eq!(subagent_session_title(&mixed), format!("Subagent: {}é...", "x".repeat(55)));
}

#[test]
fn mcp_local_names_are_sanitized_and_deduplicated() {
    let mut used = vec!["todo_tree".to_string()];
    assert_eq!(assign_mcp_local_name(&mut used, "my-server", "read.file"), "mcp_my_server_read_file");
    assert_eq!(assign_mcp_local_name(&mut used, "my-server", "read.file"), "mcp_my_server_read_file_2");
    assert_eq!(assign_mcp_local_name(&mut used, "my server", "read file"), "mcp_my_server_read_file_3");
    assert_eq!(used.len(), 4);
    assert_eq!(used[3], "mcp_my_server_read_file_3");
}

#[test]
fn mcp_description_names_tool_and_server() {
    assert_eq!(
        mcp_local_description("grep", "Files", "search files"),
        "MCP tool 'grep' from server 'Files': search files"
    );
}

#[test]
fn system_message_is_added_only_when_missing() {
    let mut v = vec![msg(ChatRole::User, "task")];
    ensure_system_message(&mut v);
    assert_eq!(v.len(), 2);
    assert_eq!(v[0].role, ChatRole::System);
    assert!(v[0].content.starts_with("You are a helpful sub-agent."));
    assert_eq!(v[1].content, "task");
    ensure_system_message(&mut v);
    assert_eq!(v.len(), 2);
    let mut empty: Vec<ChatMessage> = vec![];
    ensure_system_message(&mut empty);
    assert_eq!(empty.len(), 1);
}

#[test]
fn round_collector_accumulates_until_done() {
    let mut c = RoundCollector::new();
    assert!(c.on_event(StreamEvent::Chunk("Hel".to_string())));
    assert!(c.on_event(StreamEvent::Thinking("hmm".to_string())));
    assert!(c.on_event(StreamEvent::Chunk("lo".to_string())));
    assert!(c.on_event(StreamEvent::ToolCall(ToolCall {
        id: "c1".to_string(),
        name: "read_file".to_string(),
        arguments: serde_json::Value::Null,
    })));
    assert!(c.on_event(StreamEvent::Log("x".to_string())));
    assert!(!c.on_event(StreamEvent::Done(FinishReason::ToolCalls)));
    assert_eq!(c.full_response, "Hello");
    assert_eq!(c.tool_calls.len(), 1);
    assert_eq!(round_outcome_of(&c), RoundOutcome::RunTools);
}

#[test]
fn round_outcomes_follow_finish_reason_and_errors() {
    let mut c = RoundCollector::new();
    assert_eq!(round_outcome_of(&c), RoundOutcome::Complete);
    c.finish = Some(FinishReason::Length);
    assert_eq!(round_outcome_of(&c), RoundOutcome::Complete);
    c.finish = Some(FinishReason::Error);
    assert_eq!(
        round_outcome_of(&c),
        RoundOutcome::Fail("Subagent LLM returned an error finish reason".to_string())
    );
    let mut e = RoundCollector::new();
    assert!(!e.on_event(StreamEvent::Error("boom".to_string())));
    assert_eq!(round_outcome_of(&e), RoundOutcome::Fail("Subagent stream error: boom".to_string()));
}

#[test]
fn rounds_run_out_after_ten() {
    let mut left = MAX_SUBAGENT_ROUNDS;
    let mut started = 0;
    while let Ok(n) = begin_round(left) {
        left = n;
        started += 1;
    }
    assert_eq!(started, 10);
    assert_eq!(begin_round(0), Err("Subagent exceeded maximum tool call rounds".to_string()));
}

#[test]
fn unknown_tool_and_started_messages() {
    let r = unknown_tool_result("c9", "nope");
    assert_eq!(r.call_id, "c9");
    assert_eq!(r.output, "Unknown tool: nope");
    assert!(r.is_error);
    assert_eq!(
        subagent_started_output("do it", "S1"),
        "[Subagent started on task: do it]\nSession: S1\nThe subagent is working independently and will report back when done."
    );
}

#[test]
fn subagent_task_is_the_string_task_argument() {
    let args: serde_json::Value = serde_json::from_str(r#"{"task":"write tests"}"#).unwrap();
    assert_eq!(subagent_task("c1", &args).ok().as_deref(), Some("write tests"));
    for bad in [r#"{}"#, r#"{"task":5}"#, r#"["task"]"#] {
        let args: serde_json::Value = serde_json::from_str(bad).unwrap();
        let err = subagent_task("c2", &args).unwrap_err();
        assert_eq!(err.call_id, "c2");
        assert_eq!(err.output, "Missing required argument: task");
        assert!(err.is_error);
    }
}
