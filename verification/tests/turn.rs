use squire::turn::{
    assemble_context, clean_preserve_id, compliance_failure_message, gate_close_response,
    invalid_relationship_line, is_recent_source_chunk, merge_preserve_list, phase2_retry_message,
    prepare_phase2_token, span_name_ids, user_request_with_bookmarks, ContextCandidate, Gate,
    SquirePhase, SquireTurnState, TurnOutcome,
};
use squire::types::{NewTokenSpec, Relationship, SquireResponse};

fn cand(id: &str, sd: &str, fd: &str) -> ContextCandidate {
    ContextCandidate { token_id: id.to_string(), short_desc: sd.to_string(), full_desc: fd.to_string() }
}

fn pair(a: &str, b: &str) -> (String, String) {
    (a.to_string(), b.to_string())
}

fn strings(v: &[&str]) -> Vec<String> {
    v.iter().map(|s| s.to_string()).collect()
}

#[test]
fn retries_then_fails_after_budget() {
    let mut st = SquireTurnState::new();
    assert_eq!(st.reject("c1".into(), "r1".into()), TurnOutcome::Retry);
    assert_eq!(st.reject("c2".into(), "r2".into()), TurnOutcome::Retry);
    assert_eq!(st.reject("c3".into(), "r3".into()), TurnOutcome::Retry);
    assert_eq!(
        st.reject("c4".into(), "r4".into()),
        TurnOutcome::Failed { reason: "r4".to_string(), failed_content: "c4".to_string() }
    );
    assert_eq!(st.retry_count, 0);
    st.set_phase2("req".to_string());
    assert_eq!(st.phase, SquirePhase::Phase2);
    assert_eq!(st.user_request_text, "req");
}

#[test]
fn accepted_response_resets_retries() {
    let mut st = SquireTurnState::new();
    assert_eq!(st.reject("c".into(), "r".into()), TurnOutcome::Retry);
    st.accept();
    assert_eq!(st.retry_count, 0);
    assert_eq!(st.reject("c".into(), "r".into()), TurnOutcome::Retry);
    assert_eq!(st.reject("c".into(), "r".into()), TurnOutcome::Retry);
}

fn resp(ask: &str, content: &str) -> SquireResponse {
    SquireResponse { ask_user: ask.to_string(), content: content.to_string(), ..Default::default() }
}

#[test]
fn gate_decides_per_phase() {
    assert_eq!(gate_close_response(SquirePhase::Phase1, &resp("Which one?", "")), Gate::AskUser("Which one?".to_string()));
    assert_eq!(
        gate_close_response(SquirePhase::Phase2, &resp("Which one?", "text")),
        Gate::Reject("ask_user and content cannot coexist".to_string())
    );
    assert_eq!(gate_close_response(SquirePhase::Phase1, &resp("", "")), Gate::Reject("empty close response".to_string()));
    assert_eq!(gate_close_response(SquirePhase::Phase2, &resp("", "")), Gate::Proceed);
    assert_eq!(gate_close_response(SquirePhase::Phase1, &resp("", "Plain answer.")), Gate::Proceed);
    assert_eq!(
        gate_close_response(SquirePhase::Phase1, &resp("", "Open §^SPAN_A text")),
        Gate::Reject("unclosed §^ span SPAN_A".to_string())
    );
    let mut r = resp("", "Answer");
    r.preserve = vec!["X".to_string()];
    match gate_close_response(SquirePhase::Phase1, &r) {
        Gate::Reject(m) => assert!(m.starts_with("Phase 1 must not contain §#new_tokens")),
        other => panic!("unexpected {:?}", other),
    }
    assert_eq!(gate_close_response(SquirePhase::Phase2, &r), Gate::Proceed);
}

#[test]
fn compliance_failure_message_shows_reason_and_content() {
    let m = compliance_failure_message("empty close response", "{}");
    assert_eq!(
        m,
        "**Squire compliance failure — turn closed without a stored response**\n\nReason: empty close response\n\n\
         The model's final (rejected) response is shown below for reference. \
         Consider adjusting your next message to avoid the same issue.\n\n---\n{}"
    );
}

#[test]
fn context_lists_respect_budget_and_keep_preserved() {
    let preserved = vec![cand("MEM_A", "a", "0123456789"), cand("MEM_B", "b", "0123456789"), cand("MEM_C", "c", "")];
    let chunks = vec![cand("USR_T1_001_x", "first", "abcde"), cand("USR_T1_002_x", "second", "")];
    let prefetched = vec![
        cand("RESP_T0_001_x", "old resp", "xyz"),
        cand("MEM_A", "dup", "0123456789"),
        cand("WF_X", "workflow", "long text"),
        cand("WF_X", "again", ""),
    ];
    let lists = assemble_context(&preserved, &chunks, &prefetched, 18);
    assert_eq!(lists.long_tokens, vec![pair("MEM_A", "0123456789"), pair("USR_T1_001_x", "abcde"), pair("RESP_T0_001_x", "xyz")]);
    assert_eq!(lists.short_tokens, vec![pair("MEM_B", "b"), pair("MEM_C", "c"), pair("WF_X", "workflow")]);
    assert_eq!(lists.remaining_budget, 0);
    let lists = assemble_context(&vec![], &chunks, &vec![], 0);
    assert_eq!(lists.short_tokens, vec![pair("USR_T1_001_x", "USR_T1_001_x")]);
    assert_eq!(lists.remaining_budget, 1);
}

#[test]
fn user_request_gets_chunk_bookmarks() {
    assert_eq!(user_request_with_bookmarks("One.\n\nTwo."), "§^chunk_0§^One.\n§^chunk_1§^Two.");
    assert_eq!(user_request_with_bookmarks("   "), "   ");
}

#[test]
fn recent_source_chunks_by_turn() {
    assert!(is_recent_source_chunk("USR_T5_001_abcd", 5));
    assert!(is_recent_source_chunk("RESP_T2_003_abcd", 5));
    assert!(!is_recent_source_chunk("RESP_T1_003_abcd", 5));
    assert!(is_recent_source_chunk("USR_T1_001_abcd", 2));
    assert!(!is_recent_source_chunk("USR_T0_001_abcd", 2));
    assert!(!is_recent_source_chunk("MEM_T5_001", 5));
    assert!(!is_recent_source_chunk("USR_Tx_001", 5));
}

#[test]
fn phase2_token_takes_span_type_and_text() {
    let spans = vec![pair("REF_A", "span text")];
    let t = NewTokenSpec {
        id: "REF_A".to_string(),
        token_type: "concept".to_string(),
        short_desc: "s".to_string(),
        full_desc: None,
        endpoint: None,
        ranges: vec![],
    };
    let p = prepare_phase2_token(t.clone(), &spans);
    assert_eq!(p.token_type, "referential");
    assert_eq!(p.full_desc.as_deref(), Some("span text"));
    let mut t2 = t.clone();
    t2.id = "OTHER".to_string();
    t2.full_desc = Some("own".to_string());
    let p2 = prepare_phase2_token(t2, &spans);
    assert_eq!(p2.token_type, "concept");
    assert_eq!(p2.full_desc.as_deref(), Some("own"));
}

#[test]
fn phase2_bookkeeping_texts() {
    let rel = Relationship { subject: "a_span".into(), predicate: "References".into(), object: "USR_T1".into() };
    assert_eq!(invalid_relationship_line(&rel, false, true), "a_span|References|USR_T1 (subject 'a_span' unknown)");
    assert_eq!(
        invalid_relationship_line(&rel, false, false),
        "a_span|References|USR_T1 (subject 'a_span' unknown, object 'USR_T1' unknown)"
    );
    assert_eq!(clean_preserve_id("  §#§# KEEP_ME "), "KEEP_ME");
    assert_eq!(clean_preserve_id("§#"), "");
    assert_eq!(
        merge_preserve_list(&strings(&["MEM_A", "USR_T1_001_x"]), &strings(&["USR_T1_001_x", "RESP_T1_001_x", "MEM_B", "USR_T2_001_x"])),
        strings(&["MEM_A", "USR_T1_001_x", "RESP_T1_001_x", "USR_T2_001_x"])
    );
}

#[test]
fn phase2_retry_message_lists_problems() {
    let invalid = vec![
        "a_span|References|USR_T1 (subject 'a_span' unknown)".to_string(),
        "X|p|Y|q|Z (subject 'X' unknown)".to_string(),
    ];
    let names = span_name_ids(&invalid);
    assert_eq!(names, strings(&["a_span"]));
    let m = phase2_retry_message(3, &strings(&["REF_A: bad"]), 1, &invalid, &names, 0, &strings(&["NOPE"])).unwrap();
    let parts: Vec<&str> = m.split("\n\n").collect();
    assert_eq!(parts[0], "Saved: 2 tokens, 1 relationships, 0 preserve entries. Do NOT re-submit these — only fix the issues below.");
    assert_eq!(parts[1], "Range specs to fix (tokens stored without ranges): REF_A: bad");
    assert!(parts[2].starts_with("Hint: chunk_0 alone = full chunk."));
    assert!(parts[3].starts_with("Invalid relationships to fix (2 total): a_span|"));
    assert!(parts[4].starts_with("IMPORTANT: these names are §^ SPAN MARKERS, not token IDs: a_span. Spans"));
    assert!(parts[5].starts_with("Warning: some relationship lines"));
    assert_eq!(parts[6], "Invalid preserve entries: NOPE. Remove them from §#preserve or define them first.");
    assert_eq!(parts.len(), 7);
    assert!(phase2_retry_message(3, &vec![], 2, &vec![], &vec![], 1, &vec![]).is_none());
}

#[test]
fn a_committed_phase1_response_moves_the_turn_to_phase2() {
    let mut state = SquireTurnState::new();
    state.user_request_text = "§^chunk_0§^hello".to_string();
    assert_eq!(state.reject("bad".to_string(), "why".to_string()), TurnOutcome::Retry);
    let outcome = state.phase1_committed("The answer".to_string());
    assert_eq!(
        outcome,
        TurnOutcome::Phase2 { phase1_content: "The answer".to_string(), user_request: "§^chunk_0§^hello".to_string() }
    );
    assert_eq!(state.retry_count, 0);
}
