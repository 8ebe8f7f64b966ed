use squire::finalize::{
    commit_phase1, commit_phase2, finalize_phase1_store, ingest_response_chunks, ingest_user_input_chunks,
    reject_and_record, session_tag,
};
use squire::memory::InMemorySquireStore;
use squire::turn::{SquireTurnState, TurnOutcome};
use squire::types::{NewTokenSpec, Relationship};

fn token(id: &str, ty: &str, short: &str) -> NewTokenSpec {
    NewTokenSpec {
        id: id.to_string(),
        token_type: ty.to_string(),
        short_desc: short.to_string(),
        full_desc: None,
        endpoint: None,
        ranges: vec![],
    }
}

fn hits(store: &InMemorySquireStore, id: &str) -> u64 {
    store.explore_direct("all", "", 0).into_iter().find(|b| b.token_id == id).unwrap().accumulated_hits
}

#[test]
fn session_tag_is_short_only_when_nothing_else_is_lost() {
    assert_eq!(session_tag(0), "00000000");
    assert_eq!(session_tag(0xabcdef01_0000_0000_0000_000000000000), "abcdef01");
    assert_eq!(session_tag(0x936da01f_9abd_4d9d_80c7_02af85c822a8), "936da01f9abd4d9d80c702af85c822a8");
}

#[test]
fn two_sessions_sharing_leading_digits_get_different_chunk_ids() {
    let mut store = InMemorySquireStore::new();
    let a = 0x936da01f_0000_0000_0000_000000000001u128;
    let b = 0x936da01f_0000_0000_0000_000000000002u128;
    let ids_a = ingest_user_input_chunks("Same text.", 1, &mut store, a);
    let ids_b = ingest_user_input_chunks("Same text.", 1, &mut store, b);
    assert_eq!(ids_a, vec!["USR_T1_001_936da01f000000000000000000000001".to_string()]);
    assert!(ids_a.iter().all(|x| !ids_b.contains(x)));
}

#[test]
fn ingest_user_input_chunks_writes_one_token_per_chunk_with_expected_id_scheme() {
    let mut store = InMemorySquireStore::new();
    let ids = ingest_user_input_chunks("First paragraph.\n\nSecond paragraph.", 3, &mut store, 0);
    assert_eq!(ids, vec!["USR_T3_001_00000000".to_string(), "USR_T3_002_00000000".to_string()]);
    assert!(store.token_exists("USR_T3_001_00000000"));
    assert!(store.token_exists("USR_T3_002_00000000"));
    assert!(!store.token_exists("USR_T3_003_00000000"));
    let d1 = store.token_detail("USR_T3_001_00000000").unwrap();
    assert_eq!(d1.short_desc, "First paragraph.");
    assert_eq!(d1.full_desc, Some("§^chunk_0§^First paragraph.".to_string()));
    let d2 = store.token_detail("USR_T3_002_00000000").unwrap();
    assert_eq!(d2.short_desc, "Second paragraph.");
    assert_eq!(d2.full_desc, Some("§^chunk_1§^Second paragraph.".to_string()));
}

#[test]
fn ingest_user_input_chunks_uses_system_referential_type_discoverable_via_explore() {
    let mut store = InMemorySquireStore::new();
    ingest_user_input_chunks("Some chat message content.", 1, &mut store, 0);
    let results = store.explore_direct("system_referential", "chat message", 0);
    assert_eq!(results.len(), 1);
    assert_eq!(results[0].token_id, "USR_T1_001_00000000");
    assert_eq!(results[0].token_type, "system_referential");
    let via_all = store.explore_direct("all", "", 0);
    assert!(via_all.iter().any(|t| t.token_id == "USR_T1_001_00000000"));
}

#[test]
fn explore_memory_alias_includes_system_referential_tokens() {
    let mut store = InMemorySquireStore::new();
    ingest_user_input_chunks("Some chat message content.", 1, &mut store, 0);
    let via_memory = store.explore_direct("memory", "chat message", 0);
    assert!(via_memory.iter().any(|t| t.token_id == "USR_T1_001_00000000"));
}

#[test]
fn ingest_user_input_chunks_sequence_resets_per_turn() {
    let mut store = InMemorySquireStore::new();
    ingest_user_input_chunks("Turn one paragraph A.\n\nTurn one paragraph B.", 1, &mut store, 0);
    ingest_user_input_chunks("Turn two single message.", 2, &mut store, 0);
    assert!(store.token_exists("USR_T1_001_00000000"));
    assert!(store.token_exists("USR_T1_002_00000000"));
    assert!(store.token_exists("USR_T2_001_00000000"));
    assert!(!store.token_exists("USR_T2_002_00000000"));
}

#[test]
fn ingest_user_input_chunks_creation_turn_matches_the_turn_argument() {
    let mut store = InMemorySquireStore::new();
    ingest_user_input_chunks("Some content here.", 5, &mut store, 0);
    assert_eq!(hits(&store, "USR_T5_001_00000000"), 1);
}

#[test]
fn ingest_user_input_chunks_empty_text_writes_no_tokens() {
    let mut store = InMemorySquireStore::new();
    let ids = ingest_user_input_chunks("   ", 1, &mut store, 0);
    assert!(ids.is_empty());
    assert!(store.explore_direct("system_referential", "", 0).is_empty());
}

#[test]
fn ingest_user_input_chunks_does_not_write_relationships() {
    let mut store = InMemorySquireStore::new();
    ingest_user_input_chunks("Some content.\n\nMore content.", 1, &mut store, 0);
    assert!(store.get_relationships(None, None, None).is_empty());
}

#[test]
fn response_chunks_use_the_resp_prefix_and_session() {
    let mut store = InMemorySquireStore::new();
    ingest_response_chunks("Answer text.", 4, &mut store, 0xabcdef01_0000_0000_0000_000000000000);
    assert!(store.token_exists("RESP_T4_001_abcdef01"));
}

#[test]
fn phase1_credits_a_hit_for_a_preexisting_token_cited_via_sigil() {
    let mut store = InMemorySquireStore::new();
    store.upsert_token(token("WF_Existing", "workflow", "an existing workflow"), 0, 0);
    let baseline = hits(&store, "WF_Existing");
    let r = finalize_phase1_store(&mut store, 7, "The best approach follows §!WF_Existing which starts there.");
    assert_eq!(r, Ok(0));
    assert_eq!(hits(&store, "WF_Existing"), baseline + 1);
}

#[test]
fn phase1_credits_exactly_one_hit_for_repeated_citations_of_the_same_token() {
    let mut store = InMemorySquireStore::new();
    store.upsert_token(token("CONCEPT_Repeated", "concept", "cited twice"), 0, 0);
    let baseline = hits(&store, "CONCEPT_Repeated");
    commit_phase1(&mut store, 7, "First mention §!CONCEPT_Repeated and second mention §!CONCEPT_Repeated too.");
    assert_eq!(hits(&store, "CONCEPT_Repeated"), baseline + 1);
}

#[test]
fn phase1_persists_unmarked_text_to_raw_partition() {
    let mut store = InMemorySquireStore::new();
    let turn = commit_phase1(&mut store, 9, "Sure thing. §^TRT_Answer The answer is 42 §^ Hope that helps.");
    assert_eq!(turn, 0);
    let records = store.raw_partition_records();
    assert_eq!(records.len(), 1);
    assert_eq!(records[0].session_id, 9);
    assert_eq!(records[0].content, "Sure thing. Hope that helps.");
    assert!(!records[0].content.contains("The answer is 42"));
    assert_eq!(store.current_turn(9), 1);
}

#[test]
fn phase1_writes_nothing_to_raw_partition_when_response_is_fully_spanned() {
    let mut store = InMemorySquireStore::new();
    commit_phase1(&mut store, 9, "§^TRT_Answer The entire response is one span §^");
    assert!(store.raw_partition_records().is_empty());
}

#[test]
fn phase1_rejection_changes_nothing() {
    let mut store = InMemorySquireStore::new();
    let r = finalize_phase1_store(&mut store, 9, "See §!CONCEPT_Ghost");
    assert_eq!(r, Err("undisplayable token §!CONCEPT_Ghost".to_string()));
    assert!(store.raw_partition_records().is_empty());
    assert_eq!(store.current_turn(9), 0);
}

#[test]
fn phase1_raw_partition_records_carry_the_current_turn_number() {
    let mut store = InMemorySquireStore::new();
    commit_phase1(&mut store, 3, "first turn unmarked prose");
    commit_phase1(&mut store, 3, "second turn unmarked prose");
    let records = store.raw_partition_records();
    assert_eq!(records.len(), 2);
    assert_eq!((records[0].turn, records[0].content.as_str()), (0, "first turn unmarked prose"));
    assert_eq!((records[1].turn, records[1].content.as_str()), (1, "second turn unmarked prose"));
}

#[test]
fn rejections_record_structured_failure_metadata_on_final_failure() {
    let mut store = InMemorySquireStore::new();
    let mut state = SquireTurnState::new();
    for _ in 0..3 {
        let out = reject_and_record(&mut state, &mut store, 5, "See §!CONCEPT_Ghost".to_string(), "undisplayable token §!CONCEPT_Ghost".to_string());
        assert_eq!(out, TurnOutcome::Retry);
    }
    assert!(store.compliance_failures().is_empty());
    let out = reject_and_record(&mut state, &mut store, 5, "See §!CONCEPT_Ghost".to_string(), "undisplayable token §!CONCEPT_Ghost".to_string());
    assert!(matches!(out, TurnOutcome::Failed { .. }));
    let failures = store.compliance_failures();
    assert_eq!(failures.len(), 1);
    assert_eq!(failures[0].session_id, 5);
    assert_eq!(failures[0].rule, "undisplayable_token");
    assert!(failures[0].reason.contains("undisplayable token"));
    assert_eq!(failures[0].retry_count, 4);
    assert_eq!(failures[0].failed_content, "See §!CONCEPT_Ghost");
}

#[test]
fn phase2_stores_tokens_and_sorts_relationships_and_preserve_entries() {
    let mut store = InMemorySquireStore::new();
    store.upsert_token(token("CONCEPT_Old", "concept", "old"), 0, 0);
    store.upsert_token(token("USR_T0_001_00000000", "system_referential", "chunk"), 0, 0);
    let spans = vec![("TRT_Span".to_string(), "spanned text".to_string())];
    let rels = vec![
        Relationship { subject: "TRT_Span".to_string(), predicate: "about".to_string(), object: "CONCEPT_Old".to_string() },
        Relationship { subject: "ghost".to_string(), predicate: "p".to_string(), object: "CONCEPT_Old".to_string() },
    ];
    let preserve = vec![" §#CONCEPT_Old ".to_string(), "Nope".to_string(), "  ".to_string()];
    let report = commit_phase2(&mut store, 2, vec![token("TRT_Span", "concept", "a span")], &spans, &rels, &preserve);
    assert_eq!(report.turn, 0);
    assert_eq!(store.get_type("TRT_Span").as_deref(), Some("referential"));
    assert_eq!(store.token_detail("TRT_Span").unwrap().full_desc.as_deref(), Some("spanned text"));
    assert_eq!(report.valid_rels, vec![rels[0].clone()]);
    assert_eq!(report.invalid_rels, vec!["ghost|p|CONCEPT_Old (subject 'ghost' unknown)".to_string()]);
    assert_eq!(report.valid_preserve, vec!["CONCEPT_Old".to_string()]);
    assert_eq!(report.invalid_preserve, vec!["Nope".to_string()]);
    assert_eq!(store.get_relationships(None, None, None), vec![rels[0].clone()]);
    store.set_preserve_list(99, vec![]);
    let listed: Vec<String> = store.preserved_tokens(2).into_iter().map(|b| b.token_id).collect();
    assert_eq!(listed, vec!["CONCEPT_Old".to_string(), "USR_T0_001_00000000".to_string()]);
    assert_eq!(store.current_turn(2), 1);
}
