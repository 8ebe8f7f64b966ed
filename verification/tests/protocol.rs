use squire::protocol::{
    check_malformed_sigils, extract_bare_bookmarks, extract_inline_refs, extract_span_refs,
    extract_spans, strip_span_markers, take_token_id, unmarked_residual,
};
use squire::types::{NewTokenSpec, Relationship, SquireResponse};
use squire::validation::{classify_rejection_rule, validate_squire_response};

fn token(id: &str, ty: &str, short: &str) -> NewTokenSpec {
    NewTokenSpec {
        id: id.to_string(),
        token_type: ty.to_string(),
        short_desc: short.to_string(),
        full_desc: None,
        endpoint: None,
        ranges: vec![],
    }
}

#[test]
fn extract_inline_refs_finds_ids_terminated_by_whitespace_or_sigil() {
    let refs = extract_inline_refs("See §!WF_Chat and §!CONCEPT_Fish§!TOOL_X done");
    assert_eq!(refs, vec!["WF_Chat", "CONCEPT_Fish", "TOOL_X"]);
}

#[test]
fn extract_spans_captures_closed_span_and_flags_unclosed() {
    let (spans, unclosed) = extract_spans("intro §^TRT_A hello world §^ outro §^TRT_B dangling");
    assert_eq!(spans, vec![("TRT_A".to_string(), "hello world".to_string())]);
    assert_eq!(unclosed, Some("TRT_B".to_string()));
}

#[test]
fn strip_span_markers_leaves_clean_text() {
    let out = strip_span_markers("before §^TRT_A inner text §^ after");
    assert_eq!(out, "before inner text after");
}

#[test]
fn unmarked_residual_returns_whole_content_when_no_spans_present() {
    let out = unmarked_residual("just plain prose with §!WF_Chat an inline ref");
    assert_eq!(out, "just plain prose with §!WF_Chat an inline ref");
}

#[test]
fn unmarked_residual_excludes_closed_span_body_keeps_surrounding_text() {
    let out = unmarked_residual("before §^TRT_A inner text that becomes a token §^ after");
    assert_eq!(out, "before after");
}

#[test]
fn unmarked_residual_is_empty_when_entire_content_is_one_span() {
    let out = unmarked_residual("§^TRT_A the whole response is one span §^");
    assert_eq!(out, "");
}

#[test]
fn unmarked_residual_handles_multiple_spans_keeping_all_gaps() {
    let out = unmarked_residual(
        "lead-in §^TRT_A span one §^ middle §^TRT_B span two §^ trailing",
    );
    assert_eq!(out, "lead-in middle trailing");
}

#[test]
fn unmarked_residual_preserves_inline_refs_outside_spans() {
    let out = unmarked_residual("See §!CONCEPT_Fish for details. §^TRT_A spot info §^ Done.");
    assert_eq!(out, "See §!CONCEPT_Fish for details. Done.");
}

#[test]
fn unmarked_residual_of_empty_content_is_empty() {
    assert_eq!(unmarked_residual(""), "");
}

#[test]
fn validate_rejects_ask_user_and_content_together() {
    let resp = SquireResponse {
        ask_user: "question?".to_string(),
        content: "answer".to_string(),
        ..Default::default()
    };
    let err = validate_squire_response(&resp, |_| false).unwrap_err();
    assert_eq!(err.reason, "ask_user and content cannot coexist");
}

#[test]
fn validate_allows_ask_user_alone() {
    let resp = SquireResponse { ask_user: "question?".to_string(), ..Default::default() };
    assert!(validate_squire_response(&resp, |_| false).is_ok());
}

#[test]
fn validate_rejects_empty_close_response() {
    let resp = SquireResponse::default();
    let err = validate_squire_response(&resp, |_| false).unwrap_err();
    assert_eq!(err.reason, "empty close response");
}

#[test]
fn validate_rejects_preserve_with_unknown_token() {
    let resp = SquireResponse { preserve: vec!["CONCEPT_X".to_string()], ..Default::default() };
    let err = validate_squire_response(&resp, |_| false).unwrap_err();
    assert_eq!(err.reason, "preserved token does not exist: CONCEPT_X");
}

#[test]
fn validate_allows_preserve_known_to_store() {
    let resp = SquireResponse { preserve: vec!["CONCEPT_X".to_string()], ..Default::default() };
    assert!(validate_squire_response(&resp, |id| id == "CONCEPT_X").is_ok());
}

#[test]
fn validate_allows_preserve_defined_in_new_tokens() {
    let resp = SquireResponse {
        preserve: vec!["CONCEPT_New".to_string()],
        new_tokens: vec![token("CONCEPT_New", "concept", "new")],
        ..Default::default()
    };
    assert!(validate_squire_response(&resp, |_| false).is_ok());
}

#[test]
fn validate_rejects_undisplayable_token_reference() {
    let resp = SquireResponse { content: "See §!CONCEPT_Missing".to_string(), ..Default::default() };
    let err = validate_squire_response(&resp, |_| false).unwrap_err();
    assert_eq!(err.reason, "undisplayable token §!CONCEPT_Missing");
}

#[test]
fn validate_allows_inline_ref_defined_in_new_tokens() {
    let resp = SquireResponse {
        content: "See §!CONCEPT_New".to_string(),
        new_tokens: vec![token("CONCEPT_New", "concept", "new concept")],
        ..Default::default()
    };
    assert!(validate_squire_response(&resp, |_| false).is_ok());
}

#[test]
fn validate_allows_inline_ref_known_to_store() {
    let resp = SquireResponse { content: "See §!CONCEPT_Old".to_string(), ..Default::default() };
    assert!(validate_squire_response(&resp, |id| id == "CONCEPT_Old").is_ok());
}

#[test]
fn validate_rejects_unclosed_span() {
    let resp = SquireResponse { content: "§^TRT_A never closed".to_string(), ..Default::default() };
    let err = validate_squire_response(&resp, |_| false).unwrap_err();
    assert_eq!(err.reason, "unclosed §^ span TRT_A");
}

#[test]
fn validate_rejects_undisplayable_span_reference() {
    let resp = SquireResponse { content: "§^TRT_Ghost some text §^".to_string(), ..Default::default() };
    let err = validate_squire_response(&resp, |_| false).unwrap_err();
    assert_eq!(err.reason, "undisplayable span reference §^TRT_Ghost");
}

#[test]
fn validate_allows_span_ref_defined_in_new_tokens() {
    let resp = SquireResponse {
        content: "§^REF_New key content §^".to_string(),
        new_tokens: vec![token("REF_New", "referential", "new ref")],
        ..Default::default()
    };
    assert!(validate_squire_response(&resp, |_| false).is_ok());
}

#[test]
fn validate_allows_span_ref_known_to_store() {
    let resp = SquireResponse { content: "§^TRT_Old text §^".to_string(), ..Default::default() };
    assert!(validate_squire_response(&resp, |id| id == "TRT_Old").is_ok());
}

#[test]
fn validate_rejects_relationship_unknown_token() {
    let resp = SquireResponse {
        relationships: vec![Relationship {
            subject: "NONEXISTENT".to_string(),
            predicate: "respondsTo".to_string(),
            object: "ALSO_MISSING".to_string(),
        }],
        ..Default::default()
    };
    let err = validate_squire_response(&resp, |_| false).unwrap_err();
    assert_eq!(err.reason, "relationship references unknown token: NONEXISTENT");
}

#[test]
fn validate_allows_relationship_with_known_tokens() {
    let resp = SquireResponse {
        relationships: vec![Relationship {
            subject: "CONCEPT_Fish".to_string(),
            predicate: "respondsTo".to_string(),
            object: "USR_Q1".to_string(),
        }],
        ..Default::default()
    };
    assert!(validate_squire_response(&resp, |id| id == "CONCEPT_Fish" || id == "USR_Q1").is_ok());
}

#[test]
fn validate_allows_relationship_with_new_token() {
    let resp = SquireResponse {
        relationships: vec![Relationship {
            subject: "CONCEPT_Fresh".to_string(),
            predicate: "respondsTo".to_string(),
            object: "USR_Q1".to_string(),
        }],
        new_tokens: vec![token("CONCEPT_Fresh", "concept", "fresh concept")],
        ..Default::default()
    };
    assert!(validate_squire_response(&resp, |id| id == "USR_Q1").is_ok());
}

#[test]
fn validate_rejects_malformed_sigil_bare_section() {
    let resp = SquireResponse { content: "some §a bad sigil".to_string(), ..Default::default() };
    let err = validate_squire_response(&resp, |_| false).unwrap_err();
    assert!(err.reason.starts_with("malformed sigil"));
}

#[test]
fn validate_allows_valid_sigils() {
    let resp = SquireResponse {
        content: "§!CONCEPT_X and §^REF_A span text §^ and bare §^bookmark§^".to_string(),
        new_tokens: vec![
            token("REF_A", "referential", "test span"),
            token("bookmark", "referential", "bare bookmark"),
        ],
        ..Default::default()
    };
    assert!(validate_squire_response(&resp, |id| id == "CONCEPT_X").is_ok());
}

#[test]
fn classify_rejection_rule_maps_known_reasons() {
    assert_eq!(
        classify_rejection_rule("response is not valid Squire protocol JSON: eof"),
        "malformed_json"
    );
    assert_eq!(classify_rejection_rule("ask_user and content cannot coexist"), "ask_user_content_conflict");
    assert_eq!(classify_rejection_rule("empty close response"), "empty_close_response");
    assert_eq!(classify_rejection_rule("undisplayable token §!CONCEPT_Ghost"), "undisplayable_token");
    assert_eq!(classify_rejection_rule("unclosed §^ span TRT_A"), "unclosed_span");
    assert_eq!(classify_rejection_rule("non-invocable token TOOL_X"), "non_invocable_token");
    assert_eq!(
        classify_rejection_rule("undisplayable span reference §^TRT_Ghost"),
        "undisplayable_span_reference"
    );
    assert_eq!(
        classify_rejection_rule("malformed sigil: §a at position 42 — expected §!/§^/§#"),
        "malformed_sigil"
    );
    assert_eq!(classify_rejection_rule("preserved token does not exist: GHOST"), "preserve_token_unknown");
    assert_eq!(
        classify_rejection_rule("relationship references unknown token: FAKE"),
        "relationship_unknown_token"
    );
    assert_eq!(classify_rejection_rule("something new"), "other");
}

// ---- additional checks of this crate's own ----

#[test]
fn take_token_id_stops_at_non_ascii() {
    assert_eq!(take_token_id("tech_sovereignty^技术脱钩"), "tech_sovereignty");
    assert_eq!(take_token_id(""), "");
}

#[test]
fn bare_bookmarks_are_reported_with_byte_offsets() {
    let marks = extract_bare_bookmarks("ab §^one§^ x §^span body §^ §^two§^");
    assert_eq!(marks, vec![("one".to_string(), 12), ("two".to_string(), 41)]);
    assert_eq!(extract_bare_bookmarks("§^bm§^x"), vec![("bm".to_string(), 8)]);
    assert_eq!(extract_bare_bookmarks("é §^ü§^ rest"), vec![("ü".to_string(), 11)]);
}

#[test]
fn span_refs_are_sorted_and_deduplicated() {
    let refs = extract_span_refs("§^B x §^ §^A§^ §^B y §^ §^C dangling");
    assert_eq!(refs, vec!["A", "B", "C"]);
}

#[test]
fn malformed_sigil_reports_byte_position() {
    let err = check_malformed_sigils("é §x").unwrap_err();
    assert_eq!(err.reason, "malformed sigil: §x at position 3 — expected §!/§^/§#");
    let err = check_malformed_sigils("ok §").unwrap_err();
    assert_eq!(err.reason, "malformed sigil: bare § at end of content at position 3");
    assert!(check_malformed_sigils("§! §^ §#").is_ok());
}

#[test]
fn validation_asks_the_store_in_order_and_stops_at_first_unknown() {
    let asked = std::cell::RefCell::new(Vec::new());
    let resp = SquireResponse {
        content: "§!A §!B §!C".to_string(),
        ..Default::default()
    };
    let err = validate_squire_response(&resp, |id| {
        asked.borrow_mut().push(id.to_string());
        id == "A"
    })
    .unwrap_err();
    assert_eq!(err.reason, "undisplayable token §!B");
    assert_eq!(*asked.borrow(), vec!["A".to_string(), "B".to_string()]);
}

#[test]
fn inline_refs_skip_empty_ids_and_stop_at_non_id_characters() {
    let refs = extract_inline_refs("§! none §!A-1_b, then §!Ünicode and §!Z9.");
    assert_eq!(refs, vec!["A-1_b", "Z9"]);
    for r in &refs {
        assert!(!r.is_empty() && r.chars().all(|c| c.is_ascii_alphanumeric() || c == '_' || c == '-'));
    }
}
