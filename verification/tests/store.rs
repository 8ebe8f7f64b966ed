use squire::store::{
    compute_active_process_state, compute_active_process_state_within, effective_priority, ActiveProcessState,
    LastDecision,
};
use squire::types::{
    default_token_type, default_transport, default_true, McpServerConfig, NewTokenSpec, Relationship,
    ToolEndpoint,
};
use std::collections::HashMap;

fn rel(s: &str, p: &str, o: &str) -> Relationship {
    Relationship { subject: s.to_string(), predicate: p.to_string(), object: o.to_string() }
}

fn ids(v: &[&str]) -> Vec<String> {
    v.iter().map(|s| s.to_string()).collect()
}

#[test]
fn effective_priority_matches_spec_formula() {
    assert_eq!(effective_priority(0, 5, 5), 0);
    assert_eq!(effective_priority(3, 5, 2), 0);
    assert_eq!(effective_priority(5, 5, 2), 2);
    assert_eq!(effective_priority(0, 10, 2), -8);
}

#[test]
fn effective_priority_rises_with_hits_and_falls_with_age() {
    assert_eq!(effective_priority(4, 7, 7), 4);
    assert_eq!(effective_priority(4, 8, 7), 3);
    assert_eq!(effective_priority(5, 8, 7), 4);
    assert_eq!(effective_priority(0, 0, 9), 9);
}

#[test]
fn empty_store_has_no_active_process() {
    let st = compute_active_process_state(&vec![], &vec![]);
    assert_eq!(st, ActiveProcessState::default());
}

#[test]
fn open_todo_tree_reports_root_and_open_leaves() {
    let rels = vec![
        rel("TODO_root", "subtask", "TODO_a"),
        rel("TODO_root", "subtask", "TODO_b"),
        rel("TODO_b", "subtask", "TODO_b1"),
        rel("TODO_b", "subtask", "TODO_b2"),
        rel("TODO_a", "marked_done", "TRT_1"),
        rel("TODO_b2", "marked_done", "TRT_2"),
    ];
    let st = compute_active_process_state(
        &rels,
        &ids(&["CONCEPT_x", "TODO_a", "TODO_root", "TODO_b", "TODO_b1", "TODO_b2"]),
    );
    assert_eq!(st.todo_root.as_deref(), Some("TODO_root"));
    assert_eq!(st.open_leaves, vec!["TODO_b1".to_string()]);
    assert!(st.dt_root.is_none());
    assert!(st.last_decision.is_none());
}

#[test]
fn finished_todo_tree_is_not_active() {
    let rels = vec![
        rel("TODO_p", "subtask", "TODO_c"),
        rel("TODO_c", "marked_done", "TRT_1"),
        rel("TODO_q", "marked_done", "TRT_2"),
        rel("TODO_p", "marked_done", "TRT_3"),
    ];
    let st = compute_active_process_state(&rels, &ids(&["TODO_p", "TODO_c", "TODO_q", "TODO_r"]));
    // TODO_p is marked and so is its only child; TODO_q is marked; TODO_r has nothing.
    assert_eq!(st.todo_root.as_deref(), Some("TODO_r"));
    assert_eq!(st.open_leaves, vec!["TODO_r".to_string()]);
}

#[test]
fn marked_parent_with_open_subtask_is_not_done() {
    let rels = vec![rel("TODO_R", "subtask", "TODO_C"), rel("TODO_R", "marked_done", "TRT_done")];
    let st = compute_active_process_state(&rels, &ids(&["TODO_R", "TODO_C"]));
    assert_eq!(st.todo_root.as_deref(), Some("TODO_R"));
    assert_eq!(st.open_leaves, vec!["TODO_C".to_string()]);
}

#[test]
fn unmarked_parent_stays_open_after_its_subtasks_finish() {
    let rels = vec![rel("TODO_R", "subtask", "TODO_C"), rel("TODO_C", "marked_done", "TRT_1")];
    let st = compute_active_process_state(&rels, &ids(&["TODO_R", "TODO_C"]));
    assert_eq!(st.todo_root.as_deref(), Some("TODO_R"));
    assert!(st.open_leaves.is_empty());
}

#[test]
fn branch_that_resolves_its_root_closes_the_tree() {
    let rels = vec![
        rel("CONCEPT_DT_Root", "considers", "CONCEPT_DT_Opt"),
        rel("CONCEPT_DT_Root", "selects", "CONCEPT_DT_Opt"),
        rel("CONCEPT_DT_Opt", "resolves", "CONCEPT_DT_Root"),
    ];
    let st = compute_active_process_state(&rels, &ids(&["CONCEPT_DT_Root", "CONCEPT_DT_Opt"]));
    assert!(st.dt_root.is_none());
    assert!(st.last_decision.is_none());
}

#[test]
fn bounded_descent_reports_only_what_it_can_reach() {
    let rels = vec![
        rel("TODO_a", "subtask", "TODO_b"),
        rel("TODO_a", "marked_done", "TRT_1"),
        rel("TODO_b", "subtask", "TODO_c"),
        rel("TODO_b", "marked_done", "TRT_2"),
    ];
    let all = ids(&["TODO_a", "TODO_b", "TODO_c"]);
    assert_eq!(compute_active_process_state_within(&rels, &all, 0), None);
    let st = compute_active_process_state_within(&rels, &all, 2).unwrap();
    assert_eq!(st, compute_active_process_state(&rels, &all));
    assert_eq!(st.todo_root.as_deref(), Some("TODO_a"));
    assert_eq!(st.open_leaves, vec!["TODO_c".to_string()]);
    let cyclic = vec![
        rel("CONCEPT_DT_r", "selects", "CONCEPT_DT_x"),
        rel("CONCEPT_DT_x", "selects", "CONCEPT_DT_y"),
        rel("CONCEPT_DT_y", "selects", "CONCEPT_DT_x"),
    ];
    assert_eq!(compute_active_process_state_within(&cyclic, &ids(&["CONCEPT_DT_r"]), 10), None);
}

#[test]
fn decision_tree_reports_deepest_selected_node() {
    let rels = vec![
        rel("CONCEPT_DT_root", "considers", "CONCEPT_DT_opt1"),
        rel("CONCEPT_DT_root", "selects", "CONCEPT_DT_opt2"),
        rel("CONCEPT_DT_opt2", "selects", "CONCEPT_DT_leaf"),
        rel("CONCEPT_DT_leaf", "drivenBy", "CONCEPT_Assumption_fast"),
        rel("CONCEPT_DT_leaf", "invalidatedBy", "CONCEPT_Evidence_1"),
    ];
    let st = compute_active_process_state(
        &rels,
        &ids(&["CONCEPT_DT_opt1", "CONCEPT_DT_root", "CONCEPT_DT_opt2", "CONCEPT_DT_leaf"]),
    );
    assert_eq!(st.dt_root.as_deref(), Some("CONCEPT_DT_root"));
    assert_eq!(
        st.last_decision,
        Some(LastDecision {
            node: "CONCEPT_DT_leaf".to_string(),
            assumption: "CONCEPT_Assumption_fast".to_string(),
            status: "invalidated".to_string(),
        })
    );
}

#[test]
fn resolved_decision_tree_is_skipped() {
    let rels = vec![
        rel("CONCEPT_DT_a", "considers", "CONCEPT_DT_a1"),
        rel("CONCEPT_DT_a1", "resolves", "CONCEPT_DT_a"),
        rel("CONCEPT_DT_b", "confirmedBy", "CONCEPT_Evidence_2"),
    ];
    let st = compute_active_process_state(
        &rels,
        &ids(&["CONCEPT_DT_a", "CONCEPT_DT_a1", "CONCEPT_DT_b"]),
    );
    assert_eq!(st.dt_root.as_deref(), Some("CONCEPT_DT_b"));
    let d = st.last_decision.unwrap();
    assert_eq!(d.node, "CONCEPT_DT_b");
    assert_eq!(d.assumption, "");
    assert_eq!(d.status, "confirmed");
    let st = compute_active_process_state(&vec![], &ids(&["CONCEPT_DT_c"]));
    assert_eq!(st.last_decision.unwrap().status, "under_consideration");
}

#[test]
fn token_defaults_and_invocability() {
    assert_eq!(default_transport(), "stdio");
    assert!(default_true());
    assert_eq!(default_token_type(), "concept");
    let mut t = NewTokenSpec {
        id: "T".to_string(),
        token_type: default_token_type(),
        short_desc: "d".to_string(),
        full_desc: None,
        endpoint: None,
        ranges: vec![],
    };
    assert!(!t.is_invocable());
    t.endpoint = Some(ToolEndpoint::Mcp {
        server: McpServerConfig {
            id: "s".to_string(),
            name: "S".to_string(),
            transport: default_transport(),
            command: "srv".to_string(),
            args: vec![],
            url: None,
            enabled: default_true(),
            env: HashMap::new(),
            headers: HashMap::new(),
        },
        remote_name: "tool".to_string(),
    });
    assert!(t.is_invocable());
}
