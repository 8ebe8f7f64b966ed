use squire::decision::{
    abandon_target, dt_children, dt_done_message, dt_node_status, dt_tree_entries, evidence_id,
    find_dt_root, parse_dt_operation, required_title, select_parent, slug_candidate, slugify,
    DtOperation, DtTreeEntry,
};
use squire::types::Relationship;

fn rel(s: &str, p: &str, o: &str) -> Relationship {
    Relationship { subject: s.to_string(), predicate: p.to_string(), object: o.to_string() }
}

fn tree() -> Vec<Relationship> {
    vec![
        rel("CONCEPT_DT_db", "considers", "CONCEPT_DT_pg"),
        rel("CONCEPT_DT_db", "considers", "CONCEPT_DT_sqlite"),
        rel("CONCEPT_DT_db", "selects", "CONCEPT_DT_pg"),
        rel("CONCEPT_DT_pg", "considers", "CONCEPT_DT_pg14"),
        rel("CONCEPT_DT_sqlite", "invalidatedBy", "TRT_evidence_x"),
        rel("CONCEPT_DT_pg14", "resolves", "CONCEPT_DT_db"),
    ]
}

#[test]
fn slugify_keeps_ascii_words() {
    assert_eq!(slugify("Use Postgres 14!"), "Use_Postgres_14");
    assert_eq!(slugify("  -- a-b_c  "), "--_a-b_c");
    assert_eq!(slugify("___"), "untitled");
    assert_eq!(slugify("élan"), "lan");
    assert_eq!(slugify(""), "untitled");
}

#[test]
fn slug_candidates_number_from_two() {
    assert_eq!(slug_candidate("CONCEPT_DT_", "Pick DB", 1), "CONCEPT_DT_Pick_DB");
    assert_eq!(slug_candidate("CONCEPT_DT_", "Pick DB", 2), "CONCEPT_DT_Pick_DB-2");
    assert_eq!(slug_candidate("CONCEPT_Assumption_", "fast", 12), "CONCEPT_Assumption_fast-12");
}

#[test]
fn children_parents_and_roots() {
    let r = tree();
    assert_eq!(dt_children("CONCEPT_DT_db", &r), vec!["CONCEPT_DT_pg", "CONCEPT_DT_sqlite", "CONCEPT_DT_pg"]);
    assert_eq!(find_dt_root("CONCEPT_DT_pg14", &r), "CONCEPT_DT_db");
    assert_eq!(find_dt_root("CONCEPT_DT_db", &r), "CONCEPT_DT_db");
    assert_eq!(select_parent("CONCEPT_DT_sqlite", &r), "CONCEPT_DT_db");
    assert_eq!(select_parent("CONCEPT_DT_new", &r), "CONCEPT_DT_new");
}

#[test]
fn statuses_and_tree_listing() {
    let r = tree();
    assert_eq!(dt_node_status("CONCEPT_DT_db", &r), "active");
    assert_eq!(dt_node_status("CONCEPT_DT_sqlite", &r), "invalidated");
    assert_eq!(dt_node_status("CONCEPT_DT_pg14", &r), "resolved");
    assert_eq!(dt_node_status("CONCEPT_DT_pg", &r), "considered");
    let e = dt_tree_entries("CONCEPT_DT_db", &r);
    let view: Vec<(&str, &str, usize)> = e.iter().map(|x: &DtTreeEntry| (x.id.as_str(), x.status.as_str(), x.depth)).collect();
    assert_eq!(
        view,
        vec![
            ("CONCEPT_DT_db", "active", 0),
            ("CONCEPT_DT_pg", "considered", 1),
            ("CONCEPT_DT_pg14", "resolved", 2),
            ("CONCEPT_DT_sqlite", "invalidated", 1),
            ("CONCEPT_DT_pg", "considered", 1),
            ("CONCEPT_DT_pg14", "resolved", 2),
        ]
    );
}

#[test]
fn operation_arguments_and_messages() {
    assert_eq!(parse_dt_operation(Some("select")), Ok(DtOperation::Select));
    assert_eq!(parse_dt_operation(None), Err("Missing required argument: operation".to_string()));
    assert_eq!(
        parse_dt_operation(Some("merge")),
        Err("Unknown operation: merge. Use create_decision, consider, select, confirm, invalidate, abandon, resolve, list, or get.".to_string())
    );
    assert_eq!(required_title(Some("  Pick DB ")), Ok("Pick DB".to_string()));
    assert_eq!(required_title(Some("   ")), Err("Title cannot be empty".to_string()));
    assert_eq!(required_title(None), Err("Missing required argument: title".to_string()));
    assert_eq!(
        dt_done_message(DtOperation::CreateDecision, "CONCEPT_DT_Pick_DB", "Pick DB", ""),
        "Created decision: Pick DB (id: CONCEPT_DT_Pick_DB)"
    );
    assert_eq!(
        dt_done_message(DtOperation::Consider, "CONCEPT_DT_pg", "Postgres", "CONCEPT_DT_db"),
        "Added option under 'CONCEPT_DT_db': Postgres (id: CONCEPT_DT_pg)"
    );
    assert_eq!(dt_done_message(DtOperation::Resolve, "B", "", "A"), "Resolved decision: A → B");
    assert_eq!(evidence_id("benchmarks passed"), "TRT_evidence_benchmarks_passed");
    assert_eq!(abandon_target("CONCEPT_DT_x", ""), "TRT_abandoned_CONCEPT_DT_x");
    assert_eq!(abandon_target("CONCEPT_DT_x", "too slow"), "CONCEPT_Assumption_too_slow");
}

#[test]
fn bounded_tree_walks_stop_on_cycles() {
    let rels = tree();
    let full = dt_tree_entries("CONCEPT_DT_db", &rels);
    assert_eq!(squire::decision::dt_tree_entries_within("CONCEPT_DT_db", &rels, 10), Some(full));
    assert_eq!(squire::decision::dt_tree_entries_within("CONCEPT_DT_db", &rels, 1), None);
    let mut cyclic = tree();
    cyclic.push(rel("CONCEPT_DT_pg14", "considers", "CONCEPT_DT_db"));
    assert_eq!(squire::decision::dt_tree_entries_within("CONCEPT_DT_db", &cyclic, 50), None);
    assert_eq!(
        squire::decision::find_dt_root_within("CONCEPT_DT_pg14", &rels, 5),
        Some("CONCEPT_DT_db".to_string())
    );
    assert_eq!(squire::decision::find_dt_root_within("CONCEPT_DT_pg14", &rels, 1), None);
    assert_eq!(squire::decision::find_dt_root_within("CONCEPT_DT_pg14", &cyclic, 50), None);
}

#[test]
fn dt_roots_are_decisions_without_a_parent() {
    let ids: Vec<String> = vec!["CONCEPT_DT_pg", "CONCEPT_DT_db", "TODO_x", "CONCEPT_DT_other", "CONCEPT_DT_pg14"]
        .into_iter()
        .map(String::from)
        .collect();
    assert_eq!(squire::decision::dt_roots(&ids, &tree()), vec!["CONCEPT_DT_db", "CONCEPT_DT_other"]);
}
