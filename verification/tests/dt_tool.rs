use squire::dt_tool::{
    op_abandon, op_confirm, op_consider, op_create_decision, op_invalidate, op_resolve, op_select, unique_slug,
};
use squire::memory::InMemorySquireStore;
use squire::types::{NewTokenSpec, Relationship};

fn rel(s: &str, p: &str, o: &str) -> Relationship {
    Relationship { subject: s.to_string(), predicate: p.to_string(), object: o.to_string() }
}

fn concept(id: &str) -> NewTokenSpec {
    NewTokenSpec {
        id: id.to_string(),
        token_type: "decision".to_string(),
        short_desc: id.to_string(),
        full_desc: None,
        endpoint: None,
        ranges: vec![],
    }
}

#[test]
fn create_decision_picks_a_fresh_slug() {
    let mut store = InMemorySquireStore::new();
    let r = op_create_decision(&mut store, 1, "c1", Some("  Pick DB "));
    assert!(!r.is_error);
    assert_eq!(r.output, "Created decision: Pick DB (id: CONCEPT_DT_Pick_DB)");
    assert_eq!(store.get_type("CONCEPT_DT_Pick_DB").as_deref(), Some("decision"));
    assert_eq!(store.token_detail("CONCEPT_DT_Pick_DB").unwrap().short_desc, "Pick DB");
    let r2 = op_create_decision(&mut store, 1, "c2", Some("Pick DB"));
    assert_eq!(r2.output, "Created decision: Pick DB (id: CONCEPT_DT_Pick_DB-2)");
    assert_eq!(unique_slug(&store, "CONCEPT_DT_", "Pick DB"), "CONCEPT_DT_Pick_DB-3");
}

#[test]
fn create_decision_reports_missing_or_blank_titles() {
    let mut store = InMemorySquireStore::new();
    let r = op_create_decision(&mut store, 1, "c", None);
    assert!(r.is_error);
    assert_eq!(r.output, "Missing required argument: title");
    let r = op_create_decision(&mut store, 1, "c", Some("   "));
    assert_eq!(r.output, "Title cannot be empty");
    assert!(store.list_token_ids().is_empty());
}

#[test]
fn consider_links_the_option_to_its_parent() {
    let mut store = InMemorySquireStore::new();
    op_create_decision(&mut store, 1, "c", Some("db"));
    let r = op_consider(&mut store, 1, "c", Some("CONCEPT_DT_db"), Some("postgres"));
    assert_eq!(r.output, "Added option under 'CONCEPT_DT_db': postgres (id: CONCEPT_DT_postgres)");
    assert_eq!(store.get_relationships(None, None, None), vec![rel("CONCEPT_DT_db", "considers", "CONCEPT_DT_postgres")]);
    let r = op_consider(&mut store, 1, "c", None, Some("x"));
    assert_eq!(r.output, "Missing required argument: parent_id");
    assert!(r.is_error);
}

#[test]
fn select_links_parent_and_assumption() {
    let mut store = InMemorySquireStore::new();
    store.upsert_token(concept("CONCEPT_DT_db"), 0, 0);
    store.upsert_token(concept("CONCEPT_DT_pg"), 0, 0);
    store.insert_relationship(rel("CONCEPT_DT_db", "considers", "CONCEPT_DT_pg"));
    let r = op_select(&mut store, 2, "c", Some("CONCEPT_DT_pg"), Some(" it is fast "));
    assert_eq!(r.output, "Selected option: CONCEPT_DT_pg");
    let rels = store.get_relationships(None, None, None);
    assert_eq!(rels[1], rel("CONCEPT_DT_db", "selects", "CONCEPT_DT_pg"));
    assert_eq!(rels[2], rel("CONCEPT_DT_pg", "drivenBy", "CONCEPT_Assumption_it_is_fast"));
    assert_eq!(store.get_type("CONCEPT_Assumption_it_is_fast").as_deref(), Some("assumption"));
    let r = op_select(&mut store, 2, "c", Some("CONCEPT_DT_lonely"), None);
    assert!(!r.is_error);
    assert_eq!(store.get_relationships(None, None, None).last().unwrap(), &rel("CONCEPT_DT_lonely", "selects", "CONCEPT_DT_lonely"));
    assert_eq!(op_select(&mut store, 2, "c", None, None).output, "Missing required argument: id");
}

#[test]
fn evidence_and_abandonment_edges() {
    let mut store = InMemorySquireStore::new();
    assert_eq!(op_confirm(&mut store, "c", Some("A"), None).output, "Confirmed option: A");
    assert_eq!(op_invalidate(&mut store, "c", Some("B"), Some("tests failed")).output, "Invalidated option: B");
    assert_eq!(op_abandon(&mut store, "c", Some("C"), None).output, "Abandoned option: C");
    assert_eq!(op_abandon(&mut store, "c", Some("D"), Some("too slow")).output, "Abandoned option: D");
    assert_eq!(
        store.get_relationships(None, None, None),
        vec![
            rel("A", "confirmedBy", "TRT_evidence_confirmed"),
            rel("B", "invalidatedBy", "TRT_evidence_tests_failed"),
            rel("C", "abandoned", "TRT_abandoned_C"),
            rel("D", "abandoned", "CONCEPT_Assumption_too_slow"),
        ]
    );
    assert!(op_confirm(&mut store, "c", None, None).is_error);
}

#[test]
fn resolve_points_at_the_tree_root() {
    let mut store = InMemorySquireStore::new();
    store.insert_relationship(rel("ROOT", "considers", "MID"));
    store.insert_relationship(rel("MID", "selects", "LEAF"));
    let r = op_resolve(&mut store, "c", Some("LEAF"));
    assert_eq!(r.output, "Resolved decision: ROOT → LEAF");
    assert_eq!(store.get_relationships(None, Some("resolves"), None), vec![rel("LEAF", "resolves", "ROOT")]);
    assert_eq!(op_resolve(&mut store, "c", None).output, "Missing required argument: id");
}
