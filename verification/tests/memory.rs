use squire::traverse::Discovered;
use std::collections::HashMap;

use squire::memory::{role_token_ids, ComplianceFailureRecord, InMemorySquireStore};
use squire::types::{McpServerConfig, NewTokenSpec, Relationship, ToolEndpoint};

fn concept(id: &str, short: &str, full: Option<&str>) -> NewTokenSpec {
    NewTokenSpec {
        id: id.to_string(),
        token_type: "concept".to_string(),
        short_desc: short.to_string(),
        full_desc: full.map(|s| s.to_string()),
        endpoint: None,
        ranges: vec![],
    }
}

fn fake_mcp_server(id: &str) -> McpServerConfig {
    McpServerConfig {
        id: id.to_string(),
        name: format!("{id} server"),
        transport: "stdio".to_string(),
        command: "fake".to_string(),
        args: vec![],
        url: None,
        enabled: true,
        env: HashMap::new(),
        headers: HashMap::new(),
    }
}

fn rel(s: &str, p: &str, o: &str) -> Relationship {
    Relationship { subject: s.to_string(), predicate: p.to_string(), object: o.to_string() }
}

#[test]
fn in_memory_store_roundtrips_token_and_preserve_list() {
    let mut store = InMemorySquireStore::new();
    let sid: u128 = 0x1234;
    assert!(!store.token_exists("CONCEPT_X"));
    store.upsert_token(concept("CONCEPT_X", "desc", Some("full")), 1, 0);
    assert!(store.token_exists("CONCEPT_X"));
    store.set_preserve_list(sid, vec!["CONCEPT_X".to_string()]);
    let preserved = store.preserved_tokens(sid);
    assert_eq!(preserved.len(), 1);
    assert_eq!(preserved[0].token_id, "CONCEPT_X");
    let detail = store.token_detail("CONCEPT_X").unwrap();
    assert_eq!(detail.short_desc, "desc");
    assert_eq!(detail.full_desc.as_deref(), Some("full"));
}

#[test]
fn in_memory_store_increments_turn_counter() {
    let mut store = InMemorySquireStore::new();
    let sid: u128 = 7;
    assert_eq!(store.current_turn(sid), 0);
    store.increment_turn(sid);
    store.increment_turn(sid);
    assert_eq!(store.current_turn(sid), 2);
}

#[test]
fn in_memory_store_clear_all_preserve_lists_wipes_every_session() {
    let mut store = InMemorySquireStore::new();
    let (sid_a, sid_b): (u128, u128) = (11, 12);
    store.upsert_token(concept("CONCEPT_X", "desc", None), 0, 0);
    store.set_preserve_list(sid_a, vec!["CONCEPT_X".to_string()]);
    store.set_preserve_list(sid_b, vec!["CONCEPT_X".to_string()]);
    assert_eq!(store.preserved_tokens(sid_a).len(), 1);
    assert_eq!(store.preserved_tokens(sid_b).len(), 1);
    store.clear_all_preserve_lists();
    assert!(store.preserved_tokens(sid_a).is_empty());
    assert!(store.preserved_tokens(sid_b).is_empty());
}

#[test]
fn in_memory_store_records_compliance_failures() {
    let mut store = InMemorySquireStore::new();
    store.record_compliance_failure(ComplianceFailureRecord {
        session_id: 5,
        rule: "empty_close_response".to_string(),
        reason: "empty close response".to_string(),
        retry_count: 4,
        failed_content: "{}".to_string(),
        timestamp: 0,
    });
    let failures = store.compliance_failures();
    assert_eq!(failures.len(), 1);
    assert_eq!(failures[0].rule, "empty_close_response");
}

#[test]
fn record_hit_increments_accumulated_hits() {
    let mut store = InMemorySquireStore::new();
    store.upsert_token(concept("CONCEPT_X", "desc", None), 0, 0);
    let results = store.explore_direct("all", "", 0);
    assert_eq!(results[0].accumulated_hits, 1);
    store.record_hit("CONCEPT_X");
    store.record_hit("CONCEPT_X");
    let results = store.explore_direct("all", "", 0);
    assert_eq!(results[0].accumulated_hits, 3);
}

#[test]
fn preserved_tokens_increments_hit_on_load() {
    let mut store = InMemorySquireStore::new();
    store.upsert_token(concept("CONCEPT_X", "desc", None), 0, 0);
    store.set_preserve_list(9, vec!["CONCEPT_X".to_string()]);
    let first = store.preserved_tokens(9);
    assert_eq!(first[0].accumulated_hits, 2);
    let second = store.preserved_tokens(9);
    assert_eq!(second[0].accumulated_hits, 3);
}

#[test]
fn upsert_token_persists_and_returns_endpoint_via_in_memory_store() {
    let mut store = InMemorySquireStore::new();
    let endpoint = ToolEndpoint::Mcp { server: fake_mcp_server("srv1"), remote_name: "remote_tool".to_string() };
    store.upsert_token(
        NewTokenSpec {
            id: "mcp_srv1_remote_tool".to_string(),
            token_type: "tool".to_string(),
            short_desc: "an mcp tool".to_string(),
            full_desc: None,
            endpoint: Some(endpoint.clone()),
            ranges: vec![],
        },
        0,
        0,
    );
    let detail = store.token_detail("mcp_srv1_remote_tool").unwrap();
    assert_eq!(detail.endpoint, Some(endpoint));
}

#[test]
fn upsert_token_without_endpoint_preserves_previously_stored_endpoint() {
    let mut store = InMemorySquireStore::new();
    let endpoint = ToolEndpoint::Mcp { server: fake_mcp_server("srv1"), remote_name: "remote_tool".to_string() };
    let mut spec = NewTokenSpec {
        id: "mcp_srv1_remote_tool".to_string(),
        token_type: "tool".to_string(),
        short_desc: "v1".to_string(),
        full_desc: None,
        endpoint: Some(endpoint.clone()),
        ranges: vec![],
    };
    store.upsert_token(spec.clone(), 0, 0);
    spec.short_desc = "v2".to_string();
    spec.endpoint = None;
    store.upsert_token(spec, 0, 0);
    let detail = store.token_detail("mcp_srv1_remote_tool").unwrap();
    assert_eq!(detail.short_desc, "v2");
    assert_eq!(detail.endpoint, Some(endpoint));
}

#[test]
fn upsert_keeps_type_and_creation_turn_and_counts_hits() {
    let mut store = InMemorySquireStore::new();
    store.upsert_token(concept("A", "first", Some("long")), 3, 0);
    let mut again = concept("A", "second", None);
    again.token_type = "skill".to_string();
    store.upsert_token(again, 9, 4);
    assert_eq!(store.get_type("A").as_deref(), Some("concept"));
    let d = store.token_detail("A").unwrap();
    assert_eq!(d.short_desc, "second");
    assert_eq!(d.full_desc.as_deref(), Some("long"));
    assert_eq!(store.explore_direct("all", "", 0)[0].accumulated_hits, 2);
    assert_eq!(store.list_token_ids(), vec!["A".to_string()]);
}

#[test]
fn preserve_list_counts_each_listed_occurrence_and_skips_unknown_ids() {
    let mut store = InMemorySquireStore::new();
    store.upsert_token(concept("A", "a", None), 0, 0);
    store.upsert_token(concept("B", "b", None), 0, 0);
    store.set_preserve_list(1, vec!["B".to_string(), "ghost".to_string(), "A".to_string(), "B".to_string()]);
    let out = store.preserved_tokens(1);
    let ids: Vec<&str> = out.iter().map(|b| b.token_id.as_str()).collect();
    assert_eq!(ids, vec!["B", "A", "B"]);
    let hits: Vec<u64> = out.iter().map(|b| b.accumulated_hits).collect();
    assert_eq!(hits, vec![2, 2, 3]);
    assert!(store.preserved_tokens(2).is_empty());
}

#[test]
fn relationship_filters_and_parent_mirroring() {
    let mut store = InMemorySquireStore::new();
    store.add_relationship(rel("P", "HasParent", "C1"));
    store.add_relationship(rel("P", "HasParent", "C2"));
    store.add_relationship(rel("X", "Contains", "Y"));
    store.add_relationship(rel("A", "relates", "B"));
    assert_eq!(store.get_relationships(None, None, None).len(), 5);
    let mirrored = store.get_relationships(Some("C1"), Some("Contains"), None);
    assert_eq!(mirrored, vec![rel("C1", "Contains", "P")]);
    assert!(store.get_relationships(Some("X"), None, None).is_empty());
    assert_eq!(store.get_relationships(None, Some("relates"), Some("B")), vec![rel("A", "relates", "B")]);
}

#[test]
fn tree_queries_follow_has_parent_edges() {
    let mut store = InMemorySquireStore::new();
    for id in ["ROOT", "MID", "LEAF"] {
        store.upsert_token(concept(id, id, None), 0, 0);
    }
    store.add_relationship(rel("ROOT", "HasParent", "MID"));
    store.add_relationship(rel("MID", "HasParent", "LEAF"));
    store.add_relationship(rel("ROOT", "HasParent", "UNSTORED"));
    let kids: Vec<String> = store.get_children("ROOT").into_iter().map(|b| b.token_id).collect();
    assert_eq!(kids, vec!["MID".to_string()]);
    assert_eq!(store.get_parent("LEAF").unwrap().token_id, "MID");
    assert!(store.get_parent("ROOT").is_none());
    let anc: Vec<String> = store.get_ancestors("LEAF", 10).into_iter().map(|b| b.token_id).collect();
    assert_eq!(anc, vec!["MID".to_string(), "ROOT".to_string()]);
    assert_eq!(store.get_ancestors("LEAF", 1).len(), 1);
    assert_eq!(store.get_root("LEAF").unwrap().token_id, "ROOT");
    assert_eq!(store.get_root("UNSTORED").unwrap().token_id, "ROOT");
    assert!(store.get_root("NOWHERE").is_none());
    assert_eq!(store.get_instances("concept").len(), 3);
    assert!(store.get_instances("skill").is_empty());
}

#[test]
fn explore_direct_filters_by_type_session_and_query() {
    let mut store = InMemorySquireStore::new();
    store.upsert_token(concept("CONCEPT_Alpha", "First idea", None), 0, 0);
    let mut skill = concept("SK_Beta", "a skill", None);
    skill.token_type = "skill".to_string();
    store.upsert_token(skill, 0, 0);
    store.upsert_token(concept("CONCEPT_Other", "private", None), 0, 42);
    let ids = |v: Vec<squire::memory::TokenBrief>| v.into_iter().map(|b| b.token_id).collect::<Vec<_>>();
    assert_eq!(ids(store.explore_direct("memory", "", 0)), vec!["CONCEPT_Alpha".to_string()]);
    assert_eq!(ids(store.explore_direct("memory", "", 42)), vec!["CONCEPT_Alpha".to_string(), "CONCEPT_Other".to_string()]);
    assert_eq!(ids(store.explore_direct("tool_skill", "", 0)), vec!["SK_Beta".to_string()]);
    assert_eq!(ids(store.explore_direct("all", "IDEA", 0)), vec!["CONCEPT_Alpha".to_string()]);
    assert!(store.explore_direct("workflow", "", 0).is_empty());
}

#[test]
fn raw_output_is_appended_with_session_and_turn() {
    let mut store = InMemorySquireStore::new();
    store.record_raw_output(3, 2, "hello".to_string());
    let log = store.raw_partition_records();
    assert_eq!(log.len(), 1);
    assert_eq!((log[0].session_id, log[0].turn, log[0].content.as_str()), (3, 2, "hello"));
}

#[test]
fn role_index_collects_subjects_of_the_asked_roles_once() {
    let rels = vec![
        rel("SRC_term", "IS_A_TOOL", "ROLE_tool"),
        rel("SRC_plan", "IS_A_SKILL", "ROLE_skill"),
        rel("SRC_flow", "IS_A_WORKFLOW", "ROLE_wf"),
        rel("SRC_term", "IS_A_TOOL", "ROLE_tool2"),
        rel("SRC_other", "relates_to", "SRC_term"),
    ];
    assert_eq!(role_token_ids("tool", &rels), Some(vec!["SRC_term".to_string()]));
    assert_eq!(role_token_ids("skill", &rels), Some(vec!["SRC_plan".to_string()]));
    assert_eq!(role_token_ids("workflow", &rels), Some(vec!["SRC_flow".to_string()]));
    assert_eq!(
        role_token_ids("tool_skill", &rels),
        Some(vec!["SRC_term".to_string(), "SRC_plan".to_string()])
    );
    assert_eq!(role_token_ids("memory", &rels), None);
    assert_eq!(role_token_ids("all", &rels), None);
}

#[test]
fn hops_keep_stored_visible_tokens_of_the_asked_type() {
    let mut store = InMemorySquireStore::new();
    store.upsert_token(concept("CONCEPT_Near", "near", None), 0, 0);
    store.upsert_token(concept("CONCEPT_Other", "other session", None), 0, 7);
    store.upsert_token(concept("CONCEPT_Mine", "my session", None), 0, 5);
    let mut wf = concept("WF_Flow", "a workflow", None);
    wf.token_type = "workflow".to_string();
    store.upsert_token(wf, 0, 0);
    let found = vec![
        Discovered { token_id: "CONCEPT_Near".to_string(), hop_distance: 1, origin: 0 },
        Discovered { token_id: "CONCEPT_Gone".to_string(), hop_distance: 1, origin: 0 },
        Discovered { token_id: "CONCEPT_Other".to_string(), hop_distance: 2, origin: 1 },
        Discovered { token_id: "WF_Flow".to_string(), hop_distance: 2, origin: 0 },
        Discovered { token_id: "CONCEPT_Mine".to_string(), hop_distance: 3, origin: 1 },
    ];
    let hits = store.explore_hops("concept", &found, 5);
    let kept: Vec<(String, u32, usize)> =
        hits.iter().map(|h| (h.brief.token_id.clone(), h.hop_distance, h.origin)).collect();
    assert_eq!(kept, vec![("CONCEPT_Near".to_string(), 1, 0), ("CONCEPT_Mine".to_string(), 3, 1)]);
    assert_eq!(hits[0].brief.short_desc, "near");
    let all = store.explore_hops("all", &found, 5);
    assert_eq!(all.len(), 3);
}
