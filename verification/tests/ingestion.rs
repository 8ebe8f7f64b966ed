use std::collections::HashMap;

use squire::chat::ToolDefinition;
use squire::ingestion::{ingest_one_skill, ingest_one_workflow, ingest_tool_registry};
use squire::memory::InMemorySquireStore;
use squire::resources::{
    builtin_skill_ids, builtin_workflow_ids, load_builtin_skills, load_builtin_workflows, SkillDef, WorkflowDef,
};
use squire::types::{McpServerConfig, ToolEndpoint};

fn def(name: &str, description: &str, schema: &str) -> ToolDefinition {
    ToolDefinition {
        name: name.to_string(),
        description: description.to_string(),
        input_schema: serde_json::from_str(schema).unwrap(),
    }
}

fn mcp_endpoint(server: &str, remote: &str) -> ToolEndpoint {
    ToolEndpoint::Mcp {
        server: McpServerConfig {
            id: server.to_string(),
            name: server.to_string(),
            transport: "stdio".to_string(),
            command: "run".to_string(),
            args: vec![],
            url: None,
            enabled: true,
            env: HashMap::new(),
            headers: HashMap::new(),
        },
        remote_name: remote.to_string(),
    }
}

#[test]
fn ingest_tool_registry_writes_one_tool_token_per_definition() {
    let mut store = InMemorySquireStore::new();
    let defs = vec![
        def("run_terminal", "Run a command", r#"{"type":"object"}"#),
        def("web_fetch", "Fetch a page", r#"{"type":"object","properties":{}}"#),
    ];
    ingest_tool_registry(&defs, &mut store, &vec![]);
    let d = store.token_detail("run_terminal").unwrap();
    assert_eq!(d.short_desc, "Run a command");
    assert!(d.endpoint.is_none());
    let parsed: serde_json::Value = serde_json::from_str(d.full_desc.as_ref().unwrap()).unwrap();
    assert_eq!(parsed["name"], "run_terminal");
    assert_eq!(parsed["description"], "Run a command");
    assert!(parsed["input_schema"].is_object());
    assert_eq!(store.get_type("web_fetch"), Some("tool".to_string()));
    assert_eq!(store.explore_direct("tool", "", 0).len(), 2);
}

#[test]
fn ingest_tool_registry_attaches_only_listed_endpoints() {
    let mut store = InMemorySquireStore::new();
    let defs = vec![def("run_terminal", "t", "{}"), def("web_fetch", "w", "{}")];
    let eps = vec![("run_terminal".to_string(), mcp_endpoint("srv1", "remote_terminal"))];
    ingest_tool_registry(&defs, &mut store, &eps);
    assert_eq!(store.token_detail("run_terminal").unwrap().endpoint, Some(mcp_endpoint("srv1", "remote_terminal")));
    assert!(store.token_detail("web_fetch").unwrap().endpoint.is_none());
}

#[test]
fn ingest_tool_registry_updates_rather_than_duplicates() {
    let mut store = InMemorySquireStore::new();
    ingest_tool_registry(&vec![def("fake_tool", "version one", "{}")], &mut store, &vec![]);
    ingest_tool_registry(&vec![def("fake_tool", "version two", "{}")], &mut store, &vec![]);
    assert_eq!(store.token_detail("fake_tool").unwrap().short_desc, "version two");
    let all = store.explore_direct("tool", "", 0);
    assert_eq!(all.iter().filter(|t| t.token_id == "fake_tool").count(), 1);
    assert_eq!(all[0].accumulated_hits, 2);
}

#[test]
fn ingesting_the_same_registry_again_changes_only_hits() {
    let mut store = InMemorySquireStore::new();
    let defs = vec![def("run_terminal", "t", r#"{"type":"object"}"#), def("web_fetch", "w", "{}")];
    let eps = vec![("run_terminal".to_string(), mcp_endpoint("srv1", "remote_terminal"))];
    ingest_tool_registry(&defs, &mut store, &eps);
    let ids_once = store.list_token_ids();
    let detail_once = store.token_detail("run_terminal").unwrap();
    ingest_tool_registry(&defs, &mut store, &eps);
    assert_eq!(store.list_token_ids(), ids_once);
    assert_eq!(store.token_detail("run_terminal").unwrap(), detail_once);
    assert_eq!(store.get_type("web_fetch"), Some("tool".to_string()));
    assert_eq!(store.hits("run_terminal"), Some(2));
}

#[test]
fn ingest_tool_registry_with_no_definitions_writes_nothing() {
    let mut store = InMemorySquireStore::new();
    ingest_tool_registry(&vec![], &mut store, &vec![]);
    assert!(store.explore_direct("tool", "", 0).is_empty());
}

#[test]
fn ingested_skills_and_workflows_are_typed_tokens() {
    let mut store = InMemorySquireStore::new();
    let sk = SkillDef { id: "SK_Test".into(), short_desc: "A skill".into(), full_desc: "Do it".into() };
    let wf = WorkflowDef { id: "WF_Test".into(), short_desc: "A workflow".into(), full_desc: "Steps".into() };
    ingest_one_skill(&mut store, &sk);
    ingest_one_workflow(&mut store, &wf);
    assert_eq!(store.get_type("SK_Test"), Some("skill".to_string()));
    assert_eq!(store.get_type("WF_Test"), Some("workflow".to_string()));
    assert_eq!(store.token_detail("SK_Test").unwrap().full_desc, Some("Do it".to_string()));
    let found = store.explore_direct("skill", "a skill", 0);
    assert_eq!(found.len(), 1);
    assert_eq!(found[0].token_id, "SK_Test");
}

fn skill(id: &str) -> SkillDef {
    SkillDef { id: id.to_string(), short_desc: "s".into(), full_desc: "f".into() }
}

#[test]
fn builtin_skills_load_when_every_file_names_its_own_id() {
    let ids = builtin_skill_ids();
    assert_eq!(ids, vec!["SK_CreateSkill", "SK_CreateWorkflow"]);
    let parsed: Vec<Result<SkillDef, String>> = ids.iter().map(|i| Ok(skill(i))).collect();
    let loaded = load_builtin_skills(&parsed).unwrap();
    assert_eq!(loaded.len(), 2);
    assert_eq!(loaded[1].id, "SK_CreateWorkflow");
}

#[test]
fn parse_builtin_skills() {
    let parsed: Vec<Result<SkillDef, String>> = builtin_skill_ids().iter().map(|i| Ok(skill(i))).collect();
    let wfs = load_builtin_skills(&parsed).unwrap();
    assert_eq!(wfs.len(), 2, "expected 2 built-in skills");
    let ids: std::collections::HashSet<String> = wfs.into_iter().map(|w| w.id).collect();
    for expected in &["SK_CreateSkill", "SK_CreateWorkflow"] {
        assert!(ids.contains(*expected), "missing built-in skill: {}", expected);
    }
}

#[test]
fn parse_builtin_workflows() {
    let parsed: Vec<Result<WorkflowDef, String>> = builtin_workflow_ids()
        .iter()
        .map(|i| Ok(WorkflowDef { id: i.to_string(), short_desc: "s".into(), full_desc: "f".into() }))
        .collect();
    let wfs = load_builtin_workflows(&parsed).unwrap();
    assert_eq!(wfs.len(), 9, "expected 9 built-in workflows");
    let ids: std::collections::HashSet<String> = wfs.into_iter().map(|w| w.id).collect();
    for expected in &[
        "WF_SimpleQA",
        "WF_FriendlyChat",
        "WF_WaterfallDesign",
        "WF_InteractiveDiscovery",
        "WF_TaskExecution",
        "WF_Debugging",
    ] {
        assert!(ids.contains(*expected), "missing built-in workflow: {}", expected);
    }
}

#[test]
fn builtin_skill_problems_name_the_first_bad_file() {
    let mut parsed: Vec<Result<SkillDef, String>> = builtin_skill_ids().iter().map(|i| Ok(skill(i))).collect();
    parsed[0] = Ok(skill("SK_Other"));
    parsed[1] = Err("expected `=`".to_string());
    assert_eq!(
        load_builtin_skills(&parsed),
        Err("squire_skills: built-in skill id mismatch: file has 'SK_Other', expected 'SK_CreateSkill'".to_string())
    );
    parsed[0] = Ok(skill("SK_CreateSkill"));
    assert_eq!(
        load_builtin_skills(&parsed),
        Err("squire_skills: invalid built-in skill SK_CreateWorkflow: expected `=`".to_string())
    );
}

#[test]
fn builtin_workflows_are_nine_and_checked_by_id() {
    let ids = builtin_workflow_ids();
    assert_eq!(ids.len(), 9);
    assert_eq!(ids[0], "WF_SimpleQA");
    let mut parsed: Vec<Result<WorkflowDef, String>> = ids
        .iter()
        .map(|i| Ok(WorkflowDef { id: i.to_string(), short_desc: "s".into(), full_desc: "f".into() }))
        .collect();
    assert_eq!(load_builtin_workflows(&parsed).unwrap().len(), 9);
    parsed[0] = Err("bad".to_string());
    assert_eq!(
        load_builtin_workflows(&parsed),
        Err("squire_workflows: invalid built-in workflow WF_SimpleQA: bad".to_string())
    );
}
