use squire::discovery::{
    batch_expression_argument, detail_level_argument, rdf_arguments, required_text_argument, text_argument,
    batch_result_positions, built_in_tool_definitions, detail_output, turn_tool_definitions, explore_args, query_needs_lookup, rdf_results,
    search_tool_registry, unknown_token_message,
};
use squire::traverse::{traverse_relationships, Discovered};

fn s(v: &[&str]) -> Vec<String> {
    v.iter().map(|x| x.to_string()).collect()
}

fn e(a: &str, b: &str) -> (String, String) {
    (a.to_string(), b.to_string())
}

fn found(r: &[Discovered]) -> Vec<(&str, u32, usize)> {
    r.iter().map(|d| (d.token_id.as_str(), d.hop_distance, d.origin)).collect()
}

#[test]
fn traversal_walks_both_directions_by_hop() {
    let edges = vec![e("A", "B"), e("C", "A"), e("B", "D"), e("D", "E"), e("X", "Y")];
    let r = traverse_relationships(&s(&["A"]), &edges, 2);
    assert_eq!(found(&r), vec![("B", 1, 0), ("C", 1, 0), ("D", 2, 0)]);
    let r = traverse_relationships(&s(&["A"]), &edges, 10);
    assert_eq!(found(&r), vec![("B", 1, 0), ("C", 1, 0), ("D", 2, 0), ("E", 3, 0)]);
    assert!(traverse_relationships(&s(&["A"]), &edges, 0).is_empty());
    assert!(traverse_relationships(&vec![], &edges, 3).is_empty());
}

#[test]
fn traversal_skips_direct_matches_and_keeps_first_origin() {
    let edges = vec![e("A", "B"), e("B", "C"), e("C", "Z")];
    let r = traverse_relationships(&s(&["A", "C"]), &edges, 1);
    assert_eq!(found(&r), vec![("B", 1, 0), ("Z", 1, 1)]);
}

#[test]
fn rdf_keeps_nearest_results() {
    let edges = vec![e("A", "B"), e("A", "C"), e("C", "D")];
    let r = traverse_relationships(&s(&["A"]), &edges, 2);
    assert_eq!(found(&rdf_results(r.clone(), 2)), vec![("B", 1, 0), ("C", 1, 0)]);
    assert_eq!(found(&rdf_results(r.clone(), 0)), vec![("B", 1, 0)]);
    assert_eq!(rdf_results(r, 20).len(), 3);
}

#[test]
fn explore_argument_defaults_and_lookup() {
    let a = explore_args(None, None, None, None, None);
    assert_eq!((a.resource_type.as_str(), a.query.as_str(), a.num_hops, a.max_results, a.vector.as_str()), ("all", "", 0, 10, "content"));
    let a = explore_args(Some("memory".into()), Some("rust".into()), Some(2), Some((1u64 << 32) + 7), Some("tag".into()));
    assert_eq!((a.num_hops, a.max_results, a.vector.as_str()), (2, 7, "tag"));
    assert!(query_needs_lookup("USR_T3_001_ab", "memory"));
    assert!(!query_needs_lookup("USR_T3_001_ab", "tool"));
    assert!(!query_needs_lookup("rust borrow checker", "all"));
    assert!(!query_needs_lookup("MEM_Tx", "all"));
}

#[test]
fn registry_search_is_case_insensitive_and_capped() {
    let names = s(&["read_file", "write_file", "Git", "search_code"]);
    let descs = s(&["Read a FILE", "Write a file", "git operations", "ripgrep"]);
    assert_eq!(search_tool_registry(&names, &descs, "FILE", 10), vec![0, 1]);
    assert_eq!(search_tool_registry(&names, &descs, "file", 1), vec![0]);
    assert_eq!(search_tool_registry(&names, &descs, "", 3), vec![0, 1, 2]);
    assert_eq!(search_tool_registry(&names, &descs, "GIT", 10), vec![2]);
}

#[test]
fn detail_and_batch_results() {
    assert_eq!(detail_output("full", "short".into(), Some("long".into())), "long");
    assert_eq!(detail_output("full", "short".into(), None), "short");
    assert_eq!(detail_output("short", "short".into(), Some("long".into())), "short");
    assert_eq!(unknown_token_message("Unknown token: ", "X"), "Unknown token: X");
    assert_eq!(batch_result_positions(&s(&["A", "B", "A", "C", "B"])), vec![0, 1, 3]);
    let many: Vec<String> = (0..250).map(|i| format!("T{}", i)).collect();
    let pos = batch_result_positions(&many);
    assert_eq!(pos.len(), 200);
    assert_eq!(pos[199], 199);
}

#[test]
fn built_in_tools_are_the_five_protocol_tools_with_parsed_schemas() {
    let defs = built_in_tool_definitions().unwrap();
    let names: Vec<&str> = defs.iter().map(|d| d.name.as_str()).collect();
    assert_eq!(names, vec!["explore", "token_to_detail", "rdf", "invoke", "batch"]);
    assert_eq!(defs[1].description, "Retrieve the short or full description of a specific Squire token.");
    assert_eq!(defs[0].input_schema["type"], "object");
    assert_eq!(defs[0].input_schema["required"][0], "resource_type");
    assert_eq!(defs[0].input_schema["properties"]["resource_type"]["enum"].as_array().unwrap().len(), 8);
    assert_eq!(defs[2].input_schema["properties"]["hops"]["maximum"], 5);
    assert_eq!(defs[3].input_schema["required"][1], "params");
    assert_eq!(defs[4].input_schema["required"][0], "expression");
    assert!(defs[2].description.contains("— that judgment belongs to the AI."));
}

#[test]
fn a_turn_offers_explore_token_to_detail_and_invoke() {
    let defs = turn_tool_definitions().unwrap();
    let names: Vec<&str> = defs.iter().map(|d| d.name.as_str()).collect();
    assert_eq!(names, vec!["explore", "token_to_detail", "invoke"]);
    let all = built_in_tool_definitions().unwrap();
    assert_eq!(defs[2].description, all[3].description);
    assert_eq!(defs[2].input_schema, all[3].input_schema);
}

fn json(text: &str) -> serde_json::Value {
    serde_json::from_str(text).unwrap()
}

#[test]
fn tool_arguments_are_read_with_their_defaults_and_errors() {
    assert_eq!(required_text_argument("c", &json(r#"{"token_id":"X_1"}"#), "token_id").ok().as_deref(), Some("X_1"));
    for bad in [r#"{"token_id":""}"#, r#"{}"#, r#"{"token_id":3}"#] {
        let e = required_text_argument("c", &json(bad), "token_id").unwrap_err();
        assert_eq!(e.output, "Missing required argument: token_id");
        assert!(e.is_error && e.call_id == "c");
    }
    assert_eq!(text_argument("c", &json(r#"{"id":""}"#), "id").ok().as_deref(), Some(""));
    assert_eq!(text_argument("c", &json(r#"{}"#), "id").unwrap_err().output, "Missing required argument: id");
    assert_eq!(detail_level_argument(&json(r#"{}"#)), "short");
    assert_eq!(detail_level_argument(&json(r#"{"detail_level":"full"}"#)), "full");
    assert_eq!(rdf_arguments(&json(r#"{}"#)), (1, 20));
    assert_eq!(rdf_arguments(&json(r#"{"hops":3,"max_results":4294967301}"#)), (3, 5));
    assert_eq!(batch_expression_argument("c", &json(r#"{"expression":"rdf(1)"}"#)).ok().as_deref(), Some("rdf(1)"));
    assert_eq!(
        batch_expression_argument("c", &json(r#"{"expression":""}"#)).unwrap_err().output,
        "Missing 'expression' argument"
    );
}
