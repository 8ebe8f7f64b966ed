use squire::batch::{
    check_batch_cap, parse_args, parse_batch_expr, parse_batch_expr_checked, parse_func_call,
    split_groups, split_pipeline, BatchFunc, SquireInvokeTool, DEFAULT_BATCH_CAP,
};
use squire::types::ToolDanger;

fn explore(rt: &str, q: &str, hops: u32, max: u32, vector: &str) -> BatchFunc {
    BatchFunc::Explore {
        resource_type: rt.to_string(),
        query: q.to_string(),
        num_hops: hops,
        max_results: max,
        vector: vector.to_string(),
    }
}

#[test]
fn batch_pipeline_of_explore_and_rdf() {
    let r = parse_batch_expr("explore(memory, rust, 1, 10) | rdf(2)").unwrap();
    assert_eq!(r.len(), 1);
    assert_eq!(r[0], vec![
        explore("memory", "rust", 1, 10, "content"),
        BatchFunc::Rdf { hops: 2, max_results: 20 },
    ]);
}

#[test]
fn batch_parallel_groups() {
    let r = parse_batch_expr("explore(memory, X, 1, 5) & explore(workflow, Y, 0, 3)").unwrap();
    assert_eq!(r.len(), 2);
    assert_eq!(r[0], vec![explore("memory", "X", 1, 5, "content")]);
    assert_eq!(r[1], vec![explore("workflow", "Y", 0, 3, "content")]);
    let r = parse_batch_expr("token_to_detail(A); token_to_detail(B)\nrdf(1, 4)").unwrap();
    assert_eq!(r.len(), 3);
    assert_eq!(r[2], vec![BatchFunc::Rdf { hops: 1, max_results: 4 }]);
}

#[test]
fn batch_quoted_arguments_keep_separators() {
    let r = parse_batch_expr("explore(memory, 'a & b | c, d', 2, 7, tag)").unwrap();
    assert_eq!(r, vec![vec![explore("memory", "a & b | c, d", 2, 7, "tag")]]);
}

#[test]
fn batch_defaults_for_missing_or_bad_numbers() {
    let r = parse_batch_expr("explore(memory, q, x) | rdf(y)").unwrap();
    assert_eq!(r[0], vec![
        explore("memory", "q", 0, 10, "content"),
        BatchFunc::Rdf { hops: 1, max_results: 20 },
    ]);
    assert_eq!(
        parse_func_call("rdf(+3, 99999999999)").unwrap(),
        BatchFunc::Rdf { hops: 3, max_results: 20 }
    );
}

#[test]
fn batch_errors() {
    assert_eq!(parse_batch_expr("").unwrap_err(), "Empty batch expression");
    assert_eq!(parse_batch_expr(" ;& \n").unwrap_err(), "Empty batch expression");
    assert_eq!(parse_batch_expr("rdf(1))").unwrap_err(), "Unmatched ')' in batch expression");
    assert_eq!(parse_batch_expr("rdf(1) | | rdf(2)").unwrap_err(), "Empty pipeline stage before '|'");
    assert_eq!(parse_batch_expr("walk(1)").unwrap_err(), "Unknown batch function: walk");
    assert_eq!(parse_batch_expr("explore(memory)").unwrap_err(),
        "explore() requires at least 2 args: (resource_type, query, [num_hops], [max_results], [vector])");
    assert_eq!(parse_batch_expr("rdf()").unwrap_err(), "rdf() requires at least 1 arg: (hops, [max_results])");
    assert_eq!(parse_batch_expr("token_to_detail()").unwrap_err(), "token_to_detail() requires token_id");
    assert_eq!(parse_batch_expr("rdf").unwrap_err(), "Missing '(' in: rdf");
    assert_eq!(parse_batch_expr("rdf(1").unwrap_err(), "Missing ')' in: rdf(1");
    assert_eq!(parse_batch_expr("explore(a, 'b)").unwrap_err(), "Unclosed single quote in args");
}

#[test]
fn batch_checked_reports_reversed_parentheses() {
    assert!(parse_batch_expr_checked("')' x(").is_none());
    assert!(parse_batch_expr_checked("rdf(1)").unwrap().is_ok());
}

#[test]
fn batch_splitters() {
    assert_eq!(split_groups(" a(1;2) ; b & 'c;d' ").unwrap(), vec!["a(1;2)", "b", "'c;d'"]);
    assert_eq!(split_groups("a)").unwrap_err(), "Unmatched ')' in batch expression");
    assert_eq!(split_pipeline("a | b(x|y)").unwrap(), vec!["a", "b(x|y)"]);
    assert_eq!(split_pipeline("  ").unwrap_err(), "Empty pipeline");
    assert_eq!(split_pipeline("a)").unwrap_err(), "Unmatched ')' in pipeline");
    assert_eq!(parse_args(" a , 'b, c' ,, d ").unwrap(), vec!["a", "b, c", "", "d"]);
    assert_eq!(parse_args("a,").unwrap(), vec!["a"]);
    assert!(parse_args("").unwrap().is_empty());
}

#[test]
fn batch_cap_admits_first_calls_only() {
    let mut counter = 0u32;
    for _ in 0..DEFAULT_BATCH_CAP {
        let (next, err) = check_batch_cap(counter, DEFAULT_BATCH_CAP, "explore");
        assert!(err.is_none());
        counter = next;
    }
    assert_eq!(counter, 3);
    for _ in 0..4 {
        let (next, err) = check_batch_cap(counter, DEFAULT_BATCH_CAP, "rdf");
        let err = err.unwrap();
        assert!(err.is_error);
        assert_eq!(err.call_id, "");
        assert_eq!(
            err.output,
            "Batch retrieval cap (3) exceeded. You have already made 3 discovery calls \
             (explore/rdf/token_to_detail) this turn. Respond with the information you have, \
             or use invoke() on tools you have already discovered."
        );
        counter = next;
    }
    assert_eq!(counter, 3);
    let (next, err) = check_batch_cap(12, 10, "batch");
    assert_eq!(next, 10);
    assert!(err.unwrap().output.starts_with("Batch retrieval cap (10) exceeded. You have already made 12 "));
}

#[test]
fn invoke_tool_reports_missing_redirect() {
    let t = SquireInvokeTool;
    assert_eq!(t.name(), "invoke");
    assert_eq!(t.danger(), ToolDanger::Destructive);
    let r = t.execute("call-1");
    assert!(r.is_error);
    assert_eq!(r.call_id, "");
    assert_eq!(r.output, "Internal error: invoke tool was not redirected by orchestration");
}
