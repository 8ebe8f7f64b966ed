use squire::formatter::{
    formatter_json_text, formatter_reply, formatter_response, try_extract_json, FormatterJsonRelationship,
    FormatterJsonToken, FormatterOutput,
};
use squire::mcp::{frame_header, header_line, stdio_command, HeaderLine, McpServerSpec};
use squire::prompts::{merge_prompt, prompt_file_names, PromptStore};
use squire::resources::{merge_skills, merge_workflows, skill_token, workflow_token, SkillDef, WorkflowDef};
use squire::tools::{
    missing_argument, outcome_result, CodeSearchTool, FileReadTool, FileWriteTool, GitBranch,
    GitFileDiff, GitLogEntry, GitOperation, GitStatusEntry, GitTool, SearchMatch, TerminalTool,
};
use squire::trace::{trace_enabled, TraceSettings};
use squire::types::ToolDanger;
use std::collections::HashMap;
use std::path::PathBuf;

fn skill(id: &str, sd: &str) -> SkillDef {
    SkillDef { id: id.to_string(), short_desc: sd.to_string(), full_desc: format!("{} full", sd) }
}

#[test]
fn later_skill_source_wins() {
    let merged = merge_skills(
        &vec![skill("SK_A", "builtin a"), skill("SK_B", "builtin b")],
        &vec![skill("SK_B", "user b")],
        &vec![skill("SK_C", "project c"), skill("SK_A", "project a")],
    );
    assert_eq!(merged, vec![skill("SK_A", "project a"), skill("SK_B", "user b"), skill("SK_C", "project c")]);
    let t = skill_token(&merged[0]);
    assert_eq!(t.token_type, "skill");
    assert_eq!(t.full_desc.as_deref(), Some("project a full"));
}

#[test]
fn later_workflow_source_wins() {
    let wf = |id: &str, sd: &str| WorkflowDef { id: id.to_string(), short_desc: sd.to_string(), full_desc: String::new() };
    let merged = merge_workflows(&vec![wf("WF_X", "b")], &vec![], &vec![wf("WF_X", "p"), wf("WF_Y", "p2")]);
    assert_eq!(merged, vec![wf("WF_X", "p"), wf("WF_Y", "p2")]);
    assert_eq!(workflow_token(&merged[1]).token_type, "workflow");
}

#[test]
fn prompt_override_hierarchy() {
    assert_eq!(merge_prompt(None, "embedded", None, None), "embedded");
    assert_eq!(merge_prompt(Some("disk".into()), "embedded", None, None), "disk");
    assert_eq!(merge_prompt(Some("disk".into()), "embedded", Some("USER OVERRIDE".into()), None), "USER OVERRIDE");
    assert_eq!(
        merge_prompt(None, "embedded", Some("USER PROMPT".into()), Some("PROJECT PROMPT".into())),
        "PROJECT PROMPT"
    );
    let names = prompt_file_names();
    assert_eq!(names, vec!["system-prompt.md", "system-prompt-phase2.md", "system-prompt-formatter.md"]);
}

#[test]
fn prompt_store_falls_back_to_builtin() {
    let mut s = PromptStore::new(vec![
        ("system-prompt.md".to_string(), "You are Context Squire.".to_string()),
        ("system-prompt-phase2.md".to_string(), "Phase two.".to_string()),
    ]);
    assert_eq!(s.system_prompt(), "You are Context Squire.");
    assert_eq!(s.get_prompt("nope.md"), "");
    s.seed(vec![("system-prompt.md".to_string(), "USER OVERRIDE".to_string())]);
    assert_eq!(s.system_prompt(), "USER OVERRIDE");
    assert_eq!(s.system_prompt_phase2(), "Phase two.");
}

#[test]
fn trace_gating() {
    assert!(trace_enabled(true, None));
    assert!(trace_enabled(false, Some(" YES ".to_string())));
    assert!(trace_enabled(false, Some("1".to_string())));
    assert!(!trace_enabled(false, Some("0".to_string())));
    assert!(!trace_enabled(false, None));
    let mut t = TraceSettings::new();
    assert!(t.dir.is_none());
    t.set_trace_dir(PathBuf::from("/tmp/a"));
    t.set_trace_dir(PathBuf::from("/tmp/b"));
    assert_eq!(t.dir, Some(PathBuf::from("/tmp/b")));
}

#[test]
fn formatter_json_extraction() {
    assert_eq!(try_extract_json("  {\"a\":1} ").as_deref(), Some("{\"a\":1}"));
    let fenced = "Here's the output:\n```json\n{\"preserve\":[\"KEEP_ME\"]}\n```\nDone.";
    assert_eq!(try_extract_json(fenced).as_deref(), Some("{\"preserve\":[\"KEEP_ME\"]}"));
    assert_eq!(try_extract_json("x ```json {\"a\":2}").as_deref(), Some("{\"a\":2}"));
    assert_eq!(try_extract_json("see ``` {\"b\":3} ``` end").as_deref(), Some("{\"b\":3}"));
    assert_eq!(try_extract_json("text {\"key\": \"value\"} more").as_deref(), Some("{\"key\": \"value\"}"));
    assert_eq!(try_extract_json("tiny {} here"), None);
    assert_eq!(try_extract_json("not json at all"), None);
}

#[test]
fn formatter_output_becomes_response() {
    let out = FormatterOutput {
        new_tokens: vec![FormatterJsonToken {
            id: "REF_X".into(),
            token_type: "referential".into(),
            short_desc: "desc".into(),
            full_desc: Some("chunk_0→chunk_1".into()),
        }],
        relationships: vec![FormatterJsonRelationship { subject: "REF_X".into(), predicate: "References".into(), object: "USR_T1".into() }],
        preserve: vec!["REF_X".into()],
    };
    let r = formatter_response(&out);
    assert_eq!(r.new_tokens.len(), 1);
    assert_eq!(r.new_tokens[0].id, "REF_X");
    assert_eq!(r.new_tokens[0].token_type, "referential");
    assert_eq!(r.relationships[0].object, "USR_T1");
    assert_eq!(r.preserve, vec!["REF_X"]);
    assert!(r.content.is_empty() && r.ask_user.is_empty());
}

#[test]
fn tool_reports() {
    let e = missing_argument("c1", "path");
    assert_eq!((e.call_id.as_str(), e.output.as_str(), e.is_error), ("c1", "Missing required argument: path", true));
    let ok = outcome_result("c2", Ok("body".to_string()));
    assert!(!ok.is_error && ok.output == "body");
    assert!(outcome_result("c2", Err("denied".to_string())).is_error);
    assert_eq!(FileReadTool.name(), "read_file");
    assert_eq!(FileReadTool.danger(), ToolDanger::Safe);
    assert_eq!(FileWriteTool.danger(), ToolDanger::Destructive);
    assert_eq!(FileWriteTool.written_message("a.txt", "héllo"), "Successfully wrote 6 bytes to a.txt");
}

#[test]
fn git_reports() {
    let g = GitTool;
    assert_eq!(g.operation("log"), Ok(GitOperation::Log));
    assert_eq!(g.operation("push"), Err("Unknown git operation: push. Use status, diff, log, or branches.".to_string()));
    assert_eq!(g.max_count(None), 10);
    assert_eq!(g.max_count(Some(4_294_967_301)), 5);
    assert_eq!(g.status_output(&vec![]), "Clean working tree");
    assert_eq!(
        g.status_output(&vec![GitStatusEntry { status: "M".into(), path: "src/a.rs".into() }]),
        "Git Status:\n  M  src/a.rs\n"
    );
    assert_eq!(g.diff_output(&vec![]), "No diffs");
    assert_eq!(g.diff_output(&vec![GitFileDiff { path: "a".into(), diff: "+x\n".into() }]), "--- a\n+x\n");
    assert_eq!(
        g.log_output(&vec![GitLogEntry { hash: "0123456789abcdef".into(), message: "fix".into(), author: "ann".into() }]),
        "0123456 fix (ann)\n"
    );
    assert_eq!(
        g.branches_output(&vec![GitBranch { name: "main".into(), current: true }, GitBranch { name: "dev".into(), current: false }]),
        "* main\n  dev\n"
    );
}

#[test]
fn search_and_terminal_reports() {
    let s = CodeSearchTool;
    assert_eq!(s.limits(), (50, 2));
    assert_eq!(s.output(&vec![]), "No matches found");
    assert_eq!(
        s.output(&vec![SearchMatch { file: "a.rs".into(), line_number: 3, column: 7, content: "let x".into() }]),
        "a.rs:3:7 let x\n"
    );
    let t = TerminalTool::new("linux", "unix");
    assert!(t.description.starts_with("Execute a shell command. Requires user approval.\nHost OS: linux (unix)\nShell: bash\n"));
    assert_eq!(t.name(), "run_terminal");
    let r = t.command_result("c", "out", "warn", false, -2);
    assert_eq!(r.output, "out\nstderr:\nwarn\n(exit code: -2)");
    assert!(r.is_error);
    assert_eq!(t.command_result("c", "", "", true, 0).output, "Command completed with exit code 0");
    assert!(TerminalTool::new("windows", "windows").description.contains("Shell: PowerShell 5.1\n"));
}

fn server(transport: &str, command: &str) -> McpServerSpec {
    McpServerSpec {
        id: "s".into(),
        name: "files".into(),
        transport: transport.into(),
        command: command.into(),
        args: vec![],
        url: None,
        enabled: true,
        env: HashMap::new(),
        headers: HashMap::new(),
    }
}

#[test]
fn mcp_framing() {
    assert_eq!(stdio_command(&server("STDIO", "  npx srv ")), Ok("npx srv".to_string()));
    assert_eq!(
        stdio_command(&server("http", "x")),
        Err("MCP transport 'http' is not supported for handshake yet".to_string())
    );
    assert_eq!(stdio_command(&server("stdio", "  ")), Err("MCP server 'files' has empty command".to_string()));
    assert_eq!(frame_header(42), "Content-Length: 42\r\n\r\n");
    assert_eq!(header_line("\r\n"), HeaderLine::End);
    assert_eq!(header_line("Content-Length: 17\r\n"), HeaderLine::ContentLength(Ok(17)));
    assert_eq!(header_line("Content-Type: json"), HeaderLine::Other);
    match header_line("content-length: abc") {
        HeaderLine::ContentLength(Err(e)) => assert!(e.starts_with("Invalid Content-Length 'abc': ")),
        other => panic!("unexpected {:?}", other),
    }
}

#[test]
fn formatter_reply_takes_json_then_bookmarks_and_refuses_the_rest() {
    let fenced = "Here's the output:\n```json\n{\"new_tokens\":[],\"relationships\":[],\"preserve\":[\"KEEP_ME\"]}\n```\nDone.";
    assert_eq!(
        formatter_json_text(fenced).as_deref(),
        Some("{\"new_tokens\":[],\"relationships\":[],\"preserve\":[\"KEEP_ME\"]}")
    );
    let parsed = FormatterOutput { new_tokens: vec![], relationships: vec![], preserve: vec!["KEEP_ME".to_string()] };
    let resp = formatter_reply(fenced, Some(Ok(parsed))).unwrap();
    assert_eq!(resp.preserve, vec!["KEEP_ME".to_string()]);

    assert_eq!(formatter_json_text("not json at all"), None);
    assert_eq!(
        formatter_reply("not json at all", None),
        Err("Formatter output parse failed: no JSON object, also not valid Bookmark Protocol".to_string())
    );

    let bookmarks = "§#preserve\nKEEP_ME\n§#relationships\nA | Rel | B";
    assert_eq!(formatter_json_text(bookmarks), None);
    let resp = formatter_reply(bookmarks, None).unwrap();
    assert_eq!(resp.preserve, vec!["KEEP_ME".to_string()]);
    assert_eq!(resp.relationships.len(), 1);

    let broken = "{\"new_tokens\": [";
    assert_eq!(
        formatter_reply(broken, Some(Err("EOF while parsing a list".to_string()))),
        Err("Formatter output parse failed: JSON error: EOF while parsing a list, also not valid Bookmark Protocol"
            .to_string())
    );
    // Extraction that would cut an inverted slice finds no JSON instead.
    assert_eq!(formatter_json_text("close } then open {"), None);
}
