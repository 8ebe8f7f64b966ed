//! The local agent tools (file read/write, git, code search, terminal):
//! their names and danger levels, argument errors, and how what they ran
//! is reported back to the model.

use vstd::prelude::*;
use crate::text::{byte_len, chars_of, dec, lit, push_all, push_dec, str_byte_len, string_of};
use crate::types::{ToolDanger, ToolResult};

verus! {

/// `n` in decimal, with a `-` when negative.
pub open spec fn dec_i(n: int) -> Seq<char> {
    if n < 0 {
        seq!['-'] + dec((-n) as nat)
    } else {
        dec(n as nat)
    }
}

fn push_dec_i32(out: &mut Vec<char>, n: i32)
    ensures
        final(out)@ == old(out)@ + dec_i(n as int),
{
    if n < 0 {
        let ghost start = out@;
        out.push('-');
        let m: u64 = (0i64 - (n as i64)) as u64;
        push_dec(out, m);
        assert(out@ =~= start + dec_i(n as int));
    } else {
        push_dec(out, n as u64);
    }
}

fn text(parts: Vec<char>) -> (r: String)
    ensures
        r@ == parts@,
{
    string_of(parts.as_slice())
}

/// The error result for a required argument the call lacks.
pub fn missing_argument(call_id: &str, name: &str) -> (r: ToolResult)
    ensures
        r.call_id@ == call_id@,
        r.output@ == "Missing required argument: "@ + name@,
        r.is_error,
{
    let mut v = chars_of("Missing required argument: ");
    push_all(&mut v, &chars_of(name));
    ToolResult { call_id: lit(call_id), output: text(v), is_error: true }
}

/// The result of a tool whose work produced `outcome`: its text, or its
/// error as an error result.
pub fn outcome_result(call_id: &str, outcome: Result<String, String>) -> (r: ToolResult)
    ensures
        r.call_id@ == call_id@,
        match outcome {
            Ok(s) => r.output == s && !r.is_error,
            Err(e) => r.output == e && r.is_error,
        },
{
    match outcome {
        Ok(s) => ToolResult { call_id: lit(call_id), output: s, is_error: false },
        Err(e) => ToolResult { call_id: lit(call_id), output: e, is_error: true },
    }
}

// ───────────────────────────── files ─────────────────────────────

/// Reads a file at a given path.
pub struct FileReadTool;

impl FileReadTool {
    pub fn name(&self) -> (r: &'static str)
        ensures
            r@ == "read_file"@,
    {
        "read_file"
    }

    pub fn description(&self) -> (r: &'static str)
        ensures
            r@ == "Read the contents of a file at the given path"@,
    {
        "Read the contents of a file at the given path"
    }

    pub fn danger(&self) -> (r: ToolDanger)
        ensures
            r == ToolDanger::Safe,
    {
        ToolDanger::Safe
    }
}

/// Writes a file (after the user approves).
pub struct FileWriteTool;

impl FileWriteTool {
    pub fn name(&self) -> (r: &'static str)
        ensures
            r@ == "write_file"@,
    {
        "write_file"
    }

    pub fn description(&self) -> (r: &'static str)
        ensures
            r@ == "Write content to a file. Creates parent directories if needed. Requires user approval."@,
    {
        "Write content to a file. Creates parent directories if needed. Requires user approval."
    }

    pub fn danger(&self) -> (r: ToolDanger)
        ensures
            r == ToolDanger::Destructive,
    {
        ToolDanger::Destructive
    }

    /// The report of a successful write: the content's size in bytes and
    /// the path.
    pub fn written_message(&self, path: &str, content: &str) -> (r: String)
        ensures
            r@ == "Successfully wrote "@ + dec(byte_len(content@)) + " bytes to "@ + path@,
    {
        let mut v = chars_of("Successfully wrote ");
        push_dec(&mut v, str_byte_len(content) as u64);
        push_all(&mut v, &chars_of(" bytes to "));
        push_all(&mut v, &chars_of(path));
        text(v)
    }
}

// ───────────────────────────── git ─────────────────────────────

/// A read-only git operation.
#[derive(Debug, Clone, Copy, PartialEq, Eq, Structural)]
pub enum GitOperation {
    Status,
    Diff,
    Log,
    Branches,
}

/// Runs read-only git operations.
pub struct GitTool;

pub open spec fn git_operation_of(op: Seq<char>) -> Option<GitOperation> {
    if op == "status"@ {
        Some(GitOperation::Status)
    } else if op == "diff"@ {
        Some(GitOperation::Diff)
    } else if op == "log"@ {
        Some(GitOperation::Log)
    } else if op == "branches"@ {
        Some(GitOperation::Branches)
    } else {
        None
    }
}

/// A changed file of `git status`.
#[derive(Debug, Clone, PartialEq)]
pub struct GitStatusEntry {
    pub status: String,
    pub path: String,
}

/// The diff of one file.
#[derive(Debug, Clone, PartialEq)]
pub struct GitFileDiff {
    pub path: String,
    pub diff: String,
}

/// A commit of `git log`.
#[derive(Debug, Clone, PartialEq)]
pub struct GitLogEntry {
    pub hash: String,
    pub message: String,
    pub author: String,
}

/// A local branch.
#[derive(Debug, Clone, PartialEq)]
pub struct GitBranch {
    pub name: String,
    pub current: bool,
}

pub open spec fn status_lines(e: Seq<GitStatusEntry>) -> Seq<char>
    decreases e.len(),
{
    if e.len() == 0 {
        Seq::empty()
    } else {
        status_lines(e.drop_last()) + "  "@ + e.last().status@ + "  "@ + e.last().path@ + seq!['\n']
    }
}

pub open spec fn diff_text(d: Seq<GitFileDiff>) -> Seq<char>
    decreases d.len(),
{
    if d.len() == 0 {
        Seq::empty()
    } else {
        diff_text(d.drop_last()) + "--- "@ + d.last().path@ + seq!['\n'] + d.last().diff@
    }
}

/// At most the first seven characters of a commit hash.
pub open spec fn short_hash(h: Seq<char>) -> Seq<char> {
    if h.len() > 7 {
        h.take(7)
    } else {
        h
    }
}

pub open spec fn log_text(e: Seq<GitLogEntry>) -> Seq<char>
    decreases e.len(),
{
    if e.len() == 0 {
        Seq::empty()
    } else {
        log_text(e.drop_last()) + short_hash(e.last().hash@) + seq![' '] + e.last().message@ + " ("@
            + e.last().author@ + ")\n"@
    }
}

pub open spec fn branches_text(b: Seq<GitBranch>) -> Seq<char>
    decreases b.len(),
{
    if b.len() == 0 {
        Seq::empty()
    } else {
        branches_text(b.drop_last()) + (if b.last().current {
            "* "@
        } else {
            "  "@
        }) + b.last().name@ + seq!['\n']
    }
}

impl GitTool {
    pub fn name(&self) -> (r: &'static str)
        ensures
            r@ == "git"@,
    {
        "git"
    }

    pub fn description(&self) -> (r: &'static str)
        ensures
            r@ == "Run git operations: status, diff, log, branches. Read-only git operations."@,
    {
        "Run git operations: status, diff, log, branches. Read-only git operations."
    }

    /// The operation an `operation` argument names, or the error for an
    /// unknown one.
    pub fn operation(&self, op: &str) -> (r: Result<GitOperation, String>)
        ensures
            match git_operation_of(op@) {
                Some(g) => r == Ok::<GitOperation, String>(g),
                None => match r {
                    Err(e) => e@ == "Unknown git operation: "@ + op@
                        + ". Use status, diff, log, or branches."@,
                    Ok(_) => false,
                },
            },
    {
        let v = chars_of(op);
        if crate::text::chars_eq(&v, &chars_of("status")) {
            Ok(GitOperation::Status)
        } else if crate::text::chars_eq(&v, &chars_of("diff")) {
            Ok(GitOperation::Diff)
        } else if crate::text::chars_eq(&v, &chars_of("log")) {
            Ok(GitOperation::Log)
        } else if crate::text::chars_eq(&v, &chars_of("branches")) {
            Ok(GitOperation::Branches)
        } else {
            let mut m = chars_of("Unknown git operation: ");
            push_all(&mut m, &v);
            push_all(&mut m, &chars_of(". Use status, diff, log, or branches."));
            Err(text(m))
        }
    }

    /// Log length asked for: `max_count` (cut to 32 bits), 10 by default.
    pub fn max_count(&self, max_count: Option<i64>) -> (r: i32)
        ensures
            r == (match max_count {
                Some(n) => n as i32,
                None => 10i32,
            }),
    {
        match max_count {
            Some(n) => n as i32,
            None => 10,
        }
    }

    /// `git status` as reported: `Clean working tree`, or a header and one
    /// indented line per changed file.
    pub fn status_output(&self, entries: &Vec<GitStatusEntry>) -> (r: String)
        ensures
            r@ == (if entries@.len() == 0 {
                "Clean working tree"@
            } else {
                "Git Status:\n"@ + status_lines(entries@)
            }),
    {
        if entries.len() == 0 {
            return lit("Clean working tree");
        }
        let mut v = chars_of("Git Status:\n");
        let ghost head = v@;
        let mut i: usize = 0;
        while i < entries.len()
            invariant
                i <= entries.len(),
                v@ == head + status_lines(entries@.take(i as int)),
            decreases entries.len() - i,
        {
            assert(entries@.take(i + 1).drop_last() =~= entries@.take(i as int));
            push_all(&mut v, &chars_of("  "));
            push_all(&mut v, &chars_of(entries[i].status.as_str()));
            push_all(&mut v, &chars_of("  "));
            push_all(&mut v, &chars_of(entries[i].path.as_str()));
            v.push('\n');
            i = i + 1;
        }
        assert(entries@.take(entries.len() as int) =~= entries@);
        text(v)
    }

    /// `git diff` as reported: `No diffs`, or each file's header and diff.
    pub fn diff_output(&self, diffs: &Vec<GitFileDiff>) -> (r: String)
        ensures
            r@ == (if diffs@.len() == 0 {
                "No diffs"@
            } else {
                diff_text(diffs@)
            }),
    {
        if diffs.len() == 0 {
            return lit("No diffs");
        }
        let mut v: Vec<char> = Vec::new();
        let mut i: usize = 0;
        while i < diffs.len()
            invariant
                i <= diffs.len(),
                v@ == diff_text(diffs@.take(i as int)),
            decreases diffs.len() - i,
        {
            assert(diffs@.take(i + 1).drop_last() =~= diffs@.take(i as int));
            push_all(&mut v, &chars_of("--- "));
            push_all(&mut v, &chars_of(diffs[i].path.as_str()));
            v.push('\n');
            push_all(&mut v, &chars_of(diffs[i].diff.as_str()));
            i = i + 1;
        }
        assert(diffs@.take(diffs.len() as int) =~= diffs@);
        text(v)
    }

    /// `git log` as reported: one line per commit with its short hash,
    /// message and author.
    pub fn log_output(&self, entries: &Vec<GitLogEntry>) -> (r: String)
        ensures
            r@ == log_text(entries@),
    {
        let mut v: Vec<char> = Vec::new();
        let mut i: usize = 0;
        while i < entries.len()
            invariant
                i <= entries.len(),
                v@ == log_text(entries@.take(i as int)),
            decreases entries.len() - i,
        {
            assert(entries@.take(i + 1).drop_last() =~= entries@.take(i as int));
            let h = chars_of(entries[i].hash.as_str());
            let k = if h.len() > 7 {
                7
            } else {
                h.len()
            };
            let sh = crate::text::slice_vec(&h, 0, k);
            assert(sh@ =~= short_hash(h@));
            push_all(&mut v, &sh);
            v.push(' ');
            push_all(&mut v, &chars_of(entries[i].message.as_str()));
            push_all(&mut v, &chars_of(" ("));
            push_all(&mut v, &chars_of(entries[i].author.as_str()));
            push_all(&mut v, &chars_of(")\n"));
            i = i + 1;
        }
        assert(entries@.take(entries.len() as int) =~= entries@);
        text(v)
    }

    /// The branches as reported, the current one marked with `*`.
    pub fn branches_output(&self, branches: &Vec<GitBranch>) -> (r: String)
        ensures
            r@ == branches_text(branches@),
    {
        let mut v: Vec<char> = Vec::new();
        let mut i: usize = 0;
        while i < branches.len()
            invariant
                i <= branches.len(),
                v@ == branches_text(branches@.take(i as int)),
            decreases branches.len() - i,
        {
            assert(branches@.take(i + 1).drop_last() =~= branches@.take(i as int));
            if branches[i].current {
                push_all(&mut v, &chars_of("* "));
            } else {
                push_all(&mut v, &chars_of("  "));
            }
            push_all(&mut v, &chars_of(branches[i].name.as_str()));
            v.push('\n');
            i = i + 1;
        }
        assert(branches@.take(branches.len() as int) =~= branches@);
        text(v)
    }
}

// ───────────────────────────── code search ─────────────────────────────

/// A line found by a code search.
#[derive(Debug, Clone, PartialEq)]
pub struct SearchMatch {
    pub file: String,
    pub line_number: u64,
    pub column: u64,
    pub content: String,
}

/// Searches code with ripgrep.
pub struct CodeSearchTool;

pub open spec fn matches_text(m: Seq<SearchMatch>) -> Seq<char>
    decreases m.len(),
{
    if m.len() == 0 {
        Seq::empty()
    } else {
        matches_text(m.drop_last()) + m.last().file@ + seq![':'] + dec(m.last().line_number as nat)
            + seq![':'] + dec(m.last().column as nat) + seq![' '] + m.last().content@ + seq!['\n']
    }
}

impl CodeSearchTool {
    pub fn name(&self) -> (r: &'static str)
        ensures
            r@ == "search_code"@,
    {
        "search_code"
    }

    pub fn description(&self) -> (r: &'static str)
        ensures
            r@ == "Search code using ripgrep. Returns matching lines with file paths and line numbers."@,
    {
        "Search code using ripgrep. Returns matching lines with file paths and line numbers."
    }

    /// Most matches a search returns, and lines of context around each.
    pub fn limits(&self) -> (r: (usize, usize))
        ensures
            r == (50usize, 2usize),
    {
        (50, 2)
    }

    /// Matches as reported: `No matches found`, or one `file:line:col text`
    /// line per match.
    pub fn output(&self, matches: &Vec<SearchMatch>) -> (r: String)
        ensures
            r@ == (if matches@.len() == 0 {
                "No matches found"@
            } else {
                matches_text(matches@)
            }),
    {
        if matches.len() == 0 {
            return lit("No matches found");
        }
        let mut v: Vec<char> = Vec::new();
        let mut i: usize = 0;
        while i < matches.len()
            invariant
                i <= matches.len(),
                v@ == matches_text(matches@.take(i as int)),
            decreases matches.len() - i,
        {
            assert(matches@.take(i + 1).drop_last() =~= matches@.take(i as int));
            push_all(&mut v, &chars_of(matches[i].file.as_str()));
            v.push(':');
            push_dec(&mut v, matches[i].line_number);
            v.push(':');
            push_dec(&mut v, matches[i].column);
            v.push(' ');
            push_all(&mut v, &chars_of(matches[i].content.as_str()));
            v.push('\n');
            i = i + 1;
        }
        assert(matches@.take(matches.len() as int) =~= matches@);
        text(v)
    }
}

// ───────────────────────────── terminal ─────────────────────────────

/// Runs a shell command (after the user approves); its description names
/// the host's OS and shell.
pub struct TerminalTool {
    pub description: String,
}

pub open spec fn shell_of(os: Seq<char>) -> (Seq<char>, Seq<char>) {
    if os == "windows"@ {
        (
            "PowerShell 5.1"@,
            "Use PowerShell syntax: semicolons between commands (`a; b`), `$?` for last exit status, `$env:VAR` for env vars. Pipeline operators `&&`/`||` are NOT available — chain with `; if ($?) { ... }`. Backtick (`` ` ``) is the escape character, not backslash."@,
        )
    } else if os == "macos"@ {
        (
            "zsh (macOS default)"@,
            "Standard POSIX shell syntax. `&&`/`||` for chaining. `$VAR` for env vars. Backslash escape."@,
        )
    } else {
        (
            "bash"@,
            "Standard POSIX shell syntax. `&&`/`||` for chaining. `$VAR` for env vars. Backslash escape."@,
        )
    }
}

pub open spec fn terminal_description_of(os: Seq<char>, family: Seq<char>) -> Seq<char> {
    "Execute a shell command. Requires user approval.\nHost OS: "@ + os + " ("@ + family
        + ")\nShell: "@ + shell_of(os).0 + "\nShell guidance: "@ + shell_of(os).1
        + "\nReturns stdout, stderr, and exit code."@
}

/// How a finished command is reported: stdout, then `stderr:` and stderr,
/// then the exit code when it failed; a bare completion line when there is
/// no output at all.
pub open spec fn terminal_output_of(stdout: Seq<char>, stderr: Seq<char>, success: bool, exit_code: i32) -> Seq<char> {
    let a = stdout;
    let b = if stderr.len() > 0 {
        (if a.len() > 0 {
            a + seq!['\n']
        } else {
            a
        }) + "stderr:\n"@ + stderr
    } else {
        a
    };
    let c = if !success {
        b + "\n(exit code: "@ + dec_i(exit_code as int) + seq![')']
    } else {
        b
    };
    if c.len() == 0 {
        "Command completed with exit code "@ + dec_i(exit_code as int)
    } else {
        c
    }
}

impl TerminalTool {
    /// The tool for a host with this OS and OS family (`windows`, `macos`,
    /// others use bash).
    pub fn new(os: &str, family: &str) -> (r: Self)
        ensures
            r.description@ == terminal_description_of(os@, family@),
    {
        let o = chars_of(os);
        let (shell, hint) = if crate::text::chars_eq(&o, &chars_of("windows")) {
            (
                "PowerShell 5.1",
                "Use PowerShell syntax: semicolons between commands (`a; b`), `$?` for last exit status, `$env:VAR` for env vars. Pipeline operators `&&`/`||` are NOT available — chain with `; if ($?) { ... }`. Backtick (`` ` ``) is the escape character, not backslash.",
            )
        } else if crate::text::chars_eq(&o, &chars_of("macos")) {
            (
                "zsh (macOS default)",
                "Standard POSIX shell syntax. `&&`/`||` for chaining. `$VAR` for env vars. Backslash escape.",
            )
        } else {
            (
                "bash",
                "Standard POSIX shell syntax. `&&`/`||` for chaining. `$VAR` for env vars. Backslash escape.",
            )
        };
        assert(shell@ == shell_of(os@).0 && hint@ == shell_of(os@).1);
        let mut v = chars_of("Execute a shell command. Requires user approval.\nHost OS: ");
        push_all(&mut v, &o);
        push_all(&mut v, &chars_of(" ("));
        push_all(&mut v, &chars_of(family));
        push_all(&mut v, &chars_of(")\nShell: "));
        push_all(&mut v, &chars_of(shell));
        push_all(&mut v, &chars_of("\nShell guidance: "));
        push_all(&mut v, &chars_of(hint));
        push_all(&mut v, &chars_of("\nReturns stdout, stderr, and exit code."));
        TerminalTool { description: text(v) }
    }

    pub fn name(&self) -> (r: &'static str)
        ensures
            r@ == "run_terminal"@,
    {
        "run_terminal"
    }

    pub fn danger(&self) -> (r: ToolDanger)
        ensures
            r == ToolDanger::Destructive,
    {
        ToolDanger::Destructive
    }

    /// The result of a finished command; an error result when it failed.
    pub fn command_result(&self, call_id: &str, stdout: &str, stderr: &str, success: bool, exit_code: i32) -> (r:
        ToolResult)
        ensures
            r.call_id@ == call_id@,
            r.output@ == terminal_output_of(stdout@, stderr@, success, exit_code),
            r.is_error == !success,
    {
        let mut v = chars_of(stdout);
        let e = chars_of(stderr);
        if e.len() > 0 {
            if v.len() > 0 {
                v.push('\n');
            }
            push_all(&mut v, &chars_of("stderr:\n"));
            push_all(&mut v, &e);
        }
        if !success {
            push_all(&mut v, &chars_of("\n(exit code: "));
            push_dec_i32(&mut v, exit_code);
            v.push(')');
        }
        if v.len() == 0 {
            let mut m = chars_of("Command completed with exit code ");
            push_dec_i32(&mut m, exit_code);
            v = m;
        }
        ToolResult { call_id: lit(call_id), output: text(v), is_error: !success }
    }
}

} // verus!
