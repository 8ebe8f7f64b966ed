//! Decisions of the sub-agent tool: the hidden session's title, the local
//! names and descriptions of the MCP tools it registers, the guiding system
//! message, and the bounded loop of model rounds.

use vstd::prelude::*;
use vstd::seq_lib::*;
use crate::chat::{ChatMessage, ChatRole, FinishReason, StreamEvent, ToolCall};
use crate::text::{byte_len, char_width, chars_of, dec, is_ascii_alnum, lemma_byte_len_prefix, lemma_dec_injective, lemma_dec_nonempty, lemma_encode_push, push_all, push_dec, string_of, sviews};
use crate::types::ToolResult;

verus! {

// ───────────────────────────── session title ─────────────────────────────

/// Whether `s` has a character boundary `n` bytes in.
pub open spec fn has_boundary_at(s: Seq<char>, n: nat) -> bool {
    exists|k: int| 0 <= k <= s.len() && byte_len(#[trigger] s.take(k)) == n
}

/// The characters of `s` that fill its first `n` bytes.
pub open spec fn byte_prefix(s: Seq<char>, n: nat) -> Seq<char> {
    let k = choose|k: int| 0 <= k <= s.len() && byte_len(#[trigger] s.take(k)) == n;
    s.take(k)
}

/// Title of the hidden session: `Subagent: ` and the task, cut to its first
/// 57 bytes and `...` when it is longer than 60 bytes.
pub open spec fn session_title(task: Seq<char>) -> Seq<char> {
    if byte_len(task) > 60 {
        "Subagent: "@ + byte_prefix(task, 57) + "..."@
    } else {
        "Subagent: "@ + task
    }
}

proof fn lemma_prefix_lengths_grow(s: Seq<char>, a: int, b: int)
    requires
        0 <= a < b <= s.len(),
    ensures
        byte_len(s.take(a)) < byte_len(s.take(b)),
    decreases b - a,
{
    assert(s.take(b) =~= s.take(b - 1).push(s[b - 1]));
    lemma_encode_push(s.take(b - 1), s[b - 1]);
    if a < b - 1 {
        lemma_prefix_lengths_grow(s, a, b - 1);
    }
}

/// Title of the hidden session a sub-agent runs in.
pub fn subagent_session_title(task: &str) -> (r: String)
    requires
        byte_len(task@) > 60 ==> has_boundary_at(task@, 57),
    ensures
        r@ == session_title(task@),
{
    let c = chars_of(task);
    let mut out = chars_of("Subagent: ");
    if !crate::text::byte_len_at_most(&c, 60) {
        let ghost kk = choose|k: int| 0 <= k <= task@.len() && byte_len(#[trigger] task@.take(k)) == 57;
        let mut k: usize = 0;
        let mut sum: usize = 0;
        proof {
            assert(c@.take(0) =~= Seq::<char>::empty());
            assert(vstd::utf8::encode_utf8(Seq::<char>::empty()) =~= Seq::<u8>::empty());
        }
        while sum < 57
            invariant
                c@ == task@,
                0 <= kk <= c@.len(),
                byte_len(c@.take(kk)) == 57,
                k <= kk,
                sum == byte_len(c@.take(k as int)),
                sum <= 57,
            decreases kk - k,
        {
            proof {
                if k == kk {
                    assert(false);
                }
                assert(c@.take(k + 1) =~= c@.take(k as int).push(c@[k as int]));
                lemma_encode_push(c@.take(k as int), c@[k as int]);
                if k + 1 < kk {
                    lemma_prefix_lengths_grow(c@, k + 1, kk);
                }
            }
            assert(k < kk);
            assert(k < c.len());
            sum = sum + char_width(c[k]);
            k = k + 1;
        }
        proof {
            if k < kk {
                lemma_prefix_lengths_grow(c@, k as int, kk);
            }
            assert(k == kk);
        }
        let ghost before = out@;
        let mut i: usize = 0;
        while i < k
            invariant
                k <= c@.len(),
                i <= k,
                out@ == before + c@.take(i as int),
            decreases k - i,
        {
            out.push(c[i]);
            assert(c@.take(i + 1) =~= c@.take(i as int).push(c@[i as int]));
            i = i + 1;
        }
        push_all(&mut out, &chars_of("..."));
    } else {
        push_all(&mut out, &c);
    }
    string_of(out.as_slice())
}

// ───────────────────────────── MCP tool names ─────────────────────────────

/// `s` with every character that is not an ASCII letter or digit replaced by `_`.
pub open spec fn sanitized(s: Seq<char>) -> Seq<char> {
    s.map_values(|c: char| if is_ascii_alnum(c) { c } else { '_' })
}

/// The `j`-th name tried for an MCP tool: `mcp_{server}_{tool}`, then the
/// same with `_2`, `_3`, … appended.
pub open spec fn local_name_candidate(server_id: Seq<char>, tool_name: Seq<char>, j: nat) -> Seq<char> {
    let base = "mcp_"@ + sanitized(server_id) + "_"@ + sanitized(tool_name);
    if j == 0 { base } else { base + "_"@ + dec(j + 1) }
}

/// Candidate `k` is the first one not in `used`.
pub open spec fn first_free(used: Seq<Seq<char>>, server_id: Seq<char>, tool_name: Seq<char>, k: nat) -> bool {
    &&& !used.contains(local_name_candidate(server_id, tool_name, k))
    &&& forall|j: nat| j < k ==> used.contains(#[trigger] local_name_candidate(server_id, tool_name, j))
}

proof fn lemma_candidates_distinct(server_id: Seq<char>, tool_name: Seq<char>, i: nat, j: nat)
    requires
        i != j,
    ensures
        local_name_candidate(server_id, tool_name, i) != local_name_candidate(server_id, tool_name, j),
{
    reveal_strlit("_");
    let base = "mcp_"@ + sanitized(server_id) + "_"@ + sanitized(tool_name);
    let bl = base.len();
    if i == 0 || j == 0 {
        let other = if i == 0 { j } else { i };
        lemma_dec_nonempty(other + 1);
        assert(local_name_candidate(server_id, tool_name, other).len() > bl);
    } else {
        let ci = local_name_candidate(server_id, tool_name, i);
        let cj = local_name_candidate(server_id, tool_name, j);
        if ci == cj {
            assert(ci.subrange(bl + 1int, ci.len() as int) =~= dec(i + 1));
            assert(cj.subrange(bl + 1int, cj.len() as int) =~= dec(j + 1));
            lemma_dec_injective(i + 1, j + 1);
        }
    }
}

/// If the first `n + 1` candidates were all taken, `used` would hold `n + 1`
/// distinct names.
proof fn lemma_some_candidate_free(used: Seq<Seq<char>>, server_id: Seq<char>, tool_name: Seq<char>, n: nat)
    requires
        forall|j: nat| j < n ==> used.contains(#[trigger] local_name_candidate(server_id, tool_name, j)),
    ensures
        n <= used.len(),
{
    let cands = Seq::new(n, |j: int| local_name_candidate(server_id, tool_name, j as nat));
    assert forall|a: int, b: int| 0 <= a < cands.len() && 0 <= b < cands.len() && a != b implies cands[a] != cands[b] by {
        lemma_candidates_distinct(server_id, tool_name, a as nat, b as nat);
    }
    assert(cands.no_duplicates());
    cands.unique_seq_to_set();
    used.lemma_cardinality_of_set();
    assert forall|x: Seq<char>| cands.to_set().contains(x) implies used.to_set().contains(x) by {
        let j = choose|j: int| 0 <= j < cands.len() && cands[j] == x;
        assert(used.contains(local_name_candidate(server_id, tool_name, j as nat)));
    }
    vstd::set_lib::lemma_len_subset(cands.to_set(), used.to_set());
}

/// `s` with every character that is not an ASCII letter or digit replaced by `_`.
fn sanitize(s: &str) -> (r: Vec<char>)
    ensures
        r@ == sanitized(s@),
{
    let c = chars_of(s);
    let mut out: Vec<char> = Vec::new();
    let mut i: usize = 0;
    while i < c.len()
        invariant
            c@ == s@,
            i <= c.len(),
            out@ == sanitized(c@.take(i as int)),
        decreases c.len() - i,
    {
        let ch = c[i];
        let alnum = ('a' <= ch && ch <= 'z') || ('A' <= ch && ch <= 'Z') || ('0' <= ch && ch <= '9');
        out.push(if alnum { ch } else { '_' });
        assert(sanitized(c@.take(i + 1)) =~= sanitized(c@.take(i as int)).push(if is_ascii_alnum(ch) { ch } else { '_' }));
        i = i + 1;
    }
    assert(c@.take(c@.len() as int) =~= c@);
    out
}

fn contains_name(used: &Vec<String>, name: &Vec<char>) -> (r: bool)
    ensures
        r == sviews(used@).contains(name@),
{
    let s = string_of(name.as_slice());
    let mut i: usize = 0;
    while i < used.len()
        invariant
            i <= used@.len(),
            s@ == name@,
            forall|j: int| 0 <= j < i ==> sviews(used@)[j] != name@,
        decreases used.len() - i,
    {
        if used[i] == s {
            assert(sviews(used@)[i as int] == name@);
            return true;
        }
        i = i + 1;
    }
    false
}

/// Pick the local name of a discovered MCP tool: the first candidate that
/// is not yet used, which is then recorded as used.
pub fn assign_mcp_local_name(used: &mut Vec<String>, server_id: &str, tool_name: &str) -> (r: String)
    requires
        old(used)@.len() < u64::MAX,
    ensures
        exists|k: nat| first_free(sviews(old(used)@), server_id@, tool_name@, k) && r@ == local_name_candidate(server_id@, tool_name@, k),
        final(used)@ == old(used)@.push(r),
{
    let ghost uv = sviews(used@);
    let mut base = chars_of("mcp_");
    push_all(&mut base, &sanitize(server_id));
    push_all(&mut base, &chars_of("_"));
    push_all(&mut base, &sanitize(tool_name));
    assert(base@ == local_name_candidate(server_id@, tool_name@, 0));
    let mut name = base.clone();
    let mut j: u64 = 0;
    while contains_name(used, &name)
        invariant
            uv == sviews(used@),
            uv.len() < u64::MAX,
            base@ == local_name_candidate(server_id@, tool_name@, 0),
            name@ == local_name_candidate(server_id@, tool_name@, j as nat),
            j <= uv.len(),
            forall|x: nat| x < j ==> uv.contains(#[trigger] local_name_candidate(server_id@, tool_name@, x)),
        decreases uv.len() - j,
    {
        proof {
            lemma_some_candidate_free(uv, server_id@, tool_name@, (j + 1) as nat);
        }
        j = j + 1;
        name = base.clone();
        push_all(&mut name, &chars_of("_"));
        push_dec(&mut name, j + 1);
    }
    let r = string_of(name.as_slice());
    used.push(r.clone());
    proof {
        assert(sviews(old(used)@) == uv);
    }
    r
}

/// Description of a proxied MCP tool.
pub fn mcp_local_description(remote_name: &str, server_name: &str, description: &str) -> (r: String)
    ensures
        r@ == "MCP tool '"@ + remote_name@ + "' from server '"@ + server_name@ + "': "@ + description@,
{
    let mut out = chars_of("MCP tool '");
    push_all(&mut out, &chars_of(remote_name));
    push_all(&mut out, &chars_of("' from server '"));
    push_all(&mut out, &chars_of(server_name));
    push_all(&mut out, &chars_of("': "));
    push_all(&mut out, &chars_of(description));
    string_of(out.as_slice())
}


// ───────────────────────────── conversation ─────────────────────────────

pub open spec fn guide_text() -> Seq<char> {
    "You are a helpful sub-agent. You have access to tools to help complete the task. Work autonomously and report your findings."@
}

/// Put the guiding system message first unless the conversation already
/// opens with a system message.
pub fn ensure_system_message(messages: &mut Vec<ChatMessage>)
    ensures
        old(messages)@.len() > 0 && old(messages)@[0].role == ChatRole::System ==> final(messages)@ == old(messages)@,
        !(old(messages)@.len() > 0 && old(messages)@[0].role == ChatRole::System) ==> {
            &&& final(messages)@.len() == old(messages)@.len() + 1
            &&& final(messages)@.subrange(1, final(messages)@.len() as int) == old(messages)@
            &&& final(messages)@[0].role == ChatRole::System
            &&& final(messages)@[0].content@ == guide_text()
            &&& final(messages)@[0].tool_call_id is None
            &&& final(messages)@[0].tool_calls is None
            &&& final(messages)@[0].reasoning_content is None
        },
{
    if messages.len() == 0 || messages[0].role != ChatRole::System {
        let msg = ChatMessage {
            role: ChatRole::System,
            content: crate::text::lit("You are a helpful sub-agent. You have access to tools to help complete the task. Work autonomously and report your findings."),
            tool_call_id: None,
            tool_calls: None,
            reasoning_content: None,
        };
        messages.insert(0, msg);
        assert(final(messages)@.subrange(1, final(messages)@.len() as int) =~= old(messages)@);
    }
}

// ───────────────────────────── one model round ─────────────────────────────

/// What a streamed response has delivered so far.
pub struct RoundCollector {
    pub full_response: String,
    pub tool_calls: Vec<ToolCall>,
    pub finish: Option<FinishReason>,
    pub error: Option<String>,
}

impl RoundCollector {
    pub fn new() -> (r: Self)
        ensures
            r.full_response@ == Seq::<char>::empty(),
            r.tool_calls@ == Seq::<ToolCall>::empty(),
            r.finish is None,
            r.error is None,
    {
        RoundCollector { full_response: String::new(), tool_calls: Vec::new(), finish: None, error: None }
    }

    /// Take in one event; says whether more events are wanted. Text chunks
    /// accumulate, tool calls are kept in order, thinking and log lines
    /// change nothing, and `Done` or an error ends the round.
    pub fn on_event(&mut self, event: StreamEvent) -> (more: bool)
        ensures
            match event {
                StreamEvent::Chunk(t) => more && final(self).full_response@ == old(self).full_response@ + t@
                    && final(self).tool_calls@ == old(self).tool_calls@ && final(self).finish == old(self).finish
                    && final(self).error == old(self).error,
                StreamEvent::ToolCall(tc) => more && final(self).tool_calls@ == old(self).tool_calls@.push(tc)
                    && final(self).full_response@ == old(self).full_response@ && final(self).finish == old(self).finish
                    && final(self).error == old(self).error,
                StreamEvent::Thinking(_) | StreamEvent::Log(_) => more && final(self).full_response@ == old(self).full_response@
                    && final(self).tool_calls@ == old(self).tool_calls@ && final(self).finish == old(self).finish
                    && final(self).error == old(self).error,
                StreamEvent::Done(reason) => !more && final(self).finish == Some(reason)
                    && final(self).full_response@ == old(self).full_response@ && final(self).tool_calls@ == old(self).tool_calls@
                    && final(self).error == old(self).error,
                StreamEvent::Error(e) => !more && final(self).error == Some(e)
                    && final(self).full_response@ == old(self).full_response@ && final(self).tool_calls@ == old(self).tool_calls@
                    && final(self).finish == old(self).finish,
            },
    {
        match event {
            StreamEvent::Chunk(t) => {
                let mut v = chars_of(self.full_response.as_str());
                push_all(&mut v, &chars_of(t.as_str()));
                self.full_response = string_of(v.as_slice());
                true
            },
            StreamEvent::ToolCall(tc) => {
                self.tool_calls.push(tc);
                true
            },
            StreamEvent::Thinking(_) | StreamEvent::Log(_) => true,
            StreamEvent::Done(reason) => {
                self.finish = Some(reason);
                false
            },
            StreamEvent::Error(e) => {
                self.error = Some(e);
                false
            },
        }
    }
}

/// What the sub-agent does after a round's stream has ended.
#[derive(Debug, Clone, PartialEq)]
pub enum RoundOutcome {
    /// Run the requested tools and ask the model again.
    RunTools,
    /// The answer is final.
    Complete,
    /// Stop with this error.
    Fail(String),
}

pub open spec fn round_outcome(error: Option<String>, finish: Option<FinishReason>) -> Option<Seq<char>> {
    match error {
        Some(e) => Some("Subagent stream error: "@ + e@),
        None => match finish {
            Some(FinishReason::Error) => Some("Subagent LLM returned an error finish reason"@),
            _ => None,
        },
    }
}

/// Decide how a round ends: a stream error fails; a missing finish reason
/// counts as `Stop`; tool calls continue; `Stop` and `Length` complete; an
/// error finish fails.
pub fn round_outcome_of(collector: &RoundCollector) -> (r: RoundOutcome)
    ensures
        collector.error is Some ==> (r matches RoundOutcome::Fail(m) && m@ == round_outcome(collector.error, collector.finish)->0),
        collector.error is None ==> match collector.finish {
            Some(FinishReason::ToolCalls) => r == RoundOutcome::RunTools,
            Some(FinishReason::Error) => (r matches RoundOutcome::Fail(m) && m@ == "Subagent LLM returned an error finish reason"@),
            _ => r == RoundOutcome::Complete,
        },
{
    match &collector.error {
        Some(e) => {
            let mut v = chars_of("Subagent stream error: ");
            push_all(&mut v, &chars_of(e.as_str()));
            RoundOutcome::Fail(string_of(v.as_slice()))
        },
        None => match collector.finish {
            Some(FinishReason::ToolCalls) => RoundOutcome::RunTools,
            Some(FinishReason::Error) => RoundOutcome::Fail(crate::text::lit("Subagent LLM returned an error finish reason")),
            _ => RoundOutcome::Complete,
        },
    }
}

/// Rounds a sub-agent may spend on model calls.
pub const MAX_SUBAGENT_ROUNDS: u32 = 10;

/// Start another round with `rounds_left` remaining: refused once none
/// are left, else one fewer remains.
pub fn begin_round(rounds_left: u32) -> (r: Result<u32, String>)
    ensures
        rounds_left == 0 <==> r is Err,
        r matches Ok(n) ==> n == rounds_left - 1,
        r matches Err(m) ==> m@ == "Subagent exceeded maximum tool call rounds"@,
{
    if rounds_left == 0 {
        Err(crate::text::lit("Subagent exceeded maximum tool call rounds"))
    } else {
        Ok(rounds_left - 1)
    }
}

/// Rounds left after `k` successful starts from `start`.
pub open spec fn rounds_left_after(start: nat, k: nat) -> nat {
    if k <= start { (start - k) as nat } else { 0 }
}

/// A sub-agent starts exactly `MAX_SUBAGENT_ROUNDS` rounds: each start
/// from a positive count succeeds and uses one up, and the start after the
/// last is refused.
pub proof fn law_rounds_are_bounded(k: nat)
    ensures
        k < MAX_SUBAGENT_ROUNDS ==> rounds_left_after(MAX_SUBAGENT_ROUNDS as nat, k) > 0,
        rounds_left_after(MAX_SUBAGENT_ROUNDS as nat, MAX_SUBAGENT_ROUNDS as nat) == 0,
        k < MAX_SUBAGENT_ROUNDS ==> rounds_left_after(MAX_SUBAGENT_ROUNDS as nat, k + 1) == rounds_left_after(MAX_SUBAGENT_ROUNDS as nat, k) - 1,
{
}

/// Result handed back for a call of a tool the sub-agent does not have.
pub fn unknown_tool_result(call_id: &str, name: &str) -> (r: crate::types::ToolResult)
    ensures
        r.call_id@ == call_id@,
        r.output@ == "Unknown tool: "@ + name@,
        r.is_error,
{
    let mut v = chars_of("Unknown tool: ");
    push_all(&mut v, &chars_of(name));
    crate::types::ToolResult { call_id: crate::text::lit(call_id), output: string_of(v.as_slice()), is_error: true }
}

/// What the tool call answers at once: the sub-agent runs on in its session.
pub fn subagent_started_output(task: &str, session: &str) -> (r: String)
    ensures
        r@ == "[Subagent started on task: "@ + task@ + "]\nSession: "@ + session@
            + "\nThe subagent is working independently and will report back when done."@,
{
    let mut v = chars_of("[Subagent started on task: ");
    push_all(&mut v, &chars_of(task));
    push_all(&mut v, &chars_of("]\nSession: "));
    push_all(&mut v, &chars_of(session));
    push_all(&mut v, &chars_of("\nThe subagent is working independently and will report back when done."));
    string_of(v.as_slice())
}


/// The task a sub-agent call delegates: the string member `task` of its
/// arguments, or the missing-argument error when there is none.
pub fn subagent_task(call_id: &str, args: &serde_json::Value) -> (r: Result<String, ToolResult>)
    ensures
        match crate::events::str_field_of(*args, "task"@) {
            Some(t) => (r matches Ok(s) && s@ == t),
            None => (r matches Err(e) && e.call_id@ == call_id@ && e.output@ == "Missing required argument: task"@
                && e.is_error),
        },
{
    proof {
        reveal_strlit("Missing required argument: ");
        reveal_strlit("task");
        reveal_strlit("Missing required argument: task");
        assert("Missing required argument: "@ + "task"@ =~= "Missing required argument: task"@);
    }
    match crate::events::str_field(args, "task") {
        Some(t) => Ok(t),
        None => Err(crate::tools::missing_argument(call_id, "task")),
    }
}

} // verus!
