//! Provider-side request and response rules: endpoint URLs, the `data:`
//! payloads of server-sent events, HTTP error classification, thinking
//! parameters, the system text, and the reassembly of streamed tool calls.

use vstd::prelude::*;
use crate::chat::{ChatMessage, ChatRole, LlmError, ToolCall};
use crate::text::{
    chars_of, ends_with, ends_with_exec, lines, lines_exec, push_all, push_dec, split, split_exec, starts_with,
    starts_with_exec, string_of, trim, trim_vec, vviews, sviews, dec,
};

verus! {

// ───────────────────────────── endpoints ─────────────────────────────

/// `base` when it already names the endpoint, else `base` with `suffix`.
pub open spec fn endpoint_url(base: Seq<char>, suffix: Seq<char>, also: Seq<char>) -> Seq<char> {
    if ends_with(base, suffix) || ends_with(base, also) { base } else { base + suffix }
}

/// Chat-completions URL of an OpenAI-compatible server.
pub fn openai_chat_url(base_url: &str) -> (r: String)
    ensures
        r@ == endpoint_url(base_url@, "/chat/completions"@, "/responses"@),
{
    let b = chars_of(base_url);
    if ends_with_exec(&b, &chars_of("/chat/completions")) || ends_with_exec(&b, &chars_of("/responses")) {
        string_of(b.as_slice())
    } else {
        let mut v = b;
        push_all(&mut v, &chars_of("/chat/completions"));
        string_of(v.as_slice())
    }
}

/// Messages URL of the Anthropic API.
pub fn anthropic_messages_url(base_url: &str) -> (r: String)
    ensures
        r@ == endpoint_url(base_url@, "/messages"@, "/messages"@),
{
    let b = chars_of(base_url);
    if ends_with_exec(&b, &chars_of("/messages")) {
        string_of(b.as_slice())
    } else {
        let mut v = b;
        push_all(&mut v, &chars_of("/messages"));
        string_of(v.as_slice())
    }
}

// ───────────────────────────── server-sent events ─────────────────────────────

pub open spec fn data_tag() -> Seq<char> {
    "data:"@
}

/// `s` with every leading `data:` removed (`trim_start_matches`).
pub open spec fn strip_data_tags(s: Seq<char>) -> Seq<char>
    decreases s.len(),
{
    if starts_with(s, data_tag()) && data_tag().len() > 0 {
        strip_data_tags(s.skip(data_tag().len() as int))
    } else {
        s
    }
}

/// The payload of one line of an OpenAI event stream: the trimmed line
/// must start with `data:`; every leading `data:` is removed and the rest
/// trimmed.
pub open spec fn openai_payload(line: Seq<char>) -> Option<Seq<char>> {
    let t = trim(line);
    if t.len() == 0 || !starts_with(t, data_tag()) { None } else { Some(trim(strip_data_tags(t))) }
}

/// The payloads of the `\n`-separated lines of an OpenAI stream chunk, in order.
pub open spec fn openai_payloads(pieces: Seq<Seq<char>>) -> Seq<Seq<char>>
    decreases pieces.len(),
{
    if pieces.len() == 0 {
        Seq::empty()
    } else {
        let prev = openai_payloads(pieces.drop_last());
        match openai_payload(pieces.last()) {
            Some(p) => prev.push(p),
            None => prev,
        }
    }
}

fn strip_data_tags_exec(s: &Vec<char>) -> (r: Vec<char>)
    ensures
        r@ == strip_data_tags(s@),
{
    let tag = chars_of("data:");
    proof { reveal_strlit("data:"); }
    let mut start: usize = 0;
    let mut done = false;
    assert(s@.skip(0) =~= s@);
    while !done
        invariant
            tag@ == data_tag(),
            data_tag().len() == 5,
            start <= s@.len(),
            strip_data_tags(s@) == strip_data_tags(s@.skip(start as int)),
            done ==> !starts_with(s@.skip(start as int), data_tag()),
        decreases s@.len() - start + if done { 0int } else { 1int },
    {
        let rest = crate::text::slice_vec(s, start, s.len());
        assert(rest@ =~= s@.skip(start as int));
        if starts_with_exec(&rest, &tag) {
            assert(s@.skip(start as int).skip(5) =~= s@.skip(start + 5));
            start = start + 5;
        } else {
            done = true;
        }
    }
    let r = crate::text::slice_vec(s, start, s.len());
    assert(r@ =~= s@.skip(start as int));
    r
}

/// The payloads of an OpenAI stream chunk, one per `data:` line.
pub fn openai_sse_payloads(chunk: &str) -> (r: Vec<String>)
    ensures
        sviews(r@) == openai_payloads(split(chunk@, "\n"@)),
{
    let c = chars_of(chunk);
    let nl = chars_of("\n");
    proof { reveal_strlit("\n"); }
    let pieces = split_exec(&c, &nl);
    let ghost ps = vviews(pieces@);
    let tag = chars_of("data:");
    let mut out: Vec<String> = Vec::new();
    let mut i: usize = 0;
    while i < pieces.len()
        invariant
            i <= pieces@.len(),
            ps == vviews(pieces@),
            tag@ == data_tag(),
            sviews(out@) == openai_payloads(ps.take(i as int)),
        decreases pieces.len() - i,
    {
        let ghost before = out@;
        assert(ps.take(i + 1).drop_last() =~= ps.take(i as int));
        assert(ps.take(i + 1).last() == pieces@[i as int]@);
        let t = trim_vec(&pieces[i]);
        if t.len() > 0 && starts_with_exec(&t, &tag) {
            let body = trim_vec(&strip_data_tags_exec(&t));
            out.push(string_of(body.as_slice()));
            assert(sviews(out@) =~= sviews(before).push(body@));
        }
        i = i + 1;
    }
    assert(ps.take(pieces@.len() as int) =~= ps);
    out
}

pub open spec fn anthropic_tag() -> Seq<char> {
    "data: "@
}

/// The payloads of the lines of an Anthropic stream chunk that start with
/// `data: `, that prefix removed, in order.
pub open spec fn anthropic_payloads(ls: Seq<Seq<char>>) -> Seq<Seq<char>>
    decreases ls.len(),
{
    if ls.len() == 0 {
        Seq::empty()
    } else {
        let prev = anthropic_payloads(ls.drop_last());
        let l = ls.last();
        if starts_with(l, anthropic_tag()) { prev.push(l.skip(anthropic_tag().len() as int)) } else { prev }
    }
}

/// The payloads of an Anthropic stream chunk, one per `data: ` line.
pub fn anthropic_sse_payloads(chunk: &str) -> (r: Vec<String>)
    ensures
        sviews(r@) == anthropic_payloads(lines(chunk@)),
{
    let c = chars_of(chunk);
    let ls = lines_exec(&c);
    let ghost lv = vviews(ls@);
    let tag = chars_of("data: ");
    let mut out: Vec<String> = Vec::new();
    let mut i: usize = 0;
    while i < ls.len()
        invariant
            i <= ls@.len(),
            lv == vviews(ls@),
            tag@ == anthropic_tag(),
            sviews(out@) == anthropic_payloads(lv.take(i as int)),
        decreases ls.len() - i,
    {
        let ghost before = out@;
        assert(lv.take(i + 1).drop_last() =~= lv.take(i as int));
        assert(lv.take(i + 1).last() == ls@[i as int]@);
        if starts_with_exec(&ls[i], &tag) {
            let body = crate::text::slice_vec(&ls[i], tag.len(), ls[i].len());
            out.push(string_of(body.as_slice()));
            assert(body@ =~= ls@[i as int]@.skip(anthropic_tag().len() as int));
            assert(sviews(out@) =~= sviews(before).push(body@));
        }
        i = i + 1;
    }
    assert(lv.take(ls@.len() as int) =~= lv);
    out
}

// ───────────────────────────── HTTP errors ─────────────────────────────

/// The text of the error an OpenAI-compatible server's failure status maps
/// to: the body, cut to 500 characters, or the status text when the body
/// is empty.
pub open spec fn openai_status_text(code: u16, status_text: Seq<char>, body: Seq<char>) -> Seq<char> {
    if body.len() == 0 {
        "HTTP "@ + dec(code as nat) + " ("@ + status_text + ")"@
    } else {
        "HTTP "@ + dec(code as nat) + ": "@ + crate::openai::truncated(body, 500)
    }
}

/// `e` is what a failure status maps to: 401 is an authentication error,
/// 429 rate limiting, anything else an API error with message `text`.
pub open spec fn status_error_is(e: LlmError, code: u16, text: Seq<char>) -> bool {
    if code == 401 {
        e == LlmError::Auth
    } else if code == 429 {
        e == LlmError::RateLimited
    } else {
        e matches LlmError::Api(m) && m@ == text
    }
}

/// Classify a failed response of an OpenAI-compatible server;
/// `status_text` is how the status displays (code and reason).
pub fn openai_http_error(code: u16, status_text: &str, body: &str) -> (r: LlmError)
    ensures
        status_error_is(r, code, openai_status_text(code, status_text@, body@)),
{
    if code == 401 {
        return LlmError::Auth;
    }
    if code == 429 {
        return LlmError::RateLimited;
    }
    let mut v = chars_of("HTTP ");
    push_dec(&mut v, code as u64);
    let b = chars_of(body);
    if b.len() == 0 {
        push_all(&mut v, &chars_of(" ("));
        push_all(&mut v, &chars_of(status_text));
        push_all(&mut v, &chars_of(")"));
    } else {
        push_all(&mut v, &chars_of(": "));
        let short = crate::openai::truncate_chars(body, 500);
        push_all(&mut v, &chars_of(short.as_str()));
    }
    LlmError::Api(string_of(v.as_slice()))
}

/// Classify a failed response of the Anthropic API; `status_text` is how
/// the status displays.
pub fn anthropic_http_error(code: u16, status_text: &str, body: &str) -> (r: LlmError)
    ensures
        status_error_is(r, code, "HTTP "@ + status_text@ + ": "@ + body@),
{
    if code == 401 {
        return LlmError::Auth;
    }
    if code == 429 {
        return LlmError::RateLimited;
    }
    let mut v = chars_of("HTTP ");
    push_all(&mut v, &chars_of(status_text));
    push_all(&mut v, &chars_of(": "));
    push_all(&mut v, &chars_of(body));
    LlmError::Api(string_of(v.as_slice()))
}


// ───────────────────────────── thinking parameters ─────────────────────────────

/// Thinking parameters of an OpenAI-compatible request: the `thinking`
/// type, `reasoning_effort`, and the `reasoning.effort` of OpenAI's own
/// reasoning models.
#[derive(Debug, Clone, PartialEq)]
pub struct OpenAiThinking {
    pub thinking: Option<String>,
    pub reasoning_effort: Option<String>,
    pub reasoning: Option<String>,
}

pub open spec fn thinking_view(t: OpenAiThinking) -> (Option<Seq<char>>, Option<Seq<char>>, Option<Seq<char>>) {
    (crate::protocol::opt_view(t.thinking), crate::protocol::opt_view(t.reasoning_effort), crate::protocol::opt_view(t.reasoning))
}

/// What a normalized thinking `level` asks of `model`: DeepSeek models
/// switch thinking off for `none`, leave it alone for `default`, and
/// otherwise enable it with effort `max` for `high` and `high` below that;
/// other models get the level's effort where their family takes one.
pub open spec fn openai_thinking_of(model: Seq<char>, level: Seq<char>) -> (Option<Seq<char>>, Option<Seq<char>>, Option<Seq<char>>) {
    let m = crate::text::lowercase(model);
    if crate::openai::deepseek_family(m) {
        if level == "default"@ {
            (None, None, None)
        } else if level == "none"@ {
            (Some("disabled"@), None, None)
        } else if level == "high"@ {
            (Some("enabled"@), Some("max"@), None)
        } else {
            (Some("enabled"@), Some("high"@), None)
        }
    } else {
        match crate::openai::effort_of(level) {
            None => (None, None, None),
            Some(e) => (
                None,
                if crate::openai::compat_effort_family(m) { Some(e) } else { None },
                if crate::openai::reasoning_family(m) { Some(e) } else { None },
            ),
        }
    }
}

pub fn openai_thinking(model: &str, level: &str) -> (r: OpenAiThinking)
    ensures
        thinking_view(r) == openai_thinking_of(model@, level@),
{
    let lv = chars_of(level);
    if crate::openai::is_deepseek_family(model) {
        if crate::text::chars_eq(&lv, &chars_of("default")) {
            OpenAiThinking { thinking: None, reasoning_effort: None, reasoning: None }
        } else if crate::text::chars_eq(&lv, &chars_of("none")) {
            OpenAiThinking { thinking: Some(crate::text::lit("disabled")), reasoning_effort: None, reasoning: None }
        } else if crate::text::chars_eq(&lv, &chars_of("high")) {
            OpenAiThinking { thinking: Some(crate::text::lit("enabled")), reasoning_effort: Some(crate::text::lit("max")), reasoning: None }
        } else {
            OpenAiThinking { thinking: Some(crate::text::lit("enabled")), reasoning_effort: Some(crate::text::lit("high")), reasoning: None }
        }
    } else {
        match crate::openai::effort_for_level(level) {
            None => OpenAiThinking { thinking: None, reasoning_effort: None, reasoning: None },
            Some(e) => OpenAiThinking {
                thinking: None,
                reasoning_effort: if crate::openai::is_openai_compat_reasoning_effort_family(model) { Some(crate::text::lit(e)) } else { None },
                reasoning: if crate::openai::is_openai_reasoning_family(model) { Some(crate::text::lit(e)) } else { None },
            },
        }
    }
}

/// The finish reason that a `finish_reason` field ends the stream with.
pub fn openai_finish(reason: &str) -> (r: Option<crate::chat::FinishReason>)
    ensures
        reason@ == "tool_calls"@ ==> r == Some(crate::chat::FinishReason::ToolCalls),
        reason@ == "stop"@ ==> r == Some(crate::chat::FinishReason::Stop),
        reason@ != "tool_calls"@ && reason@ != "stop"@ ==> r is None,
{
    let v = chars_of(reason);
    proof {
        reveal_strlit("tool_calls");
        reveal_strlit("stop");
        assert("tool_calls"@[0] != "stop"@[0]);
    }
    if crate::text::chars_eq(&v, &chars_of("tool_calls")) {
        Some(crate::chat::FinishReason::ToolCalls)
    } else if crate::text::chars_eq(&v, &chars_of("stop")) {
        Some(crate::chat::FinishReason::Stop)
    } else {
        None
    }
}

// ───────────────────────────── Anthropic request ─────────────────────────────

/// The contents of the system messages, in order.
pub open spec fn system_contents(ms: Seq<ChatMessage>) -> Seq<Seq<char>>
    decreases ms.len(),
{
    if ms.len() == 0 {
        Seq::empty()
    } else {
        let prev = system_contents(ms.drop_last());
        if ms.last().role == ChatRole::System { prev.push(ms.last().content@) } else { prev }
    }
}

/// The `system` text of an Anthropic request: the system messages joined by
/// newlines, absent when there are none.
pub fn anthropic_system_text(messages: &Vec<ChatMessage>) -> (r: Option<String>)
    ensures
        system_contents(messages@).len() == 0 ==> r is None,
        system_contents(messages@).len() > 0 ==> (r matches Some(s) && s@ == crate::text::join(system_contents(messages@), "\n"@)),
{
    let mut parts: Vec<Vec<char>> = Vec::new();
    let mut i: usize = 0;
    while i < messages.len()
        invariant
            i <= messages@.len(),
            vviews(parts@) == system_contents(messages@.take(i as int)),
        decreases messages.len() - i,
    {
        let ghost before = parts@;
        assert(messages@.take(i + 1).drop_last() =~= messages@.take(i as int));
        if messages[i].role == ChatRole::System {
            parts.push(chars_of(messages[i].content.as_str()));
            assert(vviews(parts@) =~= vviews(before).push(messages@[i as int].content@));
        }
        i = i + 1;
    }
    assert(messages@.take(messages@.len() as int) =~= messages@);
    if parts.len() == 0 {
        None
    } else {
        Some(string_of(crate::text::join_exec(&parts, &chars_of("\n")).as_slice()))
    }
}

/// `max_tokens` of an Anthropic request: the requested value, else 16384
/// with extended thinking and 4096 without.
pub fn anthropic_max_tokens(requested: Option<u32>, thinking_budget: Option<u32>) -> (r: u32)
    ensures
        r == match requested {
            Some(n) => n,
            None => if thinking_budget is Some { 16384u32 } else { 4096u32 },
        },
{
    match requested {
        Some(n) => n,
        None => if thinking_budget.is_some() { 16384 } else { 4096 },
    }
}

/// The role name a non-system message is sent with.
pub fn anthropic_role(role: ChatRole) -> (r: &'static str)
    ensures
        r@ == if role == ChatRole::Assistant { "assistant"@ } else { "user"@ },
{
    match role {
        ChatRole::Assistant => "assistant",
        _ => "user",
    }
}

/// Id given to the tool call of content block `index`.
pub fn anthropic_tool_id(index: u64) -> (r: String)
    ensures
        r@ == "anthropic-tool-"@ + dec(index as nat),
{
    let mut v = chars_of("anthropic-tool-");
    push_dec(&mut v, index);
    string_of(v.as_slice())
}


// ───────────────────────────── JSON payloads ─────────────────────────────

/// What `serde_json::from_str::<serde_json::Value>` makes of a text: the
/// value when the text is one JSON document, else nothing.
pub uninterp spec fn json_value_of(text: Seq<char>) -> Option<serde_json::Value>;

/// `serde_json::from_str::<serde_json::Value>`, a parse error turned into
/// `None`; the value is the named result for the text.
#[verifier::external_body]
pub(crate) fn parse_json_value(text: &str) -> (r: Option<serde_json::Value>)
    ensures
        r == json_value_of(text@),
{
    serde_json::from_str::<serde_json::Value>(text).ok()
}

/// Event payloads that arrive split across lines: text that does not parse
/// yet is kept and the next payload is appended to it.
pub struct PartialJson {
    pub buffer: String,
}

impl PartialJson {
    pub fn new() -> (r: Self)
        ensures
            r.buffer@ == Seq::<char>::empty(),
    {
        PartialJson { buffer: String::new() }
    }

    /// Add `data` to what is held and try to parse the whole: on success the
    /// buffer empties and the value comes out; otherwise the text is kept.
    pub fn feed(&mut self, data: &str) -> (r: Option<serde_json::Value>)
        ensures
            r == json_value_of(old(self).buffer@ + data@),
            r is Some ==> final(self).buffer@ == Seq::<char>::empty(),
            r is None ==> final(self).buffer@ == old(self).buffer@ + data@,
    {
        let mut v = chars_of(self.buffer.as_str());
        push_all(&mut v, &chars_of(data));
        let payload = string_of(v.as_slice());
        let parsed = parse_json_value(payload.as_str());
        if parsed.is_some() {
            self.buffer = String::new();
        } else {
            self.buffer = payload;
        }
        parsed
    }
}

// ───────────────────────────── streamed tool calls ─────────────────────────────

/// A tool call whose pieces are still arriving.
#[derive(Debug, Clone, PartialEq)]
pub struct PendingToolCall {
    pub id: String,
    pub name: String,
    pub arguments: String,
}

pub open spec fn pending_view(p: PendingToolCall) -> (Seq<char>, Seq<char>, Seq<char>) {
    (p.id@, p.name@, p.arguments@)
}

/// A pending call after one more chunk: a given id or name replaces the
/// held one, a given argument piece is appended.
pub open spec fn chunk_applied(p: (Seq<char>, Seq<char>, Seq<char>), id: Option<Seq<char>>, name: Option<Seq<char>>, args: Option<Seq<char>>) -> (Seq<char>, Seq<char>, Seq<char>) {
    (
        if id is Some { id->0 } else { p.0 },
        if name is Some { name->0 } else { p.1 },
        if args is Some { p.2 + args->0 } else { p.2 },
    )
}

/// The argument text that is parsed: `{}` when only whitespace arrived.
pub open spec fn args_text(a: Seq<char>) -> Seq<char> {
    if trim(a).len() == 0 { "{}"@ } else { a }
}

/// The tool calls that flushing `es` hands out, in slot order: those with an
/// id and a name whose arguments parse.
pub open spec fn flushed(es: Seq<(usize, (Seq<char>, Seq<char>, Seq<char>))>) -> Seq<(Seq<char>, Seq<char>, serde_json::Value)>
    decreases es.len(),
{
    if es.len() == 0 {
        Seq::empty()
    } else {
        let prev = flushed(es.drop_last());
        let e = es.last().1;
        if e.0.len() > 0 && e.1.len() > 0 && json_value_of(args_text(e.2)) is Some {
            prev.push((e.0, e.1, json_value_of(args_text(e.2))->0))
        } else {
            prev
        }
    }
}

pub open spec fn tool_call_view(tc: ToolCall) -> (Seq<char>, Seq<char>, serde_json::Value) {
    (tc.id@, tc.name@, tc.arguments)
}

pub open spec fn tool_call_views(v: Seq<ToolCall>) -> Seq<(Seq<char>, Seq<char>, serde_json::Value)> {
    v.map_values(|tc: ToolCall| tool_call_view(tc))
}

/// Pending calls `es` (in slot order) after one more chunk for `slot`: the
/// slot's call updated in place, or opened empty at its place in the order
/// and then updated.
pub open spec fn accumulated(
    es: Seq<(usize, (Seq<char>, Seq<char>, Seq<char>))>,
    slot: usize,
    id: Option<Seq<char>>,
    name: Option<Seq<char>>,
    args: Option<Seq<char>>,
) -> Seq<(usize, (Seq<char>, Seq<char>, Seq<char>))>
    decreases es.len(),
{
    if es.len() == 0 {
        seq![(slot, chunk_applied((Seq::empty(), Seq::empty(), Seq::empty()), id, name, args))]
    } else if es[0].0 == slot {
        seq![(slot, chunk_applied(es[0].1, id, name, args))] + es.drop_first()
    } else if es[0].0 > slot {
        seq![(slot, chunk_applied((Seq::empty(), Seq::empty(), Seq::empty()), id, name, args))] + es
    } else {
        seq![es[0]] + accumulated(es.drop_first(), slot, id, name, args)
    }
}

proof fn lemma_accumulated_at(
    es: Seq<(usize, (Seq<char>, Seq<char>, Seq<char>))>,
    p: int,
    slot: usize,
    id: Option<Seq<char>>,
    name: Option<Seq<char>>,
    args: Option<Seq<char>>,
)
    requires
        0 <= p <= es.len(),
        forall|i: int| 0 <= i < p ==> (#[trigger] es[i]).0 < slot,
        p < es.len() ==> es[p].0 >= slot,
    ensures
        p < es.len() && es[p].0 == slot ==> accumulated(es, slot, id, name, args) == es.update(
            p,
            (slot, chunk_applied(es[p].1, id, name, args)),
        ),
        !(p < es.len() && es[p].0 == slot) ==> accumulated(es, slot, id, name, args) == es.insert(
            p,
            (slot, chunk_applied((Seq::empty(), Seq::empty(), Seq::empty()), id, name, args)),
        ),
    decreases p,
{
    if p == 0 {
        if es.len() > 0 && es[0].0 == slot {
            assert(seq![(slot, chunk_applied(es[0].1, id, name, args))] + es.drop_first() =~= es.update(
                0,
                (slot, chunk_applied(es[0].1, id, name, args)),
            ));
        } else {
            assert(seq![(slot, chunk_applied((Seq::empty(), Seq::empty(), Seq::empty()), id, name, args))]
                + es =~= es.insert(
                0,
                (slot, chunk_applied((Seq::empty(), Seq::empty(), Seq::empty()), id, name, args)),
            ));
        }
    } else {
        let rest = es.drop_first();
        assert(es[0].0 < slot);
        assert forall|i: int| 0 <= i < p - 1 implies (#[trigger] rest[i]).0 < slot by {
            assert(rest[i] == es[i + 1]);
        }
        lemma_accumulated_at(rest, p - 1, slot, id, name, args);
        if p < es.len() && es[p].0 == slot {
            assert(seq![es[0]] + rest.update(p - 1, (slot, chunk_applied(rest[p - 1].1, id, name, args)))
                =~= es.update(p, (slot, chunk_applied(es[p].1, id, name, args))));
        } else {
            assert(seq![es[0]] + rest.insert(
                p - 1,
                (slot, chunk_applied((Seq::empty(), Seq::empty(), Seq::empty()), id, name, args)),
            ) =~= es.insert(
                p,
                (slot, chunk_applied((Seq::empty(), Seq::empty(), Seq::empty()), id, name, args)),
            ));
        }
    }
}

/// Tool calls being streamed, by slot index, kept in slot order.
pub struct PendingToolCalls {
    slots: Vec<(usize, PendingToolCall)>,
}

pub open spec fn slot_entries(s: Seq<(usize, PendingToolCall)>) -> Seq<(usize, (Seq<char>, Seq<char>, Seq<char>))> {
    s.map_values(|e: (usize, PendingToolCall)| (e.0, pending_view(e.1)))
}

impl PendingToolCalls {
    /// The pending calls with their slots, in slot order.
    pub closed spec fn entries(&self) -> Seq<(usize, (Seq<char>, Seq<char>, Seq<char>))> {
        slot_entries(self.slots@)
    }

    /// The pending calls by slot.
    pub open spec fn table(&self) -> Map<usize, (Seq<char>, Seq<char>, Seq<char>)> {
        crate::memory::as_map(self.entries())
    }

    /// Slots strictly increase.
    pub closed spec fn wf(&self) -> bool {
        forall|i: int, j: int| 0 <= i < j < self.slots@.len() ==> self.slots@[i].0 < self.slots@[j].0
    }

    pub fn new() -> (r: Self)
        ensures
            r.wf(),
            r.entries() == Seq::<(usize, (Seq<char>, Seq<char>, Seq<char>))>::empty(),
    {
        let r = PendingToolCalls { slots: Vec::new() };
        assert(r.entries() =~= Seq::<(usize, (Seq<char>, Seq<char>, Seq<char>))>::empty());
        r
    }

    proof fn lemma_entries_unique(&self)
        requires
            self.wf(),
        ensures
            crate::memory::keys_unique(self.entries()),
            forall|i: int, j: int| 0 <= i < j < self.entries().len() ==> self.entries()[i].0 < self.entries()[j].0,
    {
    }

    /// Take in one chunk of the call in `slot`, opening the slot if needed.
    pub fn accumulate(&mut self, slot: usize, id: Option<String>, name: Option<String>, args: Option<String>)
        requires
            old(self).wf(),
        ensures
            final(self).wf(),
            final(self).table() == old(self).table().insert(slot, chunk_applied(
                if old(self).table().contains_key(slot) { old(self).table()[slot] } else { (Seq::empty(), Seq::empty(), Seq::empty()) },
                crate::protocol::opt_view(id), crate::protocol::opt_view(name), crate::protocol::opt_view(args))),
            final(self).entries() == accumulated(old(self).entries(), slot, crate::protocol::opt_view(id),
                crate::protocol::opt_view(name), crate::protocol::opt_view(args)),
    {
        let ghost s0 = self.slots@;
        let ghost e0 = slot_entries(s0);
        proof { self.lemma_entries_unique(); }
        let mut p: usize = 0;
        while p < self.slots.len() && self.slots[p].0 < slot
            invariant
                p <= self.slots@.len(),
                s0 == self.slots@,
                forall|i: int| 0 <= i < p ==> self.slots@[i].0 < slot,
            decreases self.slots.len() - p,
        {
            p = p + 1;
        }
        let present = p < self.slots.len() && self.slots[p].0 == slot;
        proof {
            assert forall|i: int| 0 <= i < p implies (#[trigger] e0[i]).0 < slot by {
                assert(e0[i].0 == s0[i].0);
            }
            lemma_accumulated_at(e0, p as int, slot, crate::protocol::opt_view(id),
                crate::protocol::opt_view(name), crate::protocol::opt_view(args));
        }
        if !present {
            proof {
                assert forall|i: int| 0 <= i < e0.len() implies #[trigger] e0[i].0 != slot by {
                    if i >= p {
                        assert(self.slots@[p as int].0 > slot);
                        if i > p {
                            assert(self.slots@[p as int].0 < self.slots@[i].0);
                        }
                    }
                }
                crate::memory::lemma_as_map_absent(e0, slot);
            }
            let fresh = PendingToolCall { id: String::new(), name: String::new(), arguments: String::new() };
            self.slots.insert(p, (slot, fresh));
            proof {
                assert(slot_entries(self.slots@) =~= e0.insert(p as int, (slot, pending_view(fresh))));
                lemma_as_map_insert(e0, p as int, slot, pending_view(fresh));
            }
        } else {
            proof { crate::memory::lemma_as_map_index(e0, p as int); }
        }
        let ghost s1 = self.slots@;
        let ghost e1 = slot_entries(s1);
        proof {
            crate::memory::lemma_as_map_index(e1, p as int);
        }
        let entry = &mut self.slots[p].1;
        if let Some(i) = id {
            entry.id = i;
        }
        if let Some(n) = name {
            entry.name = n;
        }
        if let Some(a) = args {
            let mut v = chars_of(entry.arguments.as_str());
            push_all(&mut v, &chars_of(a.as_str()));
            entry.arguments = string_of(v.as_slice());
        }
        proof {
            let nv = pending_view(self.slots@[p as int].1);
            assert(slot_entries(self.slots@) =~= e1.update(p as int, (e1[p as int].0, nv)));
            crate::memory::lemma_as_map_update(e1, p as int, nv);
            if !present {
                assert(e1.update(p as int, (e1[p as int].0, nv)) =~= e0.insert(p as int, (slot, nv)));
            } else {
                assert(e1 == e0);
            }
        }
    }

    /// Hand out the complete calls in slot order and forget every pending
    /// one: a call needs an id and a name, and arguments that parse (`{}`
    /// when none arrived).
    pub fn flush(&mut self) -> (r: Vec<ToolCall>)
        requires
            old(self).wf(),
        ensures
            final(self).wf(),
            tool_call_views(r@) == flushed(old(self).entries()),
            final(self).entries() == Seq::<(usize, (Seq<char>, Seq<char>, Seq<char>))>::empty(),
    {
        let ghost es = slot_entries(self.slots@);
        let mut out: Vec<ToolCall> = Vec::new();
        let mut i: usize = 0;
        proof { reveal_strlit("{}"); }
        while i < self.slots.len()
            invariant
                i <= self.slots@.len(),
                es == slot_entries(self.slots@),
                tool_call_views(out@) == flushed(es.take(i as int)),
            decreases self.slots.len() - i,
        {
            let ghost before = out@;
            assert(es.take(i + 1).drop_last() =~= es.take(i as int));
            let p = &self.slots[i].1;
            if chars_of(p.id.as_str()).len() > 0 && chars_of(p.name.as_str()).len() > 0 {
                let a = chars_of(p.arguments.as_str());
                let text = if trim_vec(&a).len() == 0 { crate::text::lit("{}") } else { p.arguments.clone() };
                match parse_json_value(text.as_str()) {
                    Some(arguments) => {
                        out.push(ToolCall { id: p.id.clone(), name: p.name.clone(), arguments });
                        assert(tool_call_views(out@) =~= tool_call_views(before).push(tool_call_view(out@.last())));
                    },
                    None => {},
                }
            }
            i = i + 1;
        }
        assert(es.take(self.slots@.len() as int) =~= es);
        self.slots.clear();
        assert(slot_entries(self.slots@) =~= Seq::<(usize, (Seq<char>, Seq<char>, Seq<char>))>::empty());
        out
    }
}

pub proof fn lemma_as_map_insert<K: View, V>(s: Seq<(K, V)>, p: int, key: K, v: V)
    requires
        crate::memory::keys_unique(s),
        !crate::memory::as_map(s).contains_key(key@),
        0 <= p <= s.len(),
    ensures
        crate::memory::keys_unique(s.insert(p, (key, v))),
        crate::memory::as_map(s.insert(p, (key, v))) =~= crate::memory::as_map(s).insert(key@, v),
{
    let t = s.insert(p, (key, v));
    assert forall|i: int| 0 <= i < s.len() implies #[trigger] s[i].0@ != key@ by {
        if s[i].0@ == key@ {
            assert(crate::memory::has_key(s, key@));
        }
    }
    assert forall|a: int, b: int| 0 <= a < t.len() && 0 <= b < t.len() && a != b implies #[trigger] t[a].0@ != #[trigger] t[b].0@ by {
        if a != p && b != p {
            let sa = if a < p { a } else { a - 1 };
            let sb = if b < p { b } else { b - 1 };
            assert(0 <= sa < s.len() && 0 <= sb < s.len() && sa != sb);
            assert(t[a] == s[sa]);
            assert(t[b] == s[sb]);
            assert(s[sa].0@ != s[sb].0@);
        } else if a == p {
            let sb = if b < p { b } else { b - 1 };
            assert(t[b] == s[sb]);
            assert(s[sb].0@ != key@);
        } else {
            let sa = if a < p { a } else { a - 1 };
            assert(t[a] == s[sa]);
            assert(s[sa].0@ != key@);
        }
    }
    assert forall|k: K::V| crate::memory::has_key(t, k) <==> (crate::memory::has_key(s, k) || k == key@) by {
        if crate::memory::has_key(t, k) {
            let j = crate::memory::key_index(t, k);
            if j != p {
                let sj = if j < p { j } else { j - 1 };
                assert(t[j] == s[sj]);
                assert(s[sj].0@ == k);
            }
        }
        if crate::memory::has_key(s, k) {
            let j = crate::memory::key_index(s, k);
            let tj = if j < p { j } else { j + 1 };
            assert(t[tj] == s[j]);
        }
        if k == key@ {
            assert(t[p].0@ == k);
        }
    }
    assert forall|k: K::V| #[trigger] crate::memory::as_map(t).contains_key(k) implies crate::memory::as_map(t)[k] == crate::memory::as_map(s).insert(key@, v)[k] by {
        let j = crate::memory::key_index(t, k);
        if k == key@ {
            assert(t[p].0@ == k);
            assert(j == p);
        } else {
            let j2 = crate::memory::key_index(s, k);
            let tj = if j2 < p { j2 } else { j2 + 1 };
            assert(t[tj] == s[j2]);
            assert(t[tj].0@ == k);
            assert(j == tj);
        }
    }
}

} // verus!
