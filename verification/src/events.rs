//! Turning the JSON payloads of a streamed model response into stream
//! events: OpenAI chunks (text, reasoning, tool-call pieces, finish reason)
//! and Anthropic events (text, thinking, tool input pieces, block and
//! message ends).

use vstd::prelude::*;
use crate::chat::{FinishReason, StreamEvent, ToolCall};
use crate::protocol::opt_view;
use crate::stream::{
    accumulated, flushed, json_value_of, parse_json_value, tool_call_view, tool_call_views,
    PartialJson, PendingToolCalls,
};
use crate::text::dec;

verus! {

// ───────────────────────────── reading JSON values ─────────────────────────────

/// What `serde_json::Value::get` gives for `key` (a copy of the member of an
/// object with that key).
pub uninterp spec fn json_field_of(v: serde_json::Value, key: Seq<char>) -> Option<serde_json::Value>;

/// `serde_json::Value::get` with a string key, the member copied out.
#[verifier::external_body]
fn json_field(v: &serde_json::Value, key: &str) -> (r: Option<serde_json::Value>)
    ensures
        r == json_field_of(*v, key@),
{
    v.get(key).cloned()
}

/// What `serde_json::Value::as_str` gives: the text of a JSON string.
pub uninterp spec fn json_str_of(v: serde_json::Value) -> Option<Seq<char>>;

/// `serde_json::Value::as_str`, the text copied into a `String`.
#[verifier::external_body]
fn json_str(v: &serde_json::Value) -> (r: Option<String>)
    ensures
        opt_view(r) == json_str_of(*v),
{
    v.as_str().map(String::from)
}

/// What `serde_json::Value::as_u64` gives.
pub uninterp spec fn json_u64_of(v: serde_json::Value) -> Option<u64>;

/// `serde_json::Value::as_u64`.
#[verifier::external_body]
fn json_u64(v: &serde_json::Value) -> (r: Option<u64>)
    ensures
        r == json_u64_of(*v),
{
    v.as_u64()
}

/// What `serde_json::Value::as_array` gives: the elements of a JSON array.
pub uninterp spec fn json_array_of(v: serde_json::Value) -> Option<Seq<serde_json::Value>>;

/// `serde_json::Value::as_array`, the elements copied into a `Vec`.
#[verifier::external_body]
fn json_array(v: &serde_json::Value) -> (r: Option<Vec<serde_json::Value>>)
    ensures
        match r {
            Some(a) => json_array_of(*v) == Some(a@),
            None => json_array_of(*v) is None,
        },
{
    v.as_array().cloned()
}

/// What `serde_json::Value::is_object` gives.
pub uninterp spec fn is_json_object(v: serde_json::Value) -> bool;

/// `serde_json::Value::is_object`.
#[verifier::external_body]
fn json_is_object(v: &serde_json::Value) -> (r: bool)
    ensures
        r == is_json_object(*v),
{
    v.is_object()
}

/// What `serde_json::Value`'s `to_string` prints.
pub uninterp spec fn json_text_of(v: serde_json::Value) -> Seq<char>;

/// `serde_json::Value`'s `to_string` (its `Display`).
#[verifier::external_body]
fn json_text(v: &serde_json::Value) -> (r: String)
    ensures
        r@ == json_text_of(*v),
{
    v.to_string()
}

/// An empty JSON object (`Value::Object` of an empty `serde_json::Map`),
/// which is what `serde_json::from_str` makes of `{}`.
#[verifier::external_body]
fn empty_json_object() -> (r: serde_json::Value)
    ensures
        json_value_of("{}"@) == Some(r),
{
    serde_json::Value::Object(serde_json::Map::new())
}

/// The text of the string member `key` of `v`.
pub open spec fn str_field_of(v: serde_json::Value, key: Seq<char>) -> Option<Seq<char>> {
    match json_field_of(v, key) {
        Some(f) => json_str_of(f),
        None => None,
    }
}

/// The text of the string member `key` of `v`, when there is a `v`.
pub open spec fn sub_str_field_of(v: Option<serde_json::Value>, key: Seq<char>) -> Option<Seq<char>> {
    match v {
        Some(f) => str_field_of(f, key),
        None => None,
    }
}

/// The unsigned member `key` of `v`.
pub open spec fn u64_field_of(v: serde_json::Value, key: Seq<char>) -> Option<u64> {
    match json_field_of(v, key) {
        Some(f) => json_u64_of(f),
        None => None,
    }
}

/// The elements of the array member `key` of `v` (none when it is missing
/// or no array), when there is a `v`.
pub open spec fn array_field_of(v: Option<serde_json::Value>, key: Seq<char>) -> Seq<serde_json::Value> {
    match v {
        Some(f) => match json_field_of(f, key) {
            Some(a) => match json_array_of(a) {
                Some(items) => items,
                None => Seq::empty(),
            },
            None => Seq::empty(),
        },
        None => Seq::empty(),
    }
}

pub(crate) fn str_field(v: &serde_json::Value, key: &str) -> (r: Option<String>)
    ensures
        opt_view(r) == str_field_of(*v, key@),
{
    match json_field(v, key) {
        Some(f) => json_str(&f),
        None => None,
    }
}

fn sub_str_field(v: &Option<serde_json::Value>, key: &str) -> (r: Option<String>)
    ensures
        opt_view(r) == sub_str_field_of(*v, key@),
{
    match v {
        Some(f) => str_field(f, key),
        None => None,
    }
}

pub(crate) fn u64_field(v: &serde_json::Value, key: &str) -> (r: Option<u64>)
    ensures
        r == u64_field_of(*v, key@),
{
    match json_field(v, key) {
        Some(f) => json_u64(&f),
        None => None,
    }
}

fn array_field(v: &Option<serde_json::Value>, key: &str) -> (r: Vec<serde_json::Value>)
    ensures
        r@ == array_field_of(*v, key@),
{
    match v {
        Some(f) => match json_field(f, key) {
            Some(a) => match json_array(&a) {
                Some(items) => items,
                None => Vec::new(),
            },
            None => Vec::new(),
        },
        None => Vec::new(),
    }
}

// ───────────────────────────── stream events ─────────────────────────────

/// A stream event by the views of its parts.
pub enum EventView {
    Chunk(Seq<char>),
    Thinking(Seq<char>),
    Call(Seq<char>, Seq<char>, serde_json::Value),
    Log(Seq<char>),
    Done(FinishReason),
    Error(Seq<char>),
}

pub open spec fn event_view(e: StreamEvent) -> EventView {
    match e {
        StreamEvent::Chunk(t) => EventView::Chunk(t@),
        StreamEvent::Thinking(t) => EventView::Thinking(t@),
        StreamEvent::ToolCall(c) => EventView::Call(c.id@, c.name@, c.arguments),
        StreamEvent::Log(t) => EventView::Log(t@),
        StreamEvent::Done(f) => EventView::Done(f),
        StreamEvent::Error(t) => EventView::Error(t@),
    }
}

pub open spec fn event_views(v: Seq<StreamEvent>) -> Seq<EventView> {
    v.map_values(|e: StreamEvent| event_view(e))
}

/// The tool-call events for calls `cs`, in order.
pub open spec fn call_events(cs: Seq<(Seq<char>, Seq<char>, serde_json::Value)>) -> Seq<EventView> {
    cs.map_values(|c: (Seq<char>, Seq<char>, serde_json::Value)| EventView::Call(c.0, c.1, c.2))
}

/// Appends one tool-call event per call of `calls`.
fn push_calls(out: &mut Vec<StreamEvent>, calls: Vec<ToolCall>)
    ensures
        event_views(final(out)@) == event_views(old(out)@) + call_events(tool_call_views(calls@)),
{
    let ghost start = event_views(out@);
    let mut i: usize = 0;
    while i < calls.len()
        invariant
            i <= calls.len(),
            event_views(out@) == start + call_events(tool_call_views(calls@.take(i as int))),
        decreases calls.len() - i,
    {
        let ghost before = out@;
        let c = &calls[i];
        out.push(StreamEvent::ToolCall(ToolCall {
            id: crate::text::lit(c.id.as_str()),
            name: crate::text::lit(c.name.as_str()),
            arguments: c.arguments.clone(),
        }));
        assert(tool_call_views(calls@.take(i + 1)) =~= tool_call_views(calls@.take(i as int)).push(
            tool_call_view(calls@[i as int]),
        ));
        assert(event_views(out@) =~= event_views(before).push(event_view(out@.last())));
        assert(call_events(tool_call_views(calls@.take(i + 1))) =~= call_events(
            tool_call_views(calls@.take(i as int)),
        ).push(EventView::Call(calls@[i as int].id@, calls@[i as int].name@, calls@[i as int].arguments)));
        i = i + 1;
    }
    assert(calls@.take(calls@.len() as int) =~= calls@);
}

// ───────────────────────────── OpenAI chunks ─────────────────────────────

/// One tool-call piece of an OpenAI chunk: its slot index, and the id,
/// name and argument text it carries.
#[derive(Debug, Clone, PartialEq)]
pub struct OpenAiToolDelta {
    pub index: Option<u64>,
    pub id: Option<String>,
    pub name: Option<String>,
    pub arguments: Option<String>,
}

/// One choice of an OpenAI chunk: the text and reasoning it adds, its
/// tool-call pieces and its finish reason.
#[derive(Debug, Clone, PartialEq)]
pub struct OpenAiChoice {
    pub content: Option<String>,
    pub reasoning: Option<String>,
    pub tool_calls: Vec<OpenAiToolDelta>,
    pub finish_reason: Option<String>,
}

/// One OpenAI stream chunk: its choices.
#[derive(Debug, Clone, PartialEq)]
pub struct OpenAiChunk {
    pub choices: Vec<OpenAiChoice>,
}

pub type DeltaView = (Option<u64>, Option<Seq<char>>, Option<Seq<char>>, Option<Seq<char>>);

pub type ChoiceView = (Option<Seq<char>>, Option<Seq<char>>, Seq<DeltaView>, Option<Seq<char>>);

pub open spec fn delta_view(d: OpenAiToolDelta) -> DeltaView {
    (d.index, opt_view(d.id), opt_view(d.name), opt_view(d.arguments))
}

pub open spec fn choice_view(c: OpenAiChoice) -> ChoiceView {
    (
        opt_view(c.content),
        opt_view(c.reasoning),
        c.tool_calls@.map_values(|d: OpenAiToolDelta| delta_view(d)),
        opt_view(c.finish_reason),
    )
}

pub open spec fn chunk_view(c: OpenAiChunk) -> Seq<ChoiceView> {
    c.choices@.map_values(|x: OpenAiChoice| choice_view(x))
}

/// A tool-call piece read from JSON: `index`, `id`, and the `name` and
/// `arguments` of its `function`.
pub open spec fn delta_view_of(tc: serde_json::Value) -> DeltaView {
    let f = json_field_of(tc, "function"@);
    (u64_field_of(tc, "index"@), str_field_of(tc, "id"@), sub_str_field_of(f, "name"@), sub_str_field_of(f, "arguments"@))
}

/// A choice read from JSON: `content`, `reasoning_content` and the
/// `tool_calls` of its `delta`, and its `finish_reason`.
pub open spec fn choice_view_of(c: serde_json::Value) -> ChoiceView {
    let d = json_field_of(c, "delta"@);
    (
        sub_str_field_of(d, "content"@),
        sub_str_field_of(d, "reasoning_content"@),
        array_field_of(d, "tool_calls"@).map_values(|x: serde_json::Value| delta_view_of(x)),
        str_field_of(c, "finish_reason"@),
    )
}

/// A chunk read from JSON: the elements of its `choices` array.
pub open spec fn chunk_view_of(v: serde_json::Value) -> Seq<ChoiceView> {
    array_field_of(Some(v), "choices"@).map_values(|x: serde_json::Value| choice_view_of(x))
}

fn tool_delta_of(tc: &serde_json::Value) -> (r: OpenAiToolDelta)
    ensures
        delta_view(r) == delta_view_of(*tc),
{
    let f = json_field(tc, "function");
    OpenAiToolDelta {
        index: u64_field(tc, "index"),
        id: str_field(tc, "id"),
        name: sub_str_field(&f, "name"),
        arguments: sub_str_field(&f, "arguments"),
    }
}

fn choice_of(c: &serde_json::Value) -> (r: OpenAiChoice)
    ensures
        choice_view(r) == choice_view_of(*c),
{
    let d = json_field(c, "delta");
    let calls = array_field(&d, "tool_calls");
    let mut deltas: Vec<OpenAiToolDelta> = Vec::new();
    let mut i: usize = 0;
    while i < calls.len()
        invariant
            i <= calls.len(),
            deltas@.map_values(|x: OpenAiToolDelta| delta_view(x)) == calls@.take(i as int).map_values(
                |x: serde_json::Value| delta_view_of(x),
            ),
        decreases calls.len() - i,
    {
        let ghost before = deltas@;
        deltas.push(tool_delta_of(&calls[i]));
        assert(deltas@.map_values(|x: OpenAiToolDelta| delta_view(x)) =~= before.map_values(
            |x: OpenAiToolDelta| delta_view(x),
        ).push(delta_view(deltas@.last())));
        assert(calls@.take(i + 1).map_values(|x: serde_json::Value| delta_view_of(x)) =~= calls@.take(
            i as int,
        ).map_values(|x: serde_json::Value| delta_view_of(x)).push(delta_view_of(calls@[i as int])));
        i = i + 1;
    }
    assert(calls@.take(calls@.len() as int) =~= calls@);
    OpenAiChoice {
        content: sub_str_field(&d, "content"),
        reasoning: sub_str_field(&d, "reasoning_content"),
        tool_calls: deltas,
        finish_reason: str_field(c, "finish_reason"),
    }
}

/// Reads an OpenAI chunk out of its JSON value (see `chunk_view_of`).
pub fn openai_chunk_of(v: &serde_json::Value) -> (r: OpenAiChunk)
    ensures
        chunk_view(r) == chunk_view_of(*v),
{
    let items = array_field(&Some(v.clone()), "choices");
    let mut choices: Vec<OpenAiChoice> = Vec::new();
    let mut i: usize = 0;
    while i < items.len()
        invariant
            i <= items.len(),
            items@ == array_field_of(Some(*v), "choices"@),
            choices@.map_values(|x: OpenAiChoice| choice_view(x)) == items@.take(i as int).map_values(
                |x: serde_json::Value| choice_view_of(x),
            ),
        decreases items.len() - i,
    {
        let ghost before = choices@;
        choices.push(choice_of(&items[i]));
        assert(choices@.map_values(|x: OpenAiChoice| choice_view(x)) =~= before.map_values(
            |x: OpenAiChoice| choice_view(x),
        ).push(choice_view(choices@.last())));
        assert(items@.take(i + 1).map_values(|x: serde_json::Value| choice_view_of(x)) =~= items@.take(
            i as int,
        ).map_values(|x: serde_json::Value| choice_view_of(x)).push(choice_view_of(items@[i as int])));
        i = i + 1;
    }
    assert(items@.take(items@.len() as int) =~= items@);
    OpenAiChunk { choices }
}

pub type SlotEntries = Seq<(usize, (Seq<char>, Seq<char>, Seq<char>))>;

/// The slot a tool-call piece goes to: its index, or slot 0 without one.
pub open spec fn slot_of(index: Option<u64>) -> usize {
    match index {
        Some(v) => v as usize,
        None => 0usize,
    }
}

/// Pending calls `es` after the tool-call pieces `ds`, in order.
pub open spec fn deltas_applied(es: SlotEntries, ds: Seq<DeltaView>) -> SlotEntries
    decreases ds.len(),
{
    if ds.len() == 0 {
        es
    } else {
        deltas_applied(accumulated(es, slot_of(ds[0].0), ds[0].1, ds[0].2, ds[0].3), ds.drop_first())
    }
}

/// The finish reason that ends the stream: `tool_calls` or `stop`.
pub open spec fn finish_of(reason: Option<Seq<char>>) -> Option<FinishReason> {
    match reason {
        Some(s) => if s == "tool_calls"@ {
            Some(FinishReason::ToolCalls)
        } else if s == "stop"@ {
            Some(FinishReason::Stop)
        } else {
            None
        },
        None => None,
    }
}

/// The text and reasoning events of a choice.
pub open spec fn text_events(c: ChoiceView) -> Seq<EventView> {
    (if c.0 is Some { seq![EventView::Chunk(c.0->0)] } else { Seq::empty() }) + (if c.1 is Some {
        seq![EventView::Thinking(c.1->0)]
    } else {
        Seq::empty()
    })
}

/// Choices `cs` taken in order with pending calls `es`: each gives its text
/// and reasoning events and adds its tool-call pieces; the first that
/// finishes the stream hands out the complete pending calls and the end
/// event, empties the pending calls and ends the chunk. The events, the
/// finish reason (if one came) and the pending calls left.
pub open spec fn choices_step(es: SlotEntries, cs: Seq<ChoiceView>) -> (Seq<EventView>, Option<FinishReason>, SlotEntries)
    decreases cs.len(),
{
    if cs.len() == 0 {
        (Seq::empty(), None, es)
    } else {
        let c = cs[0];
        let es2 = deltas_applied(es, c.2);
        match finish_of(c.3) {
            Some(f) => (text_events(c) + call_events(flushed(es2)) + seq![EventView::Done(f)], Some(f), Seq::empty()),
            None => {
                let r = choices_step(es2, cs.drop_first());
                (text_events(c) + r.0, r.1, r.2)
            },
        }
    }
}

fn copy_opt(s: &Option<String>) -> (r: Option<String>)
    ensures
        opt_view(r) == opt_view(*s),
{
    match s {
        Some(t) => Some(crate::text::lit(t.as_str())),
        None => None,
    }
}

/// Takes in one OpenAI chunk (see `choices_step`).
pub fn apply_openai_chunk(chunk: &OpenAiChunk, pending: &mut PendingToolCalls) -> (r: (
    Vec<StreamEvent>,
    Option<FinishReason>,
))
    requires
        old(pending).wf(),
    ensures
        final(pending).wf(),
        (event_views(r.0@), r.1, final(pending).entries()) == choices_step(
            old(pending).entries(),
            chunk_view(*chunk),
        ),
{
    let ghost cs = chunk_view(*chunk);
    let ghost es0 = pending.entries();
    let mut out: Vec<StreamEvent> = Vec::new();
    let mut finish: Option<FinishReason> = None;
    let mut i: usize = 0;
    assert(cs.skip(0) =~= cs);
    while i < chunk.choices.len() && finish.is_none()
        invariant
            i <= chunk.choices@.len(),
            cs == chunk_view(*chunk),
            es0 == old(pending).entries(),
            pending.wf(),
            finish is None ==> {
                let total = choices_step(es0, cs);
                let rest = choices_step(pending.entries(), cs.skip(i as int));
                &&& total.0 == event_views(out@) + rest.0
                &&& total.1 == rest.1
                &&& total.2 == rest.2
            },
            finish is Some ==> (event_views(out@), finish, pending.entries()) == choices_step(es0, cs),
        decreases chunk.choices.len() - i,
    {
        let c = &chunk.choices[i];
        let ghost cv = cs[i as int];
        let ghost ev0 = event_views(out@);
        let ghost esi = pending.entries();
        assert(cv == choice_view(*c));
        assert(cs.skip(i as int)[0] == cv);
        assert(cs.skip(i as int).drop_first() =~= cs.skip(i + 1));
        match &c.content {
            Some(t) => out.push(StreamEvent::Chunk(crate::text::lit(t.as_str()))),
            None => {},
        }
        match &c.reasoning {
            Some(t) => out.push(StreamEvent::Thinking(crate::text::lit(t.as_str()))),
            None => {},
        }
        assert(event_views(out@) =~= ev0 + text_events(cv));
        let ghost ds = cv.2;
        let mut j: usize = 0;
        assert(ds.skip(0) =~= ds);
        while j < c.tool_calls.len()
            invariant
                j <= c.tool_calls@.len(),
                ds == c.tool_calls@.map_values(|d: OpenAiToolDelta| delta_view(d)),
                pending.wf(),
                deltas_applied(esi, ds) == deltas_applied(pending.entries(), ds.skip(j as int)),
            decreases c.tool_calls.len() - j,
        {
            let d = &c.tool_calls[j];
            assert(ds.skip(j as int)[0] == delta_view(*d));
            assert(ds.skip(j as int).drop_first() =~= ds.skip(j + 1));
            let slot: usize = match d.index {
                Some(v) => v as usize,
                None => 0,
            };
            pending.accumulate(slot, copy_opt(&d.id), copy_opt(&d.name), copy_opt(&d.arguments));
            j = j + 1;
        }
        assert(ds.skip(ds.len() as int) =~= Seq::<DeltaView>::empty());
        let f = match &c.finish_reason {
            Some(reason) => crate::stream::openai_finish(reason.as_str()),
            None => None,
        };
        assert(f == finish_of(cv.3));
        match f {
            Some(reason) => {
                let ghost es2 = pending.entries();
                let calls = pending.flush();
                push_calls(&mut out, calls);
                let ghost before = out@;
                out.push(StreamEvent::Done(reason));
                assert(event_views(out@) =~= event_views(before).push(EventView::Done(reason)));
                proof {
                    let total = choices_step(es0, cs);
                    let rest = choices_step(esi, cs.skip(i as int));
                    assert(rest == (text_events(cv) + call_events(flushed(es2)) + seq![EventView::Done(reason)], Some(reason), Seq::<(usize, (Seq<char>, Seq<char>, Seq<char>))>::empty()));
                    assert(event_views(out@) =~= ev0 + rest.0);
                }
                finish = Some(reason);
            },
            None => {
                proof {
                    let rest = choices_step(esi, cs.skip(i as int));
                    let next = choices_step(pending.entries(), cs.skip(i + 1));
                    assert(rest == (text_events(cv) + next.0, next.1, next.2));
                    assert(ev0 + rest.0 =~= event_views(out@) + next.0);
                }
            },
        }
        i = i + 1;
    }
    if finish.is_none() {
        assert(cs.skip(i as int) =~= Seq::<ChoiceView>::empty());
        assert(event_views(out@) + Seq::<EventView>::empty() =~= event_views(out@));
    }
    (out, finish)
}

/// Takes in one `data:` payload of an OpenAI stream: `[DONE]` hands out
/// the complete pending calls and ends the stream; a payload that is a JSON
/// document is read as a chunk (see `apply_openai_chunk`); any other payload
/// is passed over.
pub fn openai_payload_events(payload: &str, pending: &mut PendingToolCalls) -> (r: (
    Vec<StreamEvent>,
    Option<FinishReason>,
))
    requires
        old(pending).wf(),
    ensures
        final(pending).wf(),
        payload@ == "[DONE]"@ ==> {
            &&& event_views(r.0@) == call_events(flushed(old(pending).entries())) + seq![EventView::Done(FinishReason::Stop)]
            &&& r.1 == Some(FinishReason::Stop)
            &&& final(pending).entries() == Seq::<(usize, (Seq<char>, Seq<char>, Seq<char>))>::empty()
        },
        payload@ != "[DONE]"@ ==> match json_value_of(payload@) {
            Some(v) => (event_views(r.0@), r.1, final(pending).entries()) == choices_step(
                old(pending).entries(),
                chunk_view_of(v),
            ),
            None => r.0@.len() == 0 && r.1 is None && final(pending).entries() == old(pending).entries(),
        },
{
    if crate::text::chars_eq(&crate::text::chars_of(payload), &crate::text::chars_of("[DONE]")) {
        return (openai_stream_closed(pending), Some(FinishReason::Stop));
    }
    match parse_json_value(payload) {
        Some(v) => {
            let chunk = openai_chunk_of(&v);
            apply_openai_chunk(&chunk, pending)
        },
        None => (Vec::new(), None),
    }
}

/// The end of an OpenAI stream that no finish reason ended: the complete
/// pending calls, then the end event.
pub fn openai_stream_closed(pending: &mut PendingToolCalls) -> (r: Vec<StreamEvent>)
    requires
        old(pending).wf(),
    ensures
        final(pending).wf(),
        event_views(r@) == call_events(flushed(old(pending).entries())) + seq![EventView::Done(FinishReason::Stop)],
        final(pending).entries() == Seq::<(usize, (Seq<char>, Seq<char>, Seq<char>))>::empty(),
{
    let mut out: Vec<StreamEvent> = Vec::new();
    let calls = pending.flush();
    push_calls(&mut out, calls);
    let ghost before = out@;
    out.push(StreamEvent::Done(FinishReason::Stop));
    assert(event_views(out@) =~= event_views(before).push(EventView::Done(FinishReason::Stop)));
    assert(event_views(Seq::<StreamEvent>::empty()) =~= Seq::<EventView>::empty());
    out
}


// ───────────────────────────── Anthropic events ─────────────────────────────

/// One Anthropic stream event: its `type`, its block `index`, the `text`,
/// `thinking` and `partial_json` of its `delta`, and the `name` of its
/// `content_block`.
#[derive(Debug, Clone, PartialEq)]
pub struct AnthropicEvent {
    pub kind: Option<String>,
    pub index: Option<u64>,
    pub text: Option<String>,
    pub thinking: Option<String>,
    pub partial_json: Option<String>,
    pub block_name: Option<String>,
}

pub type AnthropicView = (
    Option<Seq<char>>,
    Option<u64>,
    Option<Seq<char>>,
    Option<Seq<char>>,
    Option<Seq<char>>,
    Option<Seq<char>>,
);

pub open spec fn anthropic_view(e: AnthropicEvent) -> AnthropicView {
    (opt_view(e.kind), e.index, opt_view(e.text), opt_view(e.thinking), opt_view(e.partial_json), opt_view(e.block_name))
}

/// An event read from JSON (see `AnthropicEvent`).
pub open spec fn anthropic_view_of(v: serde_json::Value) -> AnthropicView {
    let d = json_field_of(v, "delta"@);
    (
        str_field_of(v, "type"@),
        u64_field_of(v, "index"@),
        sub_str_field_of(d, "text"@),
        sub_str_field_of(d, "thinking"@),
        sub_str_field_of(d, "partial_json"@),
        sub_str_field_of(json_field_of(v, "content_block"@), "name"@),
    )
}

/// Reads an Anthropic event out of its JSON value.
pub fn anthropic_event_of(v: &serde_json::Value) -> (r: AnthropicEvent)
    ensures
        anthropic_view(r) == anthropic_view_of(*v),
{
    let d = json_field(v, "delta");
    AnthropicEvent {
        kind: str_field(v, "type"),
        index: u64_field(v, "index"),
        text: sub_str_field(&d, "text"),
        thinking: sub_str_field(&d, "thinking"),
        partial_json: sub_str_field(&d, "partial_json"),
        block_name: sub_str_field(&json_field(v, "content_block"), "name"),
    }
}

/// A tool input being streamed: its block index, tool name and the JSON
/// object merged so far (`None` before any piece made one).
pub type InputView = (u64, Seq<char>, Option<serde_json::Value>);

/// Tool inputs being streamed, by content block, in the order the blocks
/// opened.
pub struct PendingToolInputs {
    inputs: Vec<(u64, String, Option<serde_json::Value>)>,
}

impl PendingToolInputs {
    pub closed spec fn entries(&self) -> Seq<InputView> {
        self.inputs@.map_values(|e: (u64, String, Option<serde_json::Value>)| (e.0, e.1@, e.2))
    }

    pub fn new() -> (r: Self)
        ensures
            r.entries() == Seq::<InputView>::empty(),
    {
        let r = PendingToolInputs { inputs: Vec::new() };
        assert(r.entries() =~= Seq::<InputView>::empty());
        r
    }
}

/// Position of the input of block `k` in `es`, if any.
pub open spec fn input_index(es: Seq<InputView>, k: u64) -> Option<int>
    decreases es.len(),
{
    if es.len() == 0 {
        None
    } else if es[0].0 == k {
        Some(0)
    } else {
        match input_index(es.drop_first(), k) {
            Some(i) => Some(i + 1),
            None => None,
        }
    }
}

proof fn lemma_input_index(es: Seq<InputView>, k: u64)
    ensures
        input_index(es, k) matches Some(i) ==> 0 <= i < es.len() && es[i].0 == k,
        input_index(es, k) is None ==> forall|j: int| 0 <= j < es.len() ==> (#[trigger] es[j]).0 != k,
    decreases es.len(),
{
    if es.len() > 0 && es[0].0 != k {
        lemma_input_index(es.drop_first(), k);
        if input_index(es.drop_first(), k) is None {
            assert forall|j: int| 0 <= j < es.len() implies (#[trigger] es[j]).0 != k by {
                if j > 0 {
                    assert(es[j] == es.drop_first()[j - 1]);
                }
            }
        }
    }
}

/// The text the merged input is printed as: `{}` before any object.
pub open spec fn input_text(a: Option<serde_json::Value>) -> Seq<char> {
    match a {
        Some(v) => json_text_of(v),
        None => "{}"@,
    }
}

/// The input after one more piece: the printed input with the piece
/// appended, when that parses to a JSON object; otherwise unchanged.
pub open spec fn merged_input(a: Option<serde_json::Value>, piece: Seq<char>) -> Option<serde_json::Value> {
    match json_value_of(input_text(a) + piece) {
        Some(v) => if is_json_object(v) { Some(v) } else { a },
        None => a,
    }
}

/// The arguments a finished input is handed out with.
pub open spec fn input_value(a: Option<serde_json::Value>) -> serde_json::Value {
    match a {
        Some(v) => v,
        None => json_value_of("{}"@)->0,
    }
}

/// Id given to the tool call of block `index`.
pub open spec fn anthropic_call_id(index: u64) -> Seq<char> {
    "anthropic-tool-"@ + dec(index as nat)
}

/// One event taken in with pending inputs `es`: a `content_block_delta`
/// gives its text and thinking events and adds its `partial_json` piece to
/// the input of its block (opening it, named after the block, when new); a
/// `content_block_stop` closes its block's input and hands out the tool
/// call when the tool has a name; a `message_stop` ends the stream. The
/// events, whether the stream ended, and the pending inputs left.
pub open spec fn anthropic_step(es: Seq<InputView>, e: AnthropicView) -> (Seq<EventView>, bool, Seq<InputView>) {
    if e.0 == Some("content_block_delta"@) {
        let events = (if e.2 is Some { seq![EventView::Chunk(e.2->0)] } else { Seq::empty() }) + (if e.3 is Some {
            seq![EventView::Thinking(e.3->0)]
        } else {
            Seq::empty()
        });
        let es2 = match (e.4, e.1) {
            (Some(piece), Some(i)) => match input_index(es, i) {
                Some(j) => es.update(j, (i, es[j].1, merged_input(es[j].2, piece))),
                None => es.push((i, if e.5 is Some { e.5->0 } else { Seq::empty() }, merged_input(None, piece))),
            },
            _ => es,
        };
        (events, false, es2)
    } else if e.0 == Some("content_block_stop"@) {
        match e.1 {
            Some(i) => match input_index(es, i) {
                Some(j) => (
                    if es[j].1.len() > 0 {
                        seq![EventView::Call(anthropic_call_id(i), es[j].1, input_value(es[j].2))]
                    } else {
                        Seq::empty()
                    },
                    false,
                    es.remove(j),
                ),
                None => (Seq::empty(), false, es),
            },
            None => (Seq::empty(), false, es),
        }
    } else if e.0 == Some("message_stop"@) {
        (seq![EventView::Done(FinishReason::Stop)], true, es)
    } else {
        (Seq::empty(), false, es)
    }
}

fn opt_eq(s: &Option<String>, lit_text: &str) -> (r: bool)
    ensures
        r == (opt_view(*s) == Some(lit_text@)),
{
    match s {
        Some(t) => crate::text::chars_eq(&crate::text::chars_of(t.as_str()), &crate::text::chars_of(lit_text)),
        None => false,
    }
}

/// The merged input after one more piece (see `merged_input`).
fn merge_input(a: &Option<serde_json::Value>, piece: &str) -> (r: Option<serde_json::Value>)
    ensures
        r == merged_input(*a, piece@),
{
    let mut v = match a {
        Some(j) => crate::text::chars_of(json_text(j).as_str()),
        None => crate::text::chars_of("{}"),
    };
    crate::text::push_all(&mut v, &crate::text::chars_of(piece));
    let text = crate::text::string_of(v.as_slice());
    match parse_json_value(text.as_str()) {
        Some(parsed) => if json_is_object(&parsed) {
            Some(parsed)
        } else {
            a.clone()
        },
        None => a.clone(),
    }
}

impl PendingToolInputs {
    fn find(&self, k: u64) -> (r: Option<usize>)
        ensures
            match r {
                Some(i) => input_index(self.entries(), k) == Some(i as int),
                None => input_index(self.entries(), k) is None,
            },
    {
        let ghost es = self.entries();
        let mut i: usize = 0;
        assert(es.skip(0) =~= es);
        while i < self.inputs.len()
            invariant
                i <= self.inputs@.len(),
                es == self.entries(),
                forall|j: int| 0 <= j < i ==> (#[trigger] es[j]).0 != k,
            decreases self.inputs.len() - i,
        {
            if self.inputs[i].0 == k {
                proof {
                    lemma_input_index_first(es, k, i as int);
                }
                return Some(i);
            }
            i = i + 1;
        }
        proof {
            lemma_input_index(es, k);
            if input_index(es, k) is Some {
                let j = input_index(es, k)->0;
                assert(es[j].0 == k);
            }
        }
        None
    }
}

proof fn lemma_input_index_first(es: Seq<InputView>, k: u64, i: int)
    requires
        0 <= i < es.len(),
        es[i].0 == k,
        forall|j: int| 0 <= j < i ==> (#[trigger] es[j]).0 != k,
    ensures
        input_index(es, k) == Some(i),
    decreases i,
{
    if i > 0 {
        let rest = es.drop_first();
        assert forall|j: int| 0 <= j < i - 1 implies (#[trigger] rest[j]).0 != k by {
            assert(rest[j] == es[j + 1]);
        }
        lemma_input_index_first(rest, k, i - 1);
    }
}

/// Takes in one Anthropic event (see `anthropic_step`).
pub fn apply_anthropic_event(event: &AnthropicEvent, pending: &mut PendingToolInputs) -> (r: (Vec<StreamEvent>, bool))
    ensures
        (event_views(r.0@), r.1, final(pending).entries()) == anthropic_step(old(pending).entries(), anthropic_view(*event)),
{
    let ghost es = pending.entries();
    let ghost e = anthropic_view(*event);
    let mut out: Vec<StreamEvent> = Vec::new();
    assert(event_views(out@) =~= Seq::<EventView>::empty());
    if opt_eq(&event.kind, "content_block_delta") {
        match &event.text {
            Some(t) => out.push(StreamEvent::Chunk(crate::text::lit(t.as_str()))),
            None => {},
        }
        match &event.thinking {
            Some(t) => out.push(StreamEvent::Thinking(crate::text::lit(t.as_str()))),
            None => {},
        }
        assert(event_views(out@) =~= (if e.2 is Some { seq![EventView::Chunk(e.2->0)] } else { Seq::empty() }) + (
        if e.3 is Some {
            seq![EventView::Thinking(e.3->0)]
        } else {
            Seq::empty()
        }));
        match (&event.partial_json, event.index) {
            (Some(piece), Some(i)) => {
                match pending.find(i) {
                    Some(j) => {
                        proof {
                            lemma_input_index(es, i);
                        }
                        let merged = merge_input(&pending.inputs[j].2, piece.as_str());
                        let name = crate::text::lit(pending.inputs[j].1.as_str());
                        let ghost before = pending.inputs@;
                        pending.inputs.set(j, (i, name, merged));
                        assert(pending.entries() =~= es.update(j as int, (i, es[j as int].1, merged_input(es[j as int].2, piece@))));
                    },
                    None => {
                        let name = match &event.block_name {
                            Some(n) => crate::text::lit(n.as_str()),
                            None => String::new(),
                        };
                        let merged = merge_input(&None, piece.as_str());
                        let ghost before = pending.inputs@;
                        pending.inputs.push((i, name, merged));
                        assert(pending.entries() =~= es.push((i, if e.5 is Some { e.5->0 } else { Seq::empty() }, merged_input(None, piece@))));
                    },
                }
            },
            _ => {},
        }
        return (out, false);
    }
    if opt_eq(&event.kind, "content_block_stop") {
        match event.index {
            Some(i) => match pending.find(i) {
                Some(j) => {
                    proof {
                        lemma_input_index(es, i);
                    }
                    let (k, name, args) = pending.inputs.remove(j);
                    assert(pending.entries() =~= es.remove(j as int));
                    if crate::text::chars_of(name.as_str()).len() > 0 {
                        let arguments = match args {
                            Some(v) => v,
                            None => empty_json_object(),
                        };
                        let call = ToolCall { id: crate::stream::anthropic_tool_id(i), name, arguments };
                        out.push(StreamEvent::ToolCall(call));
                        assert(event_views(out@) =~= seq![EventView::Call(anthropic_call_id(i), es[j as int].1, input_value(es[j as int].2))]);
                    }
                    return (out, false);
                },
                None => {
                    return (out, false);
                },
            },
            None => {
                return (out, false);
            },
        }
    }
    if opt_eq(&event.kind, "message_stop") {
        out.push(StreamEvent::Done(FinishReason::Stop));
        assert(event_views(out@) =~= seq![EventView::Done(FinishReason::Stop)]);
        return (out, true);
    }
    (out, false)
}

/// Takes in one `data:` payload of an Anthropic stream: `[DONE]` ends the
/// stream; otherwise the payload joins the held partial text and, once the
/// whole parses as a JSON document, is read as an event (see
/// `apply_anthropic_event`).
pub fn anthropic_payload_events(
    partial: &mut PartialJson,
    data: &str,
    pending: &mut PendingToolInputs,
) -> (r: (Vec<StreamEvent>, bool))
    ensures
        data@ == "[DONE]"@ ==> {
            &&& event_views(r.0@) == seq![EventView::Done(FinishReason::Stop)]
            &&& r.1
            &&& final(partial).buffer@ == old(partial).buffer@
            &&& final(pending).entries() == old(pending).entries()
        },
        data@ != "[DONE]"@ ==> match json_value_of(old(partial).buffer@ + data@) {
            Some(v) => {
                &&& (event_views(r.0@), r.1, final(pending).entries()) == anthropic_step(old(pending).entries(), anthropic_view_of(v))
                &&& final(partial).buffer@ == Seq::<char>::empty()
            },
            None => {
                &&& r.0@.len() == 0
                &&& !r.1
                &&& final(partial).buffer@ == old(partial).buffer@ + data@
                &&& final(pending).entries() == old(pending).entries()
            },
        },
{
    if crate::text::chars_eq(&crate::text::chars_of(data), &crate::text::chars_of("[DONE]")) {
        let mut out: Vec<StreamEvent> = Vec::new();
        out.push(StreamEvent::Done(FinishReason::Stop));
        assert(event_views(out@) =~= seq![EventView::Done(FinishReason::Stop)]);
        return (out, true);
    }
    match partial.feed(data) {
        Some(v) => {
            let event = anthropic_event_of(&v);
            apply_anthropic_event(&event, pending)
        },
        None => (Vec::new(), false),
    }
}

/// The end of an Anthropic stream: the end event, unless the stream
/// already ended.
pub fn anthropic_stream_closed(ended: bool) -> (r: Vec<StreamEvent>)
    ensures
        ended ==> r@.len() == 0,
        !ended ==> event_views(r@) == seq![EventView::Done(FinishReason::Stop)],
{
    let mut out: Vec<StreamEvent> = Vec::new();
    if !ended {
        out.push(StreamEvent::Done(FinishReason::Stop));
        assert(event_views(out@) =~= seq![EventView::Done(FinishReason::Stop)]);
    }
    out
}

} // verus!
