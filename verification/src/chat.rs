//! Chat-level data shared with the model providers, and the legacy context
//! adapter that replays a session's history unchanged.

use vstd::prelude::*;
use crate::text::lit;

verus! {

/// A JSON value, as exchanged with the model (tool arguments and schemas).
#[verifier::external_type_specification]
#[verifier::external_body]
pub struct ExJsonValue(serde_json::Value);

/// `Clone` of `serde_json::Value` (derived: a structural copy) gives an
/// equal value.
pub assume_specification[ <serde_json::Value as Clone>::clone ](v: &serde_json::Value) -> (r:
    serde_json::Value)
    ensures
        r == *v,
;

/// Who speaks in a chat message.
#[derive(Debug, Clone, Copy, PartialEq, Eq, Structural)]
pub enum ChatRole {
    System,
    User,
    Assistant,
    Tool,
}

/// Role of a message stored in a conversation.
#[derive(Debug, Clone, Copy, PartialEq, Eq, Structural)]
pub enum MessageRole {
    User,
    Assistant,
    System,
}

/// Why the model stopped generating.
#[derive(Debug, Clone, Copy, PartialEq, Eq, Structural)]
pub enum FinishReason {
    Stop,
    Length,
    ToolCalls,
    Error,
}

/// A failed model call.
#[derive(Debug, Clone, PartialEq)]
pub enum LlmError {
    Api(String),
    RateLimited,
    Auth,
    ContextLength,
    Request(String),
}

pub open spec fn llm_error_text(e: LlmError) -> Seq<char> {
    match e {
        LlmError::Api(m) => "API error: "@ + m@,
        LlmError::RateLimited => "Rate limited"@,
        LlmError::Auth => "Authentication failed"@,
        LlmError::ContextLength => "Context length exceeded"@,
        LlmError::Request(m) => "Request failed: "@ + m@,
    }
}

fn prefixed(prefix: &str, m: &String) -> (r: String)
    ensures
        r@ == prefix@ + m@,
{
    let mut v = crate::text::chars_of(prefix);
    let tail = crate::text::chars_of(m.as_str());
    crate::text::push_all(&mut v, &tail);
    crate::text::string_of(v.as_slice())
}

impl LlmError {
    /// The error's message.
    pub fn message(&self) -> (r: String)
        ensures
            r@ == llm_error_text(*self),
    {
        match self {
            LlmError::Api(m) => prefixed("API error: ", m),
            LlmError::RateLimited => lit("Rate limited"),
            LlmError::Auth => lit("Authentication failed"),
            LlmError::ContextLength => lit("Context length exceeded"),
            LlmError::Request(m) => prefixed("Request failed: ", m),
        }
    }
}

/// A tool call requested by the model.
#[derive(Debug, Clone)]
pub struct ToolCall {
    pub id: String,
    pub name: String,
    pub arguments: serde_json::Value,
}

/// One event of a streamed model response.
#[derive(Debug, Clone)]
pub enum StreamEvent {
    Chunk(String),
    Thinking(String),
    ToolCall(ToolCall),
    Log(String),
    Done(FinishReason),
    Error(String),
}

/// A tool offered to the model.
#[derive(Debug, Clone)]
pub struct ToolDefinition {
    pub name: String,
    pub description: String,
    pub input_schema: serde_json::Value,
}

/// One message of a chat request.
#[derive(Debug, Clone)]
pub struct ChatMessage {
    pub role: ChatRole,
    pub content: String,
    pub tool_call_id: Option<String>,
    pub tool_calls: Option<Vec<ToolCall>>,
    pub reasoning_content: Option<String>,
}

/// A message of a stored conversation.
#[derive(Debug, Clone, PartialEq)]
pub struct StoredMessage {
    pub role: MessageRole,
    pub content: String,
    pub thinking_content: Option<String>,
}

/// Messages and tools for one model call.
pub struct TurnInput {
    pub messages: Vec<ChatMessage>,
    pub tools: Vec<ToolDefinition>,
}

/// The chat role a stored message is replayed with.
pub open spec fn chat_role_of(role: MessageRole) -> ChatRole {
    match role {
        MessageRole::User => ChatRole::User,
        MessageRole::Assistant => ChatRole::Assistant,
        MessageRole::System => ChatRole::System,
    }
}

pub fn to_chat_role(role: &MessageRole) -> (r: ChatRole)
    ensures
        r == chat_role_of(*role),
{
    match role {
        MessageRole::User => ChatRole::User,
        MessageRole::Assistant => ChatRole::Assistant,
        MessageRole::System => ChatRole::System,
    }
}

pub open spec fn opt_str(o: Option<String>) -> Option<Seq<char>> {
    match o {
        Some(s) => Some(s@),
        None => None,
    }
}

fn copy_opt(o: &Option<String>) -> (r: Option<String>)
    ensures
        opt_str(r) == opt_str(*o),
{
    match o {
        Some(s) => Some(lit(s.as_str())),
        None => None,
    }
}

/// A stored message replayed as a chat message: same role, content and
/// thinking, no tool data.
pub open spec fn replays(c: ChatMessage, m: StoredMessage) -> bool {
    &&& c.role == chat_role_of(m.role)
    &&& c.content@ == m.content@
    &&& c.tool_call_id is None
    &&& c.tool_calls is None
    &&& opt_str(c.reasoning_content) == opt_str(m.thinking_content)
}

/// The tool definitions are the same, field for field.
pub open spec fn same_tool(a: ToolDefinition, b: ToolDefinition) -> bool {
    a.name@ == b.name@ && a.description@ == b.description@ && a.input_schema == b.input_schema
}

/// Context adapter that sends the whole history, unfiltered, with the base
/// tools.
pub struct LegacyContextAdapter;

impl LegacyContextAdapter {
    /// The full history as chat messages, in order, and the base tools.
    pub fn build_turn_input(&self, history: &Vec<StoredMessage>, base_tools: &Vec<ToolDefinition>) -> (r:
        TurnInput)
        ensures
            r.messages@.len() == history@.len(),
            forall|i: int| 0 <= i < history@.len() ==> replays(#[trigger] r.messages@[i], history@[i]),
            r.tools@.len() == base_tools@.len(),
            forall|i: int| 0 <= i < base_tools@.len() ==> same_tool(#[trigger] r.tools@[i], base_tools@[i]),
    {
        let mut messages: Vec<ChatMessage> = Vec::new();
        let mut i: usize = 0;
        while i < history.len()
            invariant
                i <= history.len(),
                messages@.len() == i,
                forall|k: int| 0 <= k < i ==> replays(#[trigger] messages@[k], history@[k]),
            decreases history.len() - i,
        {
            let m = &history[i];
            messages.push(
                ChatMessage {
                    role: to_chat_role(&m.role),
                    content: lit(m.content.as_str()),
                    tool_call_id: None,
                    tool_calls: None,
                    reasoning_content: copy_opt(&m.thinking_content),
                },
            );
            i = i + 1;
        }
        let mut tools: Vec<ToolDefinition> = Vec::new();
        let mut j: usize = 0;
        while j < base_tools.len()
            invariant
                j <= base_tools.len(),
                tools@.len() == j,
                forall|k: int| 0 <= k < j ==> same_tool(#[trigger] tools@[k], base_tools@[k]),
            decreases base_tools.len() - j,
        {
            let t = &base_tools[j];
            tools.push(
                ToolDefinition {
                    name: lit(t.name.as_str()),
                    description: lit(t.description.as_str()),
                    input_schema: t.input_schema.clone(),
                },
            );
            j = j + 1;
        }
        TurnInput { messages, tools }
    }

    /// Appends a tool result to the conversation as a `Tool` message that
    /// answers the call `tool_call_id`.
    pub fn handle_tool_loop_step(&self, tool_call_id: &str, output: &str, messages: &mut Vec<ChatMessage>)
        ensures
            final(messages)@.len() == old(messages)@.len() + 1,
            forall|i: int| 0 <= i < old(messages)@.len() ==> final(messages)@[i] == old(messages)@[i],
            final(messages)@.last().role == ChatRole::Tool,
            final(messages)@.last().content@ == output@,
            opt_str(final(messages)@.last().tool_call_id) == Some(tool_call_id@),
            final(messages)@.last().tool_calls is None,
            final(messages)@.last().reasoning_content is None,
    {
        messages.push(
            ChatMessage {
                role: ChatRole::Tool,
                content: lit(output),
                tool_call_id: Some(lit(tool_call_id)),
                tool_calls: None,
                reasoning_content: None,
            },
        );
    }

    /// Whether the assistant's reply is stored: an empty reply is not.
    pub fn finalize_turn(&self, assistant_content: &str) -> (persist: bool)
        ensures
            persist == (assistant_content@.len() > 0),
    {
        crate::text::chars_of(assistant_content).len() > 0
    }
}

} // verus!
