//! Protocol and storage data types.

use vstd::prelude::*;
use std::collections::HashMap;

verus! {

/// Minimal MCP server configuration carried by a tool endpoint.
#[derive(Debug, Clone, PartialEq)]
pub struct McpServerConfig {
    pub id: String,
    pub name: String,
    pub transport: String,
    pub command: String,
    pub args: Vec<String>,
    pub url: Option<String>,
    pub enabled: bool,
    pub env: HashMap<String, String>,
    pub headers: HashMap<String, String>,
}

/// Enough connection/dispatch information to re-invoke a tool from stored metadata.
#[derive(Debug, Clone, PartialEq)]
pub enum ToolEndpoint {
    Mcp { server: McpServerConfig, remote_name: String },
}

/// `transport` of a server configuration that does not name one.
pub fn default_transport() -> (r: String)
    ensures
        r@ == "stdio"@,
{
    crate::text::lit("stdio")
}

/// `enabled` of a server configuration that does not say.
pub fn default_true() -> (r: bool)
    ensures
        r,
{
    true
}

/// `type` of a new token that does not name one.
pub fn default_token_type() -> (r: String)
    ensures
        r@ == "concept"@,
{
    crate::text::lit("concept")
}

/// What `token_to_detail` knows of a stored token.
#[derive(Debug, Clone, PartialEq)]
pub struct TokenDetail {
    pub short_desc: String,
    pub full_desc: Option<String>,
    pub endpoint: Option<ToolEndpoint>,
    pub ranges: Vec<TokenRange>,
}

/// A slice of a chunk token: bookmark position plus offset and optional length.
#[derive(Debug, Clone, PartialEq)]
pub struct TokenRange {
    pub namespace: String,
    pub bookmark: String,
    pub offset: usize,
    pub length: Option<usize>,
}

/// A token the model defines in a close response.
#[derive(Debug, Clone, PartialEq)]
pub struct NewTokenSpec {
    pub id: String,
    pub token_type: String,
    pub short_desc: String,
    pub full_desc: Option<String>,
    pub endpoint: Option<ToolEndpoint>,
    pub ranges: Vec<TokenRange>,
}

impl NewTokenSpec {
    /// A token can be invoked when it carries an endpoint to dispatch to.
    pub fn is_invocable(&self) -> (r: bool)
        ensures
            r == self.endpoint is Some,
    {
        self.endpoint.is_some()
    }
}

/// A `subject | predicate | object` triplet.
#[derive(Debug, Clone, PartialEq)]
pub struct Relationship {
    pub subject: String,
    pub predicate: String,
    pub object: String,
}

/// A parsed Squire close response.
#[derive(Debug, Clone, Default, PartialEq)]
pub struct SquireResponse {
    pub ask_user: String,
    pub content: String,
    pub preserve: Vec<String>,
    pub new_tokens: Vec<NewTokenSpec>,
    pub relationships: Vec<Relationship>,
}

/// Why a close response was rejected.
#[derive(Debug, Clone, PartialEq)]
pub struct ComplianceFailure {
    pub reason: String,
}


/// What a tool call hands back to the model.
#[derive(Debug, Clone, PartialEq)]
pub struct ToolResult {
    pub call_id: String,
    pub output: String,
    pub is_error: bool,
}

/// Whether a tool may change anything outside the conversation.
#[derive(Debug, Clone, Copy, PartialEq, Eq, Structural)]
pub enum ToolDanger {
    Safe,
    Destructive,
}

} // verus!
