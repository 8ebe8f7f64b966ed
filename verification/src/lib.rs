//! Squire context-mode protocol: sigil parsing, response validation,
//! bookmark-protocol parsing, batch-expression parsing and text chunking.

pub mod text;

pub mod types;
pub mod protocol;
pub mod validation;
pub mod ranges;
pub mod bookmark;
pub mod batch;
pub mod chunking;
pub mod store;
pub mod chat;
pub mod turn;
pub mod decision;
pub mod anthropic;
pub mod openai;
pub mod registry;
pub mod trace;
pub mod resources;
pub mod prompts;
pub mod formatter;
pub mod tools;
pub mod mcp;
pub mod traverse;
pub mod discovery;
pub mod memory;
pub mod subagent;
pub mod stream;
pub mod events;
pub mod backend;
pub mod finalize;
pub mod dt_tool;
pub mod resolve;
pub mod ingestion;
