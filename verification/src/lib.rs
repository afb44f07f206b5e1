//! The decisions of an agent's edges: reading MCP responses, compacting a conversation by summary,
//! keeping file tools inside their roots, and telling which provider errors to retry.
//!
//! Nothing here reads, writes or waits. What does hands in bytes, messages and answers, and
//! carries out what comes back.
pub mod compaction;
pub mod compaction_llm;
pub mod context;
pub mod json;
pub mod llm_compaction;
pub mod mcp;
pub mod retry;
pub mod status;
pub mod text;
pub mod tools;
pub mod transcript;
pub mod types;
pub mod utf8;
