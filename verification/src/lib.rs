//! Symposium gives a coding agent what the crates of a workspace bring along:
//! skills, compiled into plugin directories the agent reads, and MCP servers,
//! offered through one meta-server.
//!
//! This crate decides; it touches nothing. What applies to a workspace, what
//! is written where, what a tool call leads to and how its answer reads are
//! computed here from plain values. Processes, files and protocols are the
//! host's.

pub mod agent_plugin;
pub mod json;
pub mod json_text;
pub mod mcp;
pub mod paths;
pub mod plugins;
pub mod predicate;
pub mod predicate_cache;
pub mod skills;
pub mod text;
