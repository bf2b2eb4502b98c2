//! The meta-server.
//!
//! One MCP server is registered with each configured agent. It exposes the
//! tools of every applicable plugin server, instead of each plugin being
//! registered separately.

pub mod catalog;
pub mod declarations;
pub mod dispatch;
pub mod glob;
pub mod named_types;
pub mod resolve;
pub mod sandbox;
pub mod schema_to_ts;
pub mod server;
