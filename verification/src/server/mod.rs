//! What the servers answer: MCP resources and results, and the shapes of the
//! HTTP requests and responses with the decisions made on them.

pub mod http;
pub mod mcp;
