//! Core of an F* MCP server.
pub mod fstar;
pub mod json;
pub mod locations;
pub mod mcp;
pub mod order;
pub mod paths;
pub mod session;
pub mod text;
