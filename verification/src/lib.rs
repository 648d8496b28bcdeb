//! Verified core of a large-scale graph visualizer: the graph model and its
//! edit operations, the chunked spatial grid, the UUID registry, the API
//! command decisions, colour and label-size rules, persistence restore steps
//! and the helpers of the MCP tool server.

pub mod seqs;
pub mod spatial;
pub mod graph;
pub mod render;
pub mod api;
pub mod uuid_text;
pub mod persist;
pub mod demo;
pub mod mcp;
pub mod layout;
pub mod ui;
