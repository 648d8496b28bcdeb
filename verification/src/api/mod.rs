//! The HTTP API's state and decisions: the UUID registry, colour text, the
//! command handling and the snapshot of the graph the API serves.

pub mod state;
pub mod commands;
pub mod snapshot;
