//! Chunked spatial index of nodes and edges.

pub mod grid;
