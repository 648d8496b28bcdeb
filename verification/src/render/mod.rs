//! Rendering rules that do not depend on the renderer.

pub mod edges;
pub mod nodes;
pub mod labels;
