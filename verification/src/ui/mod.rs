//! Decisions of the user interface that do not depend on the renderer.

pub mod inspector;
pub mod fix_overlaps;
