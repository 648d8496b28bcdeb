//! Graph model and the operations that edit it together with the spatial grid.

pub mod model;
pub mod systems;
pub mod overlaps;
pub mod filing;
