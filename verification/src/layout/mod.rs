//! Bookkeeping of the force-directed layout: which nodes it tracks and which
//! nodes are new to it.

pub mod engine;
pub mod placement;

