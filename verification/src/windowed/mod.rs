//! Windowed analyses: anchors, frames, garbage collection, call tree, deltas.

pub mod anchor;
pub mod calltree;
pub mod delta;
pub mod frames;
pub mod gc;
