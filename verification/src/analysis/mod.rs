//! Derived analyses of a trace.

pub mod common;
pub mod compare;
pub mod cpu;
pub mod jank;
pub mod layout;
pub mod reflow;
pub mod scroll;
pub mod style;
pub mod summary;
