//! Inspection: lists, distributions and searches over the events of a scope.

pub mod chain;
pub mod events;
pub mod find;
pub mod group;
pub mod jank;
pub mod names;
pub mod stacks;
pub mod task;
pub mod threads;
pub mod timeline;
