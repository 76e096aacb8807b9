//! What holds of the analyses, said of the events of a trace and of the figures
//! that come out: what one more event changes, and what has to be found.

pub mod anchor;
pub mod answers;
pub mod calltree;
pub mod clusters;
pub mod compare;
pub mod compared;
pub mod counts;
pub mod cpu;
pub mod delta;
pub mod figures;
pub mod files;
pub mod gc;
pub mod jank;
pub mod lists;
pub mod pages;
pub mod parse;
pub mod reflow;
pub mod scroll;
pub mod sections;
pub mod stacks;
pub mod summary;
pub mod sums;
pub mod tasks;
pub mod threads;
pub mod words;
