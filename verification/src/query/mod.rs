//! Queries: what is asked for, the windows around an anchor, the sections that
//! answer, and the interactive prompt.

pub mod keys;
pub mod options;
pub mod output;
pub mod pair;
pub mod repl;
pub mod rows;
pub mod sections;
pub mod windows;
