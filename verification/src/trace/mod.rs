//! Reading a trace file: structure scan, tokenizer, events and metadata.

pub mod chunk;
pub mod event;
pub mod file;
pub mod load;
pub mod meta;
pub mod number;
pub mod reader;
pub mod same;
pub mod scan;
pub mod token;
