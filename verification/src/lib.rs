//! Analysis of Chrome performance traces.

pub mod analysis;
pub mod bytes;
pub mod chart;
pub mod compact;
pub mod csv;
pub mod details;
pub mod doc;
pub mod frac;
pub mod html;
pub mod inspect;
pub mod json;
pub mod laws;
pub mod matcher;
pub mod query;
pub mod render;
pub mod report;
pub mod scope;
pub mod sort;
pub mod table;
pub mod text;
pub mod trace;
pub mod values;
pub mod windowed;
