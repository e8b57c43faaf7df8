//! Parsing of pipe-delimited sample lines and per-key averaging of their values.

pub mod entry;
pub mod groups;
pub mod laws;
pub mod render;
pub mod text;
