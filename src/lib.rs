//! Regroups a list of text lines: in each group of consecutive non-blank
//! lines, every line but the last is paired with the last one.

pub mod form;
pub mod grouper;
pub mod grouping;
pub mod laws;
pub mod text;
