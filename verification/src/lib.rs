//! Parser for indentation-structured benchmark summary logs.
//!
//! The text is cut into line tokens, grouped into titled tables and floating
//! notes, nested by indentation and folded into a tree of plain values.

pub mod log_detail;
pub mod log_summary;
pub mod summary;
pub mod text;
