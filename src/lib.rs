//! Interactive selection over the colored graph log of a version-control tool.
//!
//! The raw rows of the log are split into text and escape tokens, grouped into
//! commits and connector glyphs, and one commit at a time carries a highlight
//! that can be moved up and down the graph.

pub mod error;
pub mod graph;
pub mod parser;
pub mod smartlog;
pub mod text;
