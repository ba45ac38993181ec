//! Conversion of a hierarchical execution trace (a tree of timed spans) into
//! the flat representation expected by flame-graph viewers: a deduplicated
//! table of frame labels and a chronologically ordered sequence of paired
//! open/close events, with a monotonicity-repair policy ("slop") that keeps
//! the emitted timeline non-decreasing even when input timestamps are
//! inconsistent across parent and child spans.

pub mod emit;
pub mod frames;
pub mod laws;
pub mod span;
pub mod timeline;
