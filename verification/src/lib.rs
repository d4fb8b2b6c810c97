//! Merge-sweep over sorted genomic-style intervals.
//!
//! The library turns an ordered sequence of named half-open intervals into the
//! ordered sequence of their boundary events (interval-open / interval-close),
//! each annotated with the number of intervals overlapping at that boundary.

pub mod laws;
pub mod point;
pub mod region;
pub mod sweep;
