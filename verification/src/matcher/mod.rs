//! Matching of waveform signals to nodes by their canonical paths.
//!
//! A trace names the design by its instance and wraps it in a testbench. The matcher
//! finds that wrapping, rewrites each signal's name into the design's namespace and
//! looks it up; what it cannot match it counts under a named reason.

pub mod anchor;
pub mod match_laws;
pub mod normalize;
pub mod run;
