//! Timing, formatting and warning logic of a command-line benchmarking tool.

pub mod benchmark;
pub mod output;
pub mod timer;
pub mod util;
