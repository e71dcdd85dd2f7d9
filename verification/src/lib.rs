//! Core-to-core latency measurement: the schedule of a run over all pairs of
//! cores, the statistics of the samples, and the text and tables that report
//! them.

pub mod args;
pub mod arithmetic;
pub mod bench;
pub mod cores;
pub mod double;
pub mod sorting;
pub mod style;
pub mod text;
