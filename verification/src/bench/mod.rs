//! Benchmarks: synthetic designs, the scenarios run on them, and the metrics file.

pub mod collect;
pub mod elaborate;
pub mod handles;
pub mod measure_laws;
pub mod mem;
pub mod metrics;
pub mod options;
pub mod records;
pub mod report;
pub mod rng;
pub mod scenario;
pub mod synth;
pub mod time;
