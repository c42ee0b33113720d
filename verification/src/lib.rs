//! A comparative benchmarking harness: datasets, calibration, statistics and
//! the rendering of comparison reports.

pub mod benchmark;
pub mod benchmarks;
pub mod config;
pub mod dataset;
pub mod decimal;
pub mod entries;
pub mod fold;
pub mod metrics;
pub mod print;
pub mod report;
pub mod row;
pub mod session;
pub mod sorting;
pub mod statistic;
pub mod text;
pub mod timer;
pub mod toml_value;
pub mod value;
pub mod vecs;
pub mod zstd;
