//! Verified core of the container benchmark: scoring, reporting helpers,
//! domain models and the compute kernels that the benchmark workload runs.
pub mod text;
pub mod primes;
pub mod order;
pub mod sort;
pub mod utils;
pub mod meta;
pub mod ids;
pub mod models;
pub mod score;
mod paint;
pub mod report;
pub mod vm;
pub mod bench;
pub mod metrics;
pub mod worker;
