//! The benchmark run: reading measurements and keeping the results table.

pub mod commands;
pub mod readme_benchmarks;
