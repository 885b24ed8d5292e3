//! Benchmark harness for a two-part puzzle project: measurement-line parsing,
//! aggregation of timings, and patching of a results table into a document.
//!
//! Text is handled as sequences of characters ([`text`]), numbers in text as
//! exact decimals ([`decimal`]) of any size ([`digits`]), and times as exact
//! decimal numbers of nanoseconds ([`nanos`]); nothing in the library rounds
//! but where a total is shown in milliseconds.

pub mod day;
pub mod decimal;
pub mod digits;
pub mod nanos;
pub mod part;
pub mod template;
pub mod text;

pub use crate::day::{all_days, Day};
pub use crate::part::{Part, PartFromStrError};
