//! The commands of the harness.

pub mod all;
pub mod scaffold;
