//! Reduction accounting.

pub mod stats;
