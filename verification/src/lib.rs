//! Groups delimited records by every field but one numeric column and sums
//! that column within each group.

pub mod accumulator;
pub mod config;
pub mod emit;
pub mod engine;
pub mod error;
pub mod extract;
pub mod number;
pub mod reader;
pub mod record;
