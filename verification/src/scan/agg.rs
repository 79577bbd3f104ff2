//! Aggregation over compressed segments.

pub mod accumulator;
pub mod aggregate;
pub mod assemble;
pub mod finalize;
pub mod group;
pub mod laws;
pub mod layout;
pub mod measure;
pub mod metadata;
pub mod plan;
pub mod prepare;
pub mod ready;
pub mod regex;
pub mod result;
pub mod segment;
pub mod state;
pub mod time;
