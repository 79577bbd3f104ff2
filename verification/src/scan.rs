//! Reading compressed segments: datums, decompression, row scans and aggregation.

pub mod agg;
pub mod datum;
pub mod decompress;
pub mod exec;
pub mod nulls;
pub mod path;
pub mod text_col;
