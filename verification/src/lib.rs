//! Compressed time-series tables for PostgreSQL: codecs, scans over compressed segments,
//! aggregation, and time partitions.

pub mod catalog;
pub mod compression;
pub mod decimal;
pub mod partition;
pub mod scan;
pub mod text;
