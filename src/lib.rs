//! Data preparation for job-salary records: deduplication, case folding,
//! categorical encodings, derived features and a seeded train/test split.
pub mod encoding;
pub mod error;
pub mod features;
pub mod order;
pub mod pipeline;
pub mod records;
pub mod split;
