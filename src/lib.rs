//! Row-length analysis of line-oriented text: ingestion with stable row
//! identity, chunked processing with order-restoring aggregation, quantile
//! statistics, frequency tables and IQR outlier detection.

pub mod rows;
pub mod streaming;
pub mod parallel;
pub mod statistics;
pub mod distribution;
pub mod outliers;
pub mod analysis;
pub mod cli;
pub mod ordering;
