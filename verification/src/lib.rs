//! Information-retrieval evaluation metrics over ranked result lists.
//!
//! The crate computes rank-quality scores under binary and graded relevance
//! models, parses the TREC run and judgment formats that feed them, batches
//! the metrics across many queries, and compares two systems' per-query
//! scores with paired significance tests.
//!
//! All arithmetic is exact integer and fixed-point arithmetic: metric values
//! are reported as exact fractions ([`frac::Frac`]), and logarithmic
//! discounts are computed with a fixed-point binary logarithm, so the
//! stated contracts pin every result down to the last bit.

pub mod batch;
pub mod binary;
pub mod dataset;
pub mod fixed;
pub mod frac;
pub mod graded;
pub mod laws;
pub mod score;
pub mod statistics;
pub mod trec;
pub mod validation;

pub use frac::Frac;
pub use score::Score;
