//! Dataset handling: loaders for the common retrieval benchmarks and
//! summary statistics over parsed runs and judgments.

pub mod loaders;
