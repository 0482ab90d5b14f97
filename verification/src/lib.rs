//! Spectral clustering of weighted undirected graphs: the exact,
//! integer-valued parts of the pipeline, verified.

pub mod distances;
pub mod matrix;
pub mod method;
pub mod partition;
pub mod silhouette;
