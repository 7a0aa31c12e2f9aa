//! Pairwise Jaccard similarity between items rated by overlapping sets of
//! participants, ranking of the most similar pairs, and the weighted graph
//! built from them.

pub mod aggregate;
pub mod graph;
pub mod ingest;
pub mod jaccard;
pub mod label;
pub mod pairs;
pub mod participants;
pub mod pipeline;
pub mod rank;
pub mod score;
pub mod similarity;
