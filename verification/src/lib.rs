//! Analysis of a directed social graph: an adjacency store with
//! breadth-first distance queries, and a similarity engine that computes
//! Jaccard coefficients over outgoing-neighbor sets for node pairs at
//! directed distance exactly two, then reduces the scores into summary
//! statistics and threshold counts.
//!
//! Scores are kept as exact rationals (intersection count over union
//! count); conversion to decimal notation is left to presentation code.

pub mod network_graph;
pub mod similarity_analysis;
