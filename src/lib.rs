//! Iterative dereplication of genome collections into similarity clusters.
//!
//! The library holds the decisions of the process: how a merge tree is cut
//! into flat groups, how cluster assignments are relabelled and merged from
//! round to round, how batches are formed and grown, and when the rounds end.
//! The similarity estimator, the linkage builder and the pangenome builder
//! are run by the caller, which hands their results back as plain values.
pub mod assignment;
pub mod controller;
pub mod dendrogram;
pub mod foreign;
pub mod order;
pub mod schedule;

pub use assignment::{assign_seqs, dereplicate_iter, match_clustering_results, Cluster};
pub use controller::{sort_by_label, DereplicationError, Dereplicator, PanaaniParams, Stage};
pub use dendrogram::{cut_dendrogram, Dendrogram, Step};
pub use schedule::{guide_batching, GrowthStrategy};
