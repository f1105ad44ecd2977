//! Training core for a shallow oblivious regression tree over integer-valued
//! tabular data.
//!
//! At every depth the same (feature, threshold) split is applied to all bins
//! of the current level; the split is chosen by an exhaustive search that
//! maximises a variance-style score. Scores are exact rationals over the
//! integer targets, so every comparison — including the tie-break — is
//! exact, and the chosen splits are proved to be a function of the dataset
//! alone. Reading the dataset from text and reporting chosen splits are left
//! to the surrounding program.

pub mod data;
pub mod score;
pub mod search;
pub mod split;
pub mod thresholds;
pub mod train;
