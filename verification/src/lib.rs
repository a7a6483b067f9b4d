//! Diff-scoped coverage gating: coverage models, unified-diff parsing, metric
//! computation over changed lines, gate evaluation and report formatting.
pub mod text;
pub mod model;
pub mod error;
pub mod sorted;
pub mod diff;
pub mod metrics;
pub mod gate;
pub mod config;
pub mod runner;
pub mod git;
pub mod render;
pub mod coverage;
