//! Diagnostic harness for a grammar-driven parser: a classifier that decides
//! whether a shared packed parse forest (SPPF) denotes exactly one derivation,
//! and the batch bookkeeping that aggregates per-file outcomes.

pub mod classify;
pub mod forest;
pub mod harness;
