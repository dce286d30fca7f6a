//! The decision logic of a C++ formatting engine.
//!
//! Policies propose edits to a source file; this library decides which of the
//! proposals survive, how they are merged into one text, when a semantic
//! contract has been broken, and what a retry may touch. Parsing, persistence
//! and the floating-point estimators live in the application around it.
#![allow(unused_imports)]

pub mod accuracy_gate;
pub mod catalog;
pub mod certainty_filter;
pub mod compdb;
pub mod confidence_context;
pub mod conflict_detector;
pub mod conflict_graph;
pub mod conflict_search;
pub mod conflict_solver;
pub mod context_tracker;
pub mod convergence;
pub mod coordinator;
pub mod edit_candidate;
pub mod edit_guard;
pub mod enforcement;
pub mod failure_kinds;
pub mod file_context;
pub mod fingerprints;
pub mod format_run;
pub mod fuzzy_inference;
pub mod gate_decision;
pub mod line_text;
pub mod lines;
pub mod model;
pub mod names;
pub mod pipeline;
pub mod policy_id;
pub mod post_check;
pub mod proposer;
pub mod ranges;
pub mod retry_optimizer;
pub mod run_options;
pub mod semantic_contract;
pub mod small_lists;
pub mod suppression;
pub mod syntax;
pub mod text;
pub mod zone;
