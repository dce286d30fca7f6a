//! The stages through which a policy's result goes.
pub mod candidate_trace;
pub mod checkpoint;
pub mod confidence;
pub mod coordinate;
pub mod edit_utils;
pub mod impact;
pub mod policy_run;
pub mod run;
pub mod semantic_impact;
pub mod stage;
pub mod suppression;
