//! Deterministic, pure logic shared by the runner.
//!
//! These modules operate on in-memory data and return deterministic outputs.

pub mod budget;
pub mod child_additions;
pub mod classifier;
pub mod immutability;
pub mod invariants;
pub mod path;
pub mod types;
pub mod selector;
pub mod state_update;
pub mod status_validator;
pub mod strseq;
