//! The evaluation harness: cases, checks, outcomes and where results go.

pub mod case;
pub mod config;
pub mod judge;
pub mod outcome;
pub mod report;
pub mod results;
pub mod workspace;
