//! Runner state on disk, described as plain values: paths, configuration,
//! run bookkeeping, the goal document, git status text, guards, context
//! files and prompt packs.

pub mod config;
pub mod git;
pub mod goal;
pub mod paths;
pub mod prompt;
pub mod run_state;
pub mod sections;
pub mod context;
pub mod init;
pub mod iteration_log;
pub mod executor;
pub mod guards;
pub mod tree_store;
