//! A local code-review helper: it computes the file-level diff between a base
//! branch and the current commit of a repository, and tracks which files the
//! user has already reviewed, keyed by (repository, branch, commit), in a
//! durable JSON state file.
//!
//! This crate holds the verified core: assembling per-file change records
//! (status, line counts, patch text) from raw diff data, and the viewed-state
//! store together with the codec for its persisted format. Reading the
//! repository and writing the state file are left to the surrounding program.

pub mod diff;
pub mod json;
pub mod state;
pub mod text;
