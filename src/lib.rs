//! Scheduling core of a build tool: content identities for jobs, a
//! deduplicated dependency graph built from a job tree, and a coordinator
//! that dispatches ready jobs to a runner and unblocks their dependents.

pub mod cli;
pub mod coordinator;
pub mod job;
pub mod runner;
