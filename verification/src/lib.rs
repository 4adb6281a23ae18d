//! Verified core of a diagnostic-test harness.
//!
//! A test run is a hierarchy of scopes (run, step, measurement series) whose
//! lifecycle is recorded in an ordered, append-only stream of records. This
//! crate holds the rules of that hierarchy and the state machines that drive
//! a run against a background workload; the work they ask for (reading a
//! probe, sleeping, spawning and joining the workload, storing an artifact)
//! is performed by the caller and reported back as events.

pub mod engine;
pub mod nesting;
pub mod probe;
pub mod protocol;
pub mod record;
pub mod sampling;
pub mod scope;
pub mod workload;
