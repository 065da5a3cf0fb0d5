//! Supervision engine of a local process supervisor.
//!
//! The crate holds the decisions of the supervisor as verified functions:
//! loading and ordering the task manifest, the registry of live child
//! processes and its on-disk format, the latched readiness signal, the
//! life cycle of one task as a state machine, the supervisor that joins
//! the tasks by their readiness signals, and its exit policy. Spawning,
//! killing, reading and writing are left to the caller, which performs
//! the actions these functions hand out.

pub mod config;
pub mod order;
pub mod pidfile;
pub mod readiness;
pub mod runner;
pub mod supervisor;
pub mod text;
