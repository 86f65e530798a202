//! A scheduler that hands out execution and validation tasks for the
//! transactions of a block, following the dependency graph that the
//! transactions' access lists describe.
//!
//! The scheduler state is a plain value: a status per transaction, a
//! validation cursor, two task queues and the dependency graph built from
//! the access lists. Every operation is a method on `&mut self` whose
//! contract says exactly how the state changes; the laws that relate the
//! operations stand in `laws`.

pub mod types;
pub mod outside;
pub mod graph;
pub mod scheduler;
pub mod laws;
