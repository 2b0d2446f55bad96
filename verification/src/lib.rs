//! Hot-path core of a low-latency logging runtime: a per-thread staging ring
//! and the registry that a background consumer drains round-robin.

pub mod runtime;
pub mod staging_buffer;
