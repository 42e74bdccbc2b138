//! Planning and bookkeeping for a concurrent TCP port sweep.
//!
//! The crate holds everything about a sweep that can be decided without
//! touching the network: how the port range is dealt out to the workers,
//! what a worker does with the answers of its probes, how the findings of
//! all workers become one ascending report, and how the command line is
//! read. Every function carries a contract that Verus proves.

pub mod address;
pub mod arguments;
pub mod coordinator;
pub mod partition;
pub mod report;
pub mod text;
pub mod worker;
