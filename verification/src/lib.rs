//! Session-scoped orchestration of externally spawned tool-provider
//! subprocesses.
//!
//! The library owns the pure, verified part of the orchestrator:
//! - a command resolver for the fixed set of supported runtimes,
//! - a session registry mapping session ids to named server handles and a
//!   tool-name routing table,
//! - a process-tree walker that computes the transitive descendant set of a
//!   root process from one snapshot of the process table.
//!
//! Spawning, protocol traffic and signalling live at the edges: the registry
//! is generic over the handle type and returns the handles that the caller
//! must kill or query, and the process-table snapshot is taken through a
//! small trusted boundary over the `sysinfo` crate.

pub mod errors;
pub mod http;
pub mod laws;
pub mod mcp;
pub mod models;
pub mod process;
pub mod registry;
pub mod session;
