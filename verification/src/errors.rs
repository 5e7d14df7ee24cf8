//! The error taxonomy of the orchestrator.

use vstd::prelude::*;

verus! {

/// Everything that can go wrong while orchestrating tool-provider servers.
///
/// `UnsupportedRuntime` carries the offending runtime name. `ToolNotFound`
/// carries the tool name that no routing entry mentions. `ServerNotFound`
/// carries the server name a routing entry points at together with the tool
/// name that was asked for, distinguishing "never registered" from
/// "registered then raced away". The remaining variants carry a message from
/// the external collaborator that produced them.
#[derive(Debug, PartialEq, Eq)]
pub enum McpError {
    UnsupportedRuntime(String),
    SpawnError(String),
    HandshakeError(String),
    DuplicateServerName(String),
    ToolNotFound(String),
    ServerNotFound(String, String),
    ProtocolError(String),
    ToolExecutionError(String),
}

} // verus!
