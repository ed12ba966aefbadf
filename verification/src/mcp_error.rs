//! Error taxonomy of the service manager.

use vstd::prelude::*;

verus! {

/// Why a service-manager request failed.
///
/// Every operation of the manager returns at most one of these to its caller;
/// none is swallowed, except that a failed discovery during aggregate tool
/// listing degrades to a placeholder entry instead of an error.
#[derive(Debug)]
pub enum McpError {
    /// The request referenced an id that is absent from the registry.
    NotFound(String),
    /// The external process could not be started.
    SpawnError(String),
    /// The process started but protocol initialization failed.
    HandshakeError(String),
    /// The caller-supplied request envelope is missing a required field.
    InvalidInput(String),
    /// A structured payload could not be converted to or from its wire form.
    SerializationError(String),
    /// The remote tool call itself failed.
    ExecutionError(String),
}

impl McpError {
    /// The detail string carried by the error.
    pub fn detail(&self) -> (r: &String)
        ensures
            match self {
                McpError::NotFound(s) => r == s,
                McpError::SpawnError(s) => r == s,
                McpError::HandshakeError(s) => r == s,
                McpError::InvalidInput(s) => r == s,
                McpError::SerializationError(s) => r == s,
                McpError::ExecutionError(s) => r == s,
            },
    {
        match self {
            McpError::NotFound(s) => s,
            McpError::SpawnError(s) => s,
            McpError::HandshakeError(s) => s,
            McpError::InvalidInput(s) => s,
            McpError::SerializationError(s) => s,
            McpError::ExecutionError(s) => s,
        }
    }
}

} // verus!
