//! Errors of the client, already classified.

use vstd::prelude::*;

verus! {

/// Errors that can occur when talking to a bofhd server or resolving a command line.
#[derive(Debug)]
pub enum BofhError {
    /// The transport failed, with its message.
    XmlRpcError(String),
    /// A session-scoped call was made before a session was established.
    NoSessionError,
    /// A Cerebrum/bofhd command failed, with the server's message.
    CerebrumError(String),
    /// The session has expired, and the client must authenticate again.
    SessionExpiredError,
    /// The server does not implement the operation, with its message.
    NotImplementedError(String),
    /// Any other fault, with the fault string.
    Fault(String),
    /// The server answered with a value of the wrong shape.
    InvalidResponse,
    /// The typed command names no known group or command, with the words given.
    UnknownCommand(String),
    /// Only a group was given, with the group's name and its subcommands.
    IncompleteCommand(String, Vec<String>),
}

} // verus!
