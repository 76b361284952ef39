//! Client core for a bofhd command server: the command schema, its builder,
//! the completion and hint engines, and the session protocol decisions.

pub mod text;
pub mod keyed;
pub mod schema;
pub mod catalogue;
pub mod engine;
pub mod error;
pub mod client;

pub use catalogue::{build_schema, parse_argument};
pub use client::{classify_fault, handle_reply, Bofh, RemoteCall, Reply, Step};
pub use engine::{BofhHelper, Candidate, Invocation, Marked, Match};
pub use error::BofhError;
pub use schema::{Argument, Command, CommandGroup, RawValue, Schema};
