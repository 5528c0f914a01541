//! The responses the server sends back over the wire.

use vstd::prelude::*;

verus! {

/// One response to a client command.
#[derive(Debug, Clone, PartialEq)]
pub enum CommandResponse {
    /// The command failed; holds the server's description.
    Error(String),
    /// A `get` hit; holds the value.
    Value(String),
    /// A `set` or `remove` succeeded.
    Success,
    /// The key was absent.
    KeyNotFound,
}

} // verus!
