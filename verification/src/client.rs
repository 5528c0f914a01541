//! The client's side of the wire protocol: the commands it sends and what
//! it does with each response.

use vstd::prelude::*;
use vstd::string::StringExecFns;
use crate::errors::KvsError;
use crate::response::CommandResponse;

verus! {

/// One request sent to the server.
#[derive(Debug, Clone, PartialEq)]
pub enum Command {
    /// Get the string value of a given string key.
    Get { key: String },
    /// Set the value of a string key to a string.
    SetCmd { key: String, value: String },
    /// Remove a given string key.
    Remove { key: String },
}

/// What the client does with one server response: the line it prints, if
/// any, and whether the request as a whole succeeded.
///
/// A `Value` prints the value; `KeyNotFound` prints `Key not found`; both
/// count as success, as does `Success`.  Only an `Error` response fails,
/// as a `RequestError` carrying the server's message.
pub fn interpret_response(resp: CommandResponse) -> (r: (Option<String>, Result<(), KvsError>))
    ensures
        resp matches CommandResponse::Value(v) ==> (r.0 matches Some(line) && line@ == v@)
            && r.1 is Ok,
        resp is Success ==> r.0 is None && r.1 is Ok,
        resp is KeyNotFound ==> (r.0 matches Some(line) && line@ == "Key not found"@)
            && r.1 is Ok,
        resp matches CommandResponse::Error(e) ==> r.0 is None && (r.1 matches Err(err)
            && err matches KvsError::RequestError(m) && m@ == e@),
{
    match resp {
        CommandResponse::Value(v) => (Some(v), Ok(())),
        CommandResponse::Success => (None, Ok(())),
        CommandResponse::KeyNotFound => (Some("Key not found".to_owned()), Ok(())),
        CommandResponse::Error(e) => {
            let msg = e.clone();
            (None, Err(KvsError::RequestError(msg)))
        },
    }
}

} // verus!
