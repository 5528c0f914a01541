//! The error taxonomy shared by the engine, the client and the server.

use vstd::prelude::*;
use vstd::string::StringExecFns;

verus! {

/// Every failure this library reports.
///
/// Failures raised outside the verified engine (I/O, engine selection,
/// server replies, non-UTF-8 data from the alternative engine) carry
/// their description as plain text.
#[derive(Debug)]
pub enum KvsError {
    /// Removal of a key that is not in the store.
    KeyNotFound,
    /// A log record of the wrong kind was decoded where a `Set` was
    /// required: the log is corrupted or a caller broke the protocol.
    UnexpectedCommand,
    /// The record codec failed on malformed input.
    SerializationError,
    /// An underlying file-system or network failure.
    IOError(String),
    /// A string could not be parsed as the name of a storage engine.
    UnknownEngine,
    /// The engine chosen on the command line does not match the engine
    /// previously recorded in the configuration file; holds the recorded
    /// name.
    InvalidEngine(String),
    /// The client received an `Error` response from the server.
    RequestError(String),
    /// A failure reported by the alternative embedded database engine.
    SledError(String),
    /// Bytes retrieved from the alternative engine were not valid UTF-8.
    Utf8Error,
}

impl KvsError {
    /// The user-facing description of this error.
    pub fn message(&self) -> (m: String)
        ensures
            self is KeyNotFound ==> m@ == "Key not found"@,
            self is UnexpectedCommand ==> m@ == "Unexpected command"@,
            self is SerializationError ==> m@ == "Serialization error"@,
            self is UnknownEngine ==> m@ == "Unknown database engine"@,
            self is Utf8Error ==> m@ == "Invalid UTF-8 data"@,
            self matches KvsError::IOError(e) ==> m@ == e@,
            self matches KvsError::SledError(e) ==> m@ == e@,
            self matches KvsError::InvalidEngine(e) ==> m@
                == "Invalid chosen engine. Your previously set engine in the config file was "@
                + e@,
            self matches KvsError::RequestError(e) ==> m@ == "Error from server: "@ + e@,
    {
        match self {
            KvsError::KeyNotFound => "Key not found".to_owned(),
            KvsError::UnexpectedCommand => "Unexpected command".to_owned(),
            KvsError::SerializationError => "Serialization error".to_owned(),
            KvsError::IOError(e) => e.clone(),
            KvsError::UnknownEngine => "Unknown database engine".to_owned(),
            KvsError::InvalidEngine(e) => {
                let mut m =
                    "Invalid chosen engine. Your previously set engine in the config file was ".to_owned();
                m.append(e.as_str());
                m
            },
            KvsError::RequestError(e) => {
                let mut m = "Error from server: ".to_owned();
                m.append(e.as_str());
                m
            },
            KvsError::SledError(e) => e.clone(),
            KvsError::Utf8Error => "Invalid UTF-8 data".to_owned(),
        }
    }
}

} // verus!
